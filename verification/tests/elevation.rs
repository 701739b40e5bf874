//! How a connection raises privilege for a `sudo` command. No server is used.

use sshboard::elevation::{elevated, Elevation};

#[test]
fn nothing_changes_until_a_person_chooses_a_way() {
    let asis = elevated("sudo systemctl reload httpd", Elevation::Plain);

    assert_eq!(asis.command, "sudo systemctl reload httpd");
    assert!(!asis.needs_secret, "asks for a secret by default");
}

#[test]
fn the_sudoers_way_never_waits_for_input() {
    let ran = elevated("sudo systemctl reload httpd", Elevation::Sudoers);

    assert_eq!(ran.command, "sudo -n systemctl reload httpd");
    assert!(!ran.needs_secret, "sudoers asks for a secret");
}

#[test]
fn the_ask_way_reads_the_secret_from_standard_input() {
    let ran = elevated("sudo tail -n 200 /var/log/some.log", Elevation::Ask);

    assert_eq!(ran.command, "sudo -S -p '' tail -n 200 /var/log/some.log");
    assert!(ran.needs_secret, "ask does not ask for a secret");
}

#[test]
fn the_secret_never_appears_on_the_command_line() {
    let ran = elevated("sudo systemctl restart httpd", Elevation::Ask);

    assert!(
        !ran.command.contains("--stdin") && !ran.command.contains('\n'),
        "the command is broken: {}",
        ran.command
    );
    assert!(ran.command.ends_with("systemctl restart httpd"));
}

#[test]
fn something_that_is_not_sudo_is_left_alone() {
    for way in [Elevation::Plain, Elevation::Sudoers, Elevation::Ask] {
        let ran = elevated("systemctl reload httpd", way);

        assert_eq!(ran.command, "systemctl reload httpd", "{way:?} rewrote it");
        assert!(!ran.needs_secret, "{way:?} asks for a secret");
    }
}

#[test]
fn a_sudo_in_the_middle_is_not_touched() {
    let ran = elevated("sh -c 'sudo systemctl reload httpd'", Elevation::Ask);

    assert_eq!(ran.command, "sh -c 'sudo systemctl reload httpd'");
    assert!(!ran.needs_secret, "a sudo in the middle asks for a secret");
}

#[test]
fn the_default_way_is_not_to_raise() {
    assert_eq!(Elevation::default(), Elevation::Plain);
}

#[test]
fn sudo_without_a_space_after_it_is_not_a_sudo_command() {
    let ran = elevated("sudoedit /etc/hosts", Elevation::Sudoers);
    assert_eq!(ran.command, "sudoedit /etc/hosts");
    assert!(!ran.needs_secret);
}
