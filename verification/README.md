# sshboard

An SSH board shared by a person and an agent: one record (the band) of what
either side ran, one place every operation goes through, a connection list
that never hands the agent a host or a user, and connections handed to
another machine as one file sealed with a passphrase.

The library in `src/` is written in Verus. Its functions state in
`requires`/`ensures` what they do, and Verus proves it; where an answer
comes from the OS, the network or an outside crate, the contract states
what is handed over and what holds of every answer:

- `text` — characters, trimming, decimal numbers, the order of texts
- `band` — band lines, their tags, acknowledgements counted per subscriber
- `connections` — the connection list, its rules, what the agent sees
- `elevation` — how a `sudo` command gains privilege
- `probes` — the read-only commands the purpose-built tools run
- `agent` — the ssh-agent protocol and key fingerprints
- `secrets` — the OS credential store
- `diag` — the bounded record of what happened
- `bundle` — sealing, opening, and moving connections and their secrets
- `engine` — open connections, the console hold, authentication, downloads
- `pending` — band lines waiting for the screen
- `screen`, `desktop`, `proxy` — what the desktop and the stdio relay decide

Calls into `age`, `zeroize`, `sha2`, `base64`, `keyring` and `serde_json`
stand behind small trusted wrappers whose contracts say what those crates
document.

`tests/` runs the library; `app/` is the program around it: files, the
network, the run-time band, and the serde forms of the library's types.
