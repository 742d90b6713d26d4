# motosan-sandbox

Runs a command under a filesystem and network policy: Seatbelt on macOS; Landlock, seccomp and
bwrap on Linux. Networking is blocked, open, or led through a local proxy with an allowlist.

## Layout

- `src/` is the library, written in Verus. It holds every decision on plain values: what a policy
  means, how a command is rewritten for the backend, what the helper does step by step, which
  hosts the proxy connects to, what is kept of the output. Each function is proved against its
  contract; the properties of the whole are the public proof functions at the end of each module.
- `app/` is ordinary Rust around it: processes, sockets, system calls, and the JSON in which the
  helper gets its policy.
- `tests/` runs the library on concrete values.

The outside functions that the library calls stand behind wrappers whose contracts are not
proved; each says in its comment what it claims. They are in `os` and `text` (strings of std),
`denial` (`str::to_lowercase`), `error` (`std::io::Error`), `bwrap` (`globset`) and `seccomp`
(`seccompiler`). Because of `seccompiler` the library builds on Linux only.

## Notes for callers

- The command gets exactly the environment in `SandboxCommand::env`. Pass a curated one.
- `read_only_subpaths` denies writing; hide secrets from reading with `deny_read`. Neither can be
  had on Linux without a proxied network, and such a policy is refused there.
- Globs have the syntax of `globset`: `**`, `*`, `?`, `[…]`, `{a,b}`, and `\` as an escape. On macOS
  they become regular expressions (module `glob`); a malformed glob is refused on both platforms.
  A relative glob is read below the working directory, whose own characters stand for themselves.
- Canonicalize paths before they go into a policy: the backends check resolved paths.
- A program that uses the sandbox on Linux calls `run_if_invoked` at the top of `main`.
