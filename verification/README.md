# fleet

Power controls for existing Lima and Azure dev machines, grouped by workspace,
as a Verus-verified library with a thin command-line front end.

- `src/` is the verified library:
  - `command.rs`: command lines, POSIX shell quoting, and the proof that a shell
    reading a quoted command line gets the original words back.
  - `path.rs`: Unix paths as text, compared by components; `~` expansion and the
    default config location.
  - `config.rs`: the workspace model, the rules a configuration must meet (with
    the proof of exactly which configurations are accepted), and workspace
    selection by name or by directory.
  - `backend.rs`: the `limactl`, `az` and `ssh` commands behind each operation,
    and the power state that the providers' decoded replies give.
  - `import.rs`: registering Lima instances as workspaces, with proofs that new
    names are free and distinct and that a second import adds nothing.
  - `cli.rs`: subcommands, exit codes when nothing is registered, and the lines
    that `ls`, `check`, `up` and `import` print.
- `app/` runs the processes, reads and writes files, decodes TOML, the
  providers' JSON and the command line, and formats rates.
- `tests/` exercise the library, including comparisons with `std::path`.
