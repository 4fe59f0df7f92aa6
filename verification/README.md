# thread_db

The `proc_service` side of libthread_db: the services that libthread_db
calls back into its host to read and write an inferior's memory and
registers, look up symbols and fetch thread-area bases, with their
behaviour proved in Verus.

- `src/` is the verified library. `error` holds the status codes;
  `words` the word/byte conversions; `symbols` the symbol tables and their
  lookup; `ptrace` the outside types and constants that ptrace uses; `handle`
  the process handle, whose request methods make the ptrace calls through
  `nix` and record each with its arguments and outcome; `memory`
  the word-by-word reads and writes; `regs` the register and thread-area
  services; `process` the pid and global symbol lookup; `model` the laws
  that tie recorded requests to the inferior's memory and registers.
- `app/` exports the `ps_*` functions with the C ABI that libthread_db
  resolves by name, converting raw pointers to the library's types. The
  floating-point register requests (`PTRACE_GETFPREGS`/`SETFPREGS`) take
  libthread_db's buffer as a raw pointer, so `app/` makes them and the
  library decides the status.
- `tests/` exercises the library.

The services target x86_64 Linux.
