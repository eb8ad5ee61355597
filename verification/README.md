# pathshim

`pathshim` gives a command best-effort bind path mappings without mount
privileges. This crate holds the rules behind it as a Verus library: the
functions of `src/` state what they return, and Verus proves it. Where a value
rests on the machine (a system call number, a flag, the byte order), a contract
says what holds on every machine, and the functions that take such a value state
what they return for each.

## Layout

- `src/path.rs`, `src/bytes.rs`, `src/number.rs`, `src/text.rs`: paths as byte
  strings, numbers and texts.
- `src/mapping.rs`: bind mappings as values, and what holds of every list of
  them; `src/bind.rs`: the view that a command gets.
- `src/whiteout.rs`, `src/root.rs`, `src/directory.rs`: a copy-on-write view of
  the whole file system and its log.
- `src/cli.rs`, `src/invocation.rs`: arguments, working directory, diagnostics
  and the end of an invocation.
- `src/linux/`: the Linux backend. `calls` reads an intercepted system call,
  `plan` says what has to be found out about it and chooses the first action,
  `dispatch` and `execute` hold the rule of each call, and `progress` says how a
  call goes on after each action. `seccomp` builds the filter, `remote` and
  `process` read arguments and processes, `state` and `listing` hold what is
  remembered. `setup`, `startup`, `protocol` and `status` cover the handshake, an
  attempt from its first step to its end, what holds of both its sides together,
  and how its end is passed on.
- `app/`: the program. It performs what the library decides and hands back what
  came of it.
- `tests/`: tests of the library on plain values.

Public proof functions named `law_..` state what holds across functions.

## What is taken on trust

Numbers of the kernel interface, wait statuses and signal numbers come from
`libc`; the test for UTF-8, the rendering of text that is not UTF-8 and the byte
order of the machine come from `std`. Each such function says in its comment what
is believed of it.
