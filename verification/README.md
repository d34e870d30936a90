# benzened

A daemon that hands out privileged shells over binder to the callers that hold
a grant, the `su` client that relays a terminal to such a shell, and a tracer
that places hardware and user probes on a process or on the whole system and
reports who hit them.

`src/` is the library. Every item of it is verified by Verus: what a request is
answered, which calls a forked child makes before it becomes a shell, how the
relay and the trace go on from one event to the next, how records come out of a
kernel ring, how ELF files and memory maps are read, and how hits are counted,
ranked and written down. The laws that relate several functions are the public
`lemma_*` functions beside them.

`app/` is the program around it: argument parsing, binder, system calls, files
and terminals. It performs what the library decides and hands back what came of
it.

`tests/` run the library on concrete values.

What is believed without proof are the calls into the `elf` and `libc` crates
and into `std`; each stands behind a small function whose comment says what is
claimed of it.
