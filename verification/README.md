# nvpool

Persistent object pools on an NVDIMM.

An NVDIMM is divided into pools of one MiB. A directory finds a pool by its name, two bitmaps say
which pools are in use. A pool keeps objects under identifiers of up to 32 bytes. Objects are
stored, modified and given up in transactions: a log in a pool of its own holds what it takes to
undo an operation, so that a transaction that fails, or is cut short by a crash, is taken back.

## Layout

- `src/` is the library. It decides what happens to pools that it holds as values, and every
  function of it is verified.
  - `layout`, `allocator`: how an NVDIMM is divided, and how pools are found.
  - `table`, `image`, `pool`, `heap`: what a pool is.
  - `oplog`, `journal`: the log.
  - `transaction`, `session`, `syscalls`: transactions on one pool, on the pools of an allocator,
    and as system calls.
  - `undo`, `blocks`, `laws`, `history`: what holds of transactions as a whole, and of many in
    turn.
  - `directory`: what holds of pools while others come and go, and when an NVDIMM is opened again.
  - `nvram`, `named`, `list`, `nvmi`: other things that are kept in NVRAM.
  - `boot`, `banner`, `memory`, `prompt`, `wait_queue`, `search`: the surroundings.
- `tests/` runs the library.
- `app/` is the program: it maps the NVDIMM, reads and flushes it, gives memory back to heaps, and
  talks to firmware and terminal.

## What is trusted

The heap of a pool is that of `linked_list_allocator`; `heap` says what is believed of it.
Addresses are aligned by `x86_64` in `boot`, dates are read and shown by `chrono` in `banner`.
