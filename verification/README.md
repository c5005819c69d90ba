# memsolve

Memsolve generates ROM memory layouts for microcontrollers and other embedded devices. The
sections of a layout state their requirements (a number of pages, a minimal byte size, a fixed
address, an alignment, growing as large as possible) and the layout is resolved into addresses
with an integer linear solver. The result can be written as a linker script `MEMORY` block or
as an ESP32 partition table.

The library under `src/` is verified with Verus:

- `chip`, `section`, `layout`, `bin`: the chip, the section requirements, layouts and the free
  regions between fixed sections.
- `problem`: integer linear problems with coefficients a double represents exactly, and the
  solver's reports.
- `solver`: the problem that shares the free pages among the maximized sections, and how its
  solution is read back.
- `placement`: the candidate addresses of each section, the constraints that keep sections
  apart, and how a solution is read back.
- `resolve`: the resolution as a state machine: each step returns the next problem to solve or
  the finished layout.
- `finished`: what holds of a finished layout when the solver's answers meet the constraints
  of its problems: every section is in it once, and no two sections overlap provided each
  placed section ends within the free region it starts in. A boot section that is also
  maximized is placed at the chip start without regard to the fixed sections, and can overlap
  them.
- `linker`, `esp`: output through `ld_memory` and `esp_idf_part`.

`app/` reads descriptions with serde, gives the errors their messages, and runs the linear
problems through `microlp`, which computes in floating point.
