# exokernel

An exokernel for AArch64 whose logic is verified with Verus. The kernel at EL1 hands out memory,
device windows and interrupts, schedules threads and passes messages; everything else is left to
one task at EL0. The same library lays out the forward pass of a fixed ACT network for robot
control.

## Layout

- `src/` is the library. Its functions are verified against their contracts. The exceptions are a
  few wrappers in `resource/tree`, which call the `fdt` crate or the standard library and whose
  contracts are taken on trust.
  - `machine`, `hw`: the kernel as one value, and the hardware operations it asks for.
  - `memory`: physical pages, translation tables, frames, address spaces.
  - `object`: threads, messages and notifications, the task and its grants.
  - `scheduler`, `interrupt`, `arch`, `syscall`: what an exception does.
  - `boot`, `boot_info`, `resource`, `uart`: from firmware's description of the board to a running
    task.
  - `bringup`: a small monitor for bringing a new board up.
  - `act`: model files and the plan of a forward pass.
  - `laws`: what holds across these parts.
- `app/` is the program around it: the UEFI entry, exception vectors, the code that carries out
  hardware operations, and the floating-point arithmetic of the plan.
- `tests/` runs the library on concrete values.

The kernel never touches hardware itself. Each entry is one step on a `Machine`; it appends to a
list of operations that the caller carries out in order. Locks are the caller's as well.
