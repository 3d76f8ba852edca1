# peakrdl_rust

Register and memory access for control/status registers described in
SystemRDL, verified with Verus.

A transport (`io::RawRegisterIO`) sees the register space as a run of bytes.
A register (`reg::Register`) is a block of those bytes, laid out by its
register width, access width, byte order and word order (`layout`,
`endian`). Every read, write and read-modify-write through `reg::Reg` is
proved to decode and encode that layout exactly; a read gives back what a
write wrote, and a write touches only the register's own bytes.

- `src/`: the verified library.
  - `reg`, `io`, `endian`, `layout`: registers and transports.
  - `mem`, `masked_mem`: memories of equally sized entries.
  - `generator`: the build-script configuration of the code generator and
    its command line.
- `app/`: what touches the machine: volatile pointer accesses, `Iterator`
  adapters, and running the generator from a build script.
- `tests/`: tests of the library, run against the compiled crate.

Plain Rust implementations of the library's traits cannot define the ghost
functions that the contracts speak of; the verified types `RawRegister`,
`MockIO`, `MemoryBlock` and `MaskedMemoryBlock` can be used where the
contracts should apply.
