# crap_os

The core of a small operating system kernel for x86-64, written in Rust and
verified with Verus.

- `src/` is the library. Every function in it has a contract, and the
  properties that span several functions are public proof functions.
  - `virtual_fs/`: the namespace over all mounted volumes, path resolution,
    open files, creation, removal, renaming and mounting. Drivers are trait
    objects; contracts speak of what a driver was asked and what it answered
    through its history of calls.
  - `kernel_hashmap.rs`: an open-addressing hash map, specified as a `Map`.
  - `crypto/`: SHA-1, SHA-256, SHA3-512, BLAKE2b, HMAC, Argon2id with PHC
    strings, AES-256, AES-256-GCM, and the random number generator.
  - `hardware_manager/`, `idt.rs`, `boot.rs`: the firmware's tables, timers,
    the clock, interrupt controllers, the keyboard, the serial line and the
    interrupt descriptors. What a device has said is an argument; what is to be
    written to one is a result.
  - `helper_functions.rs`, `base64.rs`, `bytes.rs`: text and byte forms of
    numbers.
- `app/` is the kernel around the library: the entry point, port and memory
  mapped access, the interrupt stubs and the shared state.
- `tests/` runs the library, with a volume in memory as a driver, and against
  published test vectors.

What is believed without proof:

- of the standard library, that `core::str::from_utf8` accepts what is valid
  UTF-8 (in `helper_functions.rs`), and that `core::hint::black_box` gives back
  what it is given (in `crypto/hmac.rs`);
- of the implementors of the driver traits (`virtual_fs/driver.rs`), that they
  keep the contracts of the traits: drivers are not part of the library, and one
  that is not verified is taken at its word.
