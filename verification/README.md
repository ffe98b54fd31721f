# hc32_firmware

The verified core of a firmware for the HC32F460: its file system, its heap, its log,
and the drivers of its peripherals. The functions of the library have contracts that
Verus proves; only three wrappers around functions of the standard library are trusted.
The file system relies on its block device to be as the trait `BlockDevice` describes it.

## Layout

- `src/` is the library.
  - `littlefs/` is a file system for NOR flash that survives the loss of power at any
    moment. `filesystem` puts it on the internal flash.
  - `heap_layout`, `heap_tlsf` and `heap` are the allocator, over a memory of words.
  - `logring`, `log`, `logfile_core` and `logfile` take log entries from a ring buffer to
    numbered files.
  - `mmio` is the language of the drivers. A driver computes a program: a sequence of
    register accesses and bounded waits. `Runner` says what to do next, given the last
    reading and the time. `arch`, `can`, `clk`, `crc`, `dma`, `efm`, `gpio`, `icg`,
    `intc`, `latency`, `mpu`, `ots`, `rtc` are the drivers.
  - `board` and `peripherals` own what is on the board and give the order of its start.
  - `config`, `settings` and `build_info` read and check the configuration.
  - `banner`, `console`, `exception_frame`, `panic` and `text` compute what is printed.
- `tests/` runs the library on a model of the flash and of the registers.
- `app/` is the firmware around the library. It reads and writes the registers, prints,
  and keeps the threads.

## What is stated

Contracts speak of mathematical models: a file system is a sequence of entries, a heap
is a map of blocks, a ring is a sequence of entries, and a driver is the sequence of its
register accesses. What holds across several operations is stated by the public proof
functions whose names begin with `law_`. Among them:

- a change to the file system is there as a whole or not at all, also when power fails
  in the middle of it and takes with it what was not durable yet, and what was written
  reads back after the next mount;
- a block that turns out bad is avoided from then on, and a change is given up only when
  no place is left or too many were tried;
- allocations never overlap, and what their owners write does not disturb the heap;
- only the oldest log entries are ever dropped, and every loss is counted;
- protected registers are locked again however a driver's program ends.
