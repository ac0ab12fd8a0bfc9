# hermes

Executes DAG programs with parallel workers. A program starts with a lane
section (for each lane, the quantity of items and the lane index as
little-endian 32-bit integers, then the items as 64-bit IEEE 754 values,
ended by a zero quantity), followed by tasks: sequences of 9-byte operations
(a code byte and two little-endian 32-bit arguments). A task begins by
fetching items from a lane and ends by storing its result to a lane or
returning it.

- `src/` is the verified library: the operation codec, task reading and
  encoding, the bounded FIFO work queue, the lane section codec, the
  scheduler's decisions (queueing, buffering, waking workers, dispatching
  reports, fetching and storing lane items) and the program generator.
  Floating-point values are held as their bits.
- `app/` runs programs: worker threads, channels, clocks, and the
  floating-point arithmetic of the operations.
