# local_sync

Data structures for asynchronous programs that stay on one thread, written in
Rust and proved with Verus:

- `semaphore`: a counting semaphore that gives permits out in the order in which
  they were asked for;
- `mpsc`: channels with many senders and one receiver, bounded and unbounded, over
  a queue of blocks;
- `broadcast`: a channel whose every value reaches all receivers, with a bounded
  memory and receivers that are told when they lag;
- `stream_wrappers`: the receiver of an unbounded channel as a stream.

`src/` is the verified library. A structure is a plain value that its operations
take by `&mut`; tasks to be woken are handed back in a `WakeList`. Contracts speak
of a mathematical view of each structure (`SemaphoreView`, `ChanView`,
`ChannelView`); what holds of several operations together is stated in the proof
functions whose names begin with `law_`.

`app/` puts shared handles, futures and `Drop` around it. `tests/` runs the
library on concrete values.
