# udp_conditioner

A UDP proxy that makes a link worse on purpose: it delays packets, jitters them,
loses some of them and limits their rate. Its settings can be changed while it runs.

`src/` is the library, verified with Verus. It holds every decision and computes on
plain values only:

- `number`, `single`: single-precision arithmetic on bit patterns, against exact
  integers and one rounding rule
- `time`, `addr`, `packet`, `config`: moments, addresses, packets and settings
- `bucket`: the token bucket that limits bandwidth
- `schedule`: delay and jitter
- `receiver`, `upstream`, `sender`: state machines that are told what has happened and
  say what to do next
- `selection`: what it means that packets keep their order
- `engine`: starting and stopping
- `app`: the settings and buttons of the window

`app/` is the program around it: arguments, sockets, queues, tasks and the window.
`tests/` runs the library, its arithmetic against that of the processor.
