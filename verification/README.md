# quic-datagrams

Queueing of QUIC DATAGRAM frames (RFC 9221) on one connection, verified with
[Verus](https://github.com/verus-lang/verus).

Outgoing datagrams wait in per-flow queues. Deficit round robin serves the flows,
new ones first, and each flow runs its own head-drop CoDel controller (RFC 8289,
RFC 8290). When the send buffer overflows, the flow with the largest backlog loses
its oldest datagram. The buffer's limit can follow the path's bandwidth-delay
product. Incoming datagrams wait in a bounded buffer that drops the oldest.

## Layout

`src/` is the library. Every function in it is verified, but for the trusted
wrappers of outside functions in `payload` and `flow_map`.

| Module      | What it holds                                                        |
|-------------|----------------------------------------------------------------------|
| `time`      | points in time and spans, in nanoseconds                              |
| `payload`   | the buffers of the `bytes` crate                                      |
| `frame`     | the DATAGRAM frame and its wire format                                |
| `config`    | settings, and the limit of the adaptive send buffer                   |
| `stats`     | counters of outgoing datagrams                                        |
| `class`     | flow key and ECN codepoint of tunnelled IP packets, and flow buckets  |
| `codel`     | the CoDel controller                                                  |
| `flow`      | one flow's queue                                                      |
| `flow_map`  | the table of flows, a hash map of the `rustc-hash` crate              |
| `schedule`  | the mathematical model of the outgoing queues and of their service    |
| `state`     | a connection's queues in both directions                              |
| `datagrams` | sending and receiving on a connection                                 |
| `service`   | what a service and runs of services guarantee                         |
| `writing`   | what a call of `DatagramState::write` guarantees                      |
| `fairness`  | how flows share the link                                              |
| `overflow`  | what evictions guarantee                                              |

Contracts speak of `Schedule`, the model in `schedule`: `DatagramState::write`
leads from one schedule to the one that `served` gives, `enqueue` to `enqueued`,
and so on. Public proof functions whose names begin with `law_` state what follows
for whole runs: order, work conservation, priority of new flows, byte fairness,
who pays for an overflow, when CoDel may drop.

What is taken on trust stands in `payload` and `flow_map`: that `bytes::Bytes`
has a length and hands out its contents, and that an `FxHashMap` is a map.

Arithmetic is on whole numbers throughout. CoDel's waits, `interval / sqrt(count)`,
are rounded to the nearest nanosecond, and the multiple of the adaptive buffer is
a ratio.

`app/` puts the library on the system clock, with logging and with the error type
that applications handle. `tests/` holds the tests.
