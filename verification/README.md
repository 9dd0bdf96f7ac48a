# async-udx

Reliable, multiplexed and congestion controlled streams over UDP.

The library in `src/` is verified with Verus. It does no I/O: streams and
sockets are state machines that are handed packets, datagrams and the time, and
that say what is to be sent, which task is to be woken, and when the timer is to
fire.

| module       | what it holds                                                     |
|--------------|-------------------------------------------------------------------|
| `packet`     | the wire format, packets, and the sets in which they are sent     |
| `reassembly` | the receiving side of a stream: packets in any order, bytes in order |
| `rtt`        | the retransmission timeout, estimated from round trip times       |
| `congestion` | how the congestion window grows and shrinks                       |
| `stream`     | a stream: sending, acknowledgements, timeouts, closing            |
| `socket`     | a socket: batches of transmits, delivery to streams, datagrams    |
| `simple`     | a simpler stream and socket                                       |
| `laws`       | what streams promise as a whole                                   |
| `buffers`    | the buffers of `bytes` and `tokio`, and what is relied on of them |
| `lock_log`   | who held a lock last                                              |

Every type with state has a model (`StreamModel`, `SocketModel`, ...). The
functions of the type are specified as transitions of the model, and `wf` states
what holds of every state. The central promise is in `laws`: whatever the
network does to genuine packets, what a reader is given is what the writer
wrote, in order. What a sender keeps, queues and sends, first or again, carries
the bytes that were written (`carries`, which every transition keeps, such as
`law_writing_carries`, `law_losing_carries` and `law_flushing_carries`); it
arrives as it was sent (`law_sent_packets_arrive`); and the receiver that takes
it in gives those bytes to its reader (`law_streams_agree`,
`law_writing_agrees`, `law_stream_reading_agrees`,
`law_reads_report_what_they_give`, `law_nothing_is_lost`).

`app/` puts the library on the Tokio runtime. `tests/` runs the library.
