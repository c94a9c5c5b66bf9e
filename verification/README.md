# serial

Bytes on a serial line, one frame is one Stream, verified with Verus.

A serial line has no message boundary of its own. The boundary is configured: a
delimiter that frames end with, a fixed length, or a length that the frame says
itself. The bytes between boundaries are never interpreted.

| where | what |
| --- | --- |
| `src/framing.rs` | where a frame ends, and how one is read off a line's bytes |
| `src/transport.rs` | a serial port's settings, and the in-memory line of a loopback |
| `src/bus.rs` | a multi-drop bus in process: devices, turnaround, collisions, faults |
| `src/error.rs` | what can go wrong, and how it is said |
| `src/laws.rs`, `src/bus_laws.rs` | what holds of lines and buses as a whole |
| `src/text.rs`, `src/clock.rs`, `src/shared.rs` | what is taken from the standard library, with the contracts it is trusted for |
| `app/` | the device behind a port, and lines and buses that threads share |

Contracts speak of a line as the bytes on it, of a port as a `Station` and of a
bus as its `Wires`. Time on a bus is time since the bus was made; what reads the
clock leaves the rest to functions that are given the moment.

A device is opened only in `app/`, through `serialport`. The library is what is
there without the port: it needs no serial stack, and answers what only a device
could do with `Error::NoPort`. There is no feature to switch; a box with no
serial stack uses the library without `app/`.
