# bcr

A broadcast relay for Linux: it relays UDP broadcast and multicast packets
between network interfaces, with header-based filtering and optional NAT.

The logic is a library verified with Verus. Its contracts say what every
configuration text means, which packets are relayed where, what the rewritten
packets look like byte for byte, and how the rate limit counts.

## Layout

| Path | Contents |
| --- | --- |
| `src/text.rs`, `src/number.rs`, `src/addr.rs` | Text, decimal numbers, IPv4 addresses |
| `src/config.rs`, `src/syntax.rs`, `src/filter.rs` | Rules, the configuration file, the filter |
| `src/wire.rs`, `src/packet.rs`, `src/rewrite.rs` | Header fields and checksums, parsing, NAT |
| `src/ratelimit.rs`, `src/relay.rs` | Token bucket, relay decisions |
| `src/socket.rs`, `src/interface.rs`, `src/startup.rs` | Kernel filter, interfaces, checks at startup, dropping root |
| `src/logging.rs` | Log lines |
| `app/` | The program: command line, sockets, the relay loop |
| `tests/` | Tests of the library |

Besides the contracts, public proof functions state what holds of the library
as a whole: that a packet never goes back to where it came from, that no relay
forwards what a relay has sent, that sent packets have valid checksums, that
the first matching rule wins and everything else is denied, that the kernel
filter loses nothing that could be relayed, and that the rate limit holds over
any sequence of packets.

## What is trusted

Header fields are read and written, and checksums computed, by `pnet`; the
functions in `src/wire.rs` that call it say what is believed of each call. The
clock is read through `std::time::Instant`, of which nothing is believed. Of
std, it is also believed that `String::push` appends a character
(`src/text.rs`) and that cloning a `RangeInclusive` copies it
(`src/config.rs`).
