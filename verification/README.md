# reflector

Reflects link-local service traffic (Wake-on-LAN, mDNS, SSDP and an optional DIAL proxy) between two
network interfaces. The logic is a Verus library: each function states in `requires` and `ensures`
what it does, and Verus proves it.

## Layout

- `src/` is the verified library. It does no I/O: it takes and returns plain values.
  - `bytes`, `text`: byte and character operations.
  - `net`: addresses, MAC addresses, checksums, frames, packets, HTTP framing, mDNS and SSDP
    classification, stream buffers, the decisions around TCP sockets.
  - `capture`: classic-BPF filter programs and what they accept, batches of captured records.
  - `config`: values, the environment, TOML documents with the places of their values, validation,
    conflicts, the errors in words.
  - `interface`: source addresses, netlink and routing-socket messages, address changes.
  - `reactor`: handlers and watched descriptors in generational arenas, dispatch, deadlines.
  - `dispatch`: interfaces and captures, routing, datagrams, multicast groups, DIAL proxies.
  - `reflector`, `logging`, `error`: building reflectors, log records, the final error.
- `app/` is the program around it: system calls, the wait loop, logging.
- `tests/` runs the library.

## What is trusted

The contracts of these outside functions are believed and not proved: the TOML
parser and the two ways its values are taken apart (`src/config/document.rs`), and `String::push`
(`src/text.rs`). The types `toml::de::DeValue`, `toml::Spanned`, `toml::map::Map` and
`log::LevelFilter` are declared where they are used. Each says in its doc comment what it claims.

Laws that relate several functions are public proof functions whose names begin with `law_`.
