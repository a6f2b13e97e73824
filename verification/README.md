# codecrafters_redis

A small Redis-compatible server whose logic is a verified library.

- `src/resp/` decodes RESP values (`decode.rs`), with the value type and its
  text (`shown`) in `value.rs` and the kinds of stored data in
  `Data_Storage.rs`.
- `src/connection_.rs` turns a decoded request into what a connection does
  with it (`interpret`).
- `src/command.rs` holds the requests a connection sends to the store and
  `Store::handle`, which carries one out and gives the bytes to write back.
- `src/store.rs` is the key space: strings with expiry, lists, streams, and
  clients blocked on lists (`BLPOP`), served by the periodic `tick`.
- `src/radx.rs` is the radix tree that holds a stream's entries, with its
  laws in `src/radix_laws.rs`; `src/bytemap.rs` is a map keyed by bytes.
- `src/reply.rs` writes RESP replies.
- `app/main.rs` is the server itself: sockets, the store's task and its
  10 ms tick, and the reading and writing of numbers with a fraction.

Times are counted in clock units (nanoseconds since the store started).

## Maps keyed by byte strings

Keys, list names, stream ids and field names are byte strings (`Vec<u8>`).
vstd's specification of `HashMap` speaks of lookups only for key types that
satisfy `obeys_key_model`, which vstd establishes for integers, `bool` and
`Box` of such keys, and for no `Vec`; its specification of `BTreeMap` needs
keys that obey its ordering laws, which vstd establishes for no `Vec`
either. Neither can be assumed here, so the store and the tree use their
own verified structures: `ByteMap` (a list of entries with no key twice,
viewed as a `Map`) for the key space, the blocked clients and each stream
entry's fields, and a `Vec` of edges kept in label order for the tree's
children. A `Vec` scanned for the first greatest waiter stands for the
priority queue of blocked clients, and a `VecDeque` for each list.
