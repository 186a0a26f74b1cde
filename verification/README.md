# hyper_dns

Address handling for an HTTP client's name resolution, written in Verus and
verified: the values, tables and rules behind the resolver, with contracts
that state what each operation does.

## Layout

- `src/net.rs`: IP and socket addresses as plain values.
- `src/text.rs`: the grammar of IPv4 and IPv6 literals and the string
  splitting used for URI fragments, with parsers proved against it.
- `src/table.rs`: a map from strings to values.
- `src/seqs.rs`: facts about filtering sequences.
- `src/client/connect/dns.rs`: names, the addresses of a lookup
  (`IpAddrs`, split by address family), IP literals as hosts, addresses set
  by hand, and the address named in a URI fragment.
- `src/client/connect/ranking.rs`: the per-domain record of addresses,
  ranked by connection cost, source and address, and the delays with which
  the addresses are tried.
- `src/client/dns.rs`: the same support for plain client connections.
- `src/info.rs`: per-request connection information and the request
  identifier carried by a URI fragment.
- `app/`: the runtime side: resolvers on thread pools (futures 0.1,
  futures-cpupool, tokio-threadpool), the process-wide tables behind locks,
  the task-local request information, and conversions to `std::net`.
- `tests/`: tests of the library.

## Collections

- The addresses of a domain are a `Vec` with no IP address twice, not an
  ordered set: the order of addresses depends on their connection costs,
  which change, so the ranking is computed when the addresses are read
  (`best_index` in `ranking.rs`) and stated over the costs themselves.
- Tables keyed by strings (`StrTable` in `table.rs`) keep keys and values in
  two vectors, with contents modelled as a `Map` from the key's characters;
  with a `String` key, Verus proves too little of `HashMap` and `BTreeMap`
  for the contracts to be stated over the contents.
- The addresses handed back when the records of a source are dropped are a
  `Vec` in the order they were held; no address occurs in it twice, as no
  address occurs twice in the entry they came from.
