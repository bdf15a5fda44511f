# pcap_analyze

Capture framing, packet decoding and indexing for a local-first PCAP/PCAPNG viewer that runs
in the browser, verified by Verus. The one function taken on trust is `text::push_char`, which
calls `String::push`.

- `src/capture.rs`: incremental PCAP/PCAPNG framing. `CaptureParser` takes chunks of any
  size; its behaviour is given by the model `ParserModel::push`, and
  `lemma_push_chunks`/`lemma_push_each` prove that the way a capture is cut into chunks
  changes nothing.
- `src/decode.rs`: Ethernet, VLAN, ARP, IPv4/IPv6 (with extension headers and fragments),
  TCP and UDP decoding and application hints, each against a spec function.
- `src/model.rs`: packet rows, listed in time order (rows without a time after the rest,
  ties in capture order), bidirectional transport flows and paged queries.
- `src/entities.rs`: host entities as a union-find over addresses.
- `src/table.rs`, `src/sets.rs`, `src/text.rs`: the text table, sorted sets and text
  formatting the index uses.
- `app/`: the `wasm-bindgen` bindings and the WebGPU row renderer, which stay unverified
  (JavaScript values, floating point and the GPU API).

Timestamps are kept as whole nanoseconds (`Option<i128>`, `None` where the format records no
time); the bindings turn them into the fractional microseconds the pages show.
