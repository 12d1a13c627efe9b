# pazuzu

The control plane of an XDP firewall: a userspace loader that attaches an
XDP program and serves an HTTP API to edit its blocklists, TCP scan
signatures and rate limits, plus a small inference module.

## Layout

- `src/` — the verified library.
  - `bytes` — native-endian conversions of map keys and values.
  - `text` — decimal digits and text, and the lexicographic order of texts.
  - `addr` — the dotted-quad and CIDR grammar, canonical texts, blocklist and
    LPM-trie keys; proofs that canonical texts parse back and that every
    accepted address text is canonical.
  - `maps` — TCP signature switches, the rules epoch and the drop counters
    as stored in the kernel's maps.
  - `rules` — the rule store, the changes requests make, batch planning
    (limits: 2048 address and 2048 CIDR updates per batch), the reported
    configuration, and the laws that relate them.
  - `change` — a request's changes as steps (map update, epoch bump,
    answer): any change to the rule maps is followed by an epoch bump.
  - `api` — API-key checks and the XDP attach mode.
  - `metrics` — the Prometheus text page.
  - `tally` — decision counts of the inference statistics.
- `app/` — the loader program: BPF object loading and map I/O, the HTTP
  server, JSON shapes, and the floating-point inference code.
- `tests/` — tests of the library.
