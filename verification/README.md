# turbo_persistence

A verified core of a persistent key-value store's write and merge paths, and of
the tokenizer behind the `turbofmt!` formatting macros.

- `src/order.rs`: the order of entries (hash, key bytes, value category) and
  byte-wise comparisons.
- `src/sortable.rs`: the `SortableEntry` trait and the vocabulary of the
  contracts over sequences of entries (key groups, members of a view, size totals).
- `src/stable_sort.rs`: a stable merge sort by key or by key and value.
- `src/runs.rs`: the passes over runs of adjacent entries (keep the last of each
  key, keep the first of each value, drop what a later tombstone cancels) and
  what they give on sorted input.
- `src/sort_dedup.rs`: `sort_and_dedup`, its contract per family kind, and the
  laws on its outcome: unique, idempotent, the same with or without the key
  sort on sorted input, and what becomes of tombstones.
- `src/collector_entry.rs`, `src/lookup_entry.rs`, `src/entry.rs`,
  `src/constants.rs`: the entries of the write and read paths and how their
  values are stored.
- `src/format_parts.rs`: the tokenizer of `format!`-style strings and the
  variables they capture.
- `app/`: the procedural macros `turbofmt!` and `turbobail!`, which parse their
  arguments with `syn` and generate code with `quote`.
