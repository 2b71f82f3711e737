# runic

A thread-caching allocator whose bookkeeping is verified: size classes, runs of equal
blocks, dedicated extents, per-thread heaps with inboxes for remote frees, and the C
malloc family on top.

- `src/` decides. It never touches memory: it works on addresses, takes mappings that were
  granted, and lists the effects (unmap, discard, zero, copy) that have to be carried out.
- `src/workloads/` holds deterministic traffic with checksums.
- `src/shared/`, `src/extent/` and `src/table/` hold the single-lock heap, its extent table,
  and the fixed heap directory.
- `app/` maps memory, carries the effects out, locks, exports the C names, and runs traffic on
  threads.
- `tests/` run all of it against a simulated system.
