# sdal

SDAL is a content-addressed version control system for source code and large
binary assets. Files are cut into content-defined chunks (FastCDC), chunks and
objects are stored under the SHA-256 hash of their bytes, and history is a
Merkle DAG of commits, trees and blobs.

This crate is its core, written in Verus: the object model and its invariants,
the binary tree format, the network frame format, chunking, three-way merging,
the merge-base search, graph walks, ignore rules, refs and checkpoint rules,
signed request envelopes, and the state of the interactive conflict resolver,
each with a machine-checked contract.

Layout:

- `src/` — the verified library.
- `tests/` — tests of the library on concrete values.
- `app/` — the `sdal` command line and everything that touches the disk, the
  network or the terminal; it calls the library for every rule.
