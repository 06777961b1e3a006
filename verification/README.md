# MFAS core, verified

MFAS (Mathematical File Address Space) gives every finite byte string a
canonical address. This crate is its core library, written in Verus: every
function carries a `requires`/`ensures` contract over mathematical models
(`Seq`, `Map`, `nat`) and Verus proves the code against it.

## Layout

- `src/address.rs`: node types, addresses, the URI text form and the binary
  form (magic, version, type, LEB128 length, payload), with their round trips.
- `src/page.rs`: logical pages of at most 4096 bytes, page addresses, the
  radix-16 coordinate hierarchy, splitting a byte string into pages.
- `src/node.rs`: the six node kinds, their canonical addresses and decoding.
- `src/store.rs`: the node store interface and the in-memory store.
- `src/resolver.rs`: resolution of an address into bytes, with cycle
  detection and limits on depth, output size and node count.
- `src/codec.rs`, `src/lossless.rs`: the streaming encoder, decoding,
  verification by SHA-256, and the proof that decoding gives back what was
  encoded.
- `src/enumeration.rs`: the bijection between byte strings and natural numbers.
- `src/synthetic.rs`: deterministic synthetic byte streams.
- `src/inspector.rs`: topology statistics and the ASCII tree of an address.
- `src/dag.rs`: the graph below an address, its metrics, its Graphviz
  rendering, and common subexpression elimination.
- `src/gpu.rs`: pattern evaluators (CPU, SIMD, GPU front with CPU fallback).
- `src/preserve.rs`: what an address stands for independently of resolution
  limits, and the proof that the DAG optimisation keeps it.
- `src/canonical.rs`: the canonical graphs the DAG optimisation gives, and
  the proof that optimising again changes nothing.
- `src/desktop.rs`: what the desktop application's commands compute: lenient
  address reading, address details, number and address conversions, radix
  coordinates, page previews, the evaluator overview.
- `src/ext.rs`, `src/text.rs`, `src/util.rs`: the calls into `hex`, `sha2` and
  `num-bigint` behind contracts, and text and byte helpers.
- `app/`: the `mfas` command line (argument parsing, files, the on-disk node
  store, JSON output, benchmarks), which Verus does not see.

## What the proofs assume

- The round trip of the codec (`lossless::lemma_decode_encode`) holds for
  byte strings whose distinct pages have distinct SHA-256 digests (pages are
  stored under their digest), within the decoder's default limits.
- The DAG optimisation keeps what every address stands for
  (`preserve::lemma_optimize_keeps_content`) on a clean store: every node
  stored under an address is the node that address already stood for, and
  no merged repeat counts overflow `u64`.
- The results of `optimize_dag`, `build_dag` and `inspect_address` are
  stated exactly over the store's contents where the store answers every
  lookup. Every store, failing or not, gets from `optimize_dag` only
  entries stored under their own address, and from `inspect_address` exact
  counts whenever it returns a report. `decode` and `resolve` are exact
  where the store answers every lookup or holds only nodes under their own
  addresses (a failed lookup then falls back to the same node).
- A sequence's children are folded into runs that repeat one address (a
  child repeat node counts as its target repeated), so folding the result
  again changes nothing (`dag::lemma_fold_runs_idempotent`). On a clean
  store, optimising the optimised root again gives the same root and
  stores nothing new (`canonical::lemma_optimize_idempotent`).
- `optimize_dag` goes at most `usize::MAX` nodes deep and reports a depth
  error past that; on a cyclic graph it recurses until the stack runs out.
  `inspect_address` asks for a walk that settles within `usize::MAX` levels
  (no cycle) with counts in range; `checked_inspect_address` tests that
  within a given number of levels and gives nothing where it fails.
