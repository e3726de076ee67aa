# amhs_probe

Reads SECS/GEM communication dumps of an AMHS (text lines or XML), extracts
the movements of overhead hoist transport vehicles (OHTs) between track
nodes, builds a directed graph of the track weighted by those movements and
ranks the most congested nodes.

- `src/` is the library, verified with Verus:
  - `scanner.rs`: a byte-driven state machine for movement lines, message
    header detection and compact timestamps;
  - `parser.rs`: regular-expression line reading, whole text dumps, XML record collection,
    timestamp parsing, reader ranges and the final ordering of events;
  - `digraph.rs`: the track graph (on `petgraph`), its statistics,
    congestion ranking and export, with the laws of recording events;
  - `summary.rs`: the counts of a parse;
  - `event.rs`, `names.rs`, `text.rs`, `clock.rs`, `patterns.rs`,
    `sorting.rs`, `cli.rs`: events, a name index, byte and text helpers, and
    the calls into `chrono`, `regex` and the standard sort.
- `app/` is the command-line program: arguments, files, threads, the XML
  reader and the printed report.
- `tests/` exercises the library on concrete inputs.
