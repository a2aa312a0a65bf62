# portablenote

PortableNote is a directory-based knowledge vault: blocks are named Markdown files,
the reference graph between them is a first-class artifact, and documents are ordered
views over the blocks. This crate is the format's logic, written in Verus and proved
against its contracts; `app/` is the `pn` command-line tool around it.

## Layout

- `src/types.rs`, `blocks.rs`, `documents.rs`, `edges.rs`: the aggregates and their
  rules (names, headings, sections).
- `src/content.rs`, `block_file.rs`, `text.rs`: inline `[[Name]]` references, footer
  annotations, `[text](block:uuid)` links and the text utilities under them.
- `src/format.rs`, `readback.rs`: the block file format, and the proof that a written
  block file reads back as the block.
- `src/invariants.rs`: vault validation, one exact specification per rule.
- `src/checksum.rs`, `gate.rs`: the vault checksum and the mutation gate.
- `src/use_cases/`, `runner.rs`, `ports.rs`, `block_store.rs`, `document_store.rs`: the commands, each a function from the
  vault to an ordered list of writes and an event, with the laws that relate them
  (what a rename reaches, what a delete leaves, what undoes what).
- `src/renaming.rs`: the proof that a rename's rewrite leaves no `[[old name]]`.
- `src/journal.rs`, `commit.rs`: applying writes, the commit journal and crash
  recovery, with the proofs that undoing a journal restores the vault.
- `tests/`: executable tests of the library.
- `app/`: file I/O, JSON, the command line.

## Checking

Verus verifies `src/`; the tests run against the compiled library with the real
`uuid`, `chrono`, `sha2` and `unicode-normalization` crates linked.
