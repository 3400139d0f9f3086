# clean_core

The verified core of a disk cleaner, with a terminal program around it.

- `src/` is the library. Every item is verified with Verus: scanning and
  differential rescans, space reports, the junk rules, deletion safety and undo,
  duplicate detection, developer artifacts, installed programs, startup entries
  and the Windows system toolbox.
- `app/` is the program `clean`. It reads directories, the registry and the
  change journal, starts processes, and hands the library plain values.
- `tests/` runs the library on trees in memory.

What a machine decides (a file that is gone, an exit code, a registry value)
comes into the library as an argument, so each function is verified for every
answer. Loops that alternate between reading and deciding are small state
machines: `scanner::Walk`, `merge::MergeScan`, `devscan::Discovery`,
`console::LinePump`, `runner::StepRun`, `usn::FrnCollector`.

The outside functions that the library calls (BLAKE3, globset, encoding_rs, a few
string functions of std) stand behind trusted items in `digest.rs`, `globs.rs`,
`console.rs` and `text.rs`; each says what is believed of it.

Functions named `law_...` state what holds across several functions, such as
that a rescan ends with the records of a full scan, or that one copy of every
duplicate survives.
