# phonia

A verified core for phonetic annotation and audio bookkeeping, written in Verus.

## Layout

- `src/` — the library, every function proved against its contract:
  - `time`, `ids`, `model` — times as IEEE bit patterns, stable ids, and the
    mathematical view of an annotation document;
  - `annotation`, `edits`, `boundary_edits`, `undo`, `payloads` — the document
    and its edits, each with the inverse that undoes it;
  - `issues`, `integrity` — the integrity rules, and what each reported issue
    asserts about the document;
  - `laws`, `boundary_laws`, `session_laws` — proofs that inverses restore the
    document and that undo and redo restore the session;
  - `journal`, `engine`, `session` — the undo journal, id-keyed stores and the
    command path that ties them together;
  - `search` — label search, literal or by regular expression;
  - `wav`, `recording`, `audio`, `lru` — the WAV header parser, streamed
    recording takes, audio parameter checks and the decoded-chunk cache;
  - `waveform` — the min/max mip pyramid behind waveform views, proved to
    agree with a direct scan;
  - `content` — BLAKE3 content addresses of byte sources;
  - `dsp`, `figure`, `paths`, `dto` — small helpers for the surrounding shell.
- `app/` — ordinary Rust around the library: decoding and encoding audio,
  floating-point signal processing, reading files, and the engine facade.
- `tests/` — tests of the library's public functions.
