# typefix

Typo correction and language detection for keyboard input, with the
correction logic verified by Verus.

## Layout

- `src/` — the verified library.
  - `base/` — the keystroke buffer and its delimiters, the accent encoding,
    the frequency trie, the FST dictionary (building, loading, exact and
    fuzzy search), ranking of candidates, the configuration rules, and the
    reading of the JSON data files (word lists, stopwords).
  - `correction/` — the Damerau-Levenshtein distance (the recurrence, the
    single-edit fast path and the proof that both agree), the learned error
    map on an LRU cache, and the correction engine.
  - `language/` — the stopword window of language detection and the
    resolution of the active language (preference, system locale, default).
  - `hooks/` — key events, the mock hook, key code tables, the steps of an
    atomic correction (window check, backspaces, window check, text) and
    the decisions of the typing daemon (what each event does, when a
    correction is sent and when it is dropped).
  - `memory.rs` — memory figures, the tracker and the parser of the process
    status file.
  - `pipeline.rs` — pipeline settings.
  - `text.rs` — the string and character operations of the standard library
    that the library relies on, with their contracts.
- `app/` — the program around the library: command line, configuration and
  data files, the floating-point switching rule of language detection, the
  pipeline with its listeners, benchmarks, and the daemon loop that
  receives events and carries out the library's decisions.
- `tests/` — tests of the library.

Each public function states its result in its `ensures`; the `law_*` proof
functions state properties that relate several functions (what a compiled
dictionary gives back, what a learned correction does, that the fast path of
the distance is the full distance, and others).
