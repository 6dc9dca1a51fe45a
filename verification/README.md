# toro

A command line client for a todo.txt list, whose logic is verified with Verus.

- `src/` is the library. Verus proves each function against its contract,
  except the trusted wrappers (marked `#[verifier::external_body]`) that call
  `chrono` (the clock and the calendar), `colored` (terminal styles), `regex`
  (spans of notes) and two functions of `std`; their contracts state what
  those crates document and are believed, not proved. The library holds:
  - `todotxt` reads and writes task lines (`todotxt/file` whole files, with
    filtering and ordering; `todotxt/display` tasks as a listing shows them),
  - `date` reads and writes dates, plainly and relative to today,
  - `filter`, `projects`, `config`, `interaction` and `commands` hold what the
    commands decide: which tasks pass, in which order, which an answer
    selects, what a value typed for a field means, how notes are styled,
    what the update command does next, and which settings hold,
  - `text` and `style` are the characters and terminal styles underneath.
- `app/` is the program around it: the command line, files, git, the editor,
  the fuzzy finder and the prompt.
- `tests/` runs the library on concrete tasks, dates and answers.
