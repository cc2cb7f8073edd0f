# atuin-fullhistory

Browses shell history kept in `~/.fullhistory`. The logic is a library that is verified with
Verus; the program around it is ordinary Rust.

## The history file

```
hostname:"cwd" pid YYYY-MM-DDTHH:MM:SS+ZZZZ command
##EXIT## hostname pid=N $?=N t_ms=N
```

A command line may be followed by an exit line of the same process, which has the code that the
command ended with and how long it took. Lines that are neither continue the command before them.

The last 128 KB of the file, from a block boundary on, are read first; what stands before them is
read backwards in blocks of 1 MB.

## Layout

- `src/`: the library.
  - `input`, `bytes`, `reader`: lines, files, and reading them in pieces. `round_trip` and
    `written` prove that what is written is what is read, and `coverage` that no command is lost
    or read twice where a file is read in pieces.
  - `history`, `database`, `groups`, `counts`, `tally`, `stats`: entries, and what can be asked of
    them. `count_laws` and `stat_laws` prove what holds of the answers.
  - `query`, `filter`, `session`, `dates`: what a search asks for.
  - `skim`, `sort`, `order`: the order of what is found.
  - `settings`, `defaults`, `options`, `logs`, `ui`, `timezone`: settings.
  - `theme`, `theme_manager`, `meanings`, `colors`: themes.
  - `paths`, `shell`, `escape`, `clock`, `numbers`, `text`: the rest.
- `tests/`: tests of the library.
- `app/`: the program. It reads files, settings and themes, computes the scores that are
  floating-point numbers, and shows what is found.

## What is not proved

What other crates do is stated in the contracts of a few functions that call them, each marked
`external_body` or written as `assume_specification`, with a comment that says what is claimed.
