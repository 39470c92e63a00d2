# shell

A small interactive shell whose line handling is verified with Verus.

- `src/text.rs`: Unicode whitespace, trimming, splitting into words and lines, decimal numerals.
- `src/order.rs`: lexicographic order on text; sorting names with duplicates removed.
- `src/parse.rs`: the lexer (bash-style quotes and escapes, redirections, `&`) and the parser into a `ParsedLine`.
- `src/completions.rs`: the registry of programmable completions (`complete -C/-r/-p`).
- `src/exec.rs`: the decisions of the shell: what each command does next (`plan`, `after_*`), the builtin names, tilde expansion, job lines.
- `src/complete.rs`: tab completion: which word is completed and how, and how candidates are shown.
- `app/main.rs`: the line editor (rustyline), files, the working directory and child processes.
