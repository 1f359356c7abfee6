# dotfiles

A small dotfile manager. `import` copies the files that `dotfiles.conf`
names (`diradd <dir>`, `fileadd <file>`, paths under `~`) into a directory,
optionally committing them to Git (`-g`) and packing them into a `.tar.gz`
(`-a`); `export` copies them back.

- `src/` is the verified library: the lexer of the configuration language
  (`lexer`), the reading of a configuration into commands, the expansion
  of `~` and the placing of a home file under the directory (`config`), the command-line grammar (`args`), the help text and the
  choice of what a run does (`usage`), and sequence helpers (`text`).
- `app/` is the program around it: files, Git, archives, logging.
- `tests/` runs the library on concrete values.
