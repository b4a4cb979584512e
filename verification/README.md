# tw-lint

Fail on, or fix, what the Tailwind language server says of a project's classes.
The server knows Tailwind; tw-lint hands it the sources, or the class blocks
found in them, and reports, rewrites or asks.

The library in `src/` is written in Verus. Each function states what it returns
in `requires` and `ensures` clauses, and Verus proves that it does. The program
around it, in `app/`, starts the server, reads and writes files, and talks to the
user; it does what the library tells it to.

## How it works

- `cli`, `languages`: flags, config file and environment become one
  configuration.
- `literals`, `scan`, `patterns`, `groups`: class blocks are found in a source.
  Comments are masked first, so that nothing in them counts; strings, raw strings
  and complete characters are told from code, so that what looks like a comment in
  one of them is none, and a stray quote hides nothing.
- `sweep`, `document`, `synthetic`: the blocks of all sources are diagnosed chunk
  by chunk, in one document that is opened once. Line `i` of the document is
  block `i` of the chunk.
- `finding`, `conflicts`, `check`: the diagnostics are read and reported; a
  conflict that comes from both sides is shown once.
- `blocks`, `layout`, `edits`, `fix`: suggestions are recorded in a first pass,
  and the sources are rewritten from them in a second. A block for which nothing
  is suggested, and that holds no class twice, keeps its shape.
- `suggestions`, `written`: what holds from the diagnostics to the written list,
  and of a written list that is read again.
- `resolve`: the user picks which class of a conflict to keep.
- `session`, `report`: without a container pattern each source is linted as a
  whole.
- `lsp`, `protocol`, `json`, `settings`: the messages that go to the server, and
  what those that come from it mean.

Functions named `law_…` state what holds across functions: that masking keeps
every offset, that a sweep hands out every block once, that a fix leaves
everything outside the class lists alone, that each suggestion replaces the class
it marks, that a list once written is found again and kept, that a source is
closed before the next is opened, that a first pass is over exactly when its
document is to be closed, that without a choice nothing changes.

## What is taken on trust

Calls into `regex`, `lsp_types::Url` and a few functions of `std` (paths, UTF-8,
white space) stand behind declarations whose contracts are believed, not proved.
Each names the function that it stands for and says what it claims of it.
