# svn_manager

A manager of Subversion working copies for the desktop: it lists directories, checks them against
their servers, updates and commits them, shows histories, differences and statistics of commits, and
keeps itself up to date.

- `src/` is the library: the rules of the program and the texts that depend on them, written in
  Verus and verified.
- `tests/` runs the library, with the crates that it calls.
- `app/` is the program around the library: the window with its fixed labels and the layout,
  processes, files and the clock.

## The library

| modules | what they hold |
| --- | --- |
| `text`, `path`, `date`, `order` | texts, Windows paths, the calendar, sorting |
| `xml`, `svn`, `replies`, `auth` | what Subversion writes |
| `client`, `stream`, `work`, `upload`, `refresh`, `locate` | the command lines of the client, its output, and tasks as machines that ask for one run after the other |
| `jobs`, `tasks`, `results`, `state`, `pages`, `updates` | the state of the program and every step that it takes |
| `commit`, `history`, `search`, `diff`, `windows`, `stats`, `charts`, `stats_page` | the pages |
| `home`, `menu`, `dialogs`, `header`, `settings`, `compare`, `config`, `model`, `paint`, `icon` | the list of directories, windows and settings |

The state never does anything outside itself. A step returns what is to be done (a `Job`, a `Wish`,
a machine such as `CommitRun`), the program does it and hands back what came of it. What only the
machine knows (whether a file exists, the time, the date of today) is an argument.

Functions whose names begin with `law_` state what holds across functions.

## What is believed

chrono, encoding_rs, regex, roxmltree and a few functions of the standard library are called through
small functions marked `external_body`. Each says in its comment what it takes for granted. Where a
result takes a grammar or a table to describe (a regular expression, an XML document, a code page),
it has a name without a definition, and contracts speak of that name.
