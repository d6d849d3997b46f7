# optionSearch

Instant, local-first file search for Linux, with its logic verified by
[Verus](https://github.com/verus-lang/verus).

The index of names and paths is held in memory and persisted in SQLite, so the
database never sits in the keystroke path. There is no service, account, sync layer,
network API or cloud copy of your files. `inotify` keeps an active index current as
files change.

## Layout

`src/` is the library. Every function in it is verified against its contract, except
those of `outside`: they call other crates and the standard library, and what their
contracts say is believed without proof. Each says above it what that is.

| Module | What it holds |
| --- | --- |
| `arena`, `bytestr`, `path`, `text`, `decimal` | names, byte strings, paths, texts and numbers |
| `model`, `tree`, `index` | entries, the forest of directories as a mathematical value, and the index that implements it |
| `query`, `search` | the query language, the prefilter, the matcher and the ranking |
| `db`, `events`, `engine` | what is persisted, what a change does to the index, and the facade over both |
| `config`, `scan`, `watch` | the configuration, building an index from a walk, and following the file system |
| `preview`, `display` | what a file is shown as, and what the command line and the window show |
| `outside` | what is taken on trust from other crates |

A module named `laws` states what holds of several functions together: that no match
is lost to the prefilter, that a snapshot restores the index. So do `tree::calls` (of a
row of changes), `search::agree` (of two searches for one request), `scan::ways` (of
where a walk puts what it finds), `watch::reorder` (of the order of events),
`watch::converge` and `events::contents` (that the index converges to what is on disk).

`app/` is the program around the library: arguments, SQLite, the file system, `inotify`,
poppler and the GTK window. Called `optionsearch` (or `nld`) it is the command line,
called `optionsearch-gtk` (or `needle`) the desktop.

`tests/` runs the library.

## Usage

```bash
optionsearch index                       # index your home directory once
optionsearch watch                       # keep it current
optionsearch watch ~/Projects ~/Documents
optionsearch invoice                     # look something up
optionsearch search "project brief" --limit 50
optionsearch --json invoice              # one JSON object per line
optionsearch preview ~/Documents/brief.md
optionsearch stats
optionsearch clear                       # clears only the index, never your files
```

State lives in `~/.option/search/` (or below `$OPTION_HOME`).
