# cac

A terminal tool that amends the latest git commit with `Co-authored-by:`
trailers. Contributors are discovered from the git history and from a pinned
authors file (`~/.config/cac/authors`), offered in a fuzzy-searchable list,
and the chosen ones are written as trailers into the amended commit message.

The decisions the tool makes are a library verified with Verus (`src/`):

- `text` — whitespace trimming, line splitting (as `str::lines`), searching
  and joining, over `Seq<char>`.
- `git` — contributors, the pinned-authors file format and its template,
  co-author trailers, the amended message, and the rules that turn commit
  authors and pinned authors into the candidate list (case-insensitive email
  matching, the user left out).
- `search` — the fuzzy score (from `fuzzy_matcher`) and the ranking of matches.
- `order` — selected candidates pinned on top, and toggling a selection.
- `app` — the picker state and what every key press does to it.
- `screen` — the header line and the rows of the candidate list.

`app/` is the program around it: command line, repository access with `git2`,
the authors file on disk, and the terminal front end (`crossterm`, `ratatui`).
