# git_forest

Git history drawn as a forest: long-lived branches are trees, merges are root
systems, and each author has a colour of their own. Works in any terminal and
exports SVG pictures.

## Layout

- `src/` is the library, verified with Verus. It builds the forest from the
  commits of a repository, lays it out evenly, assigns author colours, finds
  merge storms, writes
  the inspection panels, the terminal picture and the summary report, and
  decides what the SVG pictures show. Each public function states its result in
  its contract; the laws of the library (what every operation keeps, what a read
  gives back after a write, that the drawing stays on screen and uses only the
  documented characters, that storms never overlap, ...) are public proof
  functions.
- `app/` is the program around it: reading the repository with git2, the
  terminal loop with termion, floating-point geometry, and writing files.
- `tests/` runs the library on concrete values.

## Usage

```
git-forest --repo /path/to/repo     # interactive view; arrows scroll, +/- zoom, i info, q quit
git-forest --repo . --export out.svg
git-forest --repo . --svg           # the tapered-trunk picture
git-forest --repo . --summary
```
