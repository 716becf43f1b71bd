# guillotine

Lays out rectangular pieces on rectangular sheets so that they can be cut out with cuts from
edge to edge. The library is written in Verus: its functions have contracts, and the contracts
are proved. Only reading the clock, and the flags and figures that the threads of a task share
(`control::Signals`, and reports to it), have none: what they hold is not for one thread to say.

## Layout of the project

- `src/` is the library.
  - `pieces`, `layout`, `kinds`, `tally`: pieces, layouts and plans of cuts, lists of kinds,
    counts by name.
  - `score`, `score_laws`, `candidates`, `memo`, `control`, `search`: the beam search. It puts a
    promising piece into the corner of a part of the sheet, cuts beside it and goes on with the
    two parts.
  - `exhaustive_memo`, `exhaustive`, `optimize`: the search that tries every piece.
  - `gaps`, `free_space`, `packing`, `swap`, `forced`: finding places for pieces that are left.
  - `task`, `finish`, `limits`: the stages of a task, and the checks that its numbers are small
    enough.
  - `order`, `parallel`: stable sorting, and work on many threads.
- `tests/` runs the library on concrete values.
- `app/` is the command line program: it reads tasks from JSON, runs the stages and saves the
  layouts.

## What is proved

A layout that a search finds is described by a plan of cuts (`layout::CutTree`). From this
follow that the pieces lie on the sheet, that no two of them overlap, and that the area counted
is the area covered. The exhaustive search accounts for every piece. So does the beam search,
as long as its hash tells the counts of pieces apart that it meets. What the searches find is
given exactly by the specification functions `search::search` and `exhaustive::best_cut`.

What comes from outside is stated where it is used: random numbers in `swap`, the clock in
`control`, threads in `parallel`.
