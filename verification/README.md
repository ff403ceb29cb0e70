# sort_visualizer

A sorting visualiser: a list of numbers is sorted by one of several
algorithms, and every comparison, swap and write the algorithm reports is
drawn on a canvas (and, if sound is on, played as a tone) one step at a time.

Each sort runs on a list that records the actions it performs. The library
states, for every sort, exactly which actions it records (as a spec function
of the list it starts from, such as `bubble_trace` or `heap_trace`), and
proves that replaying them on the starting list gives the sorted list. The
app replays those recorded actions onto the list it shows.

The logic is written in Verus and proved:

- `src/tools/` — the list that sorts work on (`CheckedListMut`), which records
  each action it performs and keeps the law that replaying the recorded
  actions on the starting list gives the current list; compared values
  (`CheckedValue`), binary search and sortedness checks on the list; `gcd`
  and the cycle structure behind `rotate_left`; facts on sequences
  (sortedness, permutations, merging).
- `src/sorts/` — bubble, gnome, heap, merge, iterative merge, parallel
  merge, quick, parallel quick, rotate merge and stooge sort, each proved to
  leave a permutation of its input (sorted, for all but rotate merge, whose
  exact result is stated instead) and to record exactly the actions its
  trace spec gives. Quicksort and rotate merge may run forever on a list
  with a repeated value, so they take a depth budget and say whether they
  ended; their reports within a budget are prefixes of those within a
  larger one, and lists without repeated values are proved to let them end.
  `SortType`, its numbers, names and parsing.
- `src/app_logic.rs` — the state behind the display (`App`): requests from
  the controls, replaying a sort's actions onto the shown list (a sort that
  has not ended within its budget is run again twice as deep when its
  actions run out, so it keeps stepping as long as it runs), the drawing
  instructions and tones each step produces.

`app/` is the program around it: the Dioxus user interface, drawing on the
canvas, playing tones, and the loop that steps the replay with a delay.
`tests/` runs the library on concrete values.
