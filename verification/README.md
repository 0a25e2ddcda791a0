# learning

A small library of interview-practice material and the logic of an exercise
quiz, verified with Verus, plus the terminal program that runs the quiz.

- `src/structures.rs`: practice arrays, a binary search tree, directed and
  undirected graphs, singly linked lists and their printing.
- `src/reversal.rs`: iterative and recursive linked-list reversal.
- `src/text.rs`: Unicode white space, trimming, words, greedy word wrapping
  (plain and keeping line breaks and bullets), decimals, reply parsing.
- `src/sampling.rs`: exercises, the review history, and random review samples
  that do not repeat an exercise until the whole topic has been reviewed.
- `src/quiz.rs`: topic ordering and choice, command-line options, and the
  quiz's stepping from task to hint to the next task.
- `src/random.rs`: shuffling through `rand`.
- `app/`: the quiz program (files, terminal, TOML, the date).

Each topic is a directory holding an `exercises.toml`; `quiz [topic]
[--sample [count]]` runs the quiz on it.
