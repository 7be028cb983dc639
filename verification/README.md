# ic3

The IC3 algorithm for safety of transition systems, with generalization by counterexamples,
several clauses per cube, and effort chosen by activity or by a contextual bandit.

The engine decides; everything it asks of its surroundings goes through the trait
`session::Reasoner`: solvers, transition system, frames, queue of obligations, activities,
statistics. Nothing is presumed of the answers: a reasoner only owes a ghost history of what it was
asked and what it answered. A session keeps a log of requests and answers, which no procedure can
write but by asking, and which stays what the reasoner saw. The contract of each procedure says, for
any answers, what it asks and what it makes of them: the `.._run` functions read a log and give the
outcome. Answers with which the engine cannot go on end in a `fault::Fault`; where all
answers are true a search meets none, but that there may be too many frames to number.

## Layout

- `lit`, `param`, `options`, `obligation`, `fault`: the data.
- `collections`: the hash set and the hash map of `giputils`.
- `words`: random words.
- `session`: the reasoner, and the log.
- `blank`: a reasoner without knowledge.
- `shrink`, `mic`, `multi`: generalization of cubes.
- `heuristic`, `effort`: the choice of effort, and the terms of the reward for it.
- `state`, `engine`, `block`, `propagate`, `report`: the engine.
- `meaning`, `lucid`: transition systems, and what it is for an answer to be true of one.
- `keeping`, `mic_laws`, `block_laws`, `propagate_laws`: what each procedure keeps on true answers.
- `laws`, `cube_laws`, `report_laws`: what verdicts, counterexamples, frames, generalized cubes and
  certificates mean.
- `effort_laws`, `verdict_laws`: how efforts compare, and what a verdict comes after.
- `steady_laws`, `queue_laws`: that true answers lead to no fault.
- `app/`: the bandit and the activities in floating point, logs, and printing.
