# corewar

A Core War (ICWS'94) engine that plays like pMARS 0.9.2, written in Verus:
the logic is proved against its contracts, the program around it is plain
Rust.

## Layout

| file | what |
|---|---|
| `src/redcode.rs` | opcodes, modifiers, modes, instructions, warriors, listings |
| `src/assembler.rs` | the assembler: pMARS's tokenizer, expression evaluator, preprocessor (EQU, FOR/ROF, registers) and encoder |
| `src/model.rs` | the semantics of a MARS as spec functions: one step, a run, a round, a match |
| `src/mars.rs` | the plain engine, proved to step as the model says |
| `src/fast.rs` | the fast engine (8-byte cells, ring-buffer queues), proved to play the same matches |
| `src/ring.rs` | the core is a ring: battles do not depend on absolute addresses |
| `src/multi.rs` | two matches interleaved step by step, proved to score each as the fast engine does |
| `src/trace.rs` | a match with the core's writes recorded, round by round |
| `src/hill.rs` | the rules of a hill: ids, fingerprints, pairings, seeds, records, ranking |
| `src/tournament.rs` | the round robin of `cw tournament`: pairs, seeds, points, order |
| `src/report.rs` | what the program reports |
| `app/` | the command line `cw`, the thread pool, and a hill kept in a directory |
| `tests/` | tests on concrete values |

## What is proved

Besides the absence of overflow and out-of-bounds access everywhere:

* each step of either engine is the model's step, and keeps the state
  well formed (fields inside the core, no warrior past the process limit);
* the fast engine and the interleaved lanes score every match, and count its
  instructions, exactly as the plain engine does;
* a battle is the same battle with both warriors moved round the core, and
  depends on the engine only through its rules;
* a trace's frames come every `every` cycles and list exactly the cells the
  round's instructions wrote since the previous frame, each with its last
  writer;
* the expression evaluator computes pMARS's value, status and registers;
* reading a source (fgets-sized lines, `\` continuations, `;redcode`
  framing, `;name`, `;author`, `;assert`) gives the lines, name and author
  that `read_from` states, and an assembled warrior carries that name and
  author;
* a hill ranks by score, then its tie rule, keeps its size, and keys every
  match the same way whatever order its warriors arrive in; over a complete
  table its members' wins add up to their losses.

* the second pass of the assembler is stated exactly: each rewritten line is
  parsed by the line automaton (`auto`, `shell`), its fields evaluated A
  then B and folded into the core, ORG/END/PIN set the start and the PIN,
  with every message it reports (`enc_all`);
* the position generator is Park and Miller's `16807 * seed mod (2^31 - 1)`.

What is not proved: which program the assembler makes of a source as a
whole. The reading pass and the second pass are stated exactly, but the
rewriting pass (labels, EQU, FOR/ROF, `&counter`) is stated only in part,
so the public `assemble` and `assemble_full` promise the name, the author,
the size limit's error and that what they return fits the core and the
length limit, not the instructions. The tests check whole sources on
examples.
