# flowlog

A Datalog engine whose front end, planner and row logic are verified with Verus.

A program is read off a parse tree, its rules are put into strata, each rule is
planned as a tree of joins, semijoins and antijoins, equal steps of different rules
are shared, and the plan becomes the stages of a dataflow. The library states what
each of these parts does and proves it. Among other things it proves that the steps
of the plan of a rule put out the rows that the rule says and no others, that
nothing is lost where rules share steps, that rewriting a rule to pass values
sideways keeps what it says, that the strata in their order give what the program
says and, without negation and aggregation, no more than it must, that what a stage
needs is there when the stages are put together, and that the operations of a stage,
in a loop or not, evaluate its stratum. Of programs made of blocks it proves that the
relation of an output holds the value that the output refers to, and nothing else, and
that this value is what is shown.

Columns hold numbers. Texts are numbered in a table: the constants of a program and the
fields of `string` columns become their numbers when they are read, and columns are
decoded when they are written.

## Layout

- `src/parsing`: declarations, rules and programs, read off parse trees
- `src/strata`: which rules depend on which, and the strata
- `src/catalog`: what a planner asks of a rule, and the rewriting of rules
- `src/optimizing`: in which order the atoms of a rule are joined
- `src/planning`: the steps of rules, of groups of rules and of programs
- `src/reading`: rows, lines of facts, texts as numbers (`interner`), times and least
  values
- `src/executing`: what steps do to rows, the stages of a dataflow, and what plans
  derive (`meaning`, `heads`, `answers`, `deriving`, `plans`, `operators`, `names`,
  `running`, `carrying`, `rewriting`, `evaluating`, `wiring`, `staging`, `acting`,
  `performing`, `stages`)
- `src/compiler`, `src/hcl_types.rs`, `src/reference.rs`: programs made of blocks,
  which become facts and rules, what they are asked for (`asking`), and what they then
  show (`resolving`, `stating`, `showing`, `telling`)
- `app`: the command line, files, and the dataflow on `timely` and
  `differential-dataflow`
- `tests`: the library used from outside
