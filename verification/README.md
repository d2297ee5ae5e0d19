# reed

The judge for verifiable-evidence graphs, with the parts of the judging run
that involve no arithmetic proved in Verus.

- `src/record.rs`: the evidence records and the judging knobs as plain
  values; basis inclusion and scale lookup.
- `src/claims.rs`: which records are claims, and the edges of the bipolar
  graph.
- `src/program.rs`: the records flattened into a Datalog program, with ids
  interned as atoms.
- `src/judging.rs`: the plan of a run, the per-claim queries, admission.
- `src/report.rs`: the tiered Markdown report.
- `src/text.rs`: character helpers.
- `app/`: the float scoring (DF-QuAD, log-odds, contestedness), the
  saturation of the program under a semiring, and the `reed-report` CLI.
