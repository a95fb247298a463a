# argos_runner

Runs batches of ARGoS swarm-robotics experiments and collects what the robots'
Buzz scripts print.

The verified library (`src/`) holds the decisions:

- `config`: the stepped range of robot counts (`RangeU32::iter`) and the runner settings.
- `plan`: the experiment grid (every algorithm, arena type and robot count,
  repeated), handed out in a random order, with the tick totals.
- `maze`: perfect mazes carved by randomized depth-first search; the contract
  states that the walls left form a spanning tree of the grid.
- `monitor`: reading one simulator output line (`BUZZ:` records, map records,
  tick progress in batches), and the accounting of progress over a whole run.
- `text`: the character-level operations the monitor needs.
- `arena`: which kind of arena a configured name selects.

The program (`app/`) reads `config.toml`, samples the floating-point arena
parameters, lays out walls in metres, writes the ARGoS files, starts `argos3`
for every run in parallel and shows progress bars.
