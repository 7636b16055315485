# pairing

A study of pairing strategies in genetic algorithms, on the travelling
salesman problem and on route optimisation and flow assignment in networks,
with a dashboard that filters and plots the saved results.

The library in `src/` is written in Verus and proved against its contracts:

- `settings`: problem and pairing settings and their descriptions.
- `tsp`: round trips as permutations, edge-preserving crossover, swap mutation.
- `ga`: parent selection by index, the pairing strategies, survivors.
- `network`, `routing`, `capacity`, `rofa`: networks, shortest routes by
  breadth-first search, routing and capacity plans, their crossover, mutation
  and link loads.
- `experiments`: the experiment grids and the bookkeeping of runs.
- `synchronization`: the semaphore that bounds queued runs.
- `results`, `json`, `plot_settings`, `dashboard`: the dashboard's index of
  result files, the parsing of their texts and the settings its plots
  filter on.
- `random`, `text`, `math`, `permutation`: draws from `rand`, text, tables.

`app/` is the simulation program around it: the genetic algorithm's
floating point fitness, statistics, threads, files and progress bars, and
the reading of result files from disk, whose texts the library parses.
`tests/` holds the tests.
