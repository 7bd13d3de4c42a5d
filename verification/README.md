# nanorod

A simulator of the Brownian motion of a rod with a dipole in a periodic two-dimensional channel,
under a constant force and a constant field. It measures first passage times, mobility and
effective diffusion, either by trials that end with their first passage of one period
(`first_passage`) or by trials that all run for the same time (`fixed_time`).

The logic is a library verified with Verus (`src/`). Around it stands an ordinary program (`app/`)
that reads the configuration, runs threads and devices, writes files and draws windows.

## How numbers are treated

Doubles pass through the library as bit patterns (`double::Double`). Comparisons, signs and bounds
are computed on the patterns and proved. Every other operation (sums, sines, roundings) is an
operation of the `formula::Arithmetic` trait, of which nothing is presumed. A formula is an
expression; a contract says that a result is a value of that expression, evaluated operation by
operation in its order. Where a statement needs that an operation gives one result for one input, it
says so (`formula::steady`); the symmetries say what they need of signs (`symmetry::keeps_signs`,
`symmetry::turns_signs`), and the ratios what they need of rounding (`scaling::rounds_within`).

## Modules

| Module | What it holds |
| --- | --- |
| `double`, `formula`, `text` | bit patterns, formulas and their evaluation, texts |
| `config`, `fraction`, `cases` | configuration, fractions such as "1/3", expansion into cases, seeds |
| `model`, `channel`, `rng` | diffusion and summaries, walls and reflections, random numbers |
| `simulation`, `passages` | the course of a rod, and what is recorded of its first passage |
| `trial` | one trial of a case |
| `histogram`, `case_run` | where rods have been, and the collection of all trials of a case |
| `gpu`, `device_run` | launch parameters, collection and schedule of one device |
| `device_course` | what holds over a whole run of a device |
| `runner` | workers, their reports, and what is written when |
| `renderer`, `cpu_sim`, `animation` | the state of two animation windows |
| `repeat` | a case determines its results, however its trials are shared out |
| `symmetry` | the two walls, and the two ends of a rod without a dipole |
| `scaling` | ratios of rods do not depend on the reference rod |

Public proof functions named `law_…` state what holds across functions.

## The program

    nanorod [--config config.toml] [--gpu] [run | animate | display]

`run` simulates all combinations of the lists `m`, `gamma`, `delta` and `f` of the configuration and
writes one directory for each case. With `--gpu` the trials run on CUDA devices, with the kernels in
`kernels/simulation.cu`. `animate` shows one rod; `display` shows a rod without reflections at an
adjustable speed.
