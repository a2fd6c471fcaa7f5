# pipe_stream

An event-based mesoscopic traffic model: the LWR model with a triangular
fundamental diagram, solved exactly by discrete events, with a queue of its own
for every lane group ("pipe") of a link. The library is written in Rust and
verified with Verus.

## What is verified

`src/` is the library. Its functions have contracts, which Verus proves.

| Module | What it holds |
|---|---|
| `double` | IEEE 754 double precision in integer arithmetic; every operation is proved to return the nearest double of the exact result |
| `model` | links, pipes, nodes, vehicles, demand; the ledger of storage slots |
| `events`, `simulation` | the event queue and the solver, specified as a function from state to state |
| `invariants`, `fifo`, `permits`, `journeys`, `supply`, `inertness` | laws of whole runs: storage, clock, order within a pipe, permissions, trips, headway and slots, entries after the horizon |
| `validation` | when a scenario is well-formed, and what is reported where it is not |
| `json`, `io`, `geo` | reading a network, a demand and a configuration |
| `patch` | variants: closures, capacity changes, new links, time windows |
| `assignment`, `cost` | cheapest routes and the vehicles that a demand asks for |
| `pipeline` | from a scenario to a finished simulation |
| `analysis`, `xt_analysis`, `diagnostics`, `digest`, `escaping`, `report` | binned flow, density and speed, space-time diagrams, reports |
| `verification`, `audit`, `benchmarks`, `reference` | comparison with theory, with closed-form solutions and with counts |
| `requests` | what requests may ask for |
| `text`, `messages` | numbers in words; what errors, warnings and results say |

Times, lengths and rates are values of `Double`, whose `bits` are those of a
native double: `Double { bits: x.to_bits() }`.

## What is trusted

The library calls `serde_json` and `geojson` to read texts (`geo`), `petgraph`
to find routes (`assignment`), the format macro of `std` to write doubles and
lists (`text`) and the system clock (`requests`). Each call stands
behind a function whose comment says what is believed of it.

## Around the library

`app/` is the command line (`run`, `build`, `verify`) and an HTTP server
(`serve`) over the projects below `./scenarios`. It reads and writes files,
parses requests and runs the server.

`tests/` runs the library.
