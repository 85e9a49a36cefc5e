# nemesis

The decision logic of the NEMESIS GPU-cluster control plane, verified with
Verus.

`src/` is the library:

| module | contents |
|---|---|
| `ring` | fixed-capacity per-GPU telemetry ring (36 000 samples) |
| `telemetry` | the rings of all GPUs, keyed by gpu_id |
| `text` | decimal rendering and parsing, trimming, splitting, replacing |
| `lexer`, `parser`, `checker` | the topology DSL (`TP8_NVL12+PP4_IB2\|TP8_NVL6`) |
| `graph` | the cluster topology over a `petgraph` undirected graph, NVLink clique and InfiniBand path search |
| `solver` | placement of a DSL spec on the graph |
| `scheduler` | validation, scheduling and release of jobs, GPU reservations |
| `nccl` | communicator backends: the seeded simulator and the hardware shrink protocol's decisions |
| `healer` | playbook execution, job registry, playbook library ordering |
| `simcluster` | the simulated cluster's topology |

`app/` holds the process around it: locks, timers, the event bus, YAML
files, floating-point models and the NCCL library call.

Bandwidths are whole GB/s throughout the library.
