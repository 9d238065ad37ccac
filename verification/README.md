# kubesavings-agent

An agent that runs as a CronJob in a Kubernetes cluster, reads its nodes, workloads
and current usage, and sends one snapshot to the KubeSavings backend.

The library under `src/` holds everything that decides or computes, and is verified
with Verus:

| Module | What it holds |
|---|---|
| `config` | the configuration that the environment makes, its rules and its errors |
| `collector` | the names that a collection pass uses, from the modules below |
| `quantity`, `decimal`, `binary` | CPU and memory quantities as whole millicores and MiB |
| `nodes` | node pools, the primary region and the cloud provider |
| `autoscaler` | HorizontalPodAutoscalers and KEDA ScaledObjects, by the workload they scale |
| `pods` | pod owners, activity, and the health of workloads |
| `usage` | what the metrics server reports, by workload and container |
| `workload`, `snapshot` | the rows of a snapshot, and the snapshot itself |
| `degradations` | the subsystems that a pass could not read |
| `sender` | the request, what a reply means, and when to try again |
| `json`, `table`, `text`, `time` | the data that the others work on |

Properties of the library as a whole are public proof functions whose names start
with `law_`, beside the functions they speak of.

`app/` is the program around it: it lists objects from the API server, prices the
rows in floating point, encodes the snapshot and sends it. `tests/` runs the library.
