# karstd

The node agent of the Karst mesh network, written in Rust and verified with
Verus. The library under `src/` holds what the agent decides; everything in it
carries a contract that Verus proves. The program under `app/` reads files,
talks to sockets and to the host, and hands the library plain values.

Where the agent alternates work on the host with decisions (raising an exit
route, granting a gateway, replacing a secret file, enrolling a node), the
library is a state machine: it names the next step, `app/` performs it and
reports what happened.

## Modules

| Module | What it decides |
| --- | --- |
| `config`, `routing`, `addr` | the roster, from a file or a netmap, and who owns which addresses |
| `engine` | the datapath: routes, ways to a peer, handshakes, what reaches the host |
| `filter`, `flow` | the packet filter, the SSH gate, and the flows that replies belong to |
| `disco`, `candidates` | endpoint discovery and the candidates that are advertised |
| `home` | which relay is home |
| `control`, `crypto`, `random`, `secrets` | the control channel, this node's identity, and secrets on disk |
| `enrollment` | enrolling from a bundle or an invitation |
| `bedrock` | the signed log of policy, its frames, and divergence |
| `dns`, `nat64` | the mesh zone, the host's resolver, and NAT64 |
| `exit_node`, `exit_policy`, `gateway` | exit routes, their stages, and granted forwarding |
| `ipc`, `cli`, `metrics_http` | the control socket, the command line, and the metrics listener |
| `bytes`, `text` | byte strings and text |

Public `proof fn`s state what holds of several functions together: their doc
comments say it in words. Calls into other crates stand behind small functions
whose doc comments say what is taken on trust.
