# restate_util

Two pieces of a node, written and verified in Verus.

**A fair queue of lanes.** Each lane has a slot for one item, which its senders
share. A scheduler picks the lane whose item the receiver gets next;
`RoundRobinScheduler` serves the lanes in the order in which they became ready.
Nothing in the library blocks: operations keep and hand out wakers of any type.

**The configuration as a table.** A configuration, as a JSON value, is flattened
to rows of a dotted key and a JSON text, which are handed out in batches.

| Path | What it holds |
| --- | --- |
| `src/scheduler.rs` | `LaneScheduler` and the round-robin scheduler |
| `src/lane.rs`, `src/lane_table.rs` | a lane, and the open lanes by id |
| `src/queue_state.rs` | the state of a queue, and what each operation does to it |
| `src/queue.rs` | the operations |
| `src/queue_laws.rs` | what holds over any number of operations |
| `src/json_tree.rs` | JSON values as trees, and their rows |
| `src/config_scan.rs` | the rows of a configuration in batches |
| `src/config_laws.rs` | what holds of rows and batches |
| `tests/` | tests of the library |
| `app/` | the queue behind a lock, as futures and a stream; the table for DataFusion |

The functions marked `external_body` call the crates `slab` and `serde_json` and
`HashMap::retain`. Their contracts are taken on trust; everything else in `src/`
is proved. What is proved of a queue holds with a scheduler that meets the
contract of `LaneScheduler`, as `RoundRobinScheduler` is proved to do. Verus does
not see `app/`, nor a scheduler that is written elsewhere: the author of one has to
make sure that it meets that contract.
