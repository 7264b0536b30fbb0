# cross-locks

Named, first-come-first-served, re-entrant locks.

`src/` is the verified library. It holds what the locks decide between two waits
and never waits itself:

| Module      | Holds                                                              |
|-------------|--------------------------------------------------------------------|
| `table`     | the waiting lines of all lock names                                |
| `fifo`      | the calls of the first-come-first-served lock                      |
| `fairness`  | mutual exclusion, order of service and progress, over all calls    |
| `holders`   | the same for re-entrant tasks and for guards                       |
| `reentry`   | re-entry by task and name                                          |
| `navigator` | the lock of a browser page, by `navigator.locks`                   |
| `names`     | sets of lock names                                                 |
| `noop`      | the passthrough lock                                               |
| `guard`     | guards that hold a lock until they are released                    |
| `error`     | the errors and their texts                                         |
| `timing`    | what the locks read of a `Duration`                                |

`app/` is the asynchronous interface on Tokio and in the browser. It awaits, sleeps
and spawns, and asks the library what to do next.
