# vitals

Live per-process resource monitoring with user-defined alerting, read from
`/proc`. The library under `src/` is verified with Verus; the program under
`app/` does the reading, the sleeping and the printing around it.

| module      | what it holds                                                      |
|-------------|--------------------------------------------------------------------|
| `text`      | characters, lines, words, searching                                |
| `numbers`   | integers in decimal                                                |
| `natural`   | natural numbers of any size                                        |
| `binary64`  | IEEE 754 binary64 numbers: exact operations, rounded once          |
| `decimal`   | binary64 numbers in decimal, read and written                      |
| `time`      | spans of time and monotonic instants                               |
| `units`     | system constants, sizes and durations                              |
| `procfs`    | the files of `/proc`                                               |
| `table`     | a map kept in the order of its keys                                |
| `sample`    | one scan of the whole system, as a state machine of reads          |
| `delta`     | rates between two samples                                          |
| `rules`     | alert rules: their files and their engine                          |
| `alerting`  | what the rules and their engine promise, as proved laws            |
| `ring`      | bounded history                                                    |
| `sampler`   | sampling cycles, what they share, and the pauses between them      |
| `render`    | the terminal view and the JSON objects                             |
| `json`      | a reader of JSON, and that it reads what is rendered               |
| `cli`       | command-line options                                               |

Numbers that the kernel or a user gives as reals are `Binary64`: the bits of a
binary64 number, with every operation proved to give the nearest representable
number to the exact result. Functions that the proofs speak of as `law_...` state
what holds of the library as a whole.

Sums that could exceed a `u64` are excluded by a `requires`; next to each such
function stands one that tests for it (`in_range`, `checked_meminfo`, `diffable`,
`has_room`).
