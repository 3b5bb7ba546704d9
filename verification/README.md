# matchmaker

A real-time 5v5 competitive matchmaker. It keeps waiting players in an in-memory,
skill-sharded pool and continuously pulls them into balanced matches.

The decisions are a library verified with [Verus](https://github.com/verus-lang/verus);
threads, locks, floating point and printing are a thin program around it.

| module       | what it decides                                                            |
|--------------|----------------------------------------------------------------------------|
| `axis`       | how the skill axis is cut into shards, and which shards a band reaches      |
| `arrivals`   | the tickets of waiters: who came when, and who has waited how long          |
| `shard`      | one skill-ordered bucket of waiters, on top of `BTreeMap` and `BTreeSet`    |
| `nearest`    | which waiters a match would rather have: the nearest, then who came first   |
| `lobby`      | when the waiters around a seed become a match                               |
| `pool`       | the shards together: the next seed, and taking a match out                  |
| `acceptance` | when a group becomes a match: all fit inside the band of its oldest member  |
| `relaxation` | what the band promises, and what it means that it widens                    |
| `locking`    | why locking the shards in reach, in ascending order, is enough              |
| `balance`    | the fairest split of a group into two teams                                 |
| `engine`     | enqueueing, match attempts, the record of matches                           |
| `history`    | what holds over the whole life of an engine                                 |
| `metrics`    | what is counted                                                             |
| `recent`     | the bounded log of recent matches                                           |
| `pacing`     | how a worker backs off when there is nothing to match                       |
| `rng`, `sim` | the load generator: random skills, shares of players, when draining ends    |
| `clock`      | the only readings of the clock                                              |

Each module states its contracts next to the code. The public `law_*` proof functions state
what holds of the library as a whole: that a split is optimal, that no player is in two
matches however many arrive in between (as long as nobody is enqueued twice), that players
are conserved, that everyone has their turn as the seed of an attempt, that a full match of
waiters who fit inside the band of the oldest of them is not left waiting, and that a wider
band or a longer wait never costs a match.

An attempt tries one seed. Each shard remembers the place in line of the last seed that it
left waiting, and its next seed stands behind that place.

How wide the band is after a given wait is a function that the caller hands in. Contracts
hold of every such function.

`app/` holds the concurrent engine (one lock per shard, taken in ascending order), that
function, `band(wait) = min(base_window + relax_per_sec * wait, max_window)`, and the load
test:

```
matchmaker                                           # demo
matchmaker simulate [players] [producers] [workers]  # load test
```
