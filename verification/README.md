# bcounter

Bounded counters for distributed capacity quotas: enforce "no more than `limit` in total" across a
cluster where every node accepts writes, without a round trip on the write path. Written in Rust
and verified with Verus.

Two designs stand side by side, because one cannot have both no overshoot and no false denial:

| | admits a write when | its error |
|---|---|---|
| `BCounter`, `BCounterMap` | this node's view of the usage leaves room | overshoot, by at most what was not yet heard of |
| `Escrow`, `EscrowMap` | this node holds unused rights that a `Quota` lent it | false denial; the limit is never exceeded |

## Layout

- `src/` is the library. Every function in it is verified; nothing is trusted.
  - `slots`, `counter`, `map`: the optimistic counter and its map of scopes. `replicas`: counters
    that write and merge one another in any order.
  - `ledger`, `quota`, `pool`: who was lent how much, and the lenders' contract.
  - `escrow`, `escrow_map`: counters that spend only what they were lent. `fleet`: such counters
    and their lender, whatever they do.
  - `wire`: usage reports as bytes.
  - `overshoot`, `gossip`, `gossip_laws`, `gossip_runs`, `lease`: the simulators' state machines,
    with what every run keeps. `queue` and `rng` serve them.
  - `keys`, `sums`: lawful map keys, and sums over finite sets.
- `tests/` runs the library on concrete values.
- `app/` is the simulators' shell: floating point, printing, and the calls into the
  [`plumtree`](https://github.com/kostja/plumtree) broadcast tree and the
  [`leasetree`](https://github.com/kostja/leasetree) lease machine, both of which it needs to
  build.

## Where the promises stand

Look for proof functions named `law_..`. A few:

- `counter::law_overshoot_is_at_most_the_unheard`
- `fleet::law_no_deeds_exceed_the_ceiling`
- `replicas::law_any_interleaving_adds_up`, `overshoot::law_any_run`
- `slots::law_all_merge_orders_converge`, `slots::law_complete_reports_are_exact`
- `map::law_a_charge_lands_on_every_level`
- `gossip_laws::law_enforcement`, `gossip_laws::law_a_report_that_gets_through_is_known`
- `gossip_runs::law_the_total_holds_over_a_run`,
  `gossip_runs::law_views_converge_on_the_true_total`
- `lease::laws::law_leadership_stays_with_an_active_node`
