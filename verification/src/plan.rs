use vstd::prelude::*;
use crate::config::{RangeU32, RunnerConfig, stepped_count};
use crate::random::shuffle;
use vstd::seq_lib::group_to_multiset_ensures;

verus! {

/// One run of the experiment grid: the algorithm and the arena type, as
/// positions in the configuration's lists, and the number of robots.
#[derive(Clone, Copy, Debug, PartialEq, Eq, Structural)]
pub struct RunSlot {
    pub algorithm: usize,
    pub arena_type: usize,
    pub robots: u32,
}

/// The runs of an experiment and the ticks they take.
pub struct RunPlan {
    /// The runs, in the random order in which they are handed out.
    pub slots: Vec<RunSlot>,
    /// Ticks of every run: its length in seconds times the ticks per second.
    pub total_ticks: u32,
    /// Ticks of all runs together.
    pub total_global_ticks: u64,
}

/// `n` copies of `s`.
pub open spec fn repeated(s: RunSlot, n: nat) -> Seq<RunSlot> {
    Seq::new(n, |i: int| s)
}

/// For algorithm `a` and arena type `t`: `n` runs for each robot count, in order.
pub open spec fn robot_slots(a: usize, t: usize, robots: Seq<u32>, n: nat) -> Seq<RunSlot>
    decreases robots.len(),
{
    if robots.len() == 0 {
        Seq::empty()
    } else {
        robot_slots(a, t, robots.drop_last(), n) + repeated(
            RunSlot { algorithm: a, arena_type: t, robots: robots.last() },
            n,
        )
    }
}

/// For algorithm `a`: the runs of the first `n_arena_types` arena types, in order.
pub open spec fn arena_slots(a: usize, n_arena_types: nat, robots: Seq<u32>, n: nat) -> Seq<RunSlot>
    decreases n_arena_types,
{
    if n_arena_types == 0 {
        Seq::empty()
    } else {
        arena_slots(a, (n_arena_types - 1) as nat, robots, n) + robot_slots(
            a,
            (n_arena_types - 1) as usize,
            robots,
            n,
        )
    }
}

/// The experiment grid in loop order: every algorithm, within it every arena
/// type, within that every robot count, each repeated `n` times.
pub open spec fn grid_slots(n_algorithms: nat, n_arena_types: nat, robots: Seq<u32>, n: nat) -> Seq<
    RunSlot,
>
    decreases n_algorithms,
{
    if n_algorithms == 0 {
        Seq::empty()
    } else {
        grid_slots((n_algorithms - 1) as nat, n_arena_types, robots, n) + arena_slots(
            (n_algorithms - 1) as usize,
            n_arena_types,
            robots,
            n,
        )
    }
}

/// The number of runs of the grid.
pub open spec fn run_count(n_algorithms: nat, n_arena_types: nat, robots: &RangeU32, runs_per_config: nat) -> nat {
    if n_algorithms == 0 || n_arena_types == 0 {
        0
    } else {
        n_algorithms * n_arena_types * stepped_count(robots.min, robots.max, robots.step) * runs_per_config
    }
}

proof fn lemma_robot_slots_len(a: usize, t: usize, robots: Seq<u32>, n: nat)
    ensures
        robot_slots(a, t, robots, n).len() == robots.len() * n,
    decreases robots.len(),
{
    if robots.len() > 0 {
        lemma_robot_slots_len(a, t, robots.drop_last(), n);
        assert(robots.len() * n == (robots.len() - 1) * n + n) by (nonlinear_arith)
            requires
                robots.len() > 0,
        ;
    } else {
        assert(robots.len() * n == 0) by (nonlinear_arith)
            requires
                robots.len() == 0,
        ;
    }
}

proof fn lemma_arena_slots_len(a: usize, n_arena_types: nat, robots: Seq<u32>, n: nat)
    ensures
        arena_slots(a, n_arena_types, robots, n).len() == n_arena_types * (robots.len() * n),
    decreases n_arena_types,
{
    if n_arena_types > 0 {
        lemma_arena_slots_len(a, (n_arena_types - 1) as nat, robots, n);
        lemma_robot_slots_len(a, (n_arena_types - 1) as usize, robots, n);
        assert(n_arena_types * (robots.len() * n) == (n_arena_types - 1) * (robots.len() * n)
            + robots.len() * n) by (nonlinear_arith)
            requires
                n_arena_types > 0,
        ;
    } else {
        assert(n_arena_types * (robots.len() * n) == 0) by (nonlinear_arith)
            requires
                n_arena_types == 0,
        ;
    }
}

proof fn lemma_grid_slots_len(n_algorithms: nat, n_arena_types: nat, robots: Seq<u32>, n: nat)
    ensures
        grid_slots(n_algorithms, n_arena_types, robots, n).len() == n_algorithms * n_arena_types
            * robots.len() * n,
    decreases n_algorithms,
{
    if n_algorithms > 0 {
        lemma_grid_slots_len((n_algorithms - 1) as nat, n_arena_types, robots, n);
        lemma_arena_slots_len((n_algorithms - 1) as usize, n_arena_types, robots, n);
        assert(n_algorithms * n_arena_types * robots.len() * n == (n_algorithms - 1) * n_arena_types
            * robots.len() * n + n_arena_types * (robots.len() * n)) by (nonlinear_arith)
            requires
                n_algorithms > 0,
        ;
    } else {
        assert(n_algorithms * n_arena_types * robots.len() * n == 0) by (nonlinear_arith)
            requires
                n_algorithms == 0,
        ;
    }
}

/// The runs of the experiment grid in loop order: for every algorithm, every
/// arena type and every robot count of `robots`, `runs_per_config` runs.
pub fn ordered_run_slots(
    n_algorithms: usize,
    n_arena_types: usize,
    robots: &RangeU32,
    runs_per_config: usize,
) -> (slots: Vec<RunSlot>)
    requires
        n_algorithms > 0 && n_arena_types > 0 ==> robots.step > 0,
        run_count(n_algorithms as nat, n_arena_types as nat, robots, runs_per_config as nat)
            <= usize::MAX,
    ensures
        slots@ == grid_slots(
            n_algorithms as nat,
            n_arena_types as nat,
            robots.values(),
            runs_per_config as nat,
        ),
        slots@.len() == run_count(
            n_algorithms as nat,
            n_arena_types as nat,
            robots,
            runs_per_config as nat,
        ),
{
    let mut out: Vec<RunSlot> = Vec::new();
    if n_algorithms == 0 || n_arena_types == 0 {
        proof {
            if n_algorithms == 0 {
                assert(grid_slots(0, n_arena_types as nat, robots.values(), runs_per_config as nat)
                    =~= Seq::<RunSlot>::empty());
            } else {
                lemma_grid_slots_len(
                    n_algorithms as nat,
                    0,
                    robots.values(),
                    runs_per_config as nat,
                );
                assert(n_algorithms * 0 * robots.values().len() * runs_per_config == 0)
                    by (nonlinear_arith);
            }
        }
        return out;
    }
    let counts = robots.iter();
    let ghost rs = counts@;
    let ghost n = runs_per_config as nat;
    proof {
        lemma_grid_slots_len(n_algorithms as nat, n_arena_types as nat, rs, n);
    }
    let mut a: usize = 0;
    while a < n_algorithms
        invariant
            a <= n_algorithms,
            rs == counts@,
            n == runs_per_config,
            out@ == grid_slots(a as nat, n_arena_types as nat, rs, n),
            grid_slots(n_algorithms as nat, n_arena_types as nat, rs, n).len() <= usize::MAX,
        decreases n_algorithms - a,
    {
        let ghost before_a = out@;
        proof {
            lemma_grid_slots_len(a as nat, n_arena_types as nat, rs, n);
            lemma_grid_slots_len((a + 1) as nat, n_arena_types as nat, rs, n);
            lemma_grid_len_grows(a as nat, n_algorithms as nat, n_arena_types as nat, rs, n);
        }
        let mut t: usize = 0;
        assert(before_a + arena_slots(a, 0, rs, n) =~= before_a);
        while t < n_arena_types
            invariant
                a < n_algorithms,
                t <= n_arena_types,
                rs == counts@,
                n == runs_per_config,
                before_a == grid_slots(a as nat, n_arena_types as nat, rs, n),
                out@ == before_a + arena_slots(a, t as nat, rs, n),
                before_a.len() + arena_slots(a, n_arena_types as nat, rs, n).len() <= usize::MAX,
            decreases n_arena_types - t,
        {
            let ghost before_t = out@;
            proof {
                lemma_arena_len_grows(a, (t + 1) as nat, n_arena_types as nat, rs, n);
            }
            let mut b: usize = 0;
            assert(robot_slots(a, t, rs.take(0), n) =~= Seq::<RunSlot>::empty());
            assert(before_t + robot_slots(a, t, rs.take(0), n) =~= before_t);
            while b < counts.len()
                invariant
                    t < n_arena_types,
                    b <= counts@.len(),
                    rs == counts@,
                    n == runs_per_config,
                    out@ == before_t + robot_slots(a, t, rs.take(b as int), n),
                    before_t.len() + robot_slots(a, t, rs, n).len() <= usize::MAX,
                decreases counts.len() - b,
            {
                let slot = RunSlot { algorithm: a, arena_type: t, robots: counts[b] };
                let ghost before_b = out@;
                proof {
                    assert(rs.take(b + 1).drop_last() =~= rs.take(b as int));
                    lemma_robot_prefix_len(a, t, rs, (b + 1) as int, n);
                    lemma_robot_slots_len(a, t, rs.take(b as int), n);
                    lemma_robot_slots_len(a, t, rs.take(b + 1), n);
                }
                let mut k: usize = 0;
                assert(before_b + repeated(slot, 0) =~= before_b);
                while k < runs_per_config
                    invariant
                        k <= runs_per_config,
                        out@ == before_b + repeated(slot, k as nat),
                        before_b.len() + runs_per_config <= usize::MAX,
                    decreases runs_per_config - k,
                {
                    out.push(slot);
                    assert(repeated(slot, (k + 1) as nat) =~= repeated(slot, k as nat).push(slot));
                    assert(before_b + repeated(slot, (k + 1) as nat) =~= (before_b + repeated(
                        slot,
                        k as nat,
                    )).push(slot));
                    k += 1;
                }
                proof {
                    let t1 = rs.take(b + 1);
                    assert(t1.last() == counts@[b as int]);
                    assert(robot_slots(a, t, t1, n) == robot_slots(a, t, t1.drop_last(), n)
                        + repeated(slot, n));
                    assert(out@ =~= before_t + robot_slots(a, t, t1, n));
                }
                b += 1;
            }
            proof {
                assert(rs.take(rs.len() as int) =~= rs);
                assert(out@ =~= before_a + arena_slots(a, (t + 1) as nat, rs, n));
            }
            t += 1;
        }
        proof {
            assert(out@ =~= grid_slots((a + 1) as nat, n_arena_types as nat, rs, n));
        }
        a += 1;
    }
    proof {
        assert(rs.len() == stepped_count(robots.min, robots.max, robots.step));
    }
    out
}

proof fn lemma_robot_prefix_len(a: usize, t: usize, robots: Seq<u32>, b: int, n: nat)
    requires
        0 <= b <= robots.len(),
    ensures
        robot_slots(a, t, robots.take(b), n).len() <= robot_slots(a, t, robots, n).len(),
{
    lemma_robot_slots_len(a, t, robots.take(b), n);
    lemma_robot_slots_len(a, t, robots, n);
    assert(b * n <= robots.len() * n) by (nonlinear_arith)
        requires
            0 <= b <= robots.len(),
    ;
}

proof fn lemma_arena_len_grows(a: usize, t: nat, n_arena_types: nat, robots: Seq<u32>, n: nat)
    requires
        t <= n_arena_types,
    ensures
        arena_slots(a, t, robots, n).len() <= arena_slots(a, n_arena_types, robots, n).len(),
        t > 0 ==> arena_slots(a, (t - 1) as nat, robots, n).len() + robot_slots(
            a,
            (t - 1) as usize,
            robots,
            n,
        ).len() <= arena_slots(a, n_arena_types, robots, n).len(),
    decreases n_arena_types - t,
{
    lemma_arena_slots_len(a, t, robots, n);
    lemma_arena_slots_len(a, n_arena_types, robots, n);
    let m = robots.len() * n;
    assert(t * m <= n_arena_types * m) by (nonlinear_arith)
        requires
            t <= n_arena_types,
            m >= 0,
    ;
}

proof fn lemma_grid_len_grows(a: nat, n_algorithms: nat, n_arena_types: nat, robots: Seq<u32>, n: nat)
    requires
        a < n_algorithms,
    ensures
        grid_slots(a, n_arena_types, robots, n).len() + arena_slots(
            a as usize,
            n_arena_types,
            robots,
            n,
        ).len() <= grid_slots(n_algorithms, n_arena_types, robots, n).len(),
{
    lemma_grid_slots_len(a, n_arena_types, robots, n);
    lemma_grid_slots_len(n_algorithms, n_arena_types, robots, n);
    lemma_arena_slots_len(a as usize, n_arena_types, robots, n);
    let t = n_arena_types as int;
    let b = robots.len() as int;
    let k = n as int;
    assert(a * t * b * k + t * (b * k) <= n_algorithms * t * b * k) by (nonlinear_arith)
        requires
            a < n_algorithms,
            t >= 0,
            b >= 0,
            k >= 0,
    ;
}

/// The runs of an experiment: `runner.runs_per_config` runs of every algorithm,
/// arena type and robot count of `robots`, handed out in a random order, with
/// the ticks each run and all runs together take.
pub fn plan_runs(
    runner: &RunnerConfig,
    n_algorithms: usize,
    n_arena_types: usize,
    robots: &RangeU32,
    length: u32,
    ticks_per_second: u32,
) -> (plan: RunPlan)
    requires
        n_algorithms > 0 && n_arena_types > 0 ==> robots.step > 0,
        run_count(n_algorithms as nat, n_arena_types as nat, robots, runner.runs_per_config as nat)
            <= usize::MAX,
        run_count(n_algorithms as nat, n_arena_types as nat, robots, runner.runs_per_config as nat)
            > 0 ==> length * ticks_per_second <= u32::MAX,
        run_count(n_algorithms as nat, n_arena_types as nat, robots, runner.runs_per_config as nat)
            * (length * ticks_per_second) <= u64::MAX,
    ensures
        plan.slots@.to_multiset() == grid_slots(
            n_algorithms as nat,
            n_arena_types as nat,
            robots.values(),
            runner.runs_per_config as nat,
        ).to_multiset(),
        plan.slots@.len() == run_count(
            n_algorithms as nat,
            n_arena_types as nat,
            robots,
            runner.runs_per_config as nat,
        ),
        plan.total_ticks == (if plan.slots@.len() > 0 {
            length * ticks_per_second
        } else {
            0
        }),
        plan.total_global_ticks == plan.slots@.len() * plan.total_ticks,
{
    let mut slots = ordered_run_slots(n_algorithms, n_arena_types, robots, runner.runs_per_config);
    let count = slots.len();
    let total_ticks: u32 = if count > 0 {
        length * ticks_per_second
    } else {
        0
    };
    proof {
        assert(count * total_ticks <= u64::MAX) by (nonlinear_arith)
            requires
                count > 0 ==> total_ticks == length * ticks_per_second,
                count == 0 ==> total_ticks == 0,
                count * (length * ticks_per_second) <= u64::MAX,
        ;
    }
    let total_global_ticks: u64 = (count as u64) * (total_ticks as u64);
    shuffle(&mut slots);
    RunPlan { slots, total_ticks, total_global_ticks }
}

// ----------------------------------------------------------------------------
// Every configuration gets its runs
// ----------------------------------------------------------------------------

/// How often `x` occurs in `s`.
spec fn occurrences(s: Seq<RunSlot>, x: RunSlot) -> nat
    decreases s.len(),
{
    if s.len() == 0 {
        0
    } else {
        occurrences(s.drop_last(), x) + if s.last() == x {
            1nat
        } else {
            0
        }
    }
}

proof fn lemma_occurrences_count(s: Seq<RunSlot>, x: RunSlot)
    ensures
        occurrences(s, x) == s.to_multiset().count(x),
    decreases s.len(),
{
    broadcast use group_to_multiset_ensures;

    if s.len() == 0 {
        assert(s.to_multiset() =~= vstd::multiset::Multiset::empty());
    } else {
        lemma_occurrences_count(s.drop_last(), x);
        assert(s.drop_last().push(s.last()) =~= s);
    }
}

proof fn lemma_occurrences_concat(a: Seq<RunSlot>, b: Seq<RunSlot>, x: RunSlot)
    ensures
        occurrences(a + b, x) == occurrences(a, x) + occurrences(b, x),
    decreases b.len(),
{
    if b.len() > 0 {
        lemma_occurrences_concat(a, b.drop_last(), x);
        assert((a + b).drop_last() =~= a + b.drop_last());
    } else {
        assert(a + b =~= a);
    }
}

proof fn lemma_occurrences_repeated(s: RunSlot, n: nat, x: RunSlot)
    ensures
        occurrences(repeated(s, n), x) == if s == x {
            n
        } else {
            0
        },
    decreases n,
{
    if n > 0 {
        lemma_occurrences_repeated(s, (n - 1) as nat, x);
        assert(repeated(s, n).drop_last() =~= repeated(s, (n - 1) as nat));
    } else {
        assert(repeated(s, n) =~= Seq::<RunSlot>::empty());
    }
}

proof fn lemma_occurrences_robots(a: usize, t: usize, robots: Seq<u32>, n: nat, x: RunSlot)
    requires
        robots.no_duplicates(),
    ensures
        occurrences(robot_slots(a, t, robots, n), x) == if x.algorithm == a && x.arena_type == t
            && robots.contains(x.robots) {
            n
        } else {
            0
        },
    decreases robots.len(),
{
    if robots.len() > 0 {
        let p = robots.drop_last();
        assert(p.no_duplicates());
        lemma_occurrences_robots(a, t, p, n, x);
        let s = RunSlot { algorithm: a, arena_type: t, robots: robots.last() };
        lemma_occurrences_concat(robot_slots(a, t, p, n), repeated(s, n), x);
        lemma_occurrences_repeated(s, n, x);
        assert(robots =~= p.push(robots.last()));
        if p.contains(x.robots) {
            let k = choose|k: int| 0 <= k < p.len() && p[k] == x.robots;
            assert(robots[k] == p[k]);
            assert(robots.last() != x.robots);
        }
        assert(robots.contains(x.robots) <==> (p.contains(x.robots) || robots.last() == x.robots));
    } else {
        assert(robot_slots(a, t, robots, n) =~= Seq::<RunSlot>::empty());
    }
}

proof fn lemma_occurrences_arena(a: usize, n_arena_types: nat, robots: Seq<u32>, n: nat, x: RunSlot)
    requires
        robots.no_duplicates(),
        n_arena_types <= usize::MAX + 1,
    ensures
        occurrences(arena_slots(a, n_arena_types, robots, n), x) == if x.algorithm == a
            && x.arena_type < n_arena_types && robots.contains(x.robots) {
            n
        } else {
            0
        },
    decreases n_arena_types,
{
    if n_arena_types > 0 {
        let t = (n_arena_types - 1) as usize;
        lemma_occurrences_arena(a, (n_arena_types - 1) as nat, robots, n, x);
        lemma_occurrences_concat(
            arena_slots(a, (n_arena_types - 1) as nat, robots, n),
            robot_slots(a, t, robots, n),
            x,
        );
        lemma_occurrences_robots(a, t, robots, n, x);
    } else {
        assert(arena_slots(a, n_arena_types, robots, n) =~= Seq::<RunSlot>::empty());
    }
}

proof fn lemma_occurrences_grid(
    n_algorithms: nat,
    n_arena_types: nat,
    robots: Seq<u32>,
    n: nat,
    x: RunSlot,
)
    requires
        robots.no_duplicates(),
        n_algorithms <= usize::MAX + 1,
        n_arena_types <= usize::MAX + 1,
    ensures
        occurrences(grid_slots(n_algorithms, n_arena_types, robots, n), x) == if x.algorithm
            < n_algorithms && x.arena_type < n_arena_types && robots.contains(x.robots) {
            n
        } else {
            0
        },
    decreases n_algorithms,
{
    if n_algorithms > 0 {
        let a = (n_algorithms - 1) as usize;
        lemma_occurrences_grid((n_algorithms - 1) as nat, n_arena_types, robots, n, x);
        lemma_occurrences_concat(
            grid_slots((n_algorithms - 1) as nat, n_arena_types, robots, n),
            arena_slots(a, n_arena_types, robots, n),
            x,
        );
        lemma_occurrences_arena(a, n_arena_types, robots, n, x);
    } else {
        assert(grid_slots(n_algorithms, n_arena_types, robots, n) =~= Seq::<RunSlot>::empty());
    }
}

/// The robot counts of a range with a positive stride are all different.
proof fn lemma_values_distinct(robots: &RangeU32)
    requires
        robots.step > 0,
    ensures
        robots.values().no_duplicates(),
{
    let v = robots.values();
    let step = robots.step as int;
    let min = robots.min as int;
    let max = robots.max as int;
    assert forall|i: int, j: int| 0 <= i < v.len() && 0 <= j < v.len() && i != j implies v[i] != v[j] by {
        if min <= max {
            let c = (max - min) / step;
            assert(v.len() == c + 1);
            assert(c * step <= max - min) by (nonlinear_arith)
                requires
                    c == (max - min) / step,
                    step > 0,
                    max - min >= 0,
            ;
            assert(i * step <= c * step && j * step <= c * step) by (nonlinear_arith)
                requires
                    0 <= i <= c,
                    0 <= j <= c,
                    step > 0,
            ;
            assert(i * step != j * step) by (nonlinear_arith)
                requires
                    i != j,
                    step > 0,
            ;
            assert(0 <= i * step && 0 <= j * step) by (nonlinear_arith)
                requires
                    0 <= i,
                    0 <= j,
                    step > 0,
            ;
        }
    }
}

/// Every combination of an algorithm, an arena type and a robot count of the
/// range gets exactly `runs_per_config` runs; nothing else gets any.
pub proof fn law_every_configuration_runs(
    n_algorithms: usize,
    n_arena_types: usize,
    robots: &RangeU32,
    runs_per_config: usize,
    slot: RunSlot,
)
    requires
        robots.step > 0,
    ensures
        grid_slots(
            n_algorithms as nat,
            n_arena_types as nat,
            robots.values(),
            runs_per_config as nat,
        ).to_multiset().count(slot) == if slot.algorithm < n_algorithms && slot.arena_type
            < n_arena_types && robots.values().contains(slot.robots) {
            runs_per_config as nat
        } else {
            0
        },
{
    lemma_values_distinct(robots);
    let g = grid_slots(n_algorithms as nat, n_arena_types as nat, robots.values(), runs_per_config as nat);
    lemma_occurrences_grid(
        n_algorithms as nat,
        n_arena_types as nat,
        robots.values(),
        runs_per_config as nat,
        slot,
    );
    lemma_occurrences_count(g, slot);
}

} // verus!
