use vstd::prelude::*;
use vstd::arithmetic::div_mod::lemma_fundamental_div_mod;
use crate::trainer::{next_of, Stage, Step, Trainer};

verus! {

/// The state of a run after at most `fuel` steps, or once it is finished.
pub open spec fn run_state(t: Trainer, fuel: nat) -> Trainer
    decreases fuel,
{
    if fuel == 0 || t.stage == Stage::Done {
        t
    } else {
        run_state(next_of(t).0, (fuel - 1) as nat)
    }
}

/// How many of the first `fuel` steps of a run store a snapshot.
pub open spec fn stores_in_run(t: Trainer, fuel: nat) -> nat
    decreases fuel,
{
    if fuel == 0 || t.stage == Stage::Done {
        0
    } else {
        (if next_of(t).1 is StoreStorer {
            1nat
        } else {
            0nat
        }) + stores_in_run(next_of(t).0, (fuel - 1) as nat)
    }
}

/// How many of the first `fuel` steps of a run refresh the trainers.
pub open spec fn changes_in_run(t: Trainer, fuel: nat) -> nat
    decreases fuel,
{
    if fuel == 0 || t.stage == Stage::Done {
        0
    } else {
        (if next_of(t).1 is ChangeTrainers {
            1nat
        } else {
            0nat
        }) + changes_in_run(next_of(t).0, (fuel - 1) as nat)
    }
}

/// How many of the first `fuel` steps of a run train against an opponent.
pub open spec fn trainings_in_run(t: Trainer, fuel: nat) -> nat
    decreases fuel,
{
    if fuel == 0 || t.stage == Stage::Done {
        0
    } else {
        (if next_of(t).1 is TrainAgainst {
            1nat
        } else {
            0nat
        }) + trainings_in_run(next_of(t).0, (fuel - 1) as nat)
    }
}

/// Trainings still to come in the generations of a run from `t` on.
pub open spec fn trainings_pending(t: Trainer) -> int {
    (if t.stage == Stage::Opponents {
        t.total_no - t.opponent
    } else {
        0
    }) + t.total_no * (t.iterations - t.generation - 1)
}

/// The number of generations in `a..g` that are multiples of `p`.
pub open spec fn multiples(a: int, g: int, p: int) -> nat
    decreases g - a,
{
    if a >= g {
        0
    } else {
        (if a % p == 0 {
            1nat
        } else {
            0nat
        }) + multiples(a + 1, g, p)
    }
}

/// Snapshots due in the current generation that are still to come.
pub open spec fn store_pending(t: Trainer) -> nat {
    if (t.stage == Stage::Opponents || t.stage == Stage::Snapshot) && t.generation % t.ghost_steps
        == 0 {
        1
    } else {
        0
    }
}

/// Refreshes due in the current generation that are still to come.
pub open spec fn change_pending(t: Trainer) -> nat {
    if (t.stage == Stage::Opponents || t.stage == Stage::Snapshot || t.stage == Stage::Refresh)
        && t.generation % t.reset_steps == 0 {
        1
    } else {
        0
    }
}

proof fn lemma_same_next(a: Trainer, b: Trainer, fuel: nat)
    requires
        next_of(a) == next_of(b),
        a.stage != Stage::Done,
        b.stage != Stage::Done,
    ensures
        run_state(a, fuel) == run_state(b, fuel) || fuel == 0,
        trainings_in_run(a, fuel) == trainings_in_run(b, fuel),
        stores_in_run(a, fuel) == stores_in_run(b, fuel),
        changes_in_run(a, fuel) == changes_in_run(b, fuel),
{
}

proof fn lemma_counts_in_loop(t: Trainer, fuel: nat)
    requires
        t.wf(),
        t.total_no > 0,
        t.stage == Stage::Opponents || t.stage == Stage::Snapshot || t.stage == Stage::Refresh
            || t.stage == Stage::Cleaning || t.stage == Stage::Done,
        run_state(t, fuel).stage == Stage::Done,
    ensures
        t.stage == Stage::Cleaning || t.stage == Stage::Done ==> stores_in_run(t, fuel) == 0
            && changes_in_run(t, fuel) == 0 && trainings_in_run(t, fuel) == 0,
        t.stage != Stage::Cleaning && t.stage != Stage::Done ==> trainings_in_run(t, fuel)
            == trainings_pending(t),
        t.stage != Stage::Cleaning && t.stage != Stage::Done ==> stores_in_run(t, fuel)
            == store_pending(t) + multiples(t.generation + 1, t.iterations as int, t.ghost_steps as int)
            && changes_in_run(t, fuel) == change_pending(t) + multiples(
            t.generation + 1,
            t.iterations as int,
            t.reset_steps as int,
        ),
    decreases fuel, t.gens_left(), t.stage_rank(),
{
    if t.stage == Stage::Done {
        return;
    }
    if fuel == 0 {
        return;
    }
    let n = next_of(t).0;
    if t.stage == Stage::Cleaning {
        assert(n.stage == Stage::Done);
        assert(stores_in_run(n, (fuel - 1) as nat) == 0);
        assert(changes_in_run(n, (fuel - 1) as nat) == 0);
        assert(trainings_in_run(n, (fuel - 1) as nat) == 0);
        return;
    }
    if t.stage == Stage::Opponents {
        if t.opponent < t.total_no {
            lemma_counts_in_loop(n, (fuel - 1) as nat);
        } else {
            let u = Trainer { stage: Stage::Snapshot, ..t };
            lemma_same_next(t, u, fuel);
            lemma_counts_in_loop(u, fuel);
        }
    } else if t.stage == Stage::Snapshot {
        let u = Trainer { stage: Stage::Refresh, ..t };
        if t.generation % t.ghost_steps == 0 {
            lemma_counts_in_loop(n, (fuel - 1) as nat);
        } else {
            lemma_same_next(t, u, fuel);
            lemma_counts_in_loop(u, fuel);
        }
    } else {
        let u = Trainer {
            generation: (t.generation + 1) as usize,
            opponent: 0,
            stage: if t.generation + 1 < t.iterations {
                Stage::Opponents
            } else {
                Stage::Cleaning
            },
            ..t
        };
        assert(t.total_no * (t.iterations - t.generation - 1) == t.total_no + t.total_no * (
        t.iterations - (t.generation + 1) - 1)) by (nonlinear_arith);
        if t.generation + 1 >= t.iterations {
            assert(t.total_no * (t.iterations - t.generation - 1) == 0) by (nonlinear_arith)
                requires
                    t.generation + 1 == t.iterations,
            ;
        }
        if t.generation % t.reset_steps == 0 {
            lemma_counts_in_loop(n, (fuel - 1) as nat);
        } else {
            lemma_same_next(t, u, fuel);
            lemma_counts_in_loop(u, fuel);
        }
    }
}

proof fn lemma_multiples_closed_form(g: nat, p: nat)
    requires
        p > 0,
    ensures
        multiples(0, g as int, p as int) == (g + p - 1) / (p as int),
    decreases g,
{
    if g == 0 {
        assert((p - 1) / (p as int) == 0) by (nonlinear_arith)
            requires
                p > 0,
        ;
    } else {
        let h = (g - 1) as nat;
        lemma_multiples_closed_form(h, p);
        lemma_multiples_extend(0, h as int, p as int);
        lemma_fundamental_div_mod(h as int, p as int);
        let q = h as int / p as int;
        let r = h as int % p as int;
        assert(0 <= r < p);
        if r == 0 {
            assert((h as int + p as int - 1) / (p as int) == q) by (nonlinear_arith)
                requires
                    h == q * p,
                    p > 0,
            ;
            assert((h as int + p as int) / (p as int) == q + 1) by (nonlinear_arith)
                requires
                    h == q * p,
                    p > 0,
            ;
        } else {
            assert((h as int + p as int - 1) / (p as int) == q + 1) by (nonlinear_arith)
                requires
                    h == q * p + r,
                    1 <= r < p,
            ;
            assert((h as int + p as int) / (p as int) == q + 1) by (nonlinear_arith)
                requires
                    h == q * p + r,
                    1 <= r < p,
            ;
        }
    }
}

proof fn lemma_multiples_extend(a: int, g: int, p: int)
    requires
        a <= g,
    ensures
        multiples(a, g + 1, p) == multiples(a, g, p) + if g % p == 0 {
            1nat
        } else {
            0nat
        },
    decreases g - a,
{
    if a < g {
        lemma_multiples_extend(a + 1, g, p);
    } else {
        assert(multiples(g + 1, g + 1, p) == 0);
        assert(multiples(g, g, p) == 0);
    }
}

/// A run over `iterations` generations with pools of at least one slot,
/// once finished, has trained against each of the `total_no` trainers in
/// every generation, `total_no * iterations` times (two games each), has
/// stored a snapshot in each generation that is a
/// multiple of `ghost_steps`, that is `(G + P - 1) / P` times, and has
/// refreshed the trainers `(G + R - 1) / R` times.
pub proof fn lemma_snapshot_and_refresh_counts(t: Trainer, fuel: nat)
    requires
        t.wf(),
        t.stage == Stage::Idle,
        t.total_no > 0,
        run_state(t, fuel).stage == Stage::Done,
    ensures
        trainings_in_run(t, fuel) == t.total_no * t.iterations,
        stores_in_run(t, fuel) == (t.iterations + t.ghost_steps - 1) / (t.ghost_steps as int),
        changes_in_run(t, fuel) == (t.iterations + t.reset_steps - 1) / (t.reset_steps as int),
{
    lemma_multiples_closed_form(t.iterations as nat, t.ghost_steps as nat);
    lemma_multiples_closed_form(t.iterations as nat, t.reset_steps as nat);
    let s1 = next_of(t).0;
    let s2 = next_of(s1).0;
    assert(s1.stage == Stage::Seeding);
    if fuel == 0 {
        assert(run_state(t, fuel) == t);
    }
    if fuel == 1 {
        assert(run_state(s1, 0) == s1);
    }
    assert(fuel >= 2);
    assert(next_of(t).1 == (Step::SpawnStorers { count: t.total_no }));
    assert(next_of(s1).1 == (Step::SpawnTrainers { count: t.total_no }));
    assert(run_state(t, fuel) == run_state(s1, (fuel - 1) as nat));
    assert(run_state(s1, (fuel - 1) as nat) == run_state(s2, (fuel - 2) as nat));
    assert(stores_in_run(t, fuel) == stores_in_run(s1, (fuel - 1) as nat));
    assert(stores_in_run(s1, (fuel - 1) as nat) == stores_in_run(s2, (fuel - 2) as nat));
    assert(changes_in_run(t, fuel) == changes_in_run(s1, (fuel - 1) as nat));
    assert(changes_in_run(s1, (fuel - 1) as nat) == changes_in_run(s2, (fuel - 2) as nat));
    assert(trainings_in_run(t, fuel) == trainings_in_run(s1, (fuel - 1) as nat));
    assert(trainings_in_run(s1, (fuel - 1) as nat) == trainings_in_run(s2, (fuel - 2) as nat));
    if t.iterations == 0 {
        assert(t.total_no * t.iterations == 0) by (nonlinear_arith)
            requires
                t.iterations == 0,
        ;
    } else {
        assert(t.total_no + t.total_no * (t.iterations - 0 - 1) == t.total_no * t.iterations)
            by (nonlinear_arith);
    }
    assert(stores_in_run(t, fuel) == stores_in_run(s2, (fuel - 2) as nat));
    assert(changes_in_run(t, fuel) == changes_in_run(s2, (fuel - 2) as nat));
    assert(s2.wf());
    lemma_counts_in_loop(s2, (fuel - 2) as nat);
    assert(0int % (t.ghost_steps as int) == 0);
    assert(0int % (t.reset_steps as int) == 0);
    if t.iterations > 0 {
        assert(multiples(0, t.iterations as int, t.ghost_steps as int) == 1 + multiples(
            1,
            t.iterations as int,
            t.ghost_steps as int,
        ));
        assert(multiples(0, t.iterations as int, t.reset_steps as int) == 1 + multiples(
            1,
            t.iterations as int,
            t.reset_steps as int,
        ));
    }
}

} // verus!
