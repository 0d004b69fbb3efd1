use vstd::prelude::*;
use vstd::arithmetic::div_mod::{lemma_mod_self_0, lemma_small_mod};

verus! {

/// Where an evaluator held in a pool came from.
pub enum Snapshot {
    /// A freshly initialised evaluator.
    Fresh,
    /// The trainee as it stood after `version` training calls.
    Trainee { version: nat },
}

/// A piece of outside work that a training run asks for, in order.
#[derive(Clone, Copy, PartialEq, Eq, Structural, Debug)]
pub enum Step {
    /// Persist `count` freshly initialised evaluators as the storer pool.
    SpawnStorers { count: usize },
    /// Persist `count` copies of the trainee as the trainer pool.
    SpawnTrainers { count: usize },
    /// Play a type-1 and a type-2 game against trainer `opponent`, then train
    /// the trainee on the first record and after that on the second.
    TrainAgainst { opponent: usize },
    /// Copy the trainee into storer slot `slot`.
    StoreStorer { slot: usize },
    /// Overwrite trainer `i` with storer `i`, for each `i` below `count`.
    ChangeTrainers { count: usize },
    /// Delete both pools.
    Reset,
    /// The run is over.
    Finished,
}

/// Where a training run stands.
#[derive(Clone, Copy, PartialEq, Eq, Structural, Debug)]
pub enum Stage {
    Idle,
    Seeding,
    Opponents,
    Snapshot,
    Refresh,
    Cleaning,
    Done,
}

/// The run has moved forward: an earlier generation gives way to a later
/// one, an earlier stage to a later one, or a trainer to the next.
pub open spec fn advanced(before: Trainer, after: Trainer) -> bool {
    ||| after.phase() < before.phase()
    ||| after.phase() == before.phase() && after.stage_rank() < before.stage_rank()
    ||| after.phase() == before.phase() && after.stage_rank() == before.stage_rank()
        && after.total_no - after.opponent < before.total_no - before.opponent
}

/// The step a run in state `t` takes next, and the state after it. A run
/// seeds the storer pool, then the trainer pool; then, for each generation,
/// it trains against every trainer in slot order, stores a snapshot when the
/// generation is a multiple of `ghost_steps` (and the pools are not empty),
/// and refreshes the trainers when it is a multiple of `reset_steps`; then
/// it deletes the pools and is finished. Stages that have nothing to do
/// pass straight on to the next one.
pub open spec fn next_of(t: Trainer) -> (Trainer, Step)
    decreases t.gens_left(), t.stage_rank(),
{
    let size = t.total_no;
    match t.stage {
        Stage::Done => (t, Step::Finished),
        Stage::Idle => (
            Trainer {
                stage: Stage::Seeding,
                storers: Ghost(Seq::new(size as nat, |i: int| Snapshot::Fresh)),
                ..t
            },
            Step::SpawnStorers { count: size },
        ),
        Stage::Seeding => (
            Trainer {
                stage: if t.iterations == 0 {
                    Stage::Cleaning
                } else {
                    Stage::Opponents
                },
                generation: 0,
                opponent: 0,
                trainers: Ghost(
                    Seq::new(size as nat, |i: int| Snapshot::Trainee { version: t.trainee_version@ }),
                ),
                ..t
            },
            Step::SpawnTrainers { count: size },
        ),
        Stage::Opponents => {
            if t.opponent < size {
                (
                    Trainer {
                        opponent: (t.opponent + 1) as usize,
                        trainee_version: Ghost(t.trainee_version@ + 2),
                        ..t
                    },
                    Step::TrainAgainst { opponent: t.opponent },
                )
            } else {
                next_of(Trainer { stage: Stage::Snapshot, ..t })
            }
        },
        Stage::Snapshot => {
            let t1 = Trainer { stage: Stage::Refresh, ..t };
            if t.generation % t.ghost_steps == 0 && size > 0 {
                (
                    Trainer {
                        storers: Ghost(
                            t.storers@.update(
                                t.storer_no as int,
                                Snapshot::Trainee { version: t.trainee_version@ },
                            ),
                        ),
                        storer_no: ((t.storer_no + 1) % (size as int)) as usize,
                        ..t1
                    },
                    Step::StoreStorer { slot: t.storer_no },
                )
            } else {
                next_of(t1)
            }
        },
        Stage::Refresh => {
            let t1 = Trainer {
                generation: (t.generation + 1) as usize,
                opponent: 0,
                stage: if t.generation + 1 < t.iterations {
                    Stage::Opponents
                } else {
                    Stage::Cleaning
                },
                ..t
            };
            if t.generation % t.reset_steps == 0 {
                (Trainer { trainers: Ghost(t.storers@), ..t1 }, Step::ChangeTrainers { count: size })
            } else {
                next_of(t1)
            }
        },
        Stage::Cleaning => (
            Trainer {
                stage: Stage::Done,
                trainers: Ghost(Seq::empty()),
                storers: Ghost(Seq::empty()),
                ..t
            },
            Step::Reset,
        ),
    }
}

/// At the end of a generation that is a multiple of `reset_steps`, after its
/// snapshot, the run refreshes the trainers: afterwards every trainer slot
/// holds what the storer slot of the same index holds.
pub proof fn lemma_refresh_copies_storers(t: Trainer)
    requires
        t.wf(),
        t.stage == Stage::Refresh,
        t.generation % t.reset_steps == 0,
    ensures
        next_of(t).1 == (Step::ChangeTrainers { count: t.total_no }),
        next_of(t).0.trainers@ == next_of(t).0.storers@,
        next_of(t).0.storers@ == t.storers@,
        next_of(t).0.trainers@.len() == t.total_no,
{
}

/// At the end of the training of a generation that is a multiple of
/// `ghost_steps`, the run stores the trainee in the slot under the cursor,
/// and then stands at the same generation's refresh point.
pub proof fn lemma_snapshot_before_refresh(t: Trainer)
    requires
        t.wf(),
        t.stage == Stage::Opponents,
        t.opponent == t.total_no,
        t.total_no > 0,
        t.generation % t.ghost_steps == 0,
    ensures
        next_of(t).1 == (Step::StoreStorer { slot: t.storer_no }),
        next_of(t).0.stage == Stage::Refresh,
        next_of(t).0.generation == t.generation,
        next_of(t).0.storers@ == t.storers@.update(
            t.storer_no as int,
            Snapshot::Trainee { version: t.trainee_version@ },
        ),
{
    assert(next_of(t) == next_of(Trainer { stage: Stage::Snapshot, ..t }));
}

/// What a step does to the pools, and the stage it comes from.
pub open spec fn step_effect(before: Trainer, after: Trainer, r: Step) -> bool {
    let size = before.total_no;
    match r {
        Step::SpawnStorers { count } => {
            &&& before.stage == Stage::Idle
            &&& count == size
            &&& after.stage == Stage::Seeding
            &&& after.storers@ == Seq::new(size as nat, |i: int| Snapshot::Fresh)
        },
        Step::SpawnTrainers { count } => {
            &&& before.stage == Stage::Seeding
            &&& count == size
            &&& after.storers@ == before.storers@
            &&& after.storers@.len() == size
            &&& after.trainers@ == Seq::new(
                size as nat,
                |i: int| Snapshot::Trainee { version: before.trainee_version@ },
            )
        },
        Step::TrainAgainst { opponent } => {
            &&& after.stage == Stage::Opponents
            &&& after.opponent == opponent + 1
            &&& opponent < size
            &&& after.trainee_version@ == before.trainee_version@ + 2
            &&& after.trainers@ == before.trainers@
            &&& after.storers@ == before.storers@
            &&& after.trainers@.len() == size
        },
        Step::StoreStorer { slot } => {
            &&& slot == before.storer_no
            &&& slot < size
            &&& after.stage == Stage::Refresh
            &&& after.storers@ == before.storers@.update(
                slot as int,
                Snapshot::Trainee { version: before.trainee_version@ },
            )
            &&& after.trainers@ == before.trainers@
        },
        Step::ChangeTrainers { count } => {
            &&& count == size
            &&& after.opponent == 0
            &&& (after.stage == Stage::Opponents || after.stage == Stage::Cleaning)
            &&& after.trainers@ == after.storers@
            &&& after.storers@ == before.storers@
            &&& after.storers@.len() == size
        },
        Step::Reset => {
            &&& after.stage == Stage::Done
            &&& after.trainers@.len() == 0
            &&& after.storers@.len() == 0
        },
        Step::Finished => {
            &&& before.stage == Stage::Done
            &&& after.stage == Stage::Done
            &&& after.trainers@ == before.trainers@
            &&& after.storers@ == before.storers@
        },
    }
}

/// Drives training runs and plays the self-play games that feed them.
/// The pools are modelled by where each of their evaluators came from.
pub struct Trainer {
    /// The storer slot written next.
    pub storer_no: usize,
    /// The size of each pool.
    pub total_no: usize,
    pub iterations: usize,
    pub ghost_steps: usize,
    pub reset_steps: usize,
    pub generation: usize,
    pub opponent: usize,
    pub stage: Stage,
    pub trainee_version: Ghost<nat>,
    pub trainers: Ghost<Seq<Snapshot>>,
    pub storers: Ghost<Seq<Snapshot>>,
}

impl Trainer {
    /// The run's counters stay in range, and once seeded both pools hold
    /// one evaluator per slot.
    pub open spec fn wf(&self) -> bool {
        &&& self.ghost_steps >= 1
        &&& self.reset_steps >= 1
        &&& (self.total_no > 0 ==> self.storer_no < self.total_no)
        &&& self.opponent <= self.total_no
        &&& (self.stage == Stage::Opponents || self.stage == Stage::Snapshot || self.stage
            == Stage::Refresh) ==> self.generation < self.iterations
        &&& (self.stage == Stage::Opponents || self.stage == Stage::Snapshot || self.stage
            == Stage::Refresh || self.stage == Stage::Cleaning) ==> self.trainers@.len()
            == self.total_no && self.storers@.len() == self.total_no
        &&& self.stage == Stage::Seeding ==> self.storers@.len() == self.total_no
    }

    /// The order in which a run advances: seeding first, then generation by
    /// generation, then cleaning.
    pub open spec fn phase(&self) -> int {
        if self.stage == Stage::Idle || self.stage == Stage::Seeding {
            self.iterations + 1
        } else if self.stage == Stage::Cleaning || self.stage == Stage::Done {
            0
        } else {
            self.iterations - self.generation
        }
    }

    /// Generations still to run, counted for the stages inside the loop.
    pub open spec fn gens_left(&self) -> nat {
        if self.stage == Stage::Cleaning || self.stage == Stage::Done {
            0
        } else if self.iterations > self.generation {
            (self.iterations - self.generation) as nat
        } else {
            0
        }
    }

    pub open spec fn stage_rank(&self) -> nat {
        match self.stage {
            Stage::Idle => 6,
            Stage::Seeding => 5,
            Stage::Opponents => 4,
            Stage::Snapshot => 3,
            Stage::Refresh => 2,
            Stage::Cleaning => 1,
            Stage::Done => 0,
        }
    }

    /// A trainer with nothing to run.
    pub fn new() -> (r: Trainer)
        ensures
            r.wf(),
            r.stage == Stage::Done,
    {
        Trainer {
            storer_no: 0,
            total_no: 0,
            iterations: 0,
            ghost_steps: 1,
            reset_steps: 1,
            generation: 0,
            opponent: 0,
            stage: Stage::Done,
            trainee_version: Ghost(0),
            trainers: Ghost(Seq::empty()),
            storers: Ghost(Seq::empty()),
        }
    }

    /// Starts a run with pools of `size`, over `iterations` generations;
    /// a snapshot is stored every `ghost_steps` generations and the trainers
    /// are refreshed every `reset_steps` generations, both from generation 0.
    pub fn train(&mut self, size: usize, iterations: usize, ghost_steps: usize, reset_steps: usize)
        requires
            ghost_steps >= 1,
            reset_steps >= 1,
        ensures
            final(self).wf(),
            final(self).stage == Stage::Idle,
            final(self).total_no == size,
            final(self).iterations == iterations,
            final(self).ghost_steps == ghost_steps,
            final(self).reset_steps == reset_steps,
            final(self).storer_no == 0,
            final(self).trainee_version@ == old(self).trainee_version@,
    {
        self.total_no = size;
        self.iterations = iterations;
        self.ghost_steps = ghost_steps;
        self.reset_steps = reset_steps;
        self.storer_no = 0;
        self.generation = 0;
        self.opponent = 0;
        self.stage = Stage::Idle;
    }

    /// The next piece of outside work of the run, the run advanced past it.
    /// The run seeds the storer pool, then the trainer pool; then, for each
    /// generation, it trains against every trainer in slot order, stores a
    /// snapshot when the generation is a multiple of `ghost_steps` (and the
    /// pools are not empty), and refreshes the trainers when it is a multiple
    /// of `reset_steps`; then it deletes the pools and is finished.
    pub fn next_step(&mut self) -> (r: Step)
        requires
            old(self).wf(),
        ensures
            final(self).wf(),
            final(self).total_no == old(self).total_no,
            final(self).iterations == old(self).iterations,
            final(self).ghost_steps == old(self).ghost_steps,
            final(self).reset_steps == old(self).reset_steps,
            (*final(self), r) == next_of(*old(self)),
            step_effect(*old(self), *final(self), r),
            old(self).stage == Stage::Idle ==> (r is SpawnStorers),
            old(self).stage == Stage::Seeding ==> (r is SpawnTrainers),
            (r == Step::Finished) == (old(self).stage == Stage::Done),
            r != Step::Finished ==> advanced(*old(self), *final(self)),
    {
        if self.stage == Stage::Done {
            return Step::Finished;
        }
        if self.stage == Stage::Idle {
            self.spawn_storers();
            self.stage = Stage::Seeding;
            return Step::SpawnStorers { count: self.total_no };
        }
        if self.stage == Stage::Seeding {
            self.spawn_trainers();
            self.generation = 0;
            self.opponent = 0;
            if self.iterations == 0 {
                self.stage = Stage::Cleaning;
            } else {
                self.stage = Stage::Opponents;
            }
            return Step::SpawnTrainers { count: self.total_no };
        }
        let ghost start_trainers = self.trainers@;
        let ghost start_storers = self.storers@;
        let ghost start_version = self.trainee_version@;
        let ghost start_phase = self.phase();
        let ghost start_rank = self.stage_rank();
        let ghost start_left = self.total_no - self.opponent;
        loop
            invariant
                self.wf(),
                next_of(*self) == next_of(*old(self)),
                self.stage != Stage::Idle && self.stage != Stage::Seeding && self.stage != Stage::Done,
                self.total_no == old(self).total_no,
                self.iterations == old(self).iterations,
                self.ghost_steps == old(self).ghost_steps,
                self.reset_steps == old(self).reset_steps,
                self.storer_no == old(self).storer_no,
                self.trainee_version@ == start_version,
                self.trainers@ == start_trainers,
                self.storers@ == start_storers,
                start_trainers == old(self).trainers@,
                start_storers == old(self).storers@,
                start_version == old(self).trainee_version@,
                start_trainers.len() == self.total_no,
                start_storers.len() == self.total_no,
                old(self).stage != Stage::Idle && old(self).stage != Stage::Seeding && old(self).stage
                    != Stage::Done,
                start_phase == old(self).phase(),
                start_rank == old(self).stage_rank(),
                start_left == old(self).total_no - old(self).opponent,
                self.phase() < start_phase || (self.phase() == start_phase && self.stage_rank()
                    < start_rank) || (self.phase() == start_phase && self.stage_rank() == start_rank
                    && self.total_no - self.opponent <= start_left),
            decreases self.phase(), self.stage_rank(), self.total_no - self.opponent,
        {
            let ghost prev = *self;
            if self.stage == Stage::Opponents {
                if self.opponent < self.total_no {
                    let o = self.opponent;
                    self.opponent = self.opponent + 1;
                    self.trainee_version = Ghost(self.trainee_version@ + 2);
                    assert((*self, Step::TrainAgainst { opponent: o }) == next_of(prev));
                    return Step::TrainAgainst { opponent: o };
                }
                self.stage = Stage::Snapshot;
            } else if self.stage == Stage::Snapshot {
                self.stage = Stage::Refresh;
                if self.generation % self.ghost_steps == 0 && self.total_no > 0 {
                    let slot = self.store_storer();
                    assert((*self, Step::StoreStorer { slot }) == next_of(prev));
                    return Step::StoreStorer { slot };
                }
            } else if self.stage == Stage::Refresh {
                let change = self.generation % self.reset_steps == 0;
                self.generation = self.generation + 1;
                self.opponent = 0;
                if self.generation < self.iterations {
                    self.stage = Stage::Opponents;
                } else {
                    self.stage = Stage::Cleaning;
                }
                if change {
                    self.change_trainers();
                    assert((*self, Step::ChangeTrainers { count: self.total_no }) == next_of(prev));
                    return Step::ChangeTrainers { count: self.total_no };
                }
            } else {
                self.reset();
                self.stage = Stage::Done;
                assert(self.trainers@ =~= Seq::<Snapshot>::empty());
                assert(self.storers@ =~= Seq::<Snapshot>::empty());
                assert(prev.stage == Stage::Cleaning);
                assert((*self, Step::Reset) == next_of(prev));
                return Step::Reset;
            }
        }
    }

    /// Fills the storer pool with fresh evaluators.
    pub fn spawn_storers(&mut self)
        ensures
            final(self).storers@ == Seq::new(old(self).total_no as nat, |i: int| Snapshot::Fresh),
            final(self).trainers@ == old(self).trainers@,
            final(self).storer_no == old(self).storer_no,
            final(self).total_no == old(self).total_no,
            final(self).trainee_version@ == old(self).trainee_version@,
            final(self).stage == old(self).stage,
            final(self).generation == old(self).generation,
            final(self).opponent == old(self).opponent,
            final(self).iterations == old(self).iterations,
            final(self).ghost_steps == old(self).ghost_steps,
            final(self).reset_steps == old(self).reset_steps,
    {
        self.storers = Ghost(Seq::new(self.total_no as nat, |i: int| Snapshot::Fresh));
    }

    /// Fills the trainer pool with copies of the trainee.
    pub fn spawn_trainers(&mut self)
        ensures
            final(self).trainers@ == Seq::new(
                old(self).total_no as nat,
                |i: int| Snapshot::Trainee { version: old(self).trainee_version@ },
            ),
            final(self).storers@ == old(self).storers@,
            final(self).storer_no == old(self).storer_no,
            final(self).total_no == old(self).total_no,
            final(self).trainee_version@ == old(self).trainee_version@,
            final(self).stage == old(self).stage,
            final(self).generation == old(self).generation,
            final(self).opponent == old(self).opponent,
            final(self).iterations == old(self).iterations,
            final(self).ghost_steps == old(self).ghost_steps,
            final(self).reset_steps == old(self).reset_steps,
    {
        let ghost v = self.trainee_version@;
        self.trainers = Ghost(Seq::new(self.total_no as nat, |i: int| Snapshot::Trainee { version: v }));
    }

    /// Copies the trainee into the storer slot under the cursor and moves
    /// the cursor on by one, back to 0 after the last slot.
    pub fn store_storer(&mut self) -> (slot: usize)
        requires
            old(self).total_no > 0,
            old(self).storer_no < old(self).total_no,
            old(self).storers@.len() == old(self).total_no,
        ensures
            slot == old(self).storer_no,
            final(self).storers@ == old(self).storers@.update(
                slot as int,
                Snapshot::Trainee { version: old(self).trainee_version@ },
            ),
            final(self).storer_no == (old(self).storer_no + 1) % (old(self).total_no as int),
            final(self).trainers@ == old(self).trainers@,
            final(self).total_no == old(self).total_no,
            final(self).trainee_version@ == old(self).trainee_version@,
            final(self).stage == old(self).stage,
            final(self).generation == old(self).generation,
            final(self).opponent == old(self).opponent,
            final(self).iterations == old(self).iterations,
            final(self).ghost_steps == old(self).ghost_steps,
            final(self).reset_steps == old(self).reset_steps,
    {
        let slot = self.storer_no;
        let ghost v = self.trainee_version@;
        self.storers = Ghost(self.storers@.update(slot as int, Snapshot::Trainee { version: v }));
        proof {
            lemma_mod_self_0(self.total_no as int);
            if self.storer_no + 1 < self.total_no {
                lemma_small_mod((self.storer_no + 1) as nat, self.total_no as nat);
            }
        }
        if self.storer_no + 1 == self.total_no {
            self.storer_no = 0;
        } else {
            self.storer_no = self.storer_no + 1;
        }
        slot
    }

    /// Overwrites each trainer slot with the storer in the same slot.
    pub fn change_trainers(&mut self)
        ensures
            final(self).trainers@ == old(self).storers@,
            final(self).storers@ == old(self).storers@,
            final(self).storer_no == old(self).storer_no,
            final(self).total_no == old(self).total_no,
            final(self).trainee_version@ == old(self).trainee_version@,
            final(self).stage == old(self).stage,
            final(self).generation == old(self).generation,
            final(self).opponent == old(self).opponent,
            final(self).iterations == old(self).iterations,
            final(self).ghost_steps == old(self).ghost_steps,
            final(self).reset_steps == old(self).reset_steps,
    {
        self.trainers = Ghost(self.storers@);
    }

    /// Empties both pools.
    pub fn reset(&mut self)
        ensures
            final(self).trainers@.len() == 0,
            final(self).storers@.len() == 0,
            final(self).storer_no == old(self).storer_no,
            final(self).total_no == old(self).total_no,
            final(self).trainee_version@ == old(self).trainee_version@,
            final(self).stage == old(self).stage,
            final(self).generation == old(self).generation,
            final(self).opponent == old(self).opponent,
            final(self).iterations == old(self).iterations,
            final(self).ghost_steps == old(self).ghost_steps,
            final(self).reset_steps == old(self).reset_steps,
    {
        self.trainers = Ghost(Seq::empty());
        self.storers = Ghost(Seq::empty());
    }
}

} // verus!
