//! The outside of the engine, and the record of what passes between the two.
//!
//! The solvers, the transition system, the frames and the queue of obligations answer to the
//! engine through [`Reasoner`]. Nothing is presumed of the answers. A [`Session`] keeps a ghost
//! log of every request and its answer, which is tied to what the reasoner itself was asked, so
//! that contracts can say what the engine asks, and what it makes of any answers that come.

use vstd::prelude::*;

use crate::heuristic::{Profile, RewardTerms};
use crate::lit::{cubes, Lit, Var};
use crate::obligation::{lemma_views, FrameLemma, FrameLemmaView, Obligation, ObligationView};
use crate::words::{random_word, seeded, Words};

verus! {

/// What the engine counts on its way.
#[derive(Clone, Copy, PartialEq, Eq, Structural, Debug)]
pub enum Tally {
    /// An attempt to shrink a cube.
    Down,
    /// A query of such an attempt.
    DownSat,
    /// An attempt to drop a literal, and whether it was dropped.
    MicDrop(bool),
    /// A generalization of a cube.
    Mic,
    /// The length of a cube that is generalized.
    MicCubeLen(usize),
    /// A clause among several that differs from those before it.
    UniqueMultiClause,
    /// A clause among several.
    TotalMultiClause,
    /// The length of the cube of a blocked obligation.
    PoCubeLen(usize),
    /// A lemma that moved to the next frame, and whether a counterexample was excluded first.
    Ctp(bool),
}

/// A request to the reasoner, with what is handed over.
pub enum Call {
    CubeSubsumeInit { cube: Seq<Lit> },
    Next { lit: Lit },
    LitsNext { cube: Seq<Lit> },
    VarNext { var: Var, step: usize },
    LitNext { lit: Lit, step: usize },
    Restore { lit: Lit },
    Init,
    HasInit { var: Var },
    AddInit { var: Var, value: bool },
    Bad,
    AddConstraint { lit: Lit },
    Blocked { frame: usize, cube: Seq<Lit>, strengthen: bool },
    BlockedUnder { frame: usize, cube: Seq<Lit>, strengthen: bool, constraint: Seq<Seq<Lit>> },
    Inductive { solver: usize, cube: Seq<Lit>, strengthen: bool },
    InductiveCore { solver: usize },
    SatValue { solver: usize, lit: Lit },
    FlipToNone { solver: usize, var: Var },
    GetPred { frame: usize, strengthen: bool },
    GetBad { level: usize },
    Solve { solver: usize, cube: Seq<Lit> },
    SolveWithoutBucket { solver: usize, cube: Seq<Lit> },
    SetDomain { solver: usize, lits: Seq<Lit> },
    UnsetDomain { solver: usize },
    RenewBadSolver,
    RenewLift,
    NewSolver { frame: usize },
    AddDomain { var: Var, permanent: bool },
    InstallSolver,
    SortHybrid { cube: Seq<Lit>, frame: usize, reverse: bool },
    SortByActivity { cube: Seq<Lit>, ascending: bool },
    BumpCubeActivity { cube: Seq<Lit> },
    AddLemma { frame: usize, cube: Seq<Lit>, contained_check: bool, owner: Option<usize> },
    TrivialContained { frame: usize, cube: Seq<Lit> },
    SortFrame { frame: usize },
    FrameLemmas { frame: usize },
    FrameHas { frame: usize, cube: Seq<Lit> },
    FrameIsEmpty { frame: usize },
    Early,
    SetEarly { frame: usize },
    ForgetObligations,
    InvariantCubes,
    AddObligation { id: usize, po: ObligationView },
    RequeueObligation { id: usize, po: ObligationView },
    PopObligation { level: usize },
    PeakObligation,
    RemoveObligation { id: usize },
    ClearObligations,
    IsRemoved { id: usize },
    PushTo { id: usize, from: usize, to: usize },
    BumpAct { id: usize },
    PeakAct { window: Seq<usize> },
    ExctgLimit { window: Seq<usize>, profile: Profile },
    ObserveContext { id: usize, po: ObligationView, level: usize },
    ArmScore { arm: usize },
    Reward { arm: usize, terms: RewardTerms },
    CheckWitnessByBmc { id: usize },
    BmcUnrolled,
    BmcValue { lit: Lit },
    NewAnd { lits: Seq<Lit> },
    NewOr { lits: Seq<Lit> },
    Verify,
    Count { tally: Tally },
    /// A draw of a random word.
    Draw,
}

/// An answer of the reasoner.
pub enum Reply {
    Done,
    Flag(bool),
    Value(Option<bool>),
    Literal(Lit),
    Variable(Var),
    Cube(Seq<Lit>),
    MaybeCube(Option<Seq<Lit>>),
    Cubes(Seq<Seq<Lit>>),
    Pred(Seq<Lit>, Seq<Lit>),
    BadState(Option<(Seq<Lit>, Seq<Seq<Lit>>)>),
    Lemmas(Seq<FrameLemmaView>),
    Index(Option<usize>),
    Size(usize),
    Whole(u64),
    Score(i64),
    Word(u32),
}

/// A request and the answer to it.
pub struct Event {
    pub call: Call,
    pub reply: Reply,
}

/// The event of a request and its answer.
pub open spec fn event(call: Call, reply: Reply) -> Event {
    Event { call, reply }
}

/// The cube and the inputs of a bad state.
pub open spec fn bad_view(r: Option<(Vec<Lit>, Vec<Vec<Lit>>)>) -> Option<
    (Seq<Lit>, Seq<Seq<Lit>>),
> {
    match r {
        Some(b) => Some((b.0@, cubes(b.1@))),
        None => None,
    }
}

/// The literals of an optional vector.
pub open spec fn lits_view(r: Option<Vec<Lit>>) -> Option<Seq<Lit>> {
    match r {
        Some(c) => Some(c@),
        None => None,
    }
}

/// Whether `later` is `log` with more events after it.
pub open spec fn extends(later: Seq<Event>, log: Seq<Event>) -> bool {
    &&& log.len() <= later.len()
    &&& forall|i: int| 0 <= i < log.len() ==> #[trigger] later[i] == log[i]
}

/// Whether the event at `at` is the given request.
pub open spec fn asked(log: Seq<Event>, at: int, call: Call) -> bool {
    0 <= at < log.len() && log[at].call == call
}

/// The answer at `at` to a yes-or-no question.
pub open spec fn yes(log: Seq<Event>, at: int) -> bool {
    log[at].reply->Flag_0
}

/// What was asked of a reasoner and what it answered, in order. It is for proofs only: no value of
/// it is ever made.
pub type History = Seq<Event>;

/// What the engine asks of its surroundings. Nothing is promised of the answers: each method only
/// keeps, in [`Reasoner::history`], what it was asked and what it answered.
pub trait Reasoner {
    /// What has been asked so far, and what was answered.
    spec fn history(&self) -> History;

    /// Whether the initial values of the latches leave it open that an initial state is in the
    /// cube.
    fn cube_subsume_init(&mut self, cube: &Vec<Lit>) -> (r: bool)
        ensures
            final(self).history() == old(self).history().push(
                event(Call::CubeSubsumeInit { cube: cube@ }, Reply::Flag(r)),
            ),
    ;

    /// The literal that stands for `lit` after a step.
    fn next(&mut self, lit: Lit) -> (r: Lit)
        ensures
            final(self).history() == old(self).history().push(
                event(Call::Next { lit }, Reply::Literal(r)),
            ),
    ;

    /// The literals that stand for those of the cube after a step.
    fn lits_next(&mut self, cube: &Vec<Lit>) -> (r: Vec<Lit>)
        ensures
            final(self).history() == old(self).history().push(
                event(Call::LitsNext { cube: cube@ }, Reply::Cube(r@)),
            ),
    ;

    /// The variable that stands for `var` in the given step of the unrolled system.
    fn var_next(&mut self, var: Var, step: usize) -> (r: Var)
        ensures
            final(self).history() == old(self).history().push(
                event(Call::VarNext { var, step }, Reply::Variable(r)),
            ),
    ;

    /// The literal that stands for `lit` in the given step of the unrolled system.
    fn lit_next(&mut self, lit: Lit, step: usize) -> (r: Lit)
        ensures
            final(self).history() == old(self).history().push(
                event(Call::LitNext { lit, step }, Reply::Literal(r)),
            ),
    ;

    /// The literal of the system as it was given that `lit` stands for.
    fn restore(&mut self, lit: Lit) -> (r: Lit)
        ensures
            final(self).history() == old(self).history().push(
                event(Call::Restore { lit }, Reply::Literal(r)),
            ),
    ;

    /// The literals that hold initially.
    fn init(&mut self) -> (r: Vec<Lit>)
        ensures
            final(self).history() == old(self).history().push(
                event(Call::Init, Reply::Cube(r@)),
            ),
    ;

    /// Whether a latch has an initial value.
    fn has_init(&mut self, var: Var) -> (r: bool)
        ensures
            final(self).history() == old(self).history().push(
                event(Call::HasInit { var }, Reply::Flag(r)),
            ),
    ;

    /// Gives a latch an initial value.
    fn add_init(&mut self, var: Var, value: bool)
        ensures
            final(self).history() == old(self).history().push(
                event(Call::AddInit { var, value }, Reply::Done),
            ),
    ;

    /// The literal that holds in the bad states.
    fn bad(&mut self) -> (r: Lit)
        ensures
            final(self).history() == old(self).history().push(
                event(Call::Bad, Reply::Literal(r)),
            ),
    ;

    /// Adds a literal to the constraints of the system.
    fn add_constraint(&mut self, lit: Lit)
        ensures
            final(self).history() == old(self).history().push(
                event(Call::AddConstraint { lit }, Reply::Done),
            ),
    ;

    /// Whether solver `frame - 1` finds no step into the cube, its literals taken in descending
    /// order of activity; with `strengthen`, no step from outside of the cube.
    fn blocked_with_ordered(&mut self, frame: usize, cube: &Vec<Lit>, strengthen: bool) -> (r: bool)
        ensures
            final(self).history() == old(self).history().push(
                event(Call::Blocked { frame, cube: cube@, strengthen }, Reply::Flag(r)),
            ),
    ;

    /// The same among the states that satisfy the given clauses.
    fn blocked_with_ordered_with_constrain(
        &mut self,
        frame: usize,
        cube: &Vec<Lit>,
        strengthen: bool,
        constraint: &Vec<Vec<Lit>>,
    ) -> (r: bool)
        ensures
            final(self).history() == old(self).history().push(
                event(
                    Call::BlockedUnder {
                        frame,
                        cube: cube@,
                        strengthen,
                        constraint: cubes(constraint@),
                    },
                    Reply::Flag(r),
                ),
            ),
    ;

    /// Whether a solver finds no step into the cube; with `strengthen`, no step from outside of the
    /// cube.
    fn inductive(&mut self, solver: usize, cube: &Vec<Lit>, strengthen: bool) -> (r: bool)
        ensures
            final(self).history() == old(self).history().push(
                event(Call::Inductive { solver, cube: cube@, strengthen }, Reply::Flag(r)),
            ),
    ;

    /// The part of the cube that the last such answer of the solver rests on.
    fn inductive_core(&mut self, solver: usize) -> (r: Vec<Lit>)
        ensures
            final(self).history() == old(self).history().push(
                event(Call::InductiveCore { solver }, Reply::Cube(r@)),
            ),
    ;

    /// The value of a literal in the model that a solver holds.
    fn sat_value(&mut self, solver: usize, lit: Lit) -> (r: Option<bool>)
        ensures
            final(self).history() == old(self).history().push(
                event(Call::SatValue { solver, lit }, Reply::Value(r)),
            ),
    ;

    /// Takes the variable out of the solver's model where the model does not rest on it, and says
    /// whether it did.
    fn flip_to_none(&mut self, solver: usize, var: Var) -> (r: bool)
        ensures
            final(self).history() == old(self).history().push(
                event(Call::FlipToNone { solver, var }, Reply::Flag(r)),
            ),
    ;

    /// A predecessor, and the inputs of the step out of it, read off the model of solver `frame -
    /// 1`.
    fn get_pred(&mut self, frame: usize, strengthen: bool) -> (r: (Vec<Lit>, Vec<Lit>))
        ensures
            final(self).history() == old(self).history().push(
                event(Call::GetPred { frame, strengthen }, Reply::Pred(r.0@, r.1@)),
            ),
    ;

    /// A state of the last frame, whose number is given, that leads to a bad state, and the inputs
    /// that lead there.
    fn get_bad(&mut self, level: usize) -> (r: Option<(Vec<Lit>, Vec<Vec<Lit>>)>)
        ensures
            final(self).history() == old(self).history().push(
                event(Call::GetBad { level }, Reply::BadState(bad_view(r))),
            ),
    ;

    /// Whether a solver finds a state in the cube.
    fn solve(&mut self, solver: usize, cube: &Vec<Lit>) -> (r: bool)
        ensures
            final(self).history() == old(self).history().push(
                event(Call::Solve { solver, cube: cube@ }, Reply::Flag(r)),
            ),
    ;

    /// The same, by a search that does not use the buckets.
    fn solve_without_bucket(&mut self, solver: usize, cube: &Vec<Lit>) -> (r: bool)
        ensures
            final(self).history() == old(self).history().push(
                event(Call::SolveWithoutBucket { solver, cube: cube@ }, Reply::Flag(r)),
            ),
    ;

    /// Restricts the decisions of a solver to the given literals.
    fn set_domain(&mut self, solver: usize, lits: &Vec<Lit>)
        ensures
            final(self).history() == old(self).history().push(
                event(Call::SetDomain { solver, lits: lits@ }, Reply::Done),
            ),
    ;

    /// Lifts the restriction.
    fn unset_domain(&mut self, solver: usize)
        ensures
            final(self).history() == old(self).history().push(
                event(Call::UnsetDomain { solver }, Reply::Done),
            ),
    ;

    /// Makes the solver for bad states anew.
    fn renew_bad_solver(&mut self)
        ensures
            final(self).history() == old(self).history().push(
                event(Call::RenewBadSolver, Reply::Done),
            ),
    ;

    /// Makes the solver that lifts predecessors anew.
    fn renew_lift(&mut self)
        ensures
            final(self).history() == old(self).history().push(
                event(Call::RenewLift, Reply::Done),
            ),
    ;

    /// Makes the solver of the next frame, whose number is given.
    fn new_solver(&mut self, frame: usize)
        ensures
            final(self).history() == old(self).history().push(
                event(Call::NewSolver { frame }, Reply::Done),
            ),
    ;

    /// Adds a variable to the permanent domain of the new solver.
    fn add_domain(&mut self, var: Var, permanent: bool)
        ensures
            final(self).history() == old(self).history().push(
                event(Call::AddDomain { var, permanent }, Reply::Done),
            ),
    ;

    /// Appends the new solver, and an empty frame.
    fn install_solver(&mut self)
        ensures
            final(self).history() == old(self).history().push(
                event(Call::InstallSolver, Reply::Done),
            ),
    ;

    /// The cube in the order of topology and activity mixed.
    fn sort_hybrid(&mut self, cube: &Vec<Lit>, frame: usize, reverse: bool) -> (r: Vec<Lit>)
        ensures
            final(self).history() == old(self).history().push(
                event(Call::SortHybrid { cube: cube@, frame, reverse }, Reply::Cube(r@)),
            ),
    ;

    /// The cube in the order of activity.
    fn sort_by_activity(&mut self, cube: &Vec<Lit>, ascending: bool) -> (r: Vec<Lit>)
        ensures
            final(self).history() == old(self).history().push(
                event(Call::SortByActivity { cube: cube@, ascending }, Reply::Cube(r@)),
            ),
    ;

    /// Raises the activity of the variables of the cube.
    fn bump_cube_activity(&mut self, cube: &Vec<Lit>)
        ensures
            final(self).history() == old(self).history().push(
                event(Call::BumpCubeActivity { cube: cube@ }, Reply::Done),
            ),
    ;

    /// Adds the lemma that excludes the cube to a frame and those before it, and says whether two
    /// neighbouring frames have become equal.
    fn add_lemma(
        &mut self,
        frame: usize,
        cube: &Vec<Lit>,
        contained_check: bool,
        owner: Option<usize>,
    ) -> (r: bool)
        ensures
            final(self).history() == old(self).history().push(
                event(
                    Call::AddLemma { frame, cube: cube@, contained_check, owner },
                    Reply::Flag(r),
                ),
            ),
    ;

    /// A frame from `frame` on with a lemma that excludes the cube, if there is one.
    fn trivial_contained(&mut self, frame: usize, cube: &Vec<Lit>) -> (r: Option<usize>)
        ensures
            final(self).history() == old(self).history().push(
                event(Call::TrivialContained { frame, cube: cube@ }, Reply::Index(r)),
            ),
    ;

    /// Orders the lemmas of a frame by length.
    fn sort_frame(&mut self, frame: usize)
        ensures
            final(self).history() == old(self).history().push(
                event(Call::SortFrame { frame }, Reply::Done),
            ),
    ;

    /// The lemmas that a frame holds.
    fn frame_lemmas(&mut self, frame: usize) -> (r: Vec<FrameLemma>)
        ensures
            final(self).history() == old(self).history().push(
                event(Call::FrameLemmas { frame }, Reply::Lemmas(lemma_views(r@))),
            ),
    ;

    /// Whether a frame holds the lemma.
    fn frame_has(&mut self, frame: usize, cube: &Vec<Lit>) -> (r: bool)
        ensures
            final(self).history() == old(self).history().push(
                event(Call::FrameHas { frame, cube: cube@ }, Reply::Flag(r)),
            ),
    ;

    /// Whether a frame holds no lemma.
    fn frame_is_empty(&mut self, frame: usize) -> (r: bool)
        ensures
            final(self).history() == old(self).history().push(
                event(Call::FrameIsEmpty { frame }, Reply::Flag(r)),
            ),
    ;

    /// The first frame that has changed since lemmas were last propagated.
    fn early(&mut self) -> (r: usize)
        ensures
            final(self).history() == old(self).history().push(
                event(Call::Early, Reply::Size(r)),
            ),
    ;

    /// Sets the first frame that counts as changed.
    fn set_early(&mut self, frame: usize)
        ensures
            final(self).history() == old(self).history().push(
                event(Call::SetEarly { frame }, Reply::Done),
            ),
    ;

    /// Detaches every lemma from its obligation.
    fn forget_obligations(&mut self)
        ensures
            final(self).history() == old(self).history().push(
                event(Call::ForgetObligations, Reply::Done),
            ),
    ;

    /// The cubes that the inductive frames exclude.
    fn invariant_cubes(&mut self) -> (r: Vec<Vec<Lit>>)
        ensures
            final(self).history() == old(self).history().push(
                event(Call::InvariantCubes, Reply::Cubes(cubes(r@))),
            ),
    ;

    /// Queues an obligation.
    fn add_obligation(&mut self, id: usize, po: &Obligation)
        ensures
            final(self).history() == old(self).history().push(
                event(Call::AddObligation { id, po: po@ }, Reply::Done),
            ),
    ;

    /// Puts an obligation that was taken out back into the queue.
    fn requeue_obligation(&mut self, id: usize, po: &Obligation)
        ensures
            final(self).history() == old(self).history().push(
                event(Call::RequeueObligation { id, po: po@ }, Reply::Done),
            ),
    ;

    /// Takes the next obligation of a frame up to `level` out of the queue.
    fn pop_obligation(&mut self, level: usize) -> (r: Option<usize>)
        ensures
            final(self).history() == old(self).history().push(
                event(Call::PopObligation { level }, Reply::Index(r)),
            ),
    ;

    /// The next obligation, which stays in the queue.
    fn peak_obligation(&mut self) -> (r: Option<usize>)
        ensures
            final(self).history() == old(self).history().push(
                event(Call::PeakObligation, Reply::Index(r)),
            ),
    ;

    /// Takes an obligation out of the queue, and says whether it was there.
    fn remove_obligation(&mut self, id: usize) -> (r: bool)
        ensures
            final(self).history() == old(self).history().push(
                event(Call::RemoveObligation { id }, Reply::Flag(r)),
            ),
    ;

    /// Empties the queue.
    fn clear_obligations(&mut self)
        ensures
            final(self).history() == old(self).history().push(
                event(Call::ClearObligations, Reply::Done),
            ),
    ;

    /// Whether an obligation has been withdrawn.
    fn is_removed(&mut self, id: usize) -> (r: bool)
        ensures
            final(self).history() == old(self).history().push(
                event(Call::IsRemoved { id }, Reply::Flag(r)),
            ),
    ;

    /// Lets the activity of an obligation fade as it moves to another frame.
    fn push_to(&mut self, id: usize, from: usize, to: usize)
        ensures
            final(self).history() == old(self).history().push(
                event(Call::PushTo { id, from, to }, Reply::Done),
            ),
    ;

    /// Raises the activity of an obligation.
    fn bump_act(&mut self, id: usize)
        ensures
            final(self).history() == old(self).history().push(
                event(Call::BumpAct { id }, Reply::Done),
            ),
    ;

    /// The whole part of the highest activity among some obligations.
    fn peak_act(&mut self, window: &Vec<usize>) -> (r: u64)
        ensures
            final(self).history() == old(self).history().push(
                event(Call::PeakAct { window: window@ }, Reply::Whole(r)),
            ),
    ;

    /// The number of nested blocking attempts that the highest activity among some obligations
    /// calls for.
    fn exctg_limit(&mut self, window: &Vec<usize>, profile: Profile) -> (r: usize)
        ensures
            final(self).history() == old(self).history().push(
                event(Call::ExctgLimit { window: window@, profile }, Reply::Size(r)),
            ),
    ;

    /// Reads off the features of an obligation that the next scores and rewards rest on.
    fn observe_context(&mut self, id: usize, po: &Obligation, level: usize)
        ensures
            final(self).history() == old(self).history().push(
                event(Call::ObserveContext { id, po: po@, level }, Reply::Done),
            ),
    ;

    /// The score of an arm; scores compare as these numbers do.
    fn arm_score(&mut self, arm: usize) -> (r: i64)
        ensures
            final(self).history() == old(self).history().push(
                event(Call::ArmScore { arm }, Reply::Score(r)),
            ),
    ;

    /// Credits an arm with the outcome of its use.
    fn update_linucb(&mut self, arm: usize, terms: RewardTerms)
        ensures
            final(self).history() == old(self).history().push(
                event(Call::Reward { arm, terms }, Reply::Done),
            ),
    ;

    /// The constraints that a concrete run to the bad state violates, or none where the run exists.
    fn check_witness_by_bmc(&mut self, id: usize) -> (r: Option<Vec<Lit>>)
        ensures
            final(self).history() == old(self).history().push(
                event(Call::CheckWitnessByBmc { id }, Reply::MaybeCube(lits_view(r))),
            ),
    ;

    /// The number of steps that the bounded search unrolled, if it ran.
    fn bmc_unrolled(&mut self) -> (r: Option<usize>)
        ensures
            final(self).history() == old(self).history().push(
                event(Call::BmcUnrolled, Reply::Index(r)),
            ),
    ;

    /// The value of a literal in the model that the bounded search holds.
    fn bmc_value(&mut self, lit: Lit) -> (r: Option<bool>)
        ensures
            final(self).history() == old(self).history().push(
                event(Call::BmcValue { lit }, Reply::Value(r)),
            ),
    ;

    /// A new literal of the certificate: the conjunction of the given ones.
    fn new_and(&mut self, lits: &Vec<Lit>) -> (r: Lit)
        ensures
            final(self).history() == old(self).history().push(
                event(Call::NewAnd { lits: lits@ }, Reply::Literal(r)),
            ),
    ;

    /// A new literal of the certificate: the disjunction of the given ones.
    fn new_or(&mut self, lits: &Vec<Lit>) -> (r: Lit)
        ensures
            final(self).history() == old(self).history().push(
                event(Call::NewOr { lits: lits@ }, Reply::Literal(r)),
            ),
    ;

    /// Checks the inductive invariant that was found.
    fn verify(&mut self)
        ensures
            final(self).history() == old(self).history().push(
                event(Call::Verify, Reply::Done),
            ),
    ;

    /// Counts.
    fn tally(&mut self, tally: Tally)
        ensures
            final(self).history() == old(self).history().push(
                event(Call::Count { tally }, Reply::Done),
            ),
    ;
}

/// A reasoner, a source of random words, and the log of what was asked of both.
pub struct Session<R: Reasoner> {
    reasoner: R,
    words: Words,
    log: Ghost<Seq<Event>>,
    before: Ghost<Seq<Event>>,
}

/// A log without the draws of random words: what the reasoner sees of it.
pub open spec fn without_draws(log: Seq<Event>) -> Seq<Event> {
    log.filter(|e: Event| !(e.call is Draw))
}

impl<R: Reasoner> Session<R> {
    /// The reasoner, as it stands.
    pub closed spec fn inner(&self) -> R {
        self.reasoner
    }

    /// The source of random words, as it stands.
    pub closed spec fn source(&self) -> Words {
        self.words
    }

    /// What was asked in the session and what was answered, in order.
    pub closed spec fn log(&self) -> Seq<Event> {
        self.log@
    }

    /// What was asked of the reasoner before the session.
    pub closed spec fn before(&self) -> Seq<Event> {
        self.before@
    }

    /// Whether the log is what the reasoner saw: it was asked what the log holds, the draws of
    /// random words excepted, in that order, and nothing else, and gave the answers that the log
    /// holds. As many words were drawn as the log says.
    #[verifier::opaque]
    pub open spec fn tied(self) -> bool {
        &&& self.inner().history() == self.before() + without_draws(self.log())
        &&& self.source().drawn() == self.log().len() - without_draws(self.log()).len()
    }

    /// Whether the session has come from an earlier state of it: the log went on, and is still
    /// what the reasoner saw; see [`law_history`].
    pub open spec fn continues(self, earlier: Session<R>) -> bool {
        &&& extends(self.log(), earlier.log())
        &&& self.before() == earlier.before()
        &&& self.source().seed() == earlier.source().seed()
        &&& earlier.tied() ==> self.tied()
    }

    /// Whether that came about without a draw: the source of random words is as it was.
    pub open spec fn asks(self, earlier: Session<R>) -> bool {
        self.continues(earlier) && self.source() == earlier.source()
    }
}

/// What a log shows of one event more to the reasoner.
proof fn lemma_without_draws(log: Seq<Event>, e: Event)
    ensures
        without_draws(log.push(e)) == if e.call is Draw {
            without_draws(log)
        } else {
            without_draws(log).push(e)
        },
{
    reveal(Seq::filter);
    assert(log.push(e).drop_last() =~= log);
}

/// An event that both the reasoner and the log note keeps the two tied.
proof fn lemma_noted<R: Reasoner>(earlier: Session<R>, later: Session<R>, e: Event)
    requires
        later.inner().history() == earlier.inner().history().push(e),
        later.log() == earlier.log().push(e),
        later.before() == earlier.before(),
        later.source() == earlier.source(),
        !(e.call is Draw),
    ensures
        later.continues(earlier),
{
    reveal(Session::tied);
    lemma_without_draws(earlier.log(), e);
    if earlier.tied() {
        assert(later.inner().history() =~= later.before() + without_draws(later.log()));
    }
}

/// What a log shows of two parts is what it shows of the one and of the other.
proof fn lemma_parts(log: Seq<Event>, n: int)
    requires
        0 <= n <= log.len(),
    ensures
        without_draws(log) == without_draws(log.take(n)) + without_draws(log.skip(n)),
{
    Seq::filter_distributes_over_add(log.take(n), log.skip(n), |e: Event| !(e.call is Draw));
    assert(log =~= log.take(n) + log.skip(n));
}

/// The reasoner is asked what the log says: between two states of a session, its history goes on
/// by the new part of the log, the draws excepted, and as many words are drawn as that has draws.
pub proof fn law_history<R: Reasoner>(earlier: Session<R>, later: Session<R>)
    requires
        earlier.tied(),
        later.continues(earlier),
    ensures
        later.inner().history() == earlier.inner().history() + without_draws(
            later.log().skip(earlier.log().len() as int),
        ),
        later.source().drawn() - earlier.source().drawn() == later.log().skip(
            earlier.log().len() as int,
        ).len() - without_draws(later.log().skip(earlier.log().len() as int)).len(),
{
    reveal(Session::tied);
    let n = earlier.log().len() as int;
    lemma_parts(later.log(), n);
    assert(later.log().take(n) =~= earlier.log());
    assert(later.inner().history() =~= earlier.inner().history() + without_draws(
        later.log().skip(n),
    ));
}

impl<R: Reasoner> Session<R> {
    /// Asks `Reasoner::cube_subsume_init`.
    pub fn cube_subsume_init(&mut self, cube: &Vec<Lit>) -> (r: bool)
        ensures
            final(self).asks(*old(self)),
            final(self).log() == old(self).log().push(
                event(Call::CubeSubsumeInit { cube: cube@ }, Reply::Flag(r)),
            ),
            final(self).inner().history() == old(self).inner().history().push(
                final(self).log().last(),
            ),
    {
        let r: bool = self.reasoner.cube_subsume_init(cube);
        proof {
            let e = event(Call::CubeSubsumeInit { cube: cube@ }, Reply::Flag(r));
            self.log@ = self.log@.push(e);
            lemma_noted(*old(self), *self, e);
        }
        r
    }

    /// Asks `Reasoner::next`.
    pub fn next(&mut self, lit: Lit) -> (r: Lit)
        ensures
            final(self).asks(*old(self)),
            final(self).log() == old(self).log().push(
                event(Call::Next { lit }, Reply::Literal(r)),
            ),
            final(self).inner().history() == old(self).inner().history().push(
                final(self).log().last(),
            ),
    {
        let r: Lit = self.reasoner.next(lit);
        proof {
            let e = event(Call::Next { lit }, Reply::Literal(r));
            self.log@ = self.log@.push(e);
            lemma_noted(*old(self), *self, e);
        }
        r
    }

    /// Asks `Reasoner::lits_next`.
    pub fn lits_next(&mut self, cube: &Vec<Lit>) -> (r: Vec<Lit>)
        ensures
            final(self).asks(*old(self)),
            final(self).log() == old(self).log().push(
                event(Call::LitsNext { cube: cube@ }, Reply::Cube(r@)),
            ),
            final(self).inner().history() == old(self).inner().history().push(
                final(self).log().last(),
            ),
    {
        let r: Vec<Lit> = self.reasoner.lits_next(cube);
        proof {
            let e = event(Call::LitsNext { cube: cube@ }, Reply::Cube(r@));
            self.log@ = self.log@.push(e);
            lemma_noted(*old(self), *self, e);
        }
        r
    }

    /// Asks `Reasoner::var_next`.
    pub fn var_next(&mut self, var: Var, step: usize) -> (r: Var)
        ensures
            final(self).asks(*old(self)),
            final(self).log() == old(self).log().push(
                event(Call::VarNext { var, step }, Reply::Variable(r)),
            ),
            final(self).inner().history() == old(self).inner().history().push(
                final(self).log().last(),
            ),
    {
        let r: Var = self.reasoner.var_next(var, step);
        proof {
            let e = event(Call::VarNext { var, step }, Reply::Variable(r));
            self.log@ = self.log@.push(e);
            lemma_noted(*old(self), *self, e);
        }
        r
    }

    /// Asks `Reasoner::lit_next`.
    pub fn lit_next(&mut self, lit: Lit, step: usize) -> (r: Lit)
        ensures
            final(self).asks(*old(self)),
            final(self).log() == old(self).log().push(
                event(Call::LitNext { lit, step }, Reply::Literal(r)),
            ),
            final(self).inner().history() == old(self).inner().history().push(
                final(self).log().last(),
            ),
    {
        let r: Lit = self.reasoner.lit_next(lit, step);
        proof {
            let e = event(Call::LitNext { lit, step }, Reply::Literal(r));
            self.log@ = self.log@.push(e);
            lemma_noted(*old(self), *self, e);
        }
        r
    }

    /// Asks `Reasoner::restore`.
    pub fn restore(&mut self, lit: Lit) -> (r: Lit)
        ensures
            final(self).asks(*old(self)),
            final(self).log() == old(self).log().push(
                event(Call::Restore { lit }, Reply::Literal(r)),
            ),
            final(self).inner().history() == old(self).inner().history().push(
                final(self).log().last(),
            ),
    {
        let r: Lit = self.reasoner.restore(lit);
        proof {
            let e = event(Call::Restore { lit }, Reply::Literal(r));
            self.log@ = self.log@.push(e);
            lemma_noted(*old(self), *self, e);
        }
        r
    }

    /// Asks `Reasoner::init`.
    pub fn init(&mut self) -> (r: Vec<Lit>)
        ensures
            final(self).asks(*old(self)),
            final(self).log() == old(self).log().push(
                event(Call::Init, Reply::Cube(r@)),
            ),
            final(self).inner().history() == old(self).inner().history().push(
                final(self).log().last(),
            ),
    {
        let r: Vec<Lit> = self.reasoner.init();
        proof {
            let e = event(Call::Init, Reply::Cube(r@));
            self.log@ = self.log@.push(e);
            lemma_noted(*old(self), *self, e);
        }
        r
    }

    /// Asks `Reasoner::has_init`.
    pub fn has_init(&mut self, var: Var) -> (r: bool)
        ensures
            final(self).asks(*old(self)),
            final(self).log() == old(self).log().push(
                event(Call::HasInit { var }, Reply::Flag(r)),
            ),
            final(self).inner().history() == old(self).inner().history().push(
                final(self).log().last(),
            ),
    {
        let r: bool = self.reasoner.has_init(var);
        proof {
            let e = event(Call::HasInit { var }, Reply::Flag(r));
            self.log@ = self.log@.push(e);
            lemma_noted(*old(self), *self, e);
        }
        r
    }

    /// Asks `Reasoner::add_init`.
    pub fn add_init(&mut self, var: Var, value: bool)
        ensures
            final(self).asks(*old(self)),
            final(self).log() == old(self).log().push(
                event(Call::AddInit { var, value }, Reply::Done),
            ),
            final(self).inner().history() == old(self).inner().history().push(
                final(self).log().last(),
            ),
    {
        self.reasoner.add_init(var, value);
        proof {
            let e = event(Call::AddInit { var, value }, Reply::Done);
            self.log@ = self.log@.push(e);
            lemma_noted(*old(self), *self, e);
        }
    }

    /// Asks `Reasoner::bad`.
    pub fn bad(&mut self) -> (r: Lit)
        ensures
            final(self).asks(*old(self)),
            final(self).log() == old(self).log().push(
                event(Call::Bad, Reply::Literal(r)),
            ),
            final(self).inner().history() == old(self).inner().history().push(
                final(self).log().last(),
            ),
    {
        let r: Lit = self.reasoner.bad();
        proof {
            let e = event(Call::Bad, Reply::Literal(r));
            self.log@ = self.log@.push(e);
            lemma_noted(*old(self), *self, e);
        }
        r
    }

    /// Asks `Reasoner::add_constraint`.
    pub fn add_constraint(&mut self, lit: Lit)
        ensures
            final(self).asks(*old(self)),
            final(self).log() == old(self).log().push(
                event(Call::AddConstraint { lit }, Reply::Done),
            ),
            final(self).inner().history() == old(self).inner().history().push(
                final(self).log().last(),
            ),
    {
        self.reasoner.add_constraint(lit);
        proof {
            let e = event(Call::AddConstraint { lit }, Reply::Done);
            self.log@ = self.log@.push(e);
            lemma_noted(*old(self), *self, e);
        }
    }

    /// Asks `Reasoner::blocked_with_ordered`.
    pub fn blocked_with_ordered(
        &mut self,
        frame: usize,
        cube: &Vec<Lit>,
        strengthen: bool,
    ) -> (r: bool)
        ensures
            final(self).asks(*old(self)),
            final(self).log() == old(self).log().push(
                event(Call::Blocked { frame, cube: cube@, strengthen }, Reply::Flag(r)),
            ),
            final(self).inner().history() == old(self).inner().history().push(
                final(self).log().last(),
            ),
    {
        let r: bool = self.reasoner.blocked_with_ordered(frame, cube, strengthen);
        proof {
            let e = event(Call::Blocked { frame, cube: cube@, strengthen }, Reply::Flag(r));
            self.log@ = self.log@.push(e);
            lemma_noted(*old(self), *self, e);
        }
        r
    }

    /// Asks `Reasoner::blocked_with_ordered_with_constrain`.
    pub fn blocked_with_ordered_with_constrain(
        &mut self,
        frame: usize,
        cube: &Vec<Lit>,
        strengthen: bool,
        constraint: &Vec<Vec<Lit>>,
    ) -> (r: bool)
        ensures
            final(self).asks(*old(self)),
            final(self).log() == old(self).log().push(
                event(
                    Call::BlockedUnder {
                        frame,
                        cube: cube@,
                        strengthen,
                        constraint: cubes(constraint@),
                    },
                    Reply::Flag(r),
                ),
            ),
            final(self).inner().history() == old(self).inner().history().push(
                final(self).log().last(),
            ),
    {
        let r: bool = self.reasoner.blocked_with_ordered_with_constrain(
            frame,
            cube,
            strengthen,
            constraint,
        );
        proof {
            let e = event(
                Call::BlockedUnder {
                    frame,
                    cube: cube@,
                    strengthen,
                    constraint: cubes(constraint@),
                },
                Reply::Flag(r),
            );
            self.log@ = self.log@.push(e);
            lemma_noted(*old(self), *self, e);
        }
        r
    }

    /// Asks `Reasoner::inductive`.
    pub fn inductive(&mut self, solver: usize, cube: &Vec<Lit>, strengthen: bool) -> (r: bool)
        ensures
            final(self).asks(*old(self)),
            final(self).log() == old(self).log().push(
                event(Call::Inductive { solver, cube: cube@, strengthen }, Reply::Flag(r)),
            ),
            final(self).inner().history() == old(self).inner().history().push(
                final(self).log().last(),
            ),
    {
        let r: bool = self.reasoner.inductive(solver, cube, strengthen);
        proof {
            let e = event(Call::Inductive { solver, cube: cube@, strengthen }, Reply::Flag(r));
            self.log@ = self.log@.push(e);
            lemma_noted(*old(self), *self, e);
        }
        r
    }

    /// Asks `Reasoner::inductive_core`.
    pub fn inductive_core(&mut self, solver: usize) -> (r: Vec<Lit>)
        ensures
            final(self).asks(*old(self)),
            final(self).log() == old(self).log().push(
                event(Call::InductiveCore { solver }, Reply::Cube(r@)),
            ),
            final(self).inner().history() == old(self).inner().history().push(
                final(self).log().last(),
            ),
    {
        let r: Vec<Lit> = self.reasoner.inductive_core(solver);
        proof {
            let e = event(Call::InductiveCore { solver }, Reply::Cube(r@));
            self.log@ = self.log@.push(e);
            lemma_noted(*old(self), *self, e);
        }
        r
    }

    /// Asks `Reasoner::sat_value`.
    pub fn sat_value(&mut self, solver: usize, lit: Lit) -> (r: Option<bool>)
        ensures
            final(self).asks(*old(self)),
            final(self).log() == old(self).log().push(
                event(Call::SatValue { solver, lit }, Reply::Value(r)),
            ),
            final(self).inner().history() == old(self).inner().history().push(
                final(self).log().last(),
            ),
    {
        let r: Option<bool> = self.reasoner.sat_value(solver, lit);
        proof {
            let e = event(Call::SatValue { solver, lit }, Reply::Value(r));
            self.log@ = self.log@.push(e);
            lemma_noted(*old(self), *self, e);
        }
        r
    }

    /// Asks `Reasoner::flip_to_none`.
    pub fn flip_to_none(&mut self, solver: usize, var: Var) -> (r: bool)
        ensures
            final(self).asks(*old(self)),
            final(self).log() == old(self).log().push(
                event(Call::FlipToNone { solver, var }, Reply::Flag(r)),
            ),
            final(self).inner().history() == old(self).inner().history().push(
                final(self).log().last(),
            ),
    {
        let r: bool = self.reasoner.flip_to_none(solver, var);
        proof {
            let e = event(Call::FlipToNone { solver, var }, Reply::Flag(r));
            self.log@ = self.log@.push(e);
            lemma_noted(*old(self), *self, e);
        }
        r
    }

    /// Asks `Reasoner::get_pred`.
    pub fn get_pred(&mut self, frame: usize, strengthen: bool) -> (r: (Vec<Lit>, Vec<Lit>))
        ensures
            final(self).asks(*old(self)),
            final(self).log() == old(self).log().push(
                event(Call::GetPred { frame, strengthen }, Reply::Pred(r.0@, r.1@)),
            ),
            final(self).inner().history() == old(self).inner().history().push(
                final(self).log().last(),
            ),
    {
        let r: (Vec<Lit>, Vec<Lit>) = self.reasoner.get_pred(frame, strengthen);
        proof {
            let e = event(Call::GetPred { frame, strengthen }, Reply::Pred(r.0@, r.1@));
            self.log@ = self.log@.push(e);
            lemma_noted(*old(self), *self, e);
        }
        r
    }

    /// Asks `Reasoner::get_bad`.
    pub fn get_bad(&mut self, level: usize) -> (r: Option<(Vec<Lit>, Vec<Vec<Lit>>)>)
        ensures
            final(self).asks(*old(self)),
            final(self).log() == old(self).log().push(
                event(Call::GetBad { level }, Reply::BadState(bad_view(r))),
            ),
            final(self).inner().history() == old(self).inner().history().push(
                final(self).log().last(),
            ),
    {
        let r: Option<(Vec<Lit>, Vec<Vec<Lit>>)> = self.reasoner.get_bad(level);
        proof {
            let e = event(Call::GetBad { level }, Reply::BadState(bad_view(r)));
            self.log@ = self.log@.push(e);
            lemma_noted(*old(self), *self, e);
        }
        r
    }

    /// Asks `Reasoner::solve`.
    pub fn solve(&mut self, solver: usize, cube: &Vec<Lit>) -> (r: bool)
        ensures
            final(self).asks(*old(self)),
            final(self).log() == old(self).log().push(
                event(Call::Solve { solver, cube: cube@ }, Reply::Flag(r)),
            ),
            final(self).inner().history() == old(self).inner().history().push(
                final(self).log().last(),
            ),
    {
        let r: bool = self.reasoner.solve(solver, cube);
        proof {
            let e = event(Call::Solve { solver, cube: cube@ }, Reply::Flag(r));
            self.log@ = self.log@.push(e);
            lemma_noted(*old(self), *self, e);
        }
        r
    }

    /// Asks `Reasoner::solve_without_bucket`.
    pub fn solve_without_bucket(&mut self, solver: usize, cube: &Vec<Lit>) -> (r: bool)
        ensures
            final(self).asks(*old(self)),
            final(self).log() == old(self).log().push(
                event(Call::SolveWithoutBucket { solver, cube: cube@ }, Reply::Flag(r)),
            ),
            final(self).inner().history() == old(self).inner().history().push(
                final(self).log().last(),
            ),
    {
        let r: bool = self.reasoner.solve_without_bucket(solver, cube);
        proof {
            let e = event(Call::SolveWithoutBucket { solver, cube: cube@ }, Reply::Flag(r));
            self.log@ = self.log@.push(e);
            lemma_noted(*old(self), *self, e);
        }
        r
    }

    /// Asks `Reasoner::set_domain`.
    pub fn set_domain(&mut self, solver: usize, lits: &Vec<Lit>)
        ensures
            final(self).asks(*old(self)),
            final(self).log() == old(self).log().push(
                event(Call::SetDomain { solver, lits: lits@ }, Reply::Done),
            ),
            final(self).inner().history() == old(self).inner().history().push(
                final(self).log().last(),
            ),
    {
        self.reasoner.set_domain(solver, lits);
        proof {
            let e = event(Call::SetDomain { solver, lits: lits@ }, Reply::Done);
            self.log@ = self.log@.push(e);
            lemma_noted(*old(self), *self, e);
        }
    }

    /// Asks `Reasoner::unset_domain`.
    pub fn unset_domain(&mut self, solver: usize)
        ensures
            final(self).asks(*old(self)),
            final(self).log() == old(self).log().push(
                event(Call::UnsetDomain { solver }, Reply::Done),
            ),
            final(self).inner().history() == old(self).inner().history().push(
                final(self).log().last(),
            ),
    {
        self.reasoner.unset_domain(solver);
        proof {
            let e = event(Call::UnsetDomain { solver }, Reply::Done);
            self.log@ = self.log@.push(e);
            lemma_noted(*old(self), *self, e);
        }
    }

    /// Asks `Reasoner::renew_bad_solver`.
    pub fn renew_bad_solver(&mut self)
        ensures
            final(self).asks(*old(self)),
            final(self).log() == old(self).log().push(
                event(Call::RenewBadSolver, Reply::Done),
            ),
            final(self).inner().history() == old(self).inner().history().push(
                final(self).log().last(),
            ),
    {
        self.reasoner.renew_bad_solver();
        proof {
            let e = event(Call::RenewBadSolver, Reply::Done);
            self.log@ = self.log@.push(e);
            lemma_noted(*old(self), *self, e);
        }
    }

    /// Asks `Reasoner::renew_lift`.
    pub fn renew_lift(&mut self)
        ensures
            final(self).asks(*old(self)),
            final(self).log() == old(self).log().push(
                event(Call::RenewLift, Reply::Done),
            ),
            final(self).inner().history() == old(self).inner().history().push(
                final(self).log().last(),
            ),
    {
        self.reasoner.renew_lift();
        proof {
            let e = event(Call::RenewLift, Reply::Done);
            self.log@ = self.log@.push(e);
            lemma_noted(*old(self), *self, e);
        }
    }

    /// Asks `Reasoner::new_solver`.
    pub fn new_solver(&mut self, frame: usize)
        ensures
            final(self).asks(*old(self)),
            final(self).log() == old(self).log().push(
                event(Call::NewSolver { frame }, Reply::Done),
            ),
            final(self).inner().history() == old(self).inner().history().push(
                final(self).log().last(),
            ),
    {
        self.reasoner.new_solver(frame);
        proof {
            let e = event(Call::NewSolver { frame }, Reply::Done);
            self.log@ = self.log@.push(e);
            lemma_noted(*old(self), *self, e);
        }
    }

    /// Asks `Reasoner::add_domain`.
    pub fn add_domain(&mut self, var: Var, permanent: bool)
        ensures
            final(self).asks(*old(self)),
            final(self).log() == old(self).log().push(
                event(Call::AddDomain { var, permanent }, Reply::Done),
            ),
            final(self).inner().history() == old(self).inner().history().push(
                final(self).log().last(),
            ),
    {
        self.reasoner.add_domain(var, permanent);
        proof {
            let e = event(Call::AddDomain { var, permanent }, Reply::Done);
            self.log@ = self.log@.push(e);
            lemma_noted(*old(self), *self, e);
        }
    }

    /// Asks `Reasoner::install_solver`.
    pub fn install_solver(&mut self)
        ensures
            final(self).asks(*old(self)),
            final(self).log() == old(self).log().push(
                event(Call::InstallSolver, Reply::Done),
            ),
            final(self).inner().history() == old(self).inner().history().push(
                final(self).log().last(),
            ),
    {
        self.reasoner.install_solver();
        proof {
            let e = event(Call::InstallSolver, Reply::Done);
            self.log@ = self.log@.push(e);
            lemma_noted(*old(self), *self, e);
        }
    }

    /// Asks `Reasoner::sort_hybrid`.
    pub fn sort_hybrid(&mut self, cube: &Vec<Lit>, frame: usize, reverse: bool) -> (r: Vec<Lit>)
        ensures
            final(self).asks(*old(self)),
            final(self).log() == old(self).log().push(
                event(Call::SortHybrid { cube: cube@, frame, reverse }, Reply::Cube(r@)),
            ),
            final(self).inner().history() == old(self).inner().history().push(
                final(self).log().last(),
            ),
    {
        let r: Vec<Lit> = self.reasoner.sort_hybrid(cube, frame, reverse);
        proof {
            let e = event(Call::SortHybrid { cube: cube@, frame, reverse }, Reply::Cube(r@));
            self.log@ = self.log@.push(e);
            lemma_noted(*old(self), *self, e);
        }
        r
    }

    /// Asks `Reasoner::sort_by_activity`.
    pub fn sort_by_activity(&mut self, cube: &Vec<Lit>, ascending: bool) -> (r: Vec<Lit>)
        ensures
            final(self).asks(*old(self)),
            final(self).log() == old(self).log().push(
                event(Call::SortByActivity { cube: cube@, ascending }, Reply::Cube(r@)),
            ),
            final(self).inner().history() == old(self).inner().history().push(
                final(self).log().last(),
            ),
    {
        let r: Vec<Lit> = self.reasoner.sort_by_activity(cube, ascending);
        proof {
            let e = event(Call::SortByActivity { cube: cube@, ascending }, Reply::Cube(r@));
            self.log@ = self.log@.push(e);
            lemma_noted(*old(self), *self, e);
        }
        r
    }

    /// Asks `Reasoner::bump_cube_activity`.
    pub fn bump_cube_activity(&mut self, cube: &Vec<Lit>)
        ensures
            final(self).asks(*old(self)),
            final(self).log() == old(self).log().push(
                event(Call::BumpCubeActivity { cube: cube@ }, Reply::Done),
            ),
            final(self).inner().history() == old(self).inner().history().push(
                final(self).log().last(),
            ),
    {
        self.reasoner.bump_cube_activity(cube);
        proof {
            let e = event(Call::BumpCubeActivity { cube: cube@ }, Reply::Done);
            self.log@ = self.log@.push(e);
            lemma_noted(*old(self), *self, e);
        }
    }

    /// Asks `Reasoner::add_lemma`.
    pub fn add_lemma(
        &mut self,
        frame: usize,
        cube: &Vec<Lit>,
        contained_check: bool,
        owner: Option<usize>,
    ) -> (r: bool)
        ensures
            final(self).asks(*old(self)),
            final(self).log() == old(self).log().push(
                event(
                    Call::AddLemma { frame, cube: cube@, contained_check, owner },
                    Reply::Flag(r),
                ),
            ),
            final(self).inner().history() == old(self).inner().history().push(
                final(self).log().last(),
            ),
    {
        let r: bool = self.reasoner.add_lemma(frame, cube, contained_check, owner);
        proof {
            let e = event(
                Call::AddLemma { frame, cube: cube@, contained_check, owner },
                Reply::Flag(r),
            );
            self.log@ = self.log@.push(e);
            lemma_noted(*old(self), *self, e);
        }
        r
    }

    /// Asks `Reasoner::trivial_contained`.
    pub fn trivial_contained(&mut self, frame: usize, cube: &Vec<Lit>) -> (r: Option<usize>)
        ensures
            final(self).asks(*old(self)),
            final(self).log() == old(self).log().push(
                event(Call::TrivialContained { frame, cube: cube@ }, Reply::Index(r)),
            ),
            final(self).inner().history() == old(self).inner().history().push(
                final(self).log().last(),
            ),
    {
        let r: Option<usize> = self.reasoner.trivial_contained(frame, cube);
        proof {
            let e = event(Call::TrivialContained { frame, cube: cube@ }, Reply::Index(r));
            self.log@ = self.log@.push(e);
            lemma_noted(*old(self), *self, e);
        }
        r
    }

    /// Asks `Reasoner::sort_frame`.
    pub fn sort_frame(&mut self, frame: usize)
        ensures
            final(self).asks(*old(self)),
            final(self).log() == old(self).log().push(
                event(Call::SortFrame { frame }, Reply::Done),
            ),
            final(self).inner().history() == old(self).inner().history().push(
                final(self).log().last(),
            ),
    {
        self.reasoner.sort_frame(frame);
        proof {
            let e = event(Call::SortFrame { frame }, Reply::Done);
            self.log@ = self.log@.push(e);
            lemma_noted(*old(self), *self, e);
        }
    }

    /// Asks `Reasoner::frame_lemmas`.
    pub fn frame_lemmas(&mut self, frame: usize) -> (r: Vec<FrameLemma>)
        ensures
            final(self).asks(*old(self)),
            final(self).log() == old(self).log().push(
                event(Call::FrameLemmas { frame }, Reply::Lemmas(lemma_views(r@))),
            ),
            final(self).inner().history() == old(self).inner().history().push(
                final(self).log().last(),
            ),
    {
        let r: Vec<FrameLemma> = self.reasoner.frame_lemmas(frame);
        proof {
            let e = event(Call::FrameLemmas { frame }, Reply::Lemmas(lemma_views(r@)));
            self.log@ = self.log@.push(e);
            lemma_noted(*old(self), *self, e);
        }
        r
    }

    /// Asks `Reasoner::frame_has`.
    pub fn frame_has(&mut self, frame: usize, cube: &Vec<Lit>) -> (r: bool)
        ensures
            final(self).asks(*old(self)),
            final(self).log() == old(self).log().push(
                event(Call::FrameHas { frame, cube: cube@ }, Reply::Flag(r)),
            ),
            final(self).inner().history() == old(self).inner().history().push(
                final(self).log().last(),
            ),
    {
        let r: bool = self.reasoner.frame_has(frame, cube);
        proof {
            let e = event(Call::FrameHas { frame, cube: cube@ }, Reply::Flag(r));
            self.log@ = self.log@.push(e);
            lemma_noted(*old(self), *self, e);
        }
        r
    }

    /// Asks `Reasoner::frame_is_empty`.
    pub fn frame_is_empty(&mut self, frame: usize) -> (r: bool)
        ensures
            final(self).asks(*old(self)),
            final(self).log() == old(self).log().push(
                event(Call::FrameIsEmpty { frame }, Reply::Flag(r)),
            ),
            final(self).inner().history() == old(self).inner().history().push(
                final(self).log().last(),
            ),
    {
        let r: bool = self.reasoner.frame_is_empty(frame);
        proof {
            let e = event(Call::FrameIsEmpty { frame }, Reply::Flag(r));
            self.log@ = self.log@.push(e);
            lemma_noted(*old(self), *self, e);
        }
        r
    }

    /// Asks `Reasoner::early`.
    pub fn early(&mut self) -> (r: usize)
        ensures
            final(self).asks(*old(self)),
            final(self).log() == old(self).log().push(
                event(Call::Early, Reply::Size(r)),
            ),
            final(self).inner().history() == old(self).inner().history().push(
                final(self).log().last(),
            ),
    {
        let r: usize = self.reasoner.early();
        proof {
            let e = event(Call::Early, Reply::Size(r));
            self.log@ = self.log@.push(e);
            lemma_noted(*old(self), *self, e);
        }
        r
    }

    /// Asks `Reasoner::set_early`.
    pub fn set_early(&mut self, frame: usize)
        ensures
            final(self).asks(*old(self)),
            final(self).log() == old(self).log().push(
                event(Call::SetEarly { frame }, Reply::Done),
            ),
            final(self).inner().history() == old(self).inner().history().push(
                final(self).log().last(),
            ),
    {
        self.reasoner.set_early(frame);
        proof {
            let e = event(Call::SetEarly { frame }, Reply::Done);
            self.log@ = self.log@.push(e);
            lemma_noted(*old(self), *self, e);
        }
    }

    /// Asks `Reasoner::forget_obligations`.
    pub fn forget_obligations(&mut self)
        ensures
            final(self).asks(*old(self)),
            final(self).log() == old(self).log().push(
                event(Call::ForgetObligations, Reply::Done),
            ),
            final(self).inner().history() == old(self).inner().history().push(
                final(self).log().last(),
            ),
    {
        self.reasoner.forget_obligations();
        proof {
            let e = event(Call::ForgetObligations, Reply::Done);
            self.log@ = self.log@.push(e);
            lemma_noted(*old(self), *self, e);
        }
    }

    /// Asks `Reasoner::invariant_cubes`.
    pub fn invariant_cubes(&mut self) -> (r: Vec<Vec<Lit>>)
        ensures
            final(self).asks(*old(self)),
            final(self).log() == old(self).log().push(
                event(Call::InvariantCubes, Reply::Cubes(cubes(r@))),
            ),
            final(self).inner().history() == old(self).inner().history().push(
                final(self).log().last(),
            ),
    {
        let r: Vec<Vec<Lit>> = self.reasoner.invariant_cubes();
        proof {
            let e = event(Call::InvariantCubes, Reply::Cubes(cubes(r@)));
            self.log@ = self.log@.push(e);
            lemma_noted(*old(self), *self, e);
        }
        r
    }

    /// Asks `Reasoner::add_obligation`.
    pub fn add_obligation(&mut self, id: usize, po: &Obligation)
        ensures
            final(self).asks(*old(self)),
            final(self).log() == old(self).log().push(
                event(Call::AddObligation { id, po: po@ }, Reply::Done),
            ),
            final(self).inner().history() == old(self).inner().history().push(
                final(self).log().last(),
            ),
    {
        self.reasoner.add_obligation(id, po);
        proof {
            let e = event(Call::AddObligation { id, po: po@ }, Reply::Done);
            self.log@ = self.log@.push(e);
            lemma_noted(*old(self), *self, e);
        }
    }

    /// Asks `Reasoner::requeue_obligation`.
    pub fn requeue_obligation(&mut self, id: usize, po: &Obligation)
        ensures
            final(self).asks(*old(self)),
            final(self).log() == old(self).log().push(
                event(Call::RequeueObligation { id, po: po@ }, Reply::Done),
            ),
            final(self).inner().history() == old(self).inner().history().push(
                final(self).log().last(),
            ),
    {
        self.reasoner.requeue_obligation(id, po);
        proof {
            let e = event(Call::RequeueObligation { id, po: po@ }, Reply::Done);
            self.log@ = self.log@.push(e);
            lemma_noted(*old(self), *self, e);
        }
    }

    /// Asks `Reasoner::pop_obligation`.
    pub fn pop_obligation(&mut self, level: usize) -> (r: Option<usize>)
        ensures
            final(self).asks(*old(self)),
            final(self).log() == old(self).log().push(
                event(Call::PopObligation { level }, Reply::Index(r)),
            ),
            final(self).inner().history() == old(self).inner().history().push(
                final(self).log().last(),
            ),
    {
        let r: Option<usize> = self.reasoner.pop_obligation(level);
        proof {
            let e = event(Call::PopObligation { level }, Reply::Index(r));
            self.log@ = self.log@.push(e);
            lemma_noted(*old(self), *self, e);
        }
        r
    }

    /// Asks `Reasoner::peak_obligation`.
    pub fn peak_obligation(&mut self) -> (r: Option<usize>)
        ensures
            final(self).asks(*old(self)),
            final(self).log() == old(self).log().push(
                event(Call::PeakObligation, Reply::Index(r)),
            ),
            final(self).inner().history() == old(self).inner().history().push(
                final(self).log().last(),
            ),
    {
        let r: Option<usize> = self.reasoner.peak_obligation();
        proof {
            let e = event(Call::PeakObligation, Reply::Index(r));
            self.log@ = self.log@.push(e);
            lemma_noted(*old(self), *self, e);
        }
        r
    }

    /// Asks `Reasoner::remove_obligation`.
    pub fn remove_obligation(&mut self, id: usize) -> (r: bool)
        ensures
            final(self).asks(*old(self)),
            final(self).log() == old(self).log().push(
                event(Call::RemoveObligation { id }, Reply::Flag(r)),
            ),
            final(self).inner().history() == old(self).inner().history().push(
                final(self).log().last(),
            ),
    {
        let r: bool = self.reasoner.remove_obligation(id);
        proof {
            let e = event(Call::RemoveObligation { id }, Reply::Flag(r));
            self.log@ = self.log@.push(e);
            lemma_noted(*old(self), *self, e);
        }
        r
    }

    /// Asks `Reasoner::clear_obligations`.
    pub fn clear_obligations(&mut self)
        ensures
            final(self).asks(*old(self)),
            final(self).log() == old(self).log().push(
                event(Call::ClearObligations, Reply::Done),
            ),
            final(self).inner().history() == old(self).inner().history().push(
                final(self).log().last(),
            ),
    {
        self.reasoner.clear_obligations();
        proof {
            let e = event(Call::ClearObligations, Reply::Done);
            self.log@ = self.log@.push(e);
            lemma_noted(*old(self), *self, e);
        }
    }

    /// Asks `Reasoner::is_removed`.
    pub fn is_removed(&mut self, id: usize) -> (r: bool)
        ensures
            final(self).asks(*old(self)),
            final(self).log() == old(self).log().push(
                event(Call::IsRemoved { id }, Reply::Flag(r)),
            ),
            final(self).inner().history() == old(self).inner().history().push(
                final(self).log().last(),
            ),
    {
        let r: bool = self.reasoner.is_removed(id);
        proof {
            let e = event(Call::IsRemoved { id }, Reply::Flag(r));
            self.log@ = self.log@.push(e);
            lemma_noted(*old(self), *self, e);
        }
        r
    }

    /// Asks `Reasoner::push_to`.
    pub fn push_to(&mut self, id: usize, from: usize, to: usize)
        ensures
            final(self).asks(*old(self)),
            final(self).log() == old(self).log().push(
                event(Call::PushTo { id, from, to }, Reply::Done),
            ),
            final(self).inner().history() == old(self).inner().history().push(
                final(self).log().last(),
            ),
    {
        self.reasoner.push_to(id, from, to);
        proof {
            let e = event(Call::PushTo { id, from, to }, Reply::Done);
            self.log@ = self.log@.push(e);
            lemma_noted(*old(self), *self, e);
        }
    }

    /// Asks `Reasoner::bump_act`.
    pub fn bump_act(&mut self, id: usize)
        ensures
            final(self).asks(*old(self)),
            final(self).log() == old(self).log().push(
                event(Call::BumpAct { id }, Reply::Done),
            ),
            final(self).inner().history() == old(self).inner().history().push(
                final(self).log().last(),
            ),
    {
        self.reasoner.bump_act(id);
        proof {
            let e = event(Call::BumpAct { id }, Reply::Done);
            self.log@ = self.log@.push(e);
            lemma_noted(*old(self), *self, e);
        }
    }

    /// Asks `Reasoner::peak_act`.
    pub fn peak_act(&mut self, window: &Vec<usize>) -> (r: u64)
        ensures
            final(self).asks(*old(self)),
            final(self).log() == old(self).log().push(
                event(Call::PeakAct { window: window@ }, Reply::Whole(r)),
            ),
            final(self).inner().history() == old(self).inner().history().push(
                final(self).log().last(),
            ),
    {
        let r: u64 = self.reasoner.peak_act(window);
        proof {
            let e = event(Call::PeakAct { window: window@ }, Reply::Whole(r));
            self.log@ = self.log@.push(e);
            lemma_noted(*old(self), *self, e);
        }
        r
    }

    /// Asks `Reasoner::exctg_limit`.
    pub fn exctg_limit(&mut self, window: &Vec<usize>, profile: Profile) -> (r: usize)
        ensures
            final(self).asks(*old(self)),
            final(self).log() == old(self).log().push(
                event(Call::ExctgLimit { window: window@, profile }, Reply::Size(r)),
            ),
            final(self).inner().history() == old(self).inner().history().push(
                final(self).log().last(),
            ),
    {
        let r: usize = self.reasoner.exctg_limit(window, profile);
        proof {
            let e = event(Call::ExctgLimit { window: window@, profile }, Reply::Size(r));
            self.log@ = self.log@.push(e);
            lemma_noted(*old(self), *self, e);
        }
        r
    }

    /// Asks `Reasoner::observe_context`.
    pub fn observe_context(&mut self, id: usize, po: &Obligation, level: usize)
        ensures
            final(self).asks(*old(self)),
            final(self).log() == old(self).log().push(
                event(Call::ObserveContext { id, po: po@, level }, Reply::Done),
            ),
            final(self).inner().history() == old(self).inner().history().push(
                final(self).log().last(),
            ),
    {
        self.reasoner.observe_context(id, po, level);
        proof {
            let e = event(Call::ObserveContext { id, po: po@, level }, Reply::Done);
            self.log@ = self.log@.push(e);
            lemma_noted(*old(self), *self, e);
        }
    }

    /// Asks `Reasoner::arm_score`.
    pub fn arm_score(&mut self, arm: usize) -> (r: i64)
        ensures
            final(self).asks(*old(self)),
            final(self).log() == old(self).log().push(
                event(Call::ArmScore { arm }, Reply::Score(r)),
            ),
            final(self).inner().history() == old(self).inner().history().push(
                final(self).log().last(),
            ),
    {
        let r: i64 = self.reasoner.arm_score(arm);
        proof {
            let e = event(Call::ArmScore { arm }, Reply::Score(r));
            self.log@ = self.log@.push(e);
            lemma_noted(*old(self), *self, e);
        }
        r
    }

    /// Asks `Reasoner::update_linucb`.
    pub fn update_linucb(&mut self, arm: usize, terms: RewardTerms)
        ensures
            final(self).asks(*old(self)),
            final(self).log() == old(self).log().push(
                event(Call::Reward { arm, terms }, Reply::Done),
            ),
            final(self).inner().history() == old(self).inner().history().push(
                final(self).log().last(),
            ),
    {
        self.reasoner.update_linucb(arm, terms);
        proof {
            let e = event(Call::Reward { arm, terms }, Reply::Done);
            self.log@ = self.log@.push(e);
            lemma_noted(*old(self), *self, e);
        }
    }

    /// Asks `Reasoner::check_witness_by_bmc`.
    pub fn check_witness_by_bmc(&mut self, id: usize) -> (r: Option<Vec<Lit>>)
        ensures
            final(self).asks(*old(self)),
            final(self).log() == old(self).log().push(
                event(Call::CheckWitnessByBmc { id }, Reply::MaybeCube(lits_view(r))),
            ),
            final(self).inner().history() == old(self).inner().history().push(
                final(self).log().last(),
            ),
    {
        let r: Option<Vec<Lit>> = self.reasoner.check_witness_by_bmc(id);
        proof {
            let e = event(Call::CheckWitnessByBmc { id }, Reply::MaybeCube(lits_view(r)));
            self.log@ = self.log@.push(e);
            lemma_noted(*old(self), *self, e);
        }
        r
    }

    /// Asks `Reasoner::bmc_unrolled`.
    pub fn bmc_unrolled(&mut self) -> (r: Option<usize>)
        ensures
            final(self).asks(*old(self)),
            final(self).log() == old(self).log().push(
                event(Call::BmcUnrolled, Reply::Index(r)),
            ),
            final(self).inner().history() == old(self).inner().history().push(
                final(self).log().last(),
            ),
    {
        let r: Option<usize> = self.reasoner.bmc_unrolled();
        proof {
            let e = event(Call::BmcUnrolled, Reply::Index(r));
            self.log@ = self.log@.push(e);
            lemma_noted(*old(self), *self, e);
        }
        r
    }

    /// Asks `Reasoner::bmc_value`.
    pub fn bmc_value(&mut self, lit: Lit) -> (r: Option<bool>)
        ensures
            final(self).asks(*old(self)),
            final(self).log() == old(self).log().push(
                event(Call::BmcValue { lit }, Reply::Value(r)),
            ),
            final(self).inner().history() == old(self).inner().history().push(
                final(self).log().last(),
            ),
    {
        let r: Option<bool> = self.reasoner.bmc_value(lit);
        proof {
            let e = event(Call::BmcValue { lit }, Reply::Value(r));
            self.log@ = self.log@.push(e);
            lemma_noted(*old(self), *self, e);
        }
        r
    }

    /// Asks `Reasoner::new_and`.
    pub fn new_and(&mut self, lits: &Vec<Lit>) -> (r: Lit)
        ensures
            final(self).asks(*old(self)),
            final(self).log() == old(self).log().push(
                event(Call::NewAnd { lits: lits@ }, Reply::Literal(r)),
            ),
            final(self).inner().history() == old(self).inner().history().push(
                final(self).log().last(),
            ),
    {
        let r: Lit = self.reasoner.new_and(lits);
        proof {
            let e = event(Call::NewAnd { lits: lits@ }, Reply::Literal(r));
            self.log@ = self.log@.push(e);
            lemma_noted(*old(self), *self, e);
        }
        r
    }

    /// Asks `Reasoner::new_or`.
    pub fn new_or(&mut self, lits: &Vec<Lit>) -> (r: Lit)
        ensures
            final(self).asks(*old(self)),
            final(self).log() == old(self).log().push(
                event(Call::NewOr { lits: lits@ }, Reply::Literal(r)),
            ),
            final(self).inner().history() == old(self).inner().history().push(
                final(self).log().last(),
            ),
    {
        let r: Lit = self.reasoner.new_or(lits);
        proof {
            let e = event(Call::NewOr { lits: lits@ }, Reply::Literal(r));
            self.log@ = self.log@.push(e);
            lemma_noted(*old(self), *self, e);
        }
        r
    }

    /// Asks `Reasoner::verify`.
    pub fn verify(&mut self)
        ensures
            final(self).asks(*old(self)),
            final(self).log() == old(self).log().push(
                event(Call::Verify, Reply::Done),
            ),
            final(self).inner().history() == old(self).inner().history().push(
                final(self).log().last(),
            ),
    {
        self.reasoner.verify();
        proof {
            let e = event(Call::Verify, Reply::Done);
            self.log@ = self.log@.push(e);
            lemma_noted(*old(self), *self, e);
        }
    }

    /// Asks `Reasoner::tally`.
    pub fn tally(&mut self, tally: Tally)
        ensures
            final(self).asks(*old(self)),
            final(self).log() == old(self).log().push(
                event(Call::Count { tally }, Reply::Done),
            ),
            final(self).inner().history() == old(self).inner().history().push(
                final(self).log().last(),
            ),
    {
        self.reasoner.tally(tally);
        proof {
            let e = event(Call::Count { tally }, Reply::Done);
            self.log@ = self.log@.push(e);
            lemma_noted(*old(self), *self, e);
        }
    }

    /// Draws a random word.
    pub fn draw(&mut self) -> (r: u32)
        ensures
            final(self).continues(*old(self)),
            final(self).inner() == old(self).inner(),
            final(self).source().drawn() == old(self).source().drawn() + 1,
            final(self).log() == old(self).log().push(event(Call::Draw, Reply::Word(r))),
    {
        let r: u32 = random_word(&mut self.words);
        proof {
            let e = event(Call::Draw, Reply::Word(r));
            reveal(Session::tied);
            lemma_without_draws(self.log@, e);
            self.log@ = self.log@.push(e);
        }
        r
    }

    /// The reasoner.
    pub fn reasoner(&self) -> (r: &R)
        ensures
            *r == self.inner(),
    {
        &self.reasoner
    }

    /// A session in which nothing has been asked.
    pub fn new(reasoner: R, seed: u64) -> (r: Session<R>)
        ensures
            r.inner() == reasoner,
            r.before() == reasoner.history(),
            r.log() == Seq::<Event>::empty(),
            r.source().seed() == seed,
            r.source().drawn() == 0,
            r.tied(),
    {
        let r: Session<R> = Session {
            reasoner,
            words: seeded(seed),
            log: Ghost(Seq::empty()),
            before: Ghost(reasoner.history()),
        };
        proof {
            reveal(Session::tied);
            reveal(Seq::filter);
            assert(r.before() + without_draws(r.log()) =~= reasoner.history());
        }
        r
    }
}

} // verus!
