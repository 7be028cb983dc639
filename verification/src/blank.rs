//! A reasoner without knowledge.

use vstd::prelude::*;

use crate::heuristic::{Profile, RewardTerms};
use crate::lit::{cubes, Lit, Var};
use crate::obligation::{lemma_views, FrameLemma, Obligation};
use crate::session::{bad_view, event, lits_view, Call, Event, History, Reasoner, Reply, Tally};

verus! {

/// A reasoner that knows nothing: it says no to every question, finds nothing, and gives out empty
/// cubes and the first literal. It is the least that the engine can run on.
pub struct Blank {
    asked: Ghost<Seq<Event>>,
}

impl Blank {
    /// A reasoner of which nothing has been asked.
    pub fn new() -> (r: Blank)
        ensures
            r.history() == Seq::<Event>::empty(),
    {
        Blank { asked: Ghost(Seq::empty()) }
    }
}

impl Reasoner for Blank {
    closed spec fn history(&self) -> History {
        self.asked@
    }

    fn cube_subsume_init(&mut self, cube: &Vec<Lit>) -> (r: bool)
        ensures
            !r,
    {
        let r: bool = false;
        proof {
            self.asked@ = self.asked@.push(
                event(Call::CubeSubsumeInit { cube: cube@ }, Reply::Flag(r)),
            );
        }
        r
    }

    fn next(&mut self, lit: Lit) -> (r: Lit)
        ensures
            r == Lit(0),
    {
        let r: Lit = Lit(0);
        proof {
            self.asked@ = self.asked@.push(
                event(Call::Next { lit }, Reply::Literal(r)),
            );
        }
        r
    }

    fn lits_next(&mut self, cube: &Vec<Lit>) -> (r: Vec<Lit>)
        ensures
            r@.len() == 0,
    {
        let r: Vec<Lit> = Vec::new();
        proof {
            self.asked@ = self.asked@.push(
                event(Call::LitsNext { cube: cube@ }, Reply::Cube(r@)),
            );
        }
        r
    }

    fn var_next(&mut self, var: Var, step: usize) -> (r: Var)
        ensures
            r == Var(0),
    {
        let r: Var = Var(0);
        proof {
            self.asked@ = self.asked@.push(
                event(Call::VarNext { var, step }, Reply::Variable(r)),
            );
        }
        r
    }

    fn lit_next(&mut self, lit: Lit, step: usize) -> (r: Lit)
        ensures
            r == Lit(0),
    {
        let r: Lit = Lit(0);
        proof {
            self.asked@ = self.asked@.push(
                event(Call::LitNext { lit, step }, Reply::Literal(r)),
            );
        }
        r
    }

    fn restore(&mut self, lit: Lit) -> (r: Lit)
        ensures
            r == Lit(0),
    {
        let r: Lit = Lit(0);
        proof {
            self.asked@ = self.asked@.push(
                event(Call::Restore { lit }, Reply::Literal(r)),
            );
        }
        r
    }

    fn init(&mut self) -> (r: Vec<Lit>)
        ensures
            r@.len() == 0,
    {
        let r: Vec<Lit> = Vec::new();
        proof {
            self.asked@ = self.asked@.push(
                event(Call::Init, Reply::Cube(r@)),
            );
        }
        r
    }

    fn has_init(&mut self, var: Var) -> (r: bool)
        ensures
            !r,
    {
        let r: bool = false;
        proof {
            self.asked@ = self.asked@.push(
                event(Call::HasInit { var }, Reply::Flag(r)),
            );
        }
        r
    }

    fn add_init(&mut self, var: Var, value: bool) {
        proof {
            self.asked@ = self.asked@.push(
                event(Call::AddInit { var, value }, Reply::Done),
            );
        }
    }

    fn bad(&mut self) -> (r: Lit)
        ensures
            r == Lit(0),
    {
        let r: Lit = Lit(0);
        proof {
            self.asked@ = self.asked@.push(
                event(Call::Bad, Reply::Literal(r)),
            );
        }
        r
    }

    fn add_constraint(&mut self, lit: Lit) {
        proof {
            self.asked@ = self.asked@.push(
                event(Call::AddConstraint { lit }, Reply::Done),
            );
        }
    }

    fn blocked_with_ordered(&mut self, frame: usize, cube: &Vec<Lit>, strengthen: bool) -> (r: bool)
        ensures
            !r,
    {
        let r: bool = false;
        proof {
            self.asked@ = self.asked@.push(
                event(Call::Blocked { frame, cube: cube@, strengthen }, Reply::Flag(r)),
            );
        }
        r
    }

    fn blocked_with_ordered_with_constrain(
        &mut self,
        frame: usize,
        cube: &Vec<Lit>,
        strengthen: bool,
        constraint: &Vec<Vec<Lit>>,
    ) -> (r: bool)
        ensures
            !r,
    {
        let r: bool = false;
        proof {
            self.asked@ = self.asked@.push(
                event(
                    Call::BlockedUnder {
                        frame,
                        cube: cube@,
                        strengthen,
                        constraint: cubes(constraint@),
                    },
                    Reply::Flag(r),
                ),
            );
        }
        r
    }

    fn inductive(&mut self, solver: usize, cube: &Vec<Lit>, strengthen: bool) -> (r: bool)
        ensures
            !r,
    {
        let r: bool = false;
        proof {
            self.asked@ = self.asked@.push(
                event(Call::Inductive { solver, cube: cube@, strengthen }, Reply::Flag(r)),
            );
        }
        r
    }

    fn inductive_core(&mut self, solver: usize) -> (r: Vec<Lit>)
        ensures
            r@.len() == 0,
    {
        let r: Vec<Lit> = Vec::new();
        proof {
            self.asked@ = self.asked@.push(
                event(Call::InductiveCore { solver }, Reply::Cube(r@)),
            );
        }
        r
    }

    fn sat_value(&mut self, solver: usize, lit: Lit) -> (r: Option<bool>)
        ensures
            r is None,
    {
        let r: Option<bool> = None;
        proof {
            self.asked@ = self.asked@.push(
                event(Call::SatValue { solver, lit }, Reply::Value(r)),
            );
        }
        r
    }

    fn flip_to_none(&mut self, solver: usize, var: Var) -> (r: bool)
        ensures
            !r,
    {
        let r: bool = false;
        proof {
            self.asked@ = self.asked@.push(
                event(Call::FlipToNone { solver, var }, Reply::Flag(r)),
            );
        }
        r
    }

    fn get_pred(&mut self, frame: usize, strengthen: bool) -> (r: (Vec<Lit>, Vec<Lit>))
        ensures
            r.0@.len() == 0 && r.1@.len() == 0,
    {
        let r: (Vec<Lit>, Vec<Lit>) = (Vec::new(), Vec::new());
        proof {
            self.asked@ = self.asked@.push(
                event(Call::GetPred { frame, strengthen }, Reply::Pred(r.0@, r.1@)),
            );
        }
        r
    }

    fn get_bad(&mut self, level: usize) -> (r: Option<(Vec<Lit>, Vec<Vec<Lit>>)>)
        ensures
            r is None,
    {
        let r: Option<(Vec<Lit>, Vec<Vec<Lit>>)> = None;
        proof {
            self.asked@ = self.asked@.push(
                event(Call::GetBad { level }, Reply::BadState(bad_view(r))),
            );
        }
        r
    }

    fn solve(&mut self, solver: usize, cube: &Vec<Lit>) -> (r: bool)
        ensures
            !r,
    {
        let r: bool = false;
        proof {
            self.asked@ = self.asked@.push(
                event(Call::Solve { solver, cube: cube@ }, Reply::Flag(r)),
            );
        }
        r
    }

    fn solve_without_bucket(&mut self, solver: usize, cube: &Vec<Lit>) -> (r: bool)
        ensures
            !r,
    {
        let r: bool = false;
        proof {
            self.asked@ = self.asked@.push(
                event(Call::SolveWithoutBucket { solver, cube: cube@ }, Reply::Flag(r)),
            );
        }
        r
    }

    fn set_domain(&mut self, solver: usize, lits: &Vec<Lit>) {
        proof {
            self.asked@ = self.asked@.push(
                event(Call::SetDomain { solver, lits: lits@ }, Reply::Done),
            );
        }
    }

    fn unset_domain(&mut self, solver: usize) {
        proof {
            self.asked@ = self.asked@.push(
                event(Call::UnsetDomain { solver }, Reply::Done),
            );
        }
    }

    fn renew_bad_solver(&mut self) {
        proof {
            self.asked@ = self.asked@.push(
                event(Call::RenewBadSolver, Reply::Done),
            );
        }
    }

    fn renew_lift(&mut self) {
        proof {
            self.asked@ = self.asked@.push(
                event(Call::RenewLift, Reply::Done),
            );
        }
    }

    fn new_solver(&mut self, frame: usize) {
        proof {
            self.asked@ = self.asked@.push(
                event(Call::NewSolver { frame }, Reply::Done),
            );
        }
    }

    fn add_domain(&mut self, var: Var, permanent: bool) {
        proof {
            self.asked@ = self.asked@.push(
                event(Call::AddDomain { var, permanent }, Reply::Done),
            );
        }
    }

    fn install_solver(&mut self) {
        proof {
            self.asked@ = self.asked@.push(
                event(Call::InstallSolver, Reply::Done),
            );
        }
    }

    fn sort_hybrid(&mut self, cube: &Vec<Lit>, frame: usize, reverse: bool) -> (r: Vec<Lit>)
        ensures
            r@.len() == 0,
    {
        let r: Vec<Lit> = Vec::new();
        proof {
            self.asked@ = self.asked@.push(
                event(Call::SortHybrid { cube: cube@, frame, reverse }, Reply::Cube(r@)),
            );
        }
        r
    }

    fn sort_by_activity(&mut self, cube: &Vec<Lit>, ascending: bool) -> (r: Vec<Lit>)
        ensures
            r@.len() == 0,
    {
        let r: Vec<Lit> = Vec::new();
        proof {
            self.asked@ = self.asked@.push(
                event(Call::SortByActivity { cube: cube@, ascending }, Reply::Cube(r@)),
            );
        }
        r
    }

    fn bump_cube_activity(&mut self, cube: &Vec<Lit>) {
        proof {
            self.asked@ = self.asked@.push(
                event(Call::BumpCubeActivity { cube: cube@ }, Reply::Done),
            );
        }
    }

    fn add_lemma(
        &mut self,
        frame: usize,
        cube: &Vec<Lit>,
        contained_check: bool,
        owner: Option<usize>,
    ) -> (r: bool)
        ensures
            !r,
    {
        let r: bool = false;
        proof {
            self.asked@ = self.asked@.push(
                event(
                    Call::AddLemma { frame, cube: cube@, contained_check, owner },
                    Reply::Flag(r),
                ),
            );
        }
        r
    }

    fn trivial_contained(&mut self, frame: usize, cube: &Vec<Lit>) -> (r: Option<usize>)
        ensures
            r is None,
    {
        let r: Option<usize> = None;
        proof {
            self.asked@ = self.asked@.push(
                event(Call::TrivialContained { frame, cube: cube@ }, Reply::Index(r)),
            );
        }
        r
    }

    fn sort_frame(&mut self, frame: usize) {
        proof {
            self.asked@ = self.asked@.push(
                event(Call::SortFrame { frame }, Reply::Done),
            );
        }
    }

    fn frame_lemmas(&mut self, frame: usize) -> (r: Vec<FrameLemma>)
        ensures
            r@.len() == 0,
    {
        let r: Vec<FrameLemma> = Vec::new();
        proof {
            self.asked@ = self.asked@.push(
                event(Call::FrameLemmas { frame }, Reply::Lemmas(lemma_views(r@))),
            );
        }
        r
    }

    fn frame_has(&mut self, frame: usize, cube: &Vec<Lit>) -> (r: bool)
        ensures
            !r,
    {
        let r: bool = false;
        proof {
            self.asked@ = self.asked@.push(
                event(Call::FrameHas { frame, cube: cube@ }, Reply::Flag(r)),
            );
        }
        r
    }

    fn frame_is_empty(&mut self, frame: usize) -> (r: bool)
        ensures
            !r,
    {
        let r: bool = false;
        proof {
            self.asked@ = self.asked@.push(
                event(Call::FrameIsEmpty { frame }, Reply::Flag(r)),
            );
        }
        r
    }

    fn early(&mut self) -> (r: usize)
        ensures
            r == 0,
    {
        let r: usize = 0;
        proof {
            self.asked@ = self.asked@.push(
                event(Call::Early, Reply::Size(r)),
            );
        }
        r
    }

    fn set_early(&mut self, frame: usize) {
        proof {
            self.asked@ = self.asked@.push(
                event(Call::SetEarly { frame }, Reply::Done),
            );
        }
    }

    fn forget_obligations(&mut self) {
        proof {
            self.asked@ = self.asked@.push(
                event(Call::ForgetObligations, Reply::Done),
            );
        }
    }

    fn invariant_cubes(&mut self) -> (r: Vec<Vec<Lit>>)
        ensures
            r@.len() == 0,
    {
        let r: Vec<Vec<Lit>> = Vec::new();
        proof {
            self.asked@ = self.asked@.push(
                event(Call::InvariantCubes, Reply::Cubes(cubes(r@))),
            );
        }
        r
    }

    fn add_obligation(&mut self, id: usize, po: &Obligation) {
        proof {
            self.asked@ = self.asked@.push(
                event(Call::AddObligation { id, po: po@ }, Reply::Done),
            );
        }
    }

    fn requeue_obligation(&mut self, id: usize, po: &Obligation) {
        proof {
            self.asked@ = self.asked@.push(
                event(Call::RequeueObligation { id, po: po@ }, Reply::Done),
            );
        }
    }

    fn pop_obligation(&mut self, level: usize) -> (r: Option<usize>)
        ensures
            r is None,
    {
        let r: Option<usize> = None;
        proof {
            self.asked@ = self.asked@.push(
                event(Call::PopObligation { level }, Reply::Index(r)),
            );
        }
        r
    }

    fn peak_obligation(&mut self) -> (r: Option<usize>)
        ensures
            r is None,
    {
        let r: Option<usize> = None;
        proof {
            self.asked@ = self.asked@.push(
                event(Call::PeakObligation, Reply::Index(r)),
            );
        }
        r
    }

    fn remove_obligation(&mut self, id: usize) -> (r: bool)
        ensures
            !r,
    {
        let r: bool = false;
        proof {
            self.asked@ = self.asked@.push(
                event(Call::RemoveObligation { id }, Reply::Flag(r)),
            );
        }
        r
    }

    fn clear_obligations(&mut self) {
        proof {
            self.asked@ = self.asked@.push(
                event(Call::ClearObligations, Reply::Done),
            );
        }
    }

    fn is_removed(&mut self, id: usize) -> (r: bool)
        ensures
            !r,
    {
        let r: bool = false;
        proof {
            self.asked@ = self.asked@.push(
                event(Call::IsRemoved { id }, Reply::Flag(r)),
            );
        }
        r
    }

    fn push_to(&mut self, id: usize, from: usize, to: usize) {
        proof {
            self.asked@ = self.asked@.push(
                event(Call::PushTo { id, from, to }, Reply::Done),
            );
        }
    }

    fn bump_act(&mut self, id: usize) {
        proof {
            self.asked@ = self.asked@.push(
                event(Call::BumpAct { id }, Reply::Done),
            );
        }
    }

    fn peak_act(&mut self, window: &Vec<usize>) -> (r: u64)
        ensures
            r == 0,
    {
        let r: u64 = 0;
        proof {
            self.asked@ = self.asked@.push(
                event(Call::PeakAct { window: window@ }, Reply::Whole(r)),
            );
        }
        r
    }

    fn exctg_limit(&mut self, window: &Vec<usize>, profile: Profile) -> (r: usize)
        ensures
            r == 0,
    {
        let r: usize = 0;
        proof {
            self.asked@ = self.asked@.push(
                event(Call::ExctgLimit { window: window@, profile }, Reply::Size(r)),
            );
        }
        r
    }

    fn observe_context(&mut self, id: usize, po: &Obligation, level: usize) {
        proof {
            self.asked@ = self.asked@.push(
                event(Call::ObserveContext { id, po: po@, level }, Reply::Done),
            );
        }
    }

    fn arm_score(&mut self, arm: usize) -> (r: i64)
        ensures
            r == 0,
    {
        let r: i64 = 0;
        proof {
            self.asked@ = self.asked@.push(
                event(Call::ArmScore { arm }, Reply::Score(r)),
            );
        }
        r
    }

    fn update_linucb(&mut self, arm: usize, terms: RewardTerms) {
        proof {
            self.asked@ = self.asked@.push(
                event(Call::Reward { arm, terms }, Reply::Done),
            );
        }
    }

    fn check_witness_by_bmc(&mut self, id: usize) -> (r: Option<Vec<Lit>>)
        ensures
            r is None,
    {
        let r: Option<Vec<Lit>> = None;
        proof {
            self.asked@ = self.asked@.push(
                event(Call::CheckWitnessByBmc { id }, Reply::MaybeCube(lits_view(r))),
            );
        }
        r
    }

    fn bmc_unrolled(&mut self) -> (r: Option<usize>)
        ensures
            r is None,
    {
        let r: Option<usize> = None;
        proof {
            self.asked@ = self.asked@.push(
                event(Call::BmcUnrolled, Reply::Index(r)),
            );
        }
        r
    }

    fn bmc_value(&mut self, lit: Lit) -> (r: Option<bool>)
        ensures
            r is None,
    {
        let r: Option<bool> = None;
        proof {
            self.asked@ = self.asked@.push(
                event(Call::BmcValue { lit }, Reply::Value(r)),
            );
        }
        r
    }

    fn new_and(&mut self, lits: &Vec<Lit>) -> (r: Lit)
        ensures
            r == Lit(0),
    {
        let r: Lit = Lit(0);
        proof {
            self.asked@ = self.asked@.push(
                event(Call::NewAnd { lits: lits@ }, Reply::Literal(r)),
            );
        }
        r
    }

    fn new_or(&mut self, lits: &Vec<Lit>) -> (r: Lit)
        ensures
            r == Lit(0),
    {
        let r: Lit = Lit(0);
        proof {
            self.asked@ = self.asked@.push(
                event(Call::NewOr { lits: lits@ }, Reply::Literal(r)),
            );
        }
        r
    }

    fn verify(&mut self) {
        proof {
            self.asked@ = self.asked@.push(
                event(Call::Verify, Reply::Done),
            );
        }
    }

    fn tally(&mut self, tally: Tally) {
        proof {
            self.asked@ = self.asked@.push(
                event(Call::Count { tally }, Reply::Done),
            );
        }
    }
}

} // verus!
