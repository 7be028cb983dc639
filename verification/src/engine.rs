//! The engine: its frames, and the search for a proof or a counterexample.

use vstd::prelude::*;

use crate::block::{block_run, Turn};
use crate::collections::{empty_map, entries, get_entry, insert_entry, NumberMap};
use crate::effort::tosses;
use crate::fault::Fault;
use crate::heuristic::CTX_TOTAL_MIC_ARMS;
use crate::laws::{fresh, law_counterexample, law_proof};
use crate::lit::{cubes, negate_lits, negated, sort_lits, sorted, Lit, Var, MAX_VAR};
use crate::lucid::lucid;
use crate::meaning::{truthful, System};
use crate::mic::{drop_var_run, outcome};
use crate::multi::{
    may_draw, mic_multi_run, mic_run, multi_run, needs_solver, outcomes, random_variants,
};
use crate::obligation::{Obligation, ObligationView};
use crate::options::{IC3Options, Options};
use crate::param::{DropVarParameter, MicType};
use crate::propagate::propagate_run;
use crate::queue_laws::{law_no_fault, orderly};
use crate::session::{asked, extends, yes, Call, Event, Reasoner, Reply, Session};
use crate::state::{lemma_wf, State, StateView};
use crate::steady_laws::puts;

verus! {

/// The engine, and the session in which it asks its reasoner.
pub struct IC3<R: Reasoner> {
    pub session: Session<R>,
    pub state: State,
}

/// Whether the log holds the given requests in a row.
pub open spec fn asked_all(log: Seq<Event>, at: int, calls: Seq<Call>) -> bool {
    forall|k: int| 0 <= k < calls.len() ==> asked(log, at + k, #[trigger] calls[k])
}

/// The requests that make the next frame.
pub open spec fn frame_calls(s: StateView) -> Seq<Call> {
    let bad = if s.options.ic3.no_pred_prop {
        seq![]
    } else {
        seq![Call::RenewBadSolver]
    };
    (bad + seq![Call::NewSolver { frame: s.solvers }] + Seq::new(
        s.auxiliary_var.len(),
        |k: int| Call::AddDomain { var: s.auxiliary_var[k], permanent: true },
    )).push(Call::InstallSolver)
}

/// The requests that add the negations of some clauses as lemmas.
pub open spec fn lemma_calls(frame: usize, clauses: Seq<Seq<Lit>>) -> Seq<Call> {
    Seq::new(
        clauses.len(),
        |k: int|
            Call::AddLemma {
                frame,
                cube: negated(clauses[k]),
                contained_check: true,
                owner: None,
            },
    )
}

/// Each literal as a clause of its own.
pub open spec fn units(lits: Seq<Lit>) -> Seq<Seq<Lit>> {
    Seq::new(lits.len(), |k: int| seq![lits[k]])
}

/// The requests that give latches their initial values.
pub open spec fn init_calls(lits: Seq<Lit>) -> Seq<Call> {
    Seq::new(
        lits.len(),
        |k: int| Call::AddInit { var: lits[k].var_spec(), value: lits[k].positive() },
    )
}

/// Collects the values that the first solver has found for the latches from `k` on that have no
/// initial value.
pub open spec fn settled_run(
    log: Seq<Event>,
    at: int,
    latchs: Seq<Var>,
    k: int,
    found: Seq<Lit>,
) -> Option<(Seq<Lit>, int)>
    decreases latchs.len() - k,
{
    if k >= latchs.len() {
        Some((found, at))
    } else if !asked(log, at, Call::HasInit { var: latchs[k] }) {
        None
    } else if yes(log, at) {
        settled_run(log, at + 1, latchs, k + 1, found)
    } else {
        let lit = latchs[k].lit_spec();
        if !asked(log, at + 1, Call::SatValue { solver: 0, lit }) {
            None
        } else {
            settled_run(
                log,
                at + 2,
                latchs,
                k + 1,
                match log[at + 1].reply->Value_0 {
                    None => found,
                    Some(v) => found.push(lit.negation_if(!v)),
                },
            )
        }
    }
}

/// Makes the first frame: the initial states.
pub open spec fn first_frame_run(log: Seq<Event>, at: int, latchs: Seq<Var>) -> Option<int> {
    if !asked(log, at, Call::Init) {
        None
    } else {
        let init = log[at].reply->Cube_0;
        let at2 = at + 1 + init.len();
        if !asked_all(log, at + 1, lemma_calls(0, units(init))) {
            None
        } else {
            match settled_run(log, at2, latchs, 0, seq![]) {
                None => None,
                Some((found, at3)) => if asked_all(log, at3, init_calls(found)) {
                    Some(at3 + found.len())
                } else {
                    None
                },
            }
        }
    }
}

/// The state with one more frame.
pub open spec fn one_more(s: StateView) -> StateView {
    StateView { solvers: (s.solvers + 1) as usize, ..s }
}

/// Makes the next frame. The first holds the initial states, and the second is given the clauses
/// that are known to hold.
#[verifier::opaque]
pub open spec fn extend_run(log: Seq<Event>, at: int, s: StateView) -> Option<(StateView, int)> {
    let at2 = at + frame_calls(s).len();
    if !asked_all(log, at, frame_calls(s)) {
        None
    } else if s.solvers == 0 {
        match first_frame_run(log, at2, s.latchs) {
            None => None,
            Some(at3) => Some((one_more(s), at3)),
        }
    } else if s.solvers == 1 {
        if asked_all(log, at2, lemma_calls(1, s.pre_lemmas)) {
            Some((one_more(s), at2 + s.pre_lemmas.len()))
        } else {
            None
        }
    } else {
        Some((one_more(s), at2))
    }
}

/// An obligation that leads directly to a bad state.
pub open spec fn last_obligation(frame: usize, model: Seq<Lit>, input: Seq<Seq<Lit>>) ->
    ObligationView {
    ObligationView { frame, lemma: sorted(model), input, depth: 0, next: None }
}

/// Makes the first frame, and looks for a bad state in it unless the options keep it from that.
/// The outcome is false where there is one.
pub open spec fn base_run(log: Seq<Event>, at: int, s: StateView) -> Option<
    (bool, StateView, int),
> {
    match extend_run(log, at, s) {
        None => None,
        Some((s2, at2)) => if s2.options.ic3.no_pred_prop {
            Some((true, s2, at2))
        } else if !asked(log, at2, Call::Bad) {
            None
        } else {
            let bad = log[at2].reply->Literal_0;
            if !asked(log, at2 + 1, Call::SolveWithoutBucket { solver: 0, cube: seq![bad] }) {
                None
            } else if yes(log, at2 + 1) {
                let po = last_obligation(
                    0,
                    log[at2 + 2].reply->Pred_0,
                    seq![log[at2 + 2].reply->Pred_1],
                );
                if asked(log, at2 + 2, Call::GetPred { frame: s2.solvers, strengthen: true })
                    && asked(
                    log,
                    at2 + 3,
                    Call::AddObligation { id: s2.obligations.len() as usize, po },
                ) {
                    Some((false, s2.with_obligation(po), at2 + 4))
                } else {
                    None
                }
            } else if asked(log, at2 + 2, Call::AddConstraint { lit: bad.negation() }) && asked(
                log,
                at2 + 3,
                Call::RenewLift,
            ) {
                Some((true, s2, at2 + 4))
            } else {
                None
            }
        },
    }
}

/// Makes one more frame after all obligations of the last are met, and propagates lemmas. The
/// outcome says whether that settled the question.
pub open spec fn advance_level_run(log: Seq<Event>, at: int, s: StateView) -> Option<
    (Result<bool, Fault>, StateView, int),
> {
    if s.solvers >= usize::MAX - 2 {
        Some((Err(Fault::TooManyFrames), s, at))
    } else {
        match extend_run(log, at, s) {
            None => None,
            Some((s2, at2)) => match propagate_run(log, at2, s2, None) {
                None => None,
                Some((Err(f), s3, at3)) => Some((Err(f), s3, at3)),
                Some((Ok(false), s3, at3)) => Some((Ok(false), s3, at3)),
                Some((Ok(true), s3, at3)) => if asked(log, at3, Call::Verify) {
                    Some((Ok(true), s3, at3 + 1))
                } else {
                    None
                },
            },
        }
    }
}

/// The search after the first frame was made, for `rounds` rounds at most; a round goes by with
/// each look for an obligation.
#[verifier::opaque]
pub open spec fn search_run(log: Seq<Event>, at: int, s: StateView, rounds: u64) -> Option<
    (Result<Option<bool>, Fault>, StateView, int),
>
    decreases rounds,
{
    match block_run(log, at, s, rounds) {
        None => None,
        Some((Err(f), s2, left, at2)) => Some((Err(f), s2, at2)),
        Some((Ok(Turn::More), s2, left, at2)) => Some((Ok(None), s2, at2)),
        Some((Ok(Turn::Reached), s2, left, at2)) => Some((Ok(Some(false)), s2, at2)),
        Some((Ok(Turn::Proved), s2, left, at2)) => if asked(log, at2, Call::Verify) {
            Some((Ok(Some(true)), s2, at2 + 1))
        } else {
            None
        },
        Some((Ok(Turn::Drained), s2, left, at2)) => if left >= rounds || !asked(
            log,
            at2,
            Call::GetBad { level: s2.level() },
        ) {
            None
        } else {
            match log[at2].reply->BadState_0 {
                Some((model, input)) => {
                    let po = last_obligation(s2.level(), model, input);
                    if asked(
                        log,
                        at2 + 1,
                        Call::AddObligation { id: s2.obligations.len() as usize, po },
                    ) {
                        search_run(log, at2 + 2, s2.with_obligation(po), left)
                    } else {
                        None
                    }
                },
                None => match advance_level_run(log, at2 + 1, s2) {
                    None => None,
                    Some((Err(f), s3, at3)) => Some((Err(f), s3, at3)),
                    Some((Ok(true), s3, at3)) => Some((Ok(Some(true)), s3, at3)),
                    Some((Ok(false), s3, at3)) => search_run(log, at3, s3, left),
                },
            }
        },
    }
}

/// The whole search: true where no bad state can be reached, false where one can, and nothing
/// where the rounds were used up first.
pub open spec fn check_run(log: Seq<Event>, at: int, s: StateView, rounds: u64) -> Option<
    (Result<Option<bool>, Fault>, StateView, int),
> {
    match base_run(log, at, s) {
        None => None,
        Some((false, s2, at2)) => Some((Ok(Some(false)), s2, at2)),
        Some((true, s2, at2)) => search_run(log, at2, s2, rounds),
    }
}

/// The map that the answers at `at` give for the inputs from `k` on: from the variable one step
/// later to the input.
pub open spec fn input_map(log: Seq<Event>, at: int, inputs: Seq<Var>, n: int) -> Map<u32, u32>
    decreases n,
{
    if n <= 0 {
        Map::empty()
    } else {
        input_map(log, at, inputs, n - 1).insert(
            log[at + n - 1].reply->Variable_0.0,
            inputs[n - 1].0,
        )
    }
}

/// The requests for the variables that stand for the inputs one step later.
pub open spec fn input_calls(inputs: Seq<Var>) -> Seq<Call> {
    Seq::new(inputs.len(), |k: int| Call::VarNext { var: inputs[k], step: 1 })
}

/// The options that hold: those that were given, and no look ahead of the bad states where
/// internal signals are worked on.
pub open spec fn effective(options: Options) -> Options {
    Options {
        ic3: IC3Options {
            no_pred_prop: options.ic3.no_pred_prop || options.ic3.inn,
            ..options.ic3
        },
        ..options
    }
}

impl<R: Reasoner> IC3<R> {
    /// An engine without frames, for a system with the given latches, inputs and constraints.
    pub fn new(
        options: Options,
        reasoner: R,
        latchs: Vec<Var>,
        inputs: Vec<Var>,
        constraints: Vec<Lit>,
        pre_lemmas: Vec<Vec<Lit>>,
    ) -> (r: IC3<R>)
        requires
            forall|i: int| 0 <= i < latchs.len() ==> (#[trigger] latchs@[i]).0 <= MAX_VAR,
            forall|i: int| 0 <= i < inputs.len() ==> (#[trigger] inputs@[i]).0 <= MAX_VAR,
        ensures
            r.state@.wf(),
            r.state@.options == effective(options),
            r.state@.solvers == 0,
            r.state@.obligations.len() == 0,
            r.state@.abs_cst == (if options.ic3.abs_cst {
                Seq::<Lit>::empty()
            } else {
                constraints@
            }),
            r.state@.pre_lemmas == cubes(pre_lemmas@),
            r.state@.auxiliary_var.len() == 0,
            r.state@.latchs == latchs@,
            r.state@.inputs == inputs@,
            r.session.tied(),
            r.session.before() == reasoner.history(),
            r.session.source().seed() == options.rseed,
            r.session.source().drawn() == 0,
            r.session.log().len() == inputs.len(),
            asked_all(r.session.log(), 0, input_calls(inputs@)),
            r.state@.bad_input == input_map(r.session.log(), 0, inputs@, inputs.len() as int),
            forall|i: int| 0 <= i < CTX_TOTAL_MIC_ARMS ==> #[trigger] r.state@.arm_pulls[i] == 0,
    {
        let mut effective_options: Options = options;
        if options.ic3.inn {
            effective_options.ic3.no_pred_prop = true;
        }
        let mut session: Session<R> = Session::new(reasoner, options.rseed);
        let mut bad_input: NumberMap = empty_map();
        assert(entries(bad_input) =~= Map::<u32, u32>::empty());
        let mut i: usize = 0;
        while i < inputs.len()
            invariant
                i <= inputs.len(),
                session.tied(),
                session.before() == reasoner.history(),
                session.source().seed() == options.rseed,
                session.source().drawn() == 0,
                session.log().len() == i,
                forall|k: int|
                    0 <= k < i ==> (#[trigger] session.log()[k]).call == (Call::VarNext {
                        var: inputs[k],
                        step: 1,
                    }),
                entries(bad_input) == input_map(session.log(), 0, inputs@, i as int),
            decreases inputs.len() - i,
        {
            let ghost before = session.log();
            let next: Var = session.var_next(inputs[i], 1);
            proof {
                lemma_input_map(before, session.log(), inputs@, i as int);
            }
            let _: Option<u32> = insert_entry(&mut bad_input, next.0, inputs[i].0);
            i = i + 1;
        }
        let abs_cst: Vec<Lit> = if options.ic3.abs_cst {
            Vec::new()
        } else {
            constraints
        };
        let mut arm_pulls: Vec<usize> = Vec::new();
        let mut arm: usize = 0;
        while arm < CTX_TOTAL_MIC_ARMS
            invariant
                arm <= CTX_TOTAL_MIC_ARMS,
                arm_pulls.len() == arm,
                forall|i: int| 0 <= i < arm ==> #[trigger] arm_pulls[i] == 0,
            decreases CTX_TOTAL_MIC_ARMS - arm,
        {
            arm_pulls.push(0);
            arm = arm + 1;
        }
        let state: State = State {
            options: effective_options,
            solvers: 0,
            obligations: Vec::new(),
            abs_cst,
            pre_lemmas,
            auxiliary_var: Vec::new(),
            latchs,
            inputs,
            bad_input,
            arm_pulls,
        };
        assert(state@.obligations.len() == 0);
        assert(asked_all(session.log(), 0, input_calls(inputs@)));
        IC3 { session, state }
    }

    /// The number of the last frame.
    pub fn level(&self) -> (r: usize)
        requires
            self.state@.solvers > 0,
        ensures
            r == self.state@.solvers - 1,
    {
        self.state.solvers - 1
    }

    /// The input that a variable stands for one step later, if it does.
    pub fn input_of(&self, var: Var) -> (r: Option<Var>)
        ensures
            r == (if self.state@.bad_input.dom().contains(var.0) {
                Some(Var(self.state@.bad_input[var.0]))
            } else {
                None
            }),
    {
        match get_entry(&self.state.bad_input, var.0) {
            Some(v) => Some(Var(v)),
            None => None,
        }
    }
}

impl<R: Reasoner> IC3<R> {
    /// Generalizes a cube that `frame` excludes, and takes the first result; see [`mic_run`].
    pub fn mic(
        &mut self,
        frame: usize,
        cube: Vec<Lit>,
        constraint: &Vec<Vec<Lit>>,
        mic_type: MicType,
    ) -> (r: Result<Vec<Lit>, Fault>)
        requires
            mic_type is NoMic || frame > 0,
            needs_solver(mic_type, cube@.len()) ==> frame <= old(self).state@.solvers,
        ensures
            final(self).state == old(self).state,
            final(self).session.continues(old(self).session),
            may_draw(
                mic_type,
                old(self).state@.options.ic3.inn,
                old(self).state@.options.ic3.hybrid_sort,
            ) || final(self).session.source() == old(self).session.source(),
            forall|l: Seq<Event>|
                extends(l, final(self).session.log()) ==> #[trigger] mic_run(
                    l,
                    old(self).session.log().len() as int,
                    old(self).state@.setting(),
                    old(self).state@.options.ic3.inn,
                    frame,
                    cube@,
                    cubes(constraint@),
                    mic_type,
                ) == Some((outcome(r), final(self).session.log().len() as int)),
    {
        self.session.mic(
            self.state.setting(),
            self.state.options.ic3.inn,
            frame,
            cube,
            constraint,
            mic_type,
        )
    }

    /// Generalizes a cube that `frame` excludes, and takes all results; see [`mic_multi_run`].
    pub fn mic_multi(
        &mut self,
        frame: usize,
        cube: Vec<Lit>,
        constraint: &Vec<Vec<Lit>>,
        mic_type: MicType,
    ) -> (r: Result<Vec<Vec<Lit>>, Fault>)
        requires
            mic_type is NoMic || frame > 0,
            needs_solver(mic_type, cube@.len()) ==> frame <= old(self).state@.solvers,
        ensures
            final(self).state == old(self).state,
            final(self).session.continues(old(self).session),
            may_draw(
                mic_type,
                old(self).state@.options.ic3.inn,
                old(self).state@.options.ic3.hybrid_sort,
            ) || final(self).session.source() == old(self).session.source(),
            forall|l: Seq<Event>|
                extends(l, final(self).session.log()) ==> #[trigger] mic_multi_run(
                    l,
                    old(self).session.log().len() as int,
                    old(self).state@.setting(),
                    old(self).state@.options.ic3.inn,
                    frame,
                    cube@,
                    cubes(constraint@),
                    mic_type,
                ) == Some((outcomes(r), final(self).session.log().len() as int)),
    {
        self.session.mic_multi(
            self.state.setting(),
            self.state.options.ic3.inn,
            frame,
            cube,
            constraint,
            mic_type,
        )
    }

    /// Drops literals from a cube that `frame` excludes; see [`drop_var_run`].
    pub fn mic_by_drop_var(
        &mut self,
        frame: usize,
        cube: Vec<Lit>,
        constraint: &Vec<Vec<Lit>>,
        parameter: DropVarParameter,
        manage_domain: bool,
    ) -> (r: Result<Vec<Lit>, Fault>)
        requires
            frame > 0,
            needs_solver(MicType::DropVar(parameter), cube@.len()) ==> frame
                <= old(self).state@.solvers,
        ensures
            final(self).state == old(self).state,
            final(self).session.asks(old(self).session),
            forall|l: Seq<Event>|
                extends(l, final(self).session.log()) ==> #[trigger] drop_var_run(
                    l,
                    old(self).session.log().len() as int,
                    old(self).state@.setting(),
                    frame,
                    cube@,
                    cubes(constraint@),
                    parameter,
                    manage_domain,
                ) == Some((outcome(r), final(self).session.log().len() as int)),
    {
        self.session.mic_by_drop_var(
            self.state.setting(),
            frame,
            cube,
            constraint,
            parameter,
            manage_domain,
        )
    }

    /// Generalizes a cube that `frame` excludes in several orders; see [`multi_run`].
    pub fn mic_by_multi_clauses(
        &mut self,
        frame: usize,
        cube: &Vec<Lit>,
        constraint: &Vec<Vec<Lit>>,
        parameter: DropVarParameter,
        num_clauses: usize,
    ) -> (r: Result<Vec<Vec<Lit>>, Fault>)
        requires
            frame > 0,
            needs_solver(MicType::MultiClauses(parameter, num_clauses), cube@.len()) ==> frame
                <= old(self).state@.solvers,
        ensures
            final(self).state == old(self).state,
            final(self).session.continues(old(self).session),
            old(self).state@.options.ic3.inn || random_variants(
                num_clauses,
                old(self).state@.options.ic3.hybrid_sort,
            ) == 0 ==> final(self).session.source() == old(self).session.source(),
            forall|l: Seq<Event>|
                extends(l, final(self).session.log()) ==> #[trigger] multi_run(
                    l,
                    old(self).session.log().len() as int,
                    old(self).state@.setting(),
                    old(self).state@.options.ic3.inn,
                    frame,
                    cube@,
                    cubes(constraint@),
                    parameter,
                    num_clauses,
                ) == Some((outcomes(r), final(self).session.log().len() as int)),
    {
        self.session.mic_by_multi_clauses(
            self.state.setting(),
            self.state.options.ic3.inn,
            frame,
            cube,
            constraint,
            parameter,
            num_clauses,
        )
    }
}

impl<R: Reasoner> Session<R> {
    /// Adds the negations of some clauses as lemmas; see [`lemma_calls`].
    fn add_clauses(&mut self, frame: usize, clauses: &Vec<Vec<Lit>>)
        ensures
            final(self).asks(*old(self)),
            final(self).log().len() == old(self).log().len() + clauses.len(),
            asked_all(
                final(self).log(),
                old(self).log().len() as int,
                lemma_calls(frame, cubes(clauses@)),
            ),
    {
        let ghost start = self.log().len() as int;
        let mut k: usize = 0;
        while k < clauses.len()
            invariant
                k <= clauses.len(),
                start == old(self).log().len(),
                self.log().len() == start + k,
                self.asks(*old(self)),
                forall|j: int|
                    0 <= j < k ==> (#[trigger] self.log()[start + j]).call == lemma_calls(
                        frame,
                        cubes(clauses@),
                    )[j],
            decreases clauses.len() - k,
        {
            let ghost before = self.log();
            let cube: Vec<Lit> = negate_lits(&clauses[k]);
            let _: bool = self.add_lemma(frame, &cube, true, None);
            assert(self.log()[start + k].call == lemma_calls(frame, cubes(clauses@))[k as int]);
            assert forall|j: int| 0 <= j < k implies (#[trigger] self.log()[start + j]).call
                == lemma_calls(frame, cubes(clauses@))[j] by {
                assert(before[start + j] == self.log()[start + j]);
            }
            k = k + 1;
        }
    }

    /// The values that the first solver has found for latches without an initial value; see
    /// [`settled_run`].
    fn settled(&mut self, latchs: &Vec<Var>) -> (r: Vec<Lit>)
        requires
            forall|i: int| 0 <= i < latchs.len() ==> (#[trigger] latchs@[i]).0 <= MAX_VAR,
        ensures
            final(self).asks(*old(self)),
            forall|l: Seq<Event>|
                extends(l, final(self).log()) ==> #[trigger] settled_run(
                    l,
                    old(self).log().len() as int,
                    latchs@,
                    0,
                    seq![],
                ) == Some((r@, final(self).log().len() as int)),
    {
        let ghost start = self.log().len() as int;
        let mut found: Vec<Lit> = Vec::new();
        let mut k: usize = 0;
        assert(found@ =~= seq![]);
        while k < latchs.len()
            invariant
                k <= latchs.len(),
                forall|i: int| 0 <= i < latchs.len() ==> (#[trigger] latchs@[i]).0 <= MAX_VAR,
                start == old(self).log().len(),
                self.asks(*old(self)),
                forall|l: Seq<Event>|
                    extends(l, self.log()) ==> #[trigger] settled_run(l, start, latchs@, 0, seq![])
                        == settled_run(l, self.log().len() as int, latchs@, k as int, found@),
            decreases latchs.len() - k,
        {
            if !self.has_init(latchs[k]) {
                let lit: Lit = latchs[k].lit();
                if let Some(v) = self.sat_value(0, lit) {
                    found.push(lit.not_if(!v));
                }
            }
            k = k + 1;
        }
        found
    }

    /// Gives latches their initial values; see [`init_calls`].
    fn add_inits(&mut self, lits: &Vec<Lit>)
        ensures
            final(self).asks(*old(self)),
            final(self).log().len() == old(self).log().len() + lits.len(),
            asked_all(final(self).log(), old(self).log().len() as int, init_calls(lits@)),
    {
        let ghost start = self.log().len() as int;
        let mut k: usize = 0;
        while k < lits.len()
            invariant
                k <= lits.len(),
                start == old(self).log().len(),
                self.log().len() == start + k,
                self.asks(*old(self)),
                forall|j: int|
                    0 <= j < k ==> (#[trigger] self.log()[start + j]).call == init_calls(lits@)[j],
            decreases lits.len() - k,
        {
            let ghost before = self.log();
            self.add_init(lits[k].var(), lits[k].polarity());
            assert forall|j: int| 0 <= j < k implies (#[trigger] self.log()[start + j]).call
                == init_calls(lits@)[j] by {
                assert(before[start + j] == self.log()[start + j]);
            }
            k = k + 1;
        }
    }

    /// Makes the first frame; see [`first_frame_run`].
    fn first_frame(&mut self, latchs: &Vec<Var>)
        requires
            forall|i: int| 0 <= i < latchs.len() ==> (#[trigger] latchs@[i]).0 <= MAX_VAR,
        ensures
            final(self).asks(*old(self)),
            forall|l: Seq<Event>|
                extends(l, final(self).log()) ==> #[trigger] first_frame_run(
                    l,
                    old(self).log().len() as int,
                    latchs@,
                ) == Some(final(self).log().len() as int),
    {
        let init: Vec<Lit> = self.init();
        let mut clauses: Vec<Vec<Lit>> = Vec::new();
        let mut k: usize = 0;
        while k < init.len()
            invariant
                k <= init.len(),
                cubes(clauses@) == units(init@).take(k as int),
            decreases init.len() - k,
        {
            let mut unit: Vec<Lit> = Vec::new();
            unit.push(init[k]);
            assert(unit@ =~= seq![init@[k as int]]);
            let ghost before = cubes(clauses@);
            clauses.push(unit);
            assert(cubes(clauses@) =~= before.push(seq![init@[k as int]]));
            k = k + 1;
            assert(cubes(clauses@) =~= units(init@).take(k as int));
        }
        assert(cubes(clauses@) =~= units(init@));
        assert(clauses.len() == cubes(clauses@).len());
        self.add_clauses(0, &clauses);
        let ghost log1 = self.log();
        let found: Vec<Lit> = self.settled(latchs);
        let ghost log2 = self.log();
        self.add_inits(&found);
        assert forall|l: Seq<Event>| extends(l, self.log()) implies #[trigger] first_frame_run(
            l,
            old(self).log().len() as int,
            latchs@,
        ) == Some(self.log().len() as int) by {
            let at = old(self).log().len() as int;
            lemma_asked_all(log1, l, at + 1, lemma_calls(0, units(init@)));
            lemma_asked_all(self.log(), l, log2.len() as int, init_calls(found@));
        }
    }

    /// Makes the next frame, up to its lemmas; see [`frame_calls`].
    fn make_frame(&mut self, state: &State)
        ensures
            final(self).asks(*old(self)),
            final(self).log().len() == old(self).log().len() + frame_calls(state@).len(),
            asked_all(final(self).log(), old(self).log().len() as int, frame_calls(state@)),
    {
        let ghost start = self.log().len() as int;
        let ghost calls = frame_calls(state@);
        if !state.options.ic3.no_pred_prop {
            self.renew_bad_solver();
        }
        self.new_solver(state.solvers);
        let ghost shift = if state.options.ic3.no_pred_prop {
            1int
        } else {
            2int
        };
        let mut k: usize = 0;
        assert forall|j: int| 0 <= j < shift implies (#[trigger] self.log()[start + j]).call
            == calls[j] by {}
        while k < state.auxiliary_var.len()
            invariant
                k <= state.auxiliary_var.len(),
                calls == frame_calls(state@),
                start == old(self).log().len(),
                shift == if state@.options.ic3.no_pred_prop {
                    1int
                } else {
                    2int
                },
                self.log().len() == start + shift + k,
                self.asks(*old(self)),
                forall|j: int|
                    0 <= j < shift + k ==> (#[trigger] self.log()[start + j]).call == calls[j],
            decreases state.auxiliary_var.len() - k,
        {
            let ghost before = self.log();
            self.add_domain(state.auxiliary_var[k], true);
            assert(self.log()[start + shift + k].call == calls[shift + k]);
            assert forall|j: int| 0 <= j < shift + k + 1 implies (#[trigger] self.log()[start
                + j]).call == calls[j] by {
                if j < shift + k {
                    assert(before[start + j] == self.log()[start + j]);
                }
            }
            k = k + 1;
        }
        let ghost before = self.log();
        self.install_solver();
        assert forall|j: int| 0 <= j < calls.len() implies asked(
            self.log(),
            start + j,
            #[trigger] calls[j],
        ) by {
            if j < shift + k {
                assert(before[start + j] == self.log()[start + j]);
            }
        }
    }
}

impl<R: Reasoner> IC3<R> {
    /// Makes the next frame; see [`extend_run`].
    pub fn extend(&mut self)
        requires
            old(self).state@.wf(),
            old(self).state@.solvers < usize::MAX - 2,
        ensures
            final(self).state@ == one_more(old(self).state@),
            final(self).state@.wf(),
            final(self).session.asks(old(self).session),
            forall|l: Seq<Event>|
                extends(l, final(self).session.log()) ==> #[trigger] extend_run(
                    l,
                    old(self).session.log().len() as int,
                    old(self).state@,
                ) == Some((final(self).state@, final(self).session.log().len() as int)),
    {
        let ghost start = self.session.log().len() as int;
        self.session.make_frame(&self.state);
        let ghost log1 = self.session.log();
        if self.state.solvers == 0 {
            assert(self.state@.wf() && self.state@.latchs == self.state.latchs@);
            self.session.first_frame(&self.state.latchs);
        } else if self.state.solvers == 1 {
            assert(self.state.pre_lemmas.len() == self.state@.pre_lemmas.len());
            self.session.add_clauses(1, &self.state.pre_lemmas);
        }
        self.state.solvers = self.state.solvers + 1;
        assert(self.state@ == one_more(old(self).state@));
        assert(self.state@.obligations == old(self).state@.obligations);
        assert forall|l: Seq<Event>| extends(l, self.session.log()) implies #[trigger] extend_run(
            l,
            start,
            old(self).state@,
        ) == Some((self.state@, self.session.log().len() as int)) by {
            reveal(extend_run);
            lemma_asked_all(log1, l, start, frame_calls(old(self).state@));
            if old(self).state@.solvers == 1 {
                lemma_asked_all(
                    self.session.log(),
                    l,
                    log1.len() as int,
                    lemma_calls(1, old(self).state@.pre_lemmas),
                );
            }
        }
    }

    /// Makes the first frame, and looks for a bad state in it; see [`base_run`].
    pub fn base(&mut self) -> (r: bool)
        requires
            old(self).state@.wf(),
            old(self).state@.solvers < usize::MAX - 2,
        ensures
            final(self).state@.wf(),
            final(self).state@.solvers == old(self).state@.solvers + 1,
            final(self).state@.options == old(self).state@.options,
            final(self).session.asks(old(self).session),
            forall|l: Seq<Event>|
                extends(l, final(self).session.log()) ==> #[trigger] base_run(
                    l,
                    old(self).session.log().len() as int,
                    old(self).state@,
                ) == Some((r, final(self).state@, final(self).session.log().len() as int)),
    {
        self.extend();
        if self.state.options.ic3.no_pred_prop {
            return true;
        }
        let bad: Lit = self.session.bad();
        let mut cube: Vec<Lit> = Vec::new();
        cube.push(bad);
        assert(cube@ =~= seq![bad]);
        if self.session.solve_without_bucket(0, &cube) {
            let (model, inputs) = self.session.get_pred(self.state.solvers, true);
            let ghost lits = inputs@;
            let mut input: Vec<Vec<Lit>> = Vec::new();
            input.push(inputs);
            assert(cubes(input@) =~= seq![lits]);
            self.add_last_obligation(0, model, input);
            return false;
        }
        self.session.add_constraint(bad.negate());
        self.session.renew_lift();
        true
    }

    /// Keeps and queues an obligation that leads directly to a bad state.
    fn add_last_obligation(&mut self, frame: usize, model: Vec<Lit>, input: Vec<Vec<Lit>>)
        requires
            old(self).state@.wf(),
        ensures
            final(self).state@ == old(self).state@.with_obligation(
                last_obligation(frame, model@, cubes(input@)),
            ),
            final(self).state@.wf(),
            old(self).state@.obligations.len() <= usize::MAX,
            final(self).session.asks(old(self).session),
            final(self).session.log() == old(self).session.log().push(
                Event {
                    call: Call::AddObligation {
                        id: old(self).state@.obligations.len() as usize,
                        po: last_obligation(frame, model@, cubes(input@)),
                    },
                    reply: Reply::Done,
                },
            ),
    {
        proof {
            lemma_wf(self.state@);
        }
        let id: usize = self.state.keep(
            Obligation { frame, lemma: sort_lits(&model), input, depth: 0, next: None },
        );
        self.session.add_obligation(id, self.state.obligation(id));
    }

    /// Makes one more frame, and propagates lemmas; see [`advance_level_run`].
    fn advance_level(&mut self) -> (r: Result<bool, Fault>)
        requires
            old(self).state@.wf(),
            old(self).state@.solvers > 0,
        ensures
            final(self).state@.wf(),
            final(self).state@.solvers > 0,
            final(self).state@.options == old(self).state@.options,
            final(self).session.asks(old(self).session),
            forall|l: Seq<Event>|
                extends(l, final(self).session.log()) ==> #[trigger] advance_level_run(
                    l,
                    old(self).session.log().len() as int,
                    old(self).state@,
                ) == Some((r, final(self).state@, final(self).session.log().len() as int)),
    {
        if self.state.solvers >= usize::MAX - 2 {
            return Err(Fault::TooManyFrames);
        }
        self.extend();
        match self.propagate(None) {
            Err(f) => Err(f),
            Ok(false) => Ok(false),
            Ok(true) => {
                self.session.verify();
                Ok(true)
            },
        }
    }

    /// The search after the first frame was made; see [`search_run`].
    pub fn search(&mut self, rounds: u64) -> (r: Result<Option<bool>, Fault>)
        requires
            old(self).state@.wf(),
            old(self).state@.solvers > 0,
        ensures
            final(self).state@.wf(),
            final(self).session.continues(old(self).session),
            tosses(old(self).state@.options) || final(self).session.source()
                == old(self).session.source(),
            forall|l: Seq<Event>|
                extends(l, final(self).session.log()) ==> #[trigger] search_run(
                    l,
                    old(self).session.log().len() as int,
                    old(self).state@,
                    rounds,
                ) == Some((r, final(self).state@, final(self).session.log().len() as int)),
    {
        let ghost start = self.session.log().len() as int;
        let mut left: u64 = rounds;
        loop
            invariant
                left <= rounds,
                start == old(self).session.log().len(),
                self.state@.wf(),
                self.state@.solvers > 0,
                self.state@.options == old(self).state@.options,
                self.session.continues(old(self).session),
                tosses(old(self).state@.options) || self.session.source()
                    == old(self).session.source(),
                forall|l: Seq<Event>|
                    extends(l, self.session.log()) ==> #[trigger] search_run(
                        l,
                        start,
                        old(self).state@,
                        rounds,
                    ) == search_run(l, self.session.log().len() as int, self.state@, left),
            decreases left,
        {
            proof {
                reveal(search_run);
            }
            let ghost before = left;
            let (turn, rest) = self.block(left);
            match turn {
                Err(f) => {
                    return Err(f);
                },
                Ok(Turn::More) => {
                    return Ok(None);
                },
                Ok(Turn::Reached) => {
                    return Ok(Some(false));
                },
                Ok(Turn::Proved) => {
                    self.session.verify();
                    return Ok(Some(true));
                },
                Ok(Turn::Drained) => {},
            }
            assert(rest < left);
            left = rest;
            let level: usize = self.state.solvers - 1;
            match self.session.get_bad(level) {
                Some((model, input)) => {
                    self.add_last_obligation(level, model, input);
                },
                None => {
                    match self.advance_level() {
                        Err(f) => {
                            return Err(f);
                        },
                        Ok(true) => {
                            return Ok(Some(true));
                        },
                        Ok(false) => {},
                    }
                },
            }
        }
    }

    /// The whole search, for a number of rounds at most; see [`check_run`]. Of a system that all
    /// answers hold good of, an engine that starts afresh gives no wrong verdict; and it ends in no
    /// fault but for want of numbers, where the answers about models and the queue are true too.
    pub fn check(&mut self, rounds: u64) -> (r: Result<Option<bool>, Fault>)
        requires
            old(self).state@.wf(),
            old(self).state@.solvers < usize::MAX - 2,
        ensures
            final(self).state@.wf(),
            final(self).session.continues(old(self).session),
            tosses(old(self).state@.options) || final(self).session.source()
                == old(self).session.source(),
            forall|l: Seq<Event>|
                extends(l, final(self).session.log()) ==> #[trigger] check_run(
                    l,
                    old(self).session.log().len() as int,
                    old(self).state@,
                    rounds,
                ) == Some((r, final(self).state@, final(self).session.log().len() as int)),
            forall|sys: System|
                truthful(sys, final(self).session.log()) && #[trigger] fresh(
                    sys,
                    final(self).session.log(),
                    old(self).session.log().len() as int,
                    old(self).state@,
                ) ==> {
                    &&& r == Ok::<Option<bool>, Fault>(Some(false)) ==> sys.unsafe_system()
                    &&& r == Ok::<Option<bool>, Fault>(Some(true)) ==> !sys.unsafe_system()
                    &&& lucid(sys, final(self).session.log(), old(self).state@.options.ic3.inn)
                        && orderly(old(self).session.log(), old(self).state@) ==> (
                    r matches Err(f) ==> f == Fault::TooManyFrames)
                },
    {
        let ghost at = self.session.log().len() as int;
        let r: Result<Option<bool>, Fault> = if self.base() {
            self.search(rounds)
        } else {
            Ok(Some(false))
        };
        proof {
            let log = self.session.log();
            let s = old(self).state@;
            assert(check_run(log, at, s, rounds) == Some((r, self.state@, log.len() as int)));
            assert forall|sys: System|
                truthful(sys, log) && #[trigger] fresh(sys, log, at, s) implies {
                &&& r == Ok::<Option<bool>, Fault>(Some(false)) ==> sys.unsafe_system()
                &&& r == Ok::<Option<bool>, Fault>(Some(true)) ==> !sys.unsafe_system()
                &&& lucid(sys, log, s.options.ic3.inn) && orderly(old(self).session.log(), s) ==> (
                r matches Err(f) ==> f == Fault::TooManyFrames)
            } by {
                if lucid(sys, log, s.options.ic3.inn) && orderly(old(self).session.log(), s) {
                    assert(self.state.obligations.len() == self.state@.obligations.len());
                    assert forall|p: int| 0 <= p < at implies !puts((#[trigger] log[p]).call) by {
                        assert(log[p] == old(self).session.log()[p]);
                    }
                    law_no_fault(
                        sys,
                        log,
                        at,
                        s,
                        rounds,
                        r,
                        self.state@,
                        log.len() as int,
                    );
                }
                if r == Ok::<Option<bool>, Fault>(Some(false)) {
                    law_counterexample(
                        sys,
                        log,
                        at,
                        s,
                        rounds,
                        self.state@,
                        log.len() as int,
                    );
                } else if r == Ok::<Option<bool>, Fault>(Some(true)) {
                    law_proof(sys, log, at, s, rounds, self.state@, log.len() as int);
                }
            }
        }
        r
    }
}

/// More events leave the requests before them as they are.
proof fn lemma_asked_all(log: Seq<Event>, later: Seq<Event>, at: int, calls: Seq<Call>)
    requires
        extends(later, log),
        asked_all(log, at, calls),
    ensures
        asked_all(later, at, calls),
{
    assert forall|k: int| 0 <= k < calls.len() implies asked(later, at + k, #[trigger] calls[k]) by {
        assert(asked(log, at + k, calls[k]));
    }
}

/// More events after those that a map was made from leave it as it is.
proof fn lemma_input_map(log: Seq<Event>, later: Seq<Event>, inputs: Seq<Var>, n: int)
    requires
        extends(later, log),
        n <= log.len(),
    ensures
        input_map(later, 0, inputs, n) == input_map(log, 0, inputs, n),
    decreases n,
{
    if n > 0 {
        lemma_input_map(log, later, inputs, n - 1);
    }
}

} // verus!
