//! What cubes, frames and answers mean for a transition system.

use vstd::prelude::*;

use crate::lit::{negated, Lit};
use crate::obligation::FrameLemmaView;
use crate::session::{Call, Event};

verus! {

/// A transition system. A state is the set of the variables that hold in it.
pub struct System {
    /// The initial states.
    pub init: spec_fn(Set<u32>) -> bool,
    /// The steps, with the inputs that they are taken under, as the constraints of the system allow.
    pub step: spec_fn(Set<u32>, Seq<Lit>, Set<u32>) -> bool,
    /// The bad states.
    pub bad: spec_fn(Set<u32>) -> bool,
    /// Whether the engine looks one step ahead of the bad states.
    pub ahead: bool,
    /// Whether all constraints are in force from the start.
    pub exact: bool,
}

impl System {
    /// Whether a state is initial.
    pub open spec fn starts(self, a: Set<u32>) -> bool {
        (self.init)(a)
    }

    /// Whether there is a step from one state to another under the given inputs.
    pub open spec fn takes(self, a: Set<u32>, inputs: Seq<Lit>, b: Set<u32>) -> bool {
        (self.step)(a, inputs, b)
    }

    /// Whether there is a step from one state to another.
    pub open spec fn moves(self, a: Set<u32>, b: Set<u32>) -> bool {
        exists|inputs: Seq<Lit>| self.takes(a, inputs, b)
    }

    /// Whether a state is bad.
    pub open spec fn fails(self, a: Set<u32>) -> bool {
        (self.bad)(a)
    }

    /// Whether there is a step that the solvers are asked about: where the engine looks ahead,
    /// steps out of bad states are left out.
    pub open spec fn walks(self, a: Set<u32>, b: Set<u32>) -> bool {
        self.moves(a, b) && (self.ahead ==> !self.fails(a))
    }

    /// Whether a state is one to look for: a bad one, or, where the engine looks ahead, one from
    /// which a step leads to a bad one.
    pub open spec fn is_goal(self, a: Set<u32>) -> bool {
        if self.ahead {
            !self.fails(a) && exists|b: Set<u32>| #[trigger] self.moves(a, b) && self.fails(b)
        } else {
            self.fails(a)
        }
    }

    /// Whether a state is reached in `k` steps.
    pub open spec fn reaches(self, a: Set<u32>, k: nat) -> bool
        decreases k,
    {
        if k == 0 {
            self.starts(a)
        } else {
            exists|p: Set<u32>|
                self.reaches(p, (k - 1) as nat) && #[trigger] self.moves(p, a)
        }
    }

    /// Whether a state is reached in `k` steps that the solvers are asked about.
    pub open spec fn walked(self, a: Set<u32>, k: nat) -> bool
        decreases k,
    {
        if k == 0 {
            self.starts(a)
        } else {
            exists|p: Set<u32>| self.walked(p, (k - 1) as nat) && #[trigger] self.walks(p, a)
        }
    }

    /// Whether a bad state is reached from a state with the given inputs, of which the last are
    /// those in the bad state itself.
    pub open spec fn runs(self, a: Set<u32>, inputs: Seq<Seq<Lit>>) -> bool
        decreases inputs.len(),
    {
        if inputs.len() <= 1 {
            self.fails(a)
        } else {
            exists|b: Set<u32>| #[trigger]
                self.takes(a, inputs[0], b) && self.runs(b, inputs.drop_first())
        }
    }

    /// Whether a bad state can be reached.
    pub open spec fn unsafe_system(self) -> bool {
        exists|a: Set<u32>, k: nat| #[trigger] self.reaches(a, k) && self.fails(a)
    }
}

/// Whether a literal holds in a state.
pub open spec fn lit_holds(a: Set<u32>, l: Lit) -> bool {
    l.positive() == a.contains(l.var_spec().0)
}

/// Whether a state is in a cube: all literals hold.
pub open spec fn holds(a: Set<u32>, cube: Seq<Lit>) -> bool {
    forall|l: Lit| #[trigger] cube.contains(l) ==> lit_holds(a, l)
}

/// Whether a clause holds in a state: one of its literals does.
pub open spec fn clause_holds(a: Set<u32>, clause: Seq<Lit>) -> bool {
    exists|l: Lit| #[trigger] clause.contains(l) && lit_holds(a, l)
}

/// Whether all clauses hold in a state.
pub open spec fn clauses_hold(a: Set<u32>, clauses: Seq<Seq<Lit>>) -> bool {
    forall|i: int| 0 <= i < clauses.len() ==> clause_holds(a, #[trigger] clauses[i])
}

/// Whether each literal of one cube is in another.
pub open spec fn within(c: Seq<Lit>, d: Seq<Lit>) -> bool {
    forall|l: Lit| #[trigger] c.contains(l) ==> d.contains(l)
}

/// Whether no initial state is in a cube.
pub open spec fn init_free(sys: System, cube: Seq<Lit>) -> bool {
    forall|a: Set<u32>| #[trigger] sys.starts(a) ==> !holds(a, cube)
}

/// Whether an initial state is in a cube.
pub open spec fn meets_init(sys: System, cube: Seq<Lit>) -> bool {
    exists|a: Set<u32>| #[trigger] sys.starts(a) && holds(a, cube)
}

/// The lemma that the event at `p` adds, if it does: its frame and its cube.
pub open spec fn lemma_at(log: Seq<Event>, p: int) -> Option<(usize, Seq<Lit>)> {
    match log[p].call {
        Call::AddLemma { frame, cube, .. } => Some((frame, cube)),
        _ => None,
    }
}

/// Whether a state is in the frame `k` that the lemmas among the first `n` events make: none of
/// those that were added to `k` or a later frame excludes it.
pub open spec fn admitted(log: Seq<Event>, n: int, k: int, a: Set<u32>) -> bool {
    forall|p: int|
        0 <= p < n ==> match #[trigger] lemma_at(log, p) {
            Some((j, c)) => j >= k ==> !holds(a, c),
            None => true,
        }
}

/// A question to a solver about the states after a step: the cube that they are to lie in, whether
/// the state before the step is to lie outside of it, and clauses that hold before the step.
pub struct Query {
    pub cube: Seq<Lit>,
    pub strengthen: bool,
    pub constraint: Seq<Seq<Lit>>,
}

/// The question that a request puts to a solver, if it does.
pub open spec fn query_of(call: Call, solver: int) -> Option<Query> {
    match call {
        Call::Blocked { frame, cube, strengthen } => if frame == solver + 1 {
            Some(Query { cube, strengthen, constraint: seq![] })
        } else {
            None
        },
        Call::BlockedUnder { frame, cube, strengthen, constraint } => if frame == solver + 1 {
            Some(Query { cube, strengthen, constraint })
        } else {
            None
        },
        Call::Inductive { solver: s, cube, strengthen } => if s == solver {
            Some(Query { cube, strengthen, constraint: seq![] })
        } else {
            None
        },
        _ => None,
    }
}

/// The last question among the first `n` events that was put to a solver.
pub open spec fn last_query(log: Seq<Event>, n: int, solver: int) -> Option<int>
    decreases n,
{
    if n <= 0 {
        None
    } else if query_of(log[n - 1].call, solver) is Some {
        Some(n - 1)
    } else {
        last_query(log, n - 1, solver)
    }
}

/// Whether no step leads into the cube `c` from a state that the question at `q` is about.
pub open spec fn no_step(
    sys: System,
    log: Seq<Event>,
    q: int,
    solver: int,
    query: Query,
    c: Seq<Lit>,
) -> bool {
    forall|a: Set<u32>, b: Set<u32>|
        admitted(log, q, solver, a) && (query.strengthen ==> !holds(a, query.cube))
            && clauses_hold(a, query.constraint) && #[trigger] sys.walks(a, b) ==> !holds(b, c)
}

/// Whether a positive answer to a question is true.
pub open spec fn true_answer(sys: System, log: Seq<Event>, p: int, solver: int) -> bool {
    match query_of(log[p].call, solver) {
        None => true,
        Some(query) => log[p].reply->Flag_0 ==> no_step(
            sys,
            log,
            p,
            solver,
            query,
            query.cube,
        ),
    }
}

/// Whether a core is true: it is part of the cube of the last question, which was answered
/// positively; no step leads into it either; and it meets an initial state only where the whole
/// cube does.
pub open spec fn true_core(sys: System, log: Seq<Event>, p: int, solver: int) -> bool {
    let c = log[p].reply->Cube_0;
    match last_query(log, p, solver) {
        None => true,
        Some(q) => {
            let query = query_of(log[q].call, solver)->0;
            log[q].reply->Flag_0 ==> {
                &&& within(c, query.cube)
                &&& no_step(sys, log, q, solver, query, c)
                &&& init_free(sys, query.cube) ==> init_free(sys, c)
            }
        },
    }
}

/// Whether a predecessor is true: it comes from a frame, and from each of its states a step under
/// the inputs that come with it leads into the cube of the last question, which was answered
/// negatively. Only where all constraints are in force is it bound to.
pub open spec fn true_pred(sys: System, log: Seq<Event>, p: int, solver: int) -> bool {
    let model = log[p].reply->Pred_0;
    match last_query(log, p, solver) {
        None => true,
        Some(q) => {
            let query = query_of(log[q].call, solver)->0;
            sys.exact && !log[q].reply->Flag_0 ==> {
                &&& exists|a: Set<u32>| #[trigger] admitted(log, q, solver, a) && holds(a, model)
                &&& forall|a: Set<u32>| #[trigger]
                    holds(a, model) ==> exists|b: Set<u32>| #[trigger]
                        sys.takes(a, log[p].reply->Pred_1, b) && holds(b, query.cube)
            }
        },
    }
}

/// Whether the answer to a look for goals in the last frame is true: there are none, or, where all
/// constraints are in force, the answer is a cube that has a state of the frame in it, with inputs
/// that lead from all its states to a bad one.
pub open spec fn true_goal(sys: System, log: Seq<Event>, p: int, level: int) -> bool {
    match log[p].reply->BadState_0 {
        None => forall|a: Set<u32>| #[trigger] admitted(log, p, level, a) ==> !sys.is_goal(a),
        Some((model, inputs)) => sys.exact ==> {
            &&& inputs.len() > 0
            &&& exists|a: Set<u32>| #[trigger] admitted(log, p, level, a) && holds(a, model)
            &&& forall|a: Set<u32>| #[trigger] holds(a, model) ==> sys.runs(a, inputs)
        },
    }
}

/// Whether two neighbouring frames below `frame` are equal.
pub open spec fn equal_below(log: Seq<Event>, n: int, frame: int) -> bool {
    exists|k: int| 0 <= k < frame && #[trigger] equal_at(log, n, k)
}

/// Whether the frame `k` and the one after it are equal.
pub open spec fn equal_at(log: Seq<Event>, n: int, k: int) -> bool {
    forall|a: Set<u32>| #[trigger] admitted(log, n, k + 1, a) ==> admitted(log, n, k, a)
}

/// Whether the lemmas that a frame is said to hold have been added.
pub open spec fn true_lemmas(log: Seq<Event>, p: int, lemmas: Seq<FrameLemmaView>) -> bool {
    forall|i: int|
        #![trigger lemmas[i]]
        0 <= i < lemmas.len() ==> exists|q: int|
            0 <= q < p && #[trigger] adds(log, q, lemmas[i].cube)
}

/// Whether the event at `q` adds a lemma with the literals of the given cube.
pub open spec fn adds(log: Seq<Event>, q: int, cube: Seq<Lit>) -> bool {
    match lemma_at(log, q) {
        Some((_, c)) => same_members(c, cube),
        None => false,
    }
}

/// Whether an answer holds good of the system.
pub open spec fn true_event(sys: System, log: Seq<Event>, p: int) -> bool {
    let reply = log[p].reply;
    match log[p].call {
        Call::CubeSubsumeInit { cube } => !reply->Flag_0 ==> init_free(sys, cube),
        Call::Init => forall|a: Set<u32>| #[trigger]
            sys.starts(a) <==> holds(a, reply->Cube_0),
        Call::Blocked { frame, .. } => true_answer(sys, log, p, frame - 1),
        Call::BlockedUnder { frame, .. } => true_answer(sys, log, p, frame - 1),
        Call::Inductive { solver, .. } => true_answer(sys, log, p, solver as int),
        Call::InductiveCore { solver } => true_core(sys, log, p, solver as int)
            && reply->Cube_0.len() <= usize::MAX,
        Call::GetPred { frame, .. } => true_pred(sys, log, p, frame - 1),
        Call::Solve { solver, cube } => solver == 0 && !reply->Flag_0 ==> init_free(sys, cube),
        Call::GetBad { level } => true_goal(sys, log, p, level as int),
        Call::SortHybrid { cube, .. } => same_members(reply->Cube_0, cube),
        Call::SortByActivity { cube, .. } => same_members(reply->Cube_0, cube),
        Call::AddLemma { frame, .. } => reply->Flag_0 ==> equal_below(log, p + 1, frame as int),
        Call::FrameLemmas { .. } => true_lemmas(log, p, reply->Lemmas_0),
        Call::FrameIsEmpty { frame } => reply->Flag_0 ==> equal_at(log, p, frame as int),
        Call::CheckWitnessByBmc { .. } => reply->MaybeCube_0 is None ==> sys.unsafe_system(),
        _ => true,
    }
}

/// Whether two cubes have the same literals.
pub open spec fn same_members(c: Seq<Lit>, d: Seq<Lit>) -> bool {
    within(c, d) && within(d, c)
}

/// Whether the search for a bad state in the first frame is answered truly. It is the only search
/// of its kind: the literal that is asked about holds in the bad states, and where one is found
/// the next answer is a cube of such states.
pub open spec fn true_base(sys: System, log: Seq<Event>, p: int) -> bool {
    match log[p].call {
        Call::SolveWithoutBucket { solver, .. } => if solver != 0 {
            true
        } else if log[p].reply->Flag_0 {
            let model = log[p + 1].reply->Pred_0;
            &&& exists|a: Set<u32>| #[trigger] sys.starts(a) && sys.fails(a) && holds(a, model)
            &&& sys.exact ==> forall|a: Set<u32>| #[trigger] holds(a, model) ==> sys.fails(a)
        } else {
            forall|a: Set<u32>| #[trigger] sys.starts(a) ==> !sys.fails(a)
        },
        _ => true,
    }
}

/// Whether all answers in a log hold good of the system.
pub open spec fn truthful(sys: System, log: Seq<Event>) -> bool {
    forall|p: int|
        #![trigger log[p]]
        0 <= p < log.len() ==> true_event(sys, log, p) && true_base(sys, log, p)
}

/// Part of a cube holds wherever the cube does.
pub proof fn lemma_within(a: Set<u32>, c: Seq<Lit>, d: Seq<Lit>)
    requires
        within(c, d),
        holds(a, d),
    ensures
        holds(a, c),
{
}

/// Cubes with the same literals hold in the same states.
pub proof fn lemma_same_members(sys: System, c: Seq<Lit>, d: Seq<Lit>)
    requires
        same_members(c, d),
    ensures
        forall|a: Set<u32>| #[trigger] holds(a, c) == holds(a, d),
        init_free(sys, c) == init_free(sys, d),
{
    assert forall|a: Set<u32>| #[trigger] holds(a, c) == holds(a, d) by {
        if holds(a, c) {
            lemma_within(a, d, c);
        }
        if holds(a, d) {
            lemma_within(a, c, d);
        }
    }
}

/// A literal holds where its negation does not.
pub proof fn lemma_negation(a: Set<u32>, l: Lit)
    ensures
        lit_holds(a, l.negation()) == !lit_holds(a, l),
{
    assert(l.negation().var_spec() == l.var_spec());
}

/// The clause that excludes a cube holds in the states outside of it.
pub proof fn lemma_negated(a: Set<u32>, cube: Seq<Lit>)
    ensures
        clause_holds(a, negated(cube)) == !holds(a, cube),
{
    if !holds(a, cube) {
        let l = choose|l: Lit| #[trigger] cube.contains(l) && !lit_holds(a, l);
        lemma_negation(a, l);
        let i = cube.index_of(l);
        assert(negated(cube)[i] == l.negation());
        assert(negated(cube).contains(l.negation()));
    }
    if clause_holds(a, negated(cube)) {
        let m = choose|m: Lit| #[trigger] negated(cube).contains(m) && lit_holds(a, m);
        let i = negated(cube).index_of(m);
        lemma_negation(a, cube[i]);
        assert(cube.contains(cube[i]));
    }
}

/// More events, or an earlier frame, only take states out.
pub proof fn lemma_admitted(log: Seq<Event>, n: int, m: int, k: int, j: int, a: Set<u32>)
    requires
        n <= m,
        j <= k,
        admitted(log, m, j, a),
    ensures
        admitted(log, n, k, a),
{
    assert forall|p: int| 0 <= p < n implies match #[trigger] lemma_at(log, p) {
        Some((i, c)) => i >= k ==> !holds(a, c),
        None => true,
    } by {
        assert(0 <= p < m);
    }
}

} // verus!
