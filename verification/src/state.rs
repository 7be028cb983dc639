//! What the engine knows by itself, without asking.

use vstd::prelude::*;

use crate::collections::{entries, NumberMap};
use crate::heuristic::CTX_TOTAL_MIC_ARMS;
use crate::lit::{cubes, Lit, Var, MAX_VAR};
use crate::mic::{Order, Setting};
use crate::obligation::{Obligation, ObligationView};
use crate::options::Options;

verus! {

/// What the engine knows by itself.
pub struct State {
    pub options: Options,
    /// The number of solvers, which is that of the frames.
    pub solvers: usize,
    /// All the obligations there have been. An obligation is known by its place here.
    pub obligations: Vec<Obligation>,
    /// The constraints in force.
    pub abs_cst: Vec<Lit>,
    /// Clauses that are known to hold.
    pub pre_lemmas: Vec<Vec<Lit>>,
    /// Variables that every solver may decide on.
    pub auxiliary_var: Vec<Var>,
    /// The latches of the system.
    pub latchs: Vec<Var>,
    /// The inputs of the system.
    pub inputs: Vec<Var>,
    /// From the variables that stand for the inputs one step later to the inputs.
    pub bad_input: NumberMap,
    /// How often each arm was chosen.
    pub arm_pulls: Vec<usize>,
}

/// What a state says.
pub struct StateView {
    pub options: Options,
    pub solvers: usize,
    pub obligations: Seq<ObligationView>,
    pub abs_cst: Seq<Lit>,
    pub pre_lemmas: Seq<Seq<Lit>>,
    pub auxiliary_var: Seq<Var>,
    pub latchs: Seq<Var>,
    pub inputs: Seq<Var>,
    pub bad_input: Map<u32, u32>,
    pub arm_pulls: Seq<usize>,
}

/// What the obligations of a vector say.
pub open spec fn obligation_views(v: Seq<Obligation>) -> Seq<ObligationView> {
    Seq::new(v.len(), |i: int| v[i]@)
}

impl View for State {
    type V = StateView;

    open spec fn view(&self) -> StateView {
        StateView {
            options: self.options,
            solvers: self.solvers,
            obligations: obligation_views(self.obligations@),
            abs_cst: self.abs_cst@,
            pre_lemmas: cubes(self.pre_lemmas@),
            auxiliary_var: self.auxiliary_var@,
            latchs: self.latchs@,
            inputs: self.inputs@,
            bad_input: entries(self.bad_input),
            arm_pulls: self.arm_pulls@,
        }
    }
}

/// Whether an obligation only refers to obligations before it, and is one deeper than the one
/// that it leads to; one that leads to none has depth 0.
pub open spec fn linked(obligations: Seq<ObligationView>, i: int) -> bool {
    &&& obligations[i].depth <= i
    &&& match obligations[i].next {
        None => obligations[i].depth == 0,
        Some(k) => k < i && obligations[i].depth == obligations[k as int].depth + 1,
    }
}

/// The obligation that one leads to, the one after that, and so on, up to `n`.
pub open spec fn window_of(obligations: Seq<ObligationView>, id: usize, n: nat) -> Seq<usize>
    decreases n,
{
    if n == 0 {
        seq![]
    } else {
        match obligations[id as int].next {
            None => seq![],
            Some(k) => seq![k] + window_of(obligations, k, (n - 1) as nat),
        }
    }
}

impl StateView {
    /// The invariant of a state: obligations are linked, every arm is counted, frames can be
    /// numbered, and latches and inputs have literals.
    pub open spec fn wf(self) -> bool {
        &&& forall|i: int| 0 <= i < self.obligations.len() ==> #[trigger] linked(self.obligations, i)
        &&& self.arm_pulls.len() == CTX_TOTAL_MIC_ARMS
        &&& self.solvers < usize::MAX - 1
        &&& forall|i: int| 0 <= i < self.latchs.len() ==> (#[trigger] self.latchs[i]).0 <= MAX_VAR
        &&& forall|i: int| 0 <= i < self.inputs.len() ==> (#[trigger] self.inputs[i]).0 <= MAX_VAR
    }

    /// The number of the last frame, or that of the first where there is none yet.
    pub open spec fn level(self) -> usize {
        if self.solvers == 0 {
            0
        } else {
            (self.solvers - 1) as usize
        }
    }

    /// What a generalization goes by.
    pub open spec fn setting(self) -> Setting {
        Setting {
            order: Order {
                hybrid: self.options.ic3.hybrid_sort,
                topo: self.options.ic3.topo_sort,
                reverse: self.options.ic3.reverse_sort,
            },
            level: self.level(),
        }
    }

    /// The state with one more obligation.
    pub open spec fn with_obligation(self, po: ObligationView) -> StateView {
        StateView { obligations: self.obligations.push(po), ..self }
    }

    /// An obligation, moved to another frame.
    pub open spec fn at_frame(self, id: usize, frame: usize) -> ObligationView {
        ObligationView { frame, ..self.obligations[id as int] }
    }

    /// The state with an obligation moved to another frame.
    pub open spec fn moved(self, id: usize, frame: usize) -> StateView {
        StateView {
            obligations: self.obligations.update(id as int, self.at_frame(id, frame)),
            ..self
        }
    }

    /// The state with one more pull of an arm.
    pub open spec fn pulled(self, arm: usize) -> StateView {
        let n = self.arm_pulls[arm as int];
        StateView {
            arm_pulls: self.arm_pulls.update(
                arm as int,
                if n < usize::MAX {
                    (n + 1) as usize
                } else {
                    n
                },
            ),
            ..self
        }
    }
}

/// Moving obligations and pulling arms keep the invariant, and so does an obligation that leads
/// to one before it.
pub proof fn lemma_wf(s: StateView)
    requires
        s.wf(),
    ensures
        forall|id: usize, frame: usize|
            id < s.obligations.len() ==> (#[trigger] s.moved(id, frame)).wf(),
        forall|arm: usize| arm < CTX_TOTAL_MIC_ARMS ==> (#[trigger] s.pulled(arm)).wf(),
        forall|po: ObligationView|
            (match po.next {
                None => po.depth == 0,
                Some(k) => k < s.obligations.len() && po.depth == s.obligations[k as int].depth + 1,
            }) ==> (#[trigger] s.with_obligation(po)).wf(),
{
    assert forall|id: usize, frame: usize| id < s.obligations.len() implies (#[trigger] s.moved(
        id,
        frame,
    )).wf() by {
        let t = s.moved(id, frame);
        assert forall|i: int| 0 <= i < t.obligations.len() implies #[trigger] linked(
            t.obligations,
            i,
        ) by {
            assert(linked(s.obligations, i));
        }
    }
    assert forall|po: ObligationView|
        (match po.next {
            None => po.depth == 0,
            Some(k) => k < s.obligations.len() && po.depth == s.obligations[k as int].depth + 1,
        }) implies (#[trigger] s.with_obligation(po)).wf() by {
        let t = s.with_obligation(po);
        assert forall|i: int| 0 <= i < t.obligations.len() implies #[trigger] linked(
            t.obligations,
            i,
        ) by {
            if i < s.obligations.len() {
                assert(linked(s.obligations, i));
            } else if let Some(k) = po.next {
                assert(linked(s.obligations, k as int));
            }
        }
    }
}

impl State {
    /// What a generalization goes by.
    pub fn setting(&self) -> (r: Setting)
        ensures
            r == self@.setting(),
    {
        Setting {
            order: Order {
                hybrid: self.options.ic3.hybrid_sort,
                topo: self.options.ic3.topo_sort,
                reverse: self.options.ic3.reverse_sort,
            },
            level: if self.solvers == 0 {
                0
            } else {
                self.solvers - 1
            },
        }
    }

    /// The obligation with the given number.
    pub fn obligation(&self, id: usize) -> (r: &Obligation)
        requires
            id < self@.obligations.len(),
        ensures
            r@ == self@.obligations[id as int],
            self@.obligations.len() <= usize::MAX,
    {
        assert(self.obligations.len() <= usize::MAX);
        &self.obligations[id]
    }

    /// Puts more constraints into force.
    pub fn enforce(&mut self, more: &Vec<Lit>)
        ensures
            final(self)@ == (StateView { abs_cst: old(self)@.abs_cst + more@, ..old(self)@ }),
    {
        let mut i: usize = 0;
        assert(self.abs_cst@ =~= self.abs_cst@ + more@.take(0));
        while i < more.len()
            invariant
                i <= more.len(),
                self@ == (StateView {
                    abs_cst: old(self)@.abs_cst + more@.take(i as int),
                    ..old(self)@
                }),
            decreases more.len() - i,
        {
            self.abs_cst.push(more[i]);
            i = i + 1;
            assert(self.abs_cst@ =~= old(self)@.abs_cst + more@.take(i as int));
        }
        assert(more@.take(more@.len() as int) =~= more@);
    }

    /// Keeps an obligation, and gives its number.
    pub fn keep(&mut self, po: Obligation) -> (r: usize)
        ensures
            r == old(self)@.obligations.len(),
            final(self)@ == old(self)@.with_obligation(po@),
    {
        let id: usize = self.obligations.len();
        let ghost before = obligation_views(self.obligations@);
        let ghost view = po@;
        self.obligations.push(po);
        assert(obligation_views(self.obligations@) =~= before.push(view));
        id
    }

    /// Moves an obligation to another frame.
    pub fn relocate(&mut self, id: usize, frame: usize)
        requires
            id < old(self)@.obligations.len(),
        ensures
            final(self)@ == old(self)@.moved(id, frame),
    {
        let ghost before = obligation_views(self.obligations@);
        self.obligations[id].frame = frame;
        assert(obligation_views(self.obligations@) =~= before.update(
            id as int,
            ObligationView { frame, ..before[id as int] },
        ));
    }

    /// Counts a pull of an arm, as far as there are numbers for it.
    pub fn pull(&mut self, arm: usize)
        requires
            arm < old(self)@.arm_pulls.len(),
        ensures
            final(self)@ == old(self)@.pulled(arm),
    {
        let n: usize = self.arm_pulls[arm];
        if n < usize::MAX {
            self.arm_pulls.set(arm, n + 1);
        }
        assert(self.arm_pulls@ =~= old(self)@.pulled(arm).arm_pulls);
    }

    /// The obligation that one leads to, the one after that, and so on, up to three.
    pub fn window(&self, id: usize) -> (r: Vec<usize>)
        requires
            self@.wf(),
            id < self@.obligations.len(),
        ensures
            r@ == window_of(self@.obligations, id, 3),
            forall|i: int| 0 <= i < r.len() ==> (#[trigger] r[i]) < self@.obligations.len(),
    {
        let mut r: Vec<usize> = Vec::new();
        let mut current: usize = id;
        let mut left: usize = 3;
        while left > 0
            invariant
                self@.wf(),
                current < self@.obligations.len(),
                forall|i: int| 0 <= i < r.len() ==> (#[trigger] r[i]) < self@.obligations.len(),
                r@ + window_of(self@.obligations, current, left as nat) == window_of(
                    self@.obligations,
                    id,
                    3,
                ),
            ensures
                r@ == window_of(self@.obligations, id, 3),
                forall|i: int| 0 <= i < r.len() ==> (#[trigger] r[i]) < self@.obligations.len(),
            decreases left,
        {
            assert(linked(self@.obligations, current as int));
            assert(self@.obligations[current as int] == self.obligations[current as int]@);
            match self.obligations[current].next {
                None => {
                    assert(r@ =~= r@ + window_of(self@.obligations, current, left as nat));
                    return r;
                },
                Some(k) => {
                    let ghost before = r@;
                    r.push(k);
                    assert(r@ + window_of(self@.obligations, k, (left - 1) as nat) =~= before + (
                    seq![k] + window_of(self@.obligations, k, (left - 1) as nat)));
                    current = k;
                },
            }
            left = left - 1;
        }
        assert(r@ =~= r@ + window_of(self@.obligations, current, 0));
        r
    }
}

} // verus!
