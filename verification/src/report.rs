//! What a search hands out: a certificate for a proof, and a counterexample.

use vstd::prelude::*;

use crate::engine::IC3;
use crate::fault::Fault;
use crate::lit::{cubes, negate_lits, negated, Lit, Var, MAX_VAR};
use crate::obligation::ObligationView;
use crate::session::{asked, extends, Call, Event, Reasoner, Session};
use crate::state::{linked, State, StateView};

verus! {

/// A run of the system to a bad state: values of latches to start from, and the inputs of each
/// step.
pub struct Witness {
    pub init: Vec<Lit>,
    pub wit: Vec<Vec<Lit>>,
}

/// What a counterexample says.
pub struct WitnessView {
    pub init: Seq<Lit>,
    pub wit: Seq<Seq<Lit>>,
}

impl View for Witness {
    type V = WitnessView;

    open spec fn view(&self) -> WitnessView {
        WitnessView { init: self.init@, wit: cubes(self.wit@) }
    }
}

/// The counterexample of an outcome.
pub open spec fn witnessed(r: Result<Witness, Fault>) -> Result<WitnessView, Fault> {
    match r {
        Ok(w) => Ok(w@),
        Err(f) => Err(f),
    }
}

/// The literals of the system as it was given that some literals stand for.
pub open spec fn restore_run(log: Seq<Event>, at: int, lits: Seq<Lit>, k: int, done: Seq<Lit>) ->
    Option<(Seq<Lit>, int)>
    decreases lits.len() - k,
{
    if k >= lits.len() {
        Some((done, at))
    } else if asked(log, at, Call::Restore { lit: lits[k] }) {
        restore_run(log, at + 1, lits, k + 1, done.push(log[at].reply->Literal_0))
    } else {
        None
    }
}

/// The same for several cubes.
pub open spec fn restores_run(
    log: Seq<Event>,
    at: int,
    all: Seq<Seq<Lit>>,
    k: int,
    done: Seq<Seq<Lit>>,
) -> Option<(Seq<Seq<Lit>>, int)>
    decreases all.len() - k,
{
    if k >= all.len() {
        Some((done, at))
    } else {
        match restore_run(log, at, all[k], 0, seq![]) {
            None => None,
            Some((lits, at2)) => restores_run(log, at2, all, k + 1, done.push(lits)),
        }
    }
}

/// New literals for the cubes from `k` on, each the conjunction of one cube.
pub open spec fn dnf_run(
    log: Seq<Event>,
    at: int,
    all: Seq<Seq<Lit>>,
    k: int,
    done: Seq<Lit>,
) -> Option<(Seq<Lit>, int)>
    decreases all.len() - k,
{
    if k >= all.len() {
        Some((done, at))
    } else {
        match restore_run(log, at, all[k], 0, seq![]) {
            None => None,
            Some((lits, at2)) => if asked(log, at2, Call::NewAnd { lits }) {
                dnf_run(log, at2 + 1, all, k + 1, done.push(log[at2].reply->Literal_0))
            } else {
                None
            },
        }
    }
}

/// The literal that holds where the certificate is violated: in a cube that the invariant
/// excludes, in a bad state, or where a constraint does not hold.
pub open spec fn certify_run(log: Seq<Event>, at: int, constraints: Seq<Lit>, bad: Lit) -> Option<
    (Lit, int),
> {
    if !asked(log, at, Call::InvariantCubes) {
        None
    } else {
        match dnf_run(log, at + 1, log[at].reply->Cubes_0, 0, seq![]) {
            None => None,
            Some((dnf, at2)) => {
                let inv = log[at2].reply->Literal_0;
                let rest = log[at2 + 1].reply->Literal_0;
                if asked(log, at2, Call::NewOr { lits: dnf }) && asked(
                    log,
                    at2 + 1,
                    Call::NewOr { lits: negated(constraints).push(bad) },
                ) && asked(log, at2 + 2, Call::NewOr { lits: seq![inv, rest] }) {
                    Some((log[at2 + 2].reply->Literal_0, at2 + 3))
                } else {
                    None
                }
            },
        }
    }
}

/// The values of the latches from `k` on in the model of the bounded search.
pub open spec fn bmc_init_run(
    log: Seq<Event>,
    at: int,
    latchs: Seq<Var>,
    k: int,
    done: Seq<Lit>,
) -> Option<(Seq<Lit>, int)>
    decreases latchs.len() - k,
{
    if k >= latchs.len() {
        Some((done, at))
    } else {
        let lit = latchs[k].lit_spec();
        if !asked(log, at, Call::BmcValue { lit }) {
            None
        } else {
            match log[at].reply->Value_0 {
                None => bmc_init_run(log, at + 1, latchs, k + 1, done),
                Some(v) => if asked(log, at + 1, Call::Restore { lit: lit.negation_if(!v) }) {
                    bmc_init_run(
                        log,
                        at + 2,
                        latchs,
                        k + 1,
                        done.push(log[at + 1].reply->Literal_0),
                    )
                } else {
                    None
                },
            }
        }
    }
}

/// The values of the inputs from `k` on in one step of that model.
pub open spec fn bmc_step_run(
    log: Seq<Event>,
    at: int,
    inputs: Seq<Var>,
    step: usize,
    k: int,
    done: Seq<Lit>,
) -> Option<(Seq<Lit>, int)>
    decreases inputs.len() - k,
{
    if k >= inputs.len() {
        Some((done, at))
    } else {
        let lit = inputs[k].lit_spec();
        if !asked(log, at, Call::LitNext { lit, step }) || !asked(
            log,
            at + 1,
            Call::BmcValue { lit: log[at].reply->Literal_0 },
        ) {
            None
        } else {
            match log[at + 1].reply->Value_0 {
                None => bmc_step_run(log, at + 2, inputs, step, k + 1, done),
                Some(v) => if asked(log, at + 2, Call::Restore { lit: lit.negation_if(!v) }) {
                    bmc_step_run(
                        log,
                        at + 3,
                        inputs,
                        step,
                        k + 1,
                        done.push(log[at + 2].reply->Literal_0),
                    )
                } else {
                    None
                },
            }
        }
    }
}

/// The inputs of the steps from `step` to `last`.
pub open spec fn bmc_steps_run(
    log: Seq<Event>,
    at: int,
    inputs: Seq<Var>,
    step: int,
    last: usize,
    done: Seq<Seq<Lit>>,
) -> Option<(Seq<Seq<Lit>>, int)>
    decreases last + 1 - step,
{
    if step > last {
        Some((done, at))
    } else {
        match bmc_step_run(log, at, inputs, step as usize, 0, seq![]) {
            None => None,
            Some((lits, at2)) => bmc_steps_run(log, at2, inputs, step + 1, last, done.push(lits)),
        }
    }
}

/// The inputs of all the steps from an obligation to the bad state.
pub open spec fn chain_inputs(obligations: Seq<ObligationView>, id: int) -> Seq<Seq<Lit>>
    decreases id,
{
    let po = obligations[id];
    match po.next {
        None => po.input,
        Some(k) => if k < id {
            po.input + chain_inputs(obligations, k as int)
        } else {
            po.input
        },
    }
}

/// The counterexample that starts from an obligation of the first frame.
pub open spec fn chain_run(log: Seq<Event>, at: int, s: StateView) -> Option<
    (Result<WitnessView, Fault>, int),
> {
    if !asked(log, at, Call::PeakObligation) {
        None
    } else {
        match log[at].reply->Index_0 {
            None => Some((Err(Fault::NoObligation), at + 1)),
            Some(id) => if id >= s.obligations.len() {
                Some((Err(Fault::UnknownObligation), at + 1))
            } else if s.obligations[id as int].frame != 0 {
                Some((Err(Fault::LateInitialState), at + 1))
            } else {
                match restore_run(log, at + 1, s.obligations[id as int].lemma, 0, seq![]) {
                    None => None,
                    Some((init, at2)) => match restores_run(
                        log,
                        at2,
                        chain_inputs(s.obligations, id as int),
                        0,
                        seq![],
                    ) {
                        None => None,
                        Some((wit, at3)) => Some((Ok(WitnessView { init, wit }), at3)),
                    },
                }
            },
        }
    }
}

/// The counterexample that was found: that of the bounded search where it ran, and
/// otherwise the one that the first obligation starts.
pub open spec fn witness_run(log: Seq<Event>, at: int, s: StateView) -> Option<
    (Result<WitnessView, Fault>, int),
> {
    if !asked(log, at, Call::BmcUnrolled) {
        None
    } else {
        match log[at].reply->Index_0 {
            None => chain_run(log, at + 1, s),
            Some(last) => match bmc_init_run(log, at + 1, s.latchs, 0, seq![]) {
                None => None,
                Some((init, at2)) => match bmc_steps_run(log, at2, s.inputs, 0, last, seq![]) {
                    None => None,
                    Some((wit, at3)) => Some((Ok(WitnessView { init, wit }), at3)),
                },
            },
        }
    }
}

impl<R: Reasoner> Session<R> {
    /// Restores the literals of a cube; see [`restore_run`].
    fn restore_all(&mut self, lits: &Vec<Lit>) -> (r: Vec<Lit>)
        ensures
            final(self).asks(*old(self)),
            forall|l: Seq<Event>|
                extends(l, final(self).log()) ==> #[trigger] restore_run(
                    l,
                    old(self).log().len() as int,
                    lits@,
                    0,
                    seq![],
                ) == Some((r@, final(self).log().len() as int)),
    {
        let ghost start = self.log().len() as int;
        let mut done: Vec<Lit> = Vec::new();
        let mut k: usize = 0;
        assert(done@ =~= seq![]);
        while k < lits.len()
            invariant
                k <= lits.len(),
                start == old(self).log().len(),
                self.asks(*old(self)),
                forall|l: Seq<Event>|
                    extends(l, self.log()) ==> #[trigger] restore_run(l, start, lits@, 0, seq![])
                        == restore_run(l, self.log().len() as int, lits@, k as int, done@),
            decreases lits.len() - k,
        {
            let lit: Lit = self.restore(lits[k]);
            done.push(lit);
            k = k + 1;
        }
        done
    }

    /// Makes a literal for each cube; see [`dnf_run`].
    fn new_ands(&mut self, all: &Vec<Vec<Lit>>) -> (r: Vec<Lit>)
        ensures
            final(self).asks(*old(self)),
            forall|l: Seq<Event>|
                extends(l, final(self).log()) ==> #[trigger] dnf_run(
                    l,
                    old(self).log().len() as int,
                    cubes(all@),
                    0,
                    seq![],
                ) == Some((r@, final(self).log().len() as int)),
    {
        let ghost start = self.log().len() as int;
        let mut done: Vec<Lit> = Vec::new();
        let mut k: usize = 0;
        assert(done@ =~= seq![]);
        while k < all.len()
            invariant
                k <= all.len(),
                start == old(self).log().len(),
                self.asks(*old(self)),
                forall|l: Seq<Event>|
                    extends(l, self.log()) ==> #[trigger] dnf_run(l, start, cubes(all@), 0, seq![])
                        == dnf_run(l, self.log().len() as int, cubes(all@), k as int, done@),
            decreases all.len() - k,
        {
            let lits: Vec<Lit> = self.restore_all(&all[k]);
            let lit: Lit = self.new_and(&lits);
            done.push(lit);
            k = k + 1;
        }
        done
    }

    /// The values of the latches in the model of the bounded search; see
    /// [`bmc_init_run`].
    fn bmc_init(&mut self, latchs: &Vec<Var>) -> (r: Vec<Lit>)
        requires
            forall|i: int| 0 <= i < latchs@.len() ==> (#[trigger] latchs@[i]).0 <= MAX_VAR,
        ensures
            final(self).asks(*old(self)),
            forall|l: Seq<Event>|
                extends(l, final(self).log()) ==> #[trigger] bmc_init_run(
                    l,
                    old(self).log().len() as int,
                    latchs@,
                    0,
                    seq![],
                ) == Some((r@, final(self).log().len() as int)),
    {
        let ghost start = self.log().len() as int;
        let mut done: Vec<Lit> = Vec::new();
        let mut k: usize = 0;
        assert(done@ =~= seq![]);
        while k < latchs.len()
            invariant
                k <= latchs.len(),
                forall|i: int| 0 <= i < latchs@.len() ==> (#[trigger] latchs@[i]).0 <= MAX_VAR,
                start == old(self).log().len(),
                self.asks(*old(self)),
                forall|l: Seq<Event>|
                    extends(l, self.log()) ==> #[trigger] bmc_init_run(
                        l,
                        start,
                        latchs@,
                        0,
                        seq![],
                    ) == bmc_init_run(l, self.log().len() as int, latchs@, k as int, done@),
            decreases latchs.len() - k,
        {
            let lit: Lit = latchs[k].lit();
            if let Some(v) = self.bmc_value(lit) {
                let restored: Lit = self.restore(lit.not_if(!v));
                done.push(restored);
            }
            k = k + 1;
        }
        done
    }

    /// The values of the inputs in one step of that model; see [`bmc_step_run`].
    fn bmc_step(&mut self, inputs: &Vec<Var>, step: usize) -> (r: Vec<Lit>)
        requires
            forall|i: int| 0 <= i < inputs@.len() ==> (#[trigger] inputs@[i]).0 <= MAX_VAR,
        ensures
            final(self).asks(*old(self)),
            forall|l: Seq<Event>|
                extends(l, final(self).log()) ==> #[trigger] bmc_step_run(
                    l,
                    old(self).log().len() as int,
                    inputs@,
                    step,
                    0,
                    seq![],
                ) == Some((r@, final(self).log().len() as int)),
    {
        let ghost start = self.log().len() as int;
        let mut done: Vec<Lit> = Vec::new();
        let mut k: usize = 0;
        assert(done@ =~= seq![]);
        while k < inputs.len()
            invariant
                k <= inputs.len(),
                forall|i: int| 0 <= i < inputs@.len() ==> (#[trigger] inputs@[i]).0 <= MAX_VAR,
                start == old(self).log().len(),
                self.asks(*old(self)),
                forall|l: Seq<Event>|
                    extends(l, self.log()) ==> #[trigger] bmc_step_run(
                        l,
                        start,
                        inputs@,
                        step,
                        0,
                        seq![],
                    ) == bmc_step_run(l, self.log().len() as int, inputs@, step, k as int, done@),
            decreases inputs.len() - k,
        {
            let lit: Lit = inputs[k].lit();
            let later: Lit = self.lit_next(lit, step);
            if let Some(v) = self.bmc_value(later) {
                let restored: Lit = self.restore(lit.not_if(!v));
                done.push(restored);
            }
            k = k + 1;
        }
        done
    }

    /// The inputs of all steps of that model; see [`bmc_steps_run`].
    fn bmc_steps(&mut self, inputs: &Vec<Var>, last: usize) -> (r: Vec<Vec<Lit>>)
        requires
            forall|i: int| 0 <= i < inputs@.len() ==> (#[trigger] inputs@[i]).0 <= MAX_VAR,
        ensures
            final(self).asks(*old(self)),
            forall|l: Seq<Event>|
                extends(l, final(self).log()) ==> #[trigger] bmc_steps_run(
                    l,
                    old(self).log().len() as int,
                    inputs@,
                    0,
                    last,
                    seq![],
                ) == Some((cubes(r@), final(self).log().len() as int)),
    {
        let ghost start = self.log().len() as int;
        let mut done: Vec<Vec<Lit>> = Vec::new();
        let mut step: usize = 0;
        assert(cubes(done@) =~= seq![]);
        loop
            invariant
                step <= last,
                forall|i: int| 0 <= i < inputs@.len() ==> (#[trigger] inputs@[i]).0 <= MAX_VAR,
                start == old(self).log().len(),
                self.asks(*old(self)),
                forall|l: Seq<Event>|
                    extends(l, self.log()) ==> #[trigger] bmc_steps_run(
                        l,
                        start,
                        inputs@,
                        0,
                        last,
                        seq![],
                    ) == bmc_steps_run(
                        l,
                        self.log().len() as int,
                        inputs@,
                        step as int,
                        last,
                        cubes(done@),
                    ),
            decreases last - step,
        {
            let lits: Vec<Lit> = self.bmc_step(inputs, step);
            let ghost before = cubes(done@);
            let ghost view = lits@;
            done.push(lits);
            assert(cubes(done@) =~= before.push(view));
            if step == last {
                assert forall|l: Seq<Event>|
                    extends(l, self.log()) implies #[trigger] bmc_steps_run(
                    l,
                    start,
                    inputs@,
                    0,
                    last,
                    seq![],
                ) == Some((cubes(done@), self.log().len() as int)) by {
                    let t = bmc_steps_run(
                        l,
                        self.log().len() as int,
                        inputs@,
                        step + 1,
                        last,
                        cubes(done@),
                    );
                }
                return done;
            }
            step = step + 1;
        }
    }

    /// Restores the inputs along the obligations from `id` on; see [`chain_inputs`].
    fn restore_chain(&mut self, state: &State, id: usize) -> (r: Vec<Vec<Lit>>)
        requires
            state@.wf(),
            id < state@.obligations.len(),
        ensures
            final(self).asks(*old(self)),
            forall|l: Seq<Event>|
                extends(l, final(self).log()) ==> #[trigger] restores_run(
                    l,
                    old(self).log().len() as int,
                    chain_inputs(state@.obligations, id as int),
                    0,
                    seq![],
                ) == Some((cubes(r@), final(self).log().len() as int)),
    {
        let ghost start = self.log().len() as int;
        let ghost all = chain_inputs(state@.obligations, id as int);
        let mut done: Vec<Vec<Lit>> = Vec::new();
        let mut current: usize = id;
        assert(cubes(done@) =~= seq![]);
        assert(all.skip(0) =~= all);
        loop
            invariant
                state@.wf(),
                current < state@.obligations.len(),
                done.len() <= all.len(),
                all.skip(done.len() as int) == chain_inputs(state@.obligations, current as int),
                all == chain_inputs(state@.obligations, id as int),
                start == old(self).log().len(),
                self.asks(*old(self)),
                forall|l: Seq<Event>|
                    extends(l, self.log()) ==> #[trigger] restores_run(l, start, all, 0, seq![])
                        == restores_run(
                        l,
                        self.log().len() as int,
                        all,
                        done.len() as int,
                        cubes(done@),
                    ),
            decreases current,
        {
            proof {
                assert(linked(state@.obligations, current as int));
            }
            let po = state.obligation(current);
            let ghost base = done.len() as int;
            let ghost rest = all.skip(base);
            assert(po@.input.len() == po.input.len());
            assert(rest.len() == all.len() - base);
            assert forall|j: int| 0 <= j < po.input.len() implies (#[trigger] rest[j])
                == po.input[j]@ by {
                assert(rest[j] == po@.input[j]);
            }
            let mut k: usize = 0;
            while k < po.input.len()
                invariant
                    k <= po.input.len(),
                    po@ == state@.obligations[current as int],
                    0 <= base,
                    base + po.input.len() <= all.len(),
                    done.len() == base + k,
                    rest == all.skip(base),
                    rest.len() >= po.input.len(),
                    forall|j: int|
                        0 <= j < po.input.len() ==> (#[trigger] rest[j]) == po.input[j]@,
                    start == old(self).log().len(),
                    self.asks(*old(self)),
                    forall|l: Seq<Event>|
                        extends(l, self.log()) ==> #[trigger] restores_run(l, start, all, 0, seq![])
                            == restores_run(
                            l,
                            self.log().len() as int,
                            all,
                            done.len() as int,
                            cubes(done@),
                        ),
                decreases po.input.len() - k,
            {
                assert(rest[k as int] == all[base + k]);
                let lits: Vec<Lit> = self.restore_all(&po.input[k]);
                let ghost before = cubes(done@);
                let ghost view = lits@;
                done.push(lits);
                assert(cubes(done@) =~= before.push(view));
                k = k + 1;
            }
            match po.next {
                None => {
                    assert(done.len() == all.len());
                    return done;
                },
                Some(next) => {
                    assert(all.skip(done.len() as int) =~= rest.skip(po.input.len() as int));
                    assert(rest.skip(po.input.len() as int) =~= chain_inputs(
                        state@.obligations,
                        next as int,
                    ));
                    current = next;
                },
            }
        }
    }
}

impl<R: Reasoner> IC3<R> {
    /// Adds a certificate to the system with the given constraints and bad literal. The result is
    /// the new bad literal; see [`certify_run`].
    pub fn certify(&mut self, constraints: &Vec<Lit>, bad: Lit) -> (r: Lit)
        ensures
            final(self).state == old(self).state,
            final(self).session.asks(old(self).session),
            forall|l: Seq<Event>|
                extends(l, final(self).session.log()) ==> #[trigger] certify_run(
                    l,
                    old(self).session.log().len() as int,
                    constraints@,
                    bad,
                ) == Some((r, final(self).session.log().len() as int)),
    {
        let all: Vec<Vec<Lit>> = self.session.invariant_cubes();
        let dnf: Vec<Lit> = self.session.new_ands(&all);
        let invariants: Lit = self.session.new_or(&dnf);
        let mut violated: Vec<Lit> = negate_lits(constraints);
        violated.push(bad);
        let constrains: Lit = self.session.new_or(&violated);
        let mut both: Vec<Lit> = Vec::new();
        both.push(invariants);
        both.push(constrains);
        assert(both@ =~= seq![invariants, constrains]);
        self.session.new_or(&both)
    }

    /// The counterexample that starts from the first obligation; see [`chain_run`].
    fn chain_witness(&mut self) -> (r: Result<Witness, Fault>)
        requires
            old(self).state@.wf(),
        ensures
            final(self).state == old(self).state,
            final(self).session.asks(old(self).session),
            forall|l: Seq<Event>|
                extends(l, final(self).session.log()) ==> #[trigger] chain_run(
                    l,
                    old(self).session.log().len() as int,
                    old(self).state@,
                ) == Some((witnessed(r), final(self).session.log().len() as int)),
    {
        let id: usize = match self.session.peak_obligation() {
            None => {
                return Err(Fault::NoObligation);
            },
            Some(id) => id,
        };
        if id >= self.state.obligations.len() {
            return Err(Fault::UnknownObligation);
        }
        if self.state.obligation(id).frame != 0 {
            return Err(Fault::LateInitialState);
        }
        let init: Vec<Lit> = self.session.restore_all(&self.state.obligation(id).lemma);
        let wit: Vec<Vec<Lit>> = self.session.restore_chain(&self.state, id);
        Ok(Witness { init, wit })
    }

    /// The counterexample that was found; see [`witness_run`].
    pub fn witness(&mut self) -> (r: Result<Witness, Fault>)
        requires
            old(self).state@.wf(),
        ensures
            final(self).state == old(self).state,
            final(self).session.asks(old(self).session),
            forall|l: Seq<Event>|
                extends(l, final(self).session.log()) ==> #[trigger] witness_run(
                    l,
                    old(self).session.log().len() as int,
                    old(self).state@,
                ) == Some((witnessed(r), final(self).session.log().len() as int)),
    {
        match self.session.bmc_unrolled() {
            None => self.chain_witness(),
            Some(last) => {
                assert(self.state@.wf());
                assert(self.state@.latchs == self.state.latchs@);
                assert(self.state@.inputs == self.state.inputs@);
                let init: Vec<Lit> = self.session.bmc_init(&self.state.latchs);
                let wit: Vec<Vec<Lit>> = self.session.bmc_steps(&self.state.inputs, last);
                Ok(Witness { init, wit })
            },
        }
    }
}

} // verus!
