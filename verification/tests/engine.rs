use std::cell::{Cell, RefCell};

use ic3::blank::Blank;
use ic3::block::Turn;
use ic3::engine::IC3;
use ic3::fault::Fault;
use ic3::heuristic::{Grade, Profile, RewardTerms};
use ic3::lit::{Lit, Var};
use ic3::mic::{lit_set, Order, Setting};
use ic3::obligation::{FrameLemma, Obligation};
use ic3::options::{IC3Options, Options};
use ic3::param::{DropVarParameter, MicType};
use ic3::report::Witness;
use ic3::session::{History, Reasoner, Tally};
use ic3::shrink::Step;

/// A system over a few latches and inputs, by tables.
#[derive(Clone)]
struct Model {
    latches: u32,
    inputs: u32,
    /// The initial value of each latch, where it has one.
    init: Vec<Option<bool>>,
    /// The successor of each state under each input.
    next: Vec<Vec<u32>>,
    bad: Vec<bool>,
}

impl Model {
    fn initial(&self, s: u32) -> bool {
        (0..self.latches as usize).all(|i| match self.init[i] {
            None => true,
            Some(v) => ((s >> i) & 1 == 1) == v,
        })
    }

    fn states(&self) -> u32 {
        1 << self.latches
    }

    fn choices(&self) -> u32 {
        1 << self.inputs
    }

    fn reachable_bad(&self) -> bool {
        let mut seen = vec![false; self.states() as usize];
        let mut work: Vec<u32> = (0..self.states()).filter(|s| self.initial(*s)).collect();
        while let Some(s) = work.pop() {
            if seen[s as usize] {
                continue;
            }
            seen[s as usize] = true;
            if self.bad[s as usize] {
                return true;
            }
            for i in 0..self.choices() {
                work.push(self.next[s as usize][i as usize]);
            }
        }
        false
    }

    fn cube_of(&self, s: u32) -> Vec<Lit> {
        (0..self.latches).map(|i| Lit(2 * i + if (s >> i) & 1 == 1 { 0 } else { 1 })).collect()
    }
}

fn in_cube(s: u32, cube: &[Lit]) -> bool {
    cube.iter().all(|l| ((s >> (l.0 / 2)) & 1 == 1) == (l.0 % 2 == 0))
}

/// A departure from the truth.
#[derive(Clone, Copy, PartialEq)]
enum Quirk {
    Truth,
    /// Every literal holds in every model.
    AllHold,
    /// Cores are all of the cube that was given first.
    OldCore(Lit),
    /// Obligations without a number that was given out.
    WildPop,
    /// A frame beyond all others.
    FarFrame,
    /// Constraints that are in force already.
    OldConstraint,
    /// Every cube meets the initial states.
    AlwaysInitial,
    /// No obligation.
    NoPeak,
    /// Nothing bad.
    NoBad,
}

#[derive(Clone)]
struct Query {
    cube: Vec<Lit>,
    strengthen: bool,
    constraint: Vec<Vec<Lit>>,
    admitted: Vec<bool>,
}

#[derive(Clone, Copy)]
enum Gate {
    And,
    Or,
}

struct Explicit {
    model: Model,
    ahead: bool,
    quirk: Cell<Quirk>,
    /// The lemmas of each frame, with the obligations they were made for.
    frames: Vec<Vec<(Vec<Lit>, Option<usize>)>>,
    early: usize,
    avoid_bad: bool,
    last: Vec<Option<Query>>,
    models: Vec<Option<(u32, u32, u32)>>,
    queue: Vec<(usize, usize)>,
    frame_of: Vec<usize>,
    act: Vec<u64>,
    limit: usize,
    scores: Vec<i64>,
    rewards: Vec<(usize, RewardTerms)>,
    gates: Vec<(Gate, Vec<Lit>)>,
    tallies: Vec<Tally>,
    verified: usize,
    domains: usize,
    found_constraints: RefCell<Option<Vec<Lit>>>,
    unrolled: Cell<Option<usize>>,
    added_init: Vec<(Var, bool)>,
    var_steps: Vec<(u32, usize)>,
    /// How often the mixed order was asked for.
    mixed: usize,
    /// Nothing for each certificate that was looked at, and the frame for each obligation queued.
    ends: Vec<Option<usize>>,
}

impl Explicit {
    fn new(model: Model, ahead: bool) -> Explicit {
        Explicit {
            model,
            ahead,
            quirk: Cell::new(Quirk::Truth),
            frames: Vec::new(),
            early: 1,
            avoid_bad: false,
            last: Vec::new(),
            models: Vec::new(),
            queue: Vec::new(),
            frame_of: Vec::new(),
            act: Vec::new(),
            limit: 7,
            scores: vec![0; 7],
            rewards: Vec::new(),
            gates: Vec::new(),
            tallies: Vec::new(),
            verified: 0,
            domains: 0,
            found_constraints: RefCell::new(None),
            unrolled: Cell::new(None),
            added_init: Vec::new(),
            var_steps: Vec::new(),
            mixed: 0,
            ends: Vec::new(),
        }
    }

    fn admits(&self, k: usize, s: u32) -> bool {
        self.frames.iter().skip(k).all(|f| f.iter().all(|(c, _)| !in_cube(s, c)))
    }

    fn first_gate(&self) -> u32 {
        2 * (self.model.latches * 2 + self.model.inputs)
    }

    fn value(&self, l: Lit, s: u32) -> bool {
        if l.0 >= self.first_gate() {
            let (gate, lits) = &self.gates[((l.0 - self.first_gate()) / 2) as usize];
            let v = match gate {
                Gate::And => lits.iter().all(|m| self.value(*m, s)),
                Gate::Or => lits.iter().any(|m| self.value(*m, s)),
            };
            v == (l.0 % 2 == 0)
        } else if l.0 / 2 == self.bad_var() {
            self.model.bad[s as usize] == (l.0 % 2 == 0)
        } else {
            ((s >> (l.0 / 2)) & 1 == 1) == (l.0 % 2 == 0)
        }
    }

    fn bad_var(&self) -> u32 {
        self.model.latches
    }

    fn step_into(&self, q: &Query, target: &[Lit]) -> Option<(u32, u32, u32)> {
        for s in 0..self.model.states() {
            if !q.admitted[s as usize] || (q.strengthen && in_cube(s, &q.cube)) {
                continue;
            }
            if self.avoid_bad && self.model.bad[s as usize] {
                continue;
            }
            let holds = |c: &Vec<Lit>| c.iter().any(|l| in_cube(s, &[*l]));
            if !q.constraint.iter().all(holds) {
                continue;
            }
            for i in 0..self.model.choices() {
                let t = self.model.next[s as usize][i as usize];
                if in_cube(t, target) {
                    return Some((s, i, t));
                }
            }
        }
        None
    }

    fn ask(
        &mut self,
        solver: usize,
        cube: &[Lit],
        strengthen: bool,
        constraint: &[Vec<Lit>],
    ) -> bool {
        let admitted = (0..self.model.states()).map(|s| self.admits(solver, s)).collect();
        let q = Query {
            cube: cube.to_vec(),
            strengthen,
            constraint: constraint.to_vec(),
            admitted,
        };
        let found = self.step_into(&q, cube);
        self.models[solver] = found;
        self.last[solver] = Some(q);
        found.is_none()
    }

    fn subsumes_init(&self, cube: &[Lit]) -> bool {
        cube.iter().all(|l| match self.model.init[(l.0 / 2) as usize] {
            None => true,
            Some(v) => v == (l.0 % 2 == 0),
        })
    }

    fn inputs_of(&self, i: u32) -> Vec<Lit> {
        let base = 2 * self.model.latches;
        (0..self.model.inputs)
            .map(|k| Lit(2 * (base + k) + if (i >> k) & 1 == 1 { 0 } else { 1 }))
            .collect()
    }
}

impl Reasoner for Explicit {
    fn history(&self) -> History {
        unreachable!()
    }
    fn cube_subsume_init(&mut self, cube: &Vec<Lit>) -> bool {
        self.quirk.get() == Quirk::AlwaysInitial || self.subsumes_init(cube)
    }
    fn next(&mut self, lit: Lit) -> Lit {
        Lit(lit.0 + 2 * self.model.latches)
    }
    fn lits_next(&mut self, cube: &Vec<Lit>) -> Vec<Lit> {
        cube.iter().map(|l| Lit(l.0 + 2 * self.model.latches)).collect()
    }
    fn var_next(&mut self, var: Var, step: usize) -> Var {
        self.var_steps.push((var.0, step));
        Var(var.0 + 1000)
    }
    fn lit_next(&mut self, lit: Lit, step: usize) -> Lit {
        Lit(lit.0 + 100 * step as u32)
    }
    fn restore(&mut self, lit: Lit) -> Lit {
        lit
    }
    fn init(&mut self) -> Vec<Lit> {
        let mut r = Vec::new();
        for i in 0..self.model.latches {
            if let Some(v) = self.model.init[i as usize] {
                r.push(Lit(2 * i + if v { 0 } else { 1 }));
            }
        }
        r
    }
    fn has_init(&mut self, var: Var) -> bool {
        self.model.init[var.0 as usize].is_some()
    }
    fn add_init(&mut self, var: Var, value: bool) {
        self.added_init.push((var, value));
    }
    fn bad(&mut self) -> Lit {
        Lit(2 * self.bad_var())
    }
    fn add_constraint(&mut self, lit: Lit) {
        assert_eq!(lit, Lit(2 * self.bad_var() + 1));
        self.avoid_bad = true;
    }
    fn blocked_with_ordered(&mut self, frame: usize, cube: &Vec<Lit>, strengthen: bool) -> bool {
        self.ask(frame - 1, cube, strengthen, &[])
    }
    fn blocked_with_ordered_with_constrain(
        &mut self,
        frame: usize,
        cube: &Vec<Lit>,
        strengthen: bool,
        constraint: &Vec<Vec<Lit>>,
    ) -> bool {
        self.ask(frame - 1, cube, strengthen, constraint)
    }
    fn inductive(&mut self, solver: usize, cube: &Vec<Lit>, strengthen: bool) -> bool {
        self.ask(solver, cube, strengthen, &[])
    }
    fn inductive_core(&mut self, solver: usize) -> Vec<Lit> {
        if let Quirk::OldCore(l) = self.quirk.get() {
            return vec![l];
        }
        let q = self.last[solver].clone().unwrap();
        let mut core = q.cube.clone();
        let mut i = 0;
        while i < core.len() {
            let mut less = core.clone();
            less.remove(i);
            if !self.subsumes_init(&less) && self.step_into(&q, &less).is_none() {
                core = less;
            } else {
                i += 1;
            }
        }
        core
    }
    fn sat_value(&mut self, solver: usize, lit: Lit) -> Option<bool> {
        if self.quirk.get() == Quirk::AllHold {
            return Some(true);
        }
        let (s, _, t) = self.models[solver]?;
        let n = self.model.latches;
        let bit = if lit.0 / 2 < n {
            (s >> (lit.0 / 2)) & 1 == 1
        } else {
            (t >> (lit.0 / 2 - n)) & 1 == 1
        };
        Some(bit == (lit.0 % 2 == 0))
    }
    fn flip_to_none(&mut self, _solver: usize, _var: Var) -> bool {
        false
    }
    fn get_pred(&mut self, frame: usize, _strengthen: bool) -> (Vec<Lit>, Vec<Lit>) {
        let (s, i, _) = self.models[frame - 1].unwrap();
        (self.model.cube_of(s), self.inputs_of(i))
    }
    fn get_bad(&mut self, level: usize) -> Option<(Vec<Lit>, Vec<Vec<Lit>>)> {
        if self.quirk.get() == Quirk::NoBad {
            return None;
        }
        assert_eq!(level + 1, self.frames.len());
        for s in 0..self.model.states() {
            if !self.admits(level, s) {
                continue;
            }
            if !self.ahead {
                if self.model.bad[s as usize] {
                    return Some((self.model.cube_of(s), vec![self.inputs_of(0)]));
                }
            } else if !self.model.bad[s as usize] {
                for i in 0..self.model.choices() {
                    if self.model.bad[self.model.next[s as usize][i as usize] as usize] {
                        let inputs = vec![self.inputs_of(i), self.inputs_of(0)];
                        return Some((self.model.cube_of(s), inputs));
                    }
                }
            }
        }
        None
    }
    fn solve(&mut self, solver: usize, cube: &Vec<Lit>) -> bool {
        (0..self.model.states()).any(|s| self.admits(solver, s) && in_cube(s, cube))
    }
    fn solve_without_bucket(&mut self, solver: usize, cube: &Vec<Lit>) -> bool {
        assert_eq!(cube, &vec![Lit(2 * self.bad_var())]);
        for s in 0..self.model.states() {
            if self.admits(solver, s) && self.model.bad[s as usize] {
                self.models[solver] = Some((s, 0, s));
                return true;
            }
        }
        false
    }
    fn set_domain(&mut self, _solver: usize, _lits: &Vec<Lit>) {
        self.domains += 1;
    }
    fn unset_domain(&mut self, _solver: usize) {}
    fn renew_bad_solver(&mut self) {}
    fn renew_lift(&mut self) {}
    fn new_solver(&mut self, frame: usize) {
        assert_eq!(frame, self.frames.len());
    }
    fn add_domain(&mut self, _var: Var, _permanent: bool) {}
    fn install_solver(&mut self) {
        self.frames.push(Vec::new());
        self.last.push(None);
        self.models.push(None);
    }
    fn sort_hybrid(&mut self, cube: &Vec<Lit>, _frame: usize, reverse: bool) -> Vec<Lit> {
        self.mixed += 1;
        let mut r = cube.clone();
        r.sort_by_key(|l| (l.0 * 7) % 11);
        if reverse {
            r.reverse();
        }
        r
    }
    fn sort_by_activity(&mut self, cube: &Vec<Lit>, ascending: bool) -> Vec<Lit> {
        let mut r = cube.clone();
        r.sort_by_key(|l| (l.0 * 5) % 13);
        if !ascending {
            r.reverse();
        }
        r
    }
    fn bump_cube_activity(&mut self, _cube: &Vec<Lit>) {}
    fn add_lemma(
        &mut self,
        frame: usize,
        cube: &Vec<Lit>,
        contained_check: bool,
        owner: Option<usize>,
    ) -> bool {
        if frame == 0 {
            self.frames[0].push((cube.clone(), owner));
            return false;
        }
        if contained_check && self.trivial_contained(frame, cube).is_some() {
            return false;
        }
        for f in self.frames.iter_mut().take(frame + 1).skip(1) {
            f.retain(|(c, _)| !cube.iter().all(|l| c.contains(l)));
        }
        self.frames[frame].push((cube.clone(), owner));
        self.early = self.early.min(1);
        (1..frame).any(|i| self.frames[i].is_empty())
    }
    fn trivial_contained(&mut self, frame: usize, cube: &Vec<Lit>) -> Option<usize> {
        if self.quirk.get() == Quirk::FarFrame {
            return Some(usize::MAX);
        }
        (frame.max(1)..self.frames.len())
            .find(|i| self.frames[*i].iter().any(|(c, _)| c.iter().all(|l| cube.contains(l))))
    }
    fn sort_frame(&mut self, frame: usize) {
        self.frames[frame].sort_by_key(|(c, _)| c.len());
    }
    fn frame_lemmas(&mut self, frame: usize) -> Vec<FrameLemma> {
        self.frames[frame].iter().map(|(c, po)| FrameLemma { cube: c.clone(), po: *po }).collect()
    }
    fn frame_has(&mut self, frame: usize, cube: &Vec<Lit>) -> bool {
        self.frames[frame].iter().any(|(c, _)| c == cube)
    }
    fn frame_is_empty(&mut self, frame: usize) -> bool {
        self.frames[frame].is_empty()
    }
    fn early(&mut self) -> usize {
        self.early
    }
    fn set_early(&mut self, frame: usize) {
        self.early = frame;
    }
    fn forget_obligations(&mut self) {
        for f in self.frames.iter_mut() {
            for l in f.iter_mut() {
                l.1 = None;
            }
        }
    }
    fn invariant_cubes(&mut self) -> Vec<Vec<Lit>> {
        let k = (1..self.frames.len()).find(|i| self.frames[*i].is_empty()).unwrap();
        let mut r = Vec::new();
        for f in self.frames.iter().skip(k) {
            for (c, _) in f.iter() {
                r.push(c.clone());
            }
        }
        r
    }
    fn add_obligation(&mut self, id: usize, po: &Obligation) {
        while self.frame_of.len() <= id {
            self.frame_of.push(0);
            self.act.push(0);
        }
        self.frame_of[id] = po.frame;
        self.queue.retain(|(_, i)| *i != id);
        self.queue.push((po.frame, id));
        self.ends.push(Some(po.frame));
    }
    fn requeue_obligation(&mut self, id: usize, po: &Obligation) {
        self.add_obligation(id, po);
    }
    fn pop_obligation(&mut self, level: usize) -> Option<usize> {
        if self.quirk.get() == Quirk::WildPop {
            return Some(99);
        }
        let k = (0..self.queue.len()).min_by_key(|k| self.queue[*k])?;
        if self.queue[k].0 > level {
            return None;
        }
        Some(self.queue.remove(k).1)
    }
    fn peak_obligation(&mut self) -> Option<usize> {
        if self.quirk.get() == Quirk::NoPeak {
            return None;
        }
        self.queue.iter().min().map(|p| p.1)
    }
    fn remove_obligation(&mut self, id: usize) -> bool {
        let n = self.queue.len();
        self.queue.retain(|(_, i)| *i != id);
        self.queue.len() < n
    }
    fn clear_obligations(&mut self) {
        self.queue.clear();
    }
    fn is_removed(&mut self, _id: usize) -> bool {
        false
    }
    fn push_to(&mut self, id: usize, from: usize, to: usize) {
        assert_eq!(self.frame_of[id], from);
        assert!(from <= to);
        self.frame_of[id] = to;
    }
    fn bump_act(&mut self, id: usize) {
        self.act[id] += 9;
    }
    fn peak_act(&mut self, window: &Vec<usize>) -> u64 {
        window.iter().map(|i| self.act[*i]).max().unwrap()
    }
    fn exctg_limit(&mut self, _window: &Vec<usize>, _profile: Profile) -> usize {
        self.limit
    }
    fn observe_context(&mut self, id: usize, po: &Obligation, level: usize) {
        assert_eq!(self.frame_of[id], po.frame);
        assert_eq!(level + 1, self.frames.len());
    }
    fn arm_score(&mut self, arm: usize) -> i64 {
        self.scores[arm]
    }
    fn update_linucb(&mut self, arm: usize, terms: RewardTerms) {
        self.scores[arm] -= 1;
        self.rewards.push((arm, terms));
    }
    fn check_witness_by_bmc(&mut self, _id: usize) -> Option<Vec<Lit>> {
        if self.quirk.get() == Quirk::OldConstraint {
            return Some(vec![Lit(0), Lit(0)]);
        }
        self.found_constraints.borrow_mut().take()
    }
    fn bmc_unrolled(&mut self) -> Option<usize> {
        self.unrolled.get()
    }
    fn bmc_value(&mut self, lit: Lit) -> Option<bool> {
        if lit.0 % 3 == 0 {
            None
        } else {
            Some(lit.0 % 3 == 1)
        }
    }
    fn new_and(&mut self, lits: &Vec<Lit>) -> Lit {
        let l = Lit(self.first_gate() + 2 * self.gates.len() as u32);
        self.gates.push((Gate::And, lits.clone()));
        l
    }
    fn new_or(&mut self, lits: &Vec<Lit>) -> Lit {
        let l = Lit(self.first_gate() + 2 * self.gates.len() as u32);
        self.gates.push((Gate::Or, lits.clone()));
        l
    }
    fn verify(&mut self) {
        self.verified += 1;
        self.ends.push(None);
    }
    fn tally(&mut self, tally: Tally) {
        self.tallies.push(tally);
    }
}

fn plain() -> IC3Options {
    IC3Options {
        ctg: false,
        ctg_limit: 1,
        ctg_max: 3,
        multi_clauses: 1,
        dynamic: false,
        enable_ctx_mab: false,
        hybrid_sort: false,
        topo_sort: false,
        reverse_sort: false,
        inn: false,
        abs_cst: false,
        ctp: false,
        no_pred_prop: false,
    }
}

fn engine(model: &Model, ic3: IC3Options) -> IC3<Explicit> {
    let options = Options { ic3, rseed: 5 };
    let ahead = !ic3.no_pred_prop && !ic3.inn;
    let latchs: Vec<Var> = (0..model.latches).map(Var).collect();
    let base = 2 * model.latches;
    let inputs: Vec<Var> = (0..model.inputs).map(|i| Var(base + i)).collect();
    let reasoner = Explicit::new(model.clone(), ahead);
    IC3::new(options, reasoner, latchs, inputs, Vec::new(), Vec::new())
}

/// A counter over three latches that goes up by one or stays, and wraps at `wrap`.
fn counter(wrap: u32, bad: u32) -> Model {
    let next = (0..8).map(|s| vec![s, if s + 1 >= wrap { 0 } else { s + 1 }]).collect();
    Model {
        latches: 3,
        inputs: 1,
        init: vec![Some(false), Some(false), Some(false)],
        next,
        bad: (0..8).map(|s| s == bad).collect(),
    }
}

struct Random(u64);

impl Random {
    fn below(&mut self, n: u32) -> u32 {
        self.0 = self.0.wrapping_mul(6364136223846793005).wrapping_add(1442695040888963407);
        ((self.0 >> 33) % n as u64) as u32
    }
}

fn random_model(r: &mut Random) -> Model {
    let latches = 3 + r.below(2);
    let n = 1 << latches;
    let spread = 1 + r.below(n);
    let next = (0..n)
        .map(|_| (0..2).map(|_| (r.below(spread) * (1 + r.below(2))) % n).collect())
        .collect();
    let init = (0..latches).map(|_| if r.below(8) == 0 { None } else { Some(false) }).collect();
    let worst = r.below(n);
    Model { latches, inputs: 1, init, next, bad: (0..n).map(|s| s == worst).collect() }
}

/// Whether the inputs of a counterexample lead from one of its initial states to a bad state.
fn replay(model: &Model, w: &Witness) -> bool {
    let base = 2 * model.latches;
    let mut s = (0..model.states())
        .find(|s| model.initial(*s) && in_cube(*s, &w.init))
        .expect("an initial state");
    for (k, step) in w.wit.iter().enumerate() {
        if k + 1 == w.wit.len() {
            break;
        }
        let mut i = 0;
        for l in step {
            if l.0 % 2 == 0 {
                i |= 1 << (l.0 / 2 - base);
            }
        }
        s = model.next[s as usize][i as usize];
    }
    model.bad[s as usize]
}

/// Runs the search, and holds verdict, counterexample and certificate against the model.
fn examine(model: &Model, ic3: IC3Options) -> bool {
    let mut e = engine(model, ic3);
    let verdict = e.check(100_000).expect("no fault").expect("a verdict");
    assert_eq!(verdict, !model.reachable_bad());
    if verdict {
        assert_eq!(e.session.reasoner().verified, 1);
        assert_eq!(e.session.reasoner().ends.last(), Some(&None));
        let bad = Lit(2 * model.latches);
        let r = e.certify(&Vec::new(), bad);
        let x = e.session.reasoner();
        for s in 0..model.states() {
            let ok = !x.value(r, s);
            if model.initial(s) {
                assert!(ok);
            }
            if ok {
                assert!(!model.bad[s as usize]);
                for i in 0..model.choices() {
                    assert!(!x.value(r, model.next[s as usize][i as usize]));
                }
            }
        }
    } else {
        assert_eq!(e.session.reasoner().verified, 0);
        assert_eq!(e.session.reasoner().ends.last(), Some(&Some(0)));
        let w = e.witness().expect("a counterexample");
        assert!(replay(model, &w));
    }
    verdict
}

#[test]
fn counter_that_reaches_is_refuted() {
    assert!(!examine(&counter(8, 5), plain()));
}

#[test]
fn counter_that_wraps_is_proved() {
    assert!(examine(&counter(5, 6), plain()));
}

#[test]
fn bad_initial_state_is_found_at_once() {
    let m = counter(5, 0);
    let mut e = engine(&m, plain());
    assert_eq!(e.check(0), Ok(Some(false)));
    let w = e.witness().expect("a counterexample");
    assert_eq!(w.wit.len(), 1);
    assert!(in_cube(0, &w.init));
}

#[test]
fn bad_initial_state_is_found_without_looking_ahead() {
    let m = counter(5, 0);
    assert!(!examine(&m, IC3Options { no_pred_prop: true, ..plain() }));
}

#[test]
fn verdicts_match_on_random_systems() {
    let mut r = Random(1);
    let mut proved = 0;
    let mut refuted = 0;
    for _ in 0..60 {
        if examine(&random_model(&mut r), plain()) {
            proved += 1;
        } else {
            refuted += 1;
        }
    }
    assert!(proved > 5 && refuted > 5);
}

#[test]
fn verdicts_match_without_looking_ahead() {
    let mut r = Random(2);
    for _ in 0..40 {
        examine(&random_model(&mut r), IC3Options { no_pred_prop: true, ..plain() });
    }
}

#[test]
fn verdicts_match_with_nested_attempts() {
    let mut r = Random(3);
    for _ in 0..40 {
        examine(
            &random_model(&mut r),
            IC3Options { ctg: true, ctg_limit: 3, topo_sort: true, ..plain() },
        );
    }
}

#[test]
fn verdicts_match_with_several_clauses() {
    let mut r = Random(4);
    for k in 0..40 {
        let ic3 = IC3Options {
            multi_clauses: 2 + k % 7,
            hybrid_sort: k % 2 == 0,
            reverse_sort: k % 3 == 0,
            ..plain()
        };
        examine(&random_model(&mut r), ic3);
    }
}

#[test]
fn verdicts_match_with_effort_by_activity() {
    let mut r = Random(5);
    for _ in 0..40 {
        examine(&random_model(&mut r), IC3Options { dynamic: true, reverse_sort: true, ..plain() });
    }
}

#[test]
fn verdicts_match_with_arms() {
    let mut r = Random(6);
    for _ in 0..40 {
        examine(&random_model(&mut r), IC3Options { enable_ctx_mab: true, ..plain() });
    }
}

#[test]
fn verdicts_match_with_excluded_counterexamples_to_propagation() {
    let mut r = Random(7);
    for _ in 0..40 {
        examine(&random_model(&mut r), IC3Options { ctp: true, hybrid_sort: true, ..plain() });
    }
}

#[test]
fn verdicts_match_with_internal_signals() {
    let mut r = Random(8);
    for _ in 0..40 {
        examine(&random_model(&mut r), IC3Options { inn: true, ..plain() });
    }
}

#[test]
fn arms_are_counted_and_rewarded() {
    let ic3 = IC3Options { enable_ctx_mab: true, no_pred_prop: true, ..plain() };
    let mut e = engine(&counter(5, 6), ic3);
    assert_eq!(e.check(1000), Ok(Some(true)));
    let pulls: usize = e.state.arm_pulls.iter().sum();
    assert!(pulls > 0);
    assert_eq!(pulls, e.session.reasoner().rewards.len());
    assert_eq!(e.session.reasoner().rewards[0].0, 0);
    let terms = e.session.reasoner().rewards[0].1;
    assert!(terms.shortened <= terms.length);
    assert_eq!(terms.pushed, terms.reached > terms.frame);
    assert_eq!(terms.frontier, terms.reached >= terms.level);
    assert_eq!(terms.unit, terms.shortened == 1);
    assert!(terms.grade != Grade::Overdone || terms.reached >= terms.frame);
}

#[test]
fn rounds_run_out_without_a_verdict() {
    let mut e = engine(&counter(8, 5), plain());
    assert_eq!(e.check(2), Ok(None));
    assert!(e.level() < 5);
}

#[test]
fn new_engine_maps_inputs() {
    let m = counter(5, 6);
    let mut e = engine(&m, plain());
    assert_eq!(e.session.reasoner().var_steps, vec![(6, 1)]);
    assert_eq!(e.input_of(Var(1006)), Some(Var(6)));
    assert_eq!(e.input_of(Var(6)), None);
    assert_eq!(e.state.arm_pulls, vec![0; 7]);
    assert!(!e.state.options.ic3.no_pred_prop);
    e.extend();
    assert_eq!(e.level(), 0);
    assert_eq!(e.session.reasoner().frames[0].len(), 3);
    assert_eq!(e.session.reasoner().frames[0][0].0, vec![Lit(0)]);
}

#[test]
fn internal_signals_switch_off_looking_ahead() {
    let e = engine(&counter(5, 6), IC3Options { inn: true, ..plain() });
    assert!(e.state.options.ic3.no_pred_prop);
}

#[test]
fn constraints_start_out_of_force_where_asked() {
    let m = counter(5, 6);
    for abs_cst in [false, true] {
        let options = Options { ic3: IC3Options { abs_cst, ..plain() }, rseed: 0 };
        let e = IC3::new(
            options,
            Explicit::new(m.clone(), true),
            Vec::new(),
            Vec::new(),
            vec![Lit(4)],
            Vec::new(),
        );
        assert_eq!(e.state.abs_cst, if abs_cst { Vec::new() } else { vec![Lit(4)] });
    }
}

#[test]
fn known_clauses_enter_the_second_frame() {
    let m = counter(5, 6);
    let options = Options { ic3: plain(), rseed: 0 };
    let mut e = IC3::new(
        options,
        Explicit::new(m, true),
        vec![Var(0), Var(1), Var(2)],
        Vec::new(),
        Vec::new(),
        vec![vec![Lit(3), Lit(5)]],
    );
    e.extend();
    e.extend();
    assert_eq!(e.level(), 1);
    assert_eq!(e.session.reasoner().frames[1], vec![(vec![Lit(2), Lit(4)], None)]);
    assert_eq!(e.check(0), Ok(None));
}

#[test]
fn latches_are_settled_by_the_first_solver() {
    let mut m = counter(5, 6);
    m.init[1] = None;
    let mut e = engine(&m, plain());
    e.session.reasoner().quirk.set(Quirk::AllHold);
    e.extend();
    assert_eq!(e.session.reasoner().added_init, vec![(Var(1), true)]);
}

#[test]
fn constraints_come_into_force() {
    let m = counter(8, 5);
    let mut e = engine(&m, IC3Options { abs_cst: true, ..plain() });
    e.session.reasoner().found_constraints.replace(Some(vec![Lit(0), Lit(3)]));
    assert_eq!(e.check(1000), Ok(Some(false)));
    assert_eq!(e.state.abs_cst, vec![Lit(0), Lit(3)]);
}

#[test]
fn known_constraint_is_a_fault() {
    let mut e = engine(&counter(8, 5), IC3Options { abs_cst: true, ..plain() });
    e.session.reasoner().quirk.set(Quirk::OldConstraint);
    assert_eq!(e.check(1000), Err(Fault::KnownConstraint));
}

#[test]
fn unknown_obligation_is_a_fault() {
    let mut e = engine(&counter(8, 5), plain());
    e.session.reasoner().quirk.set(Quirk::WildPop);
    assert_eq!(e.check(1000), Err(Fault::UnknownObligation));
}

#[test]
fn frame_beyond_all_numbers_is_a_fault() {
    let mut e = engine(&counter(8, 5), plain());
    e.session.reasoner().quirk.set(Quirk::FarFrame);
    assert_eq!(e.check(1000), Err(Fault::FrameOutOfRange));
}

#[test]
fn late_initial_state_is_a_fault() {
    let mut e = engine(&counter(8, 5), plain());
    assert!(e.base());
    e.extend();
    e.session.reasoner().quirk.set(Quirk::AlwaysInitial);
    assert_eq!(e.search(1000), Err(Fault::LateInitialState));
}

#[test]
fn initial_state_in_a_later_obligation_is_a_fault() {
    let m = counter(8, 0);
    let mut e = engine(&m, IC3Options { inn: true, ..plain() });
    assert!(e.base());
    e.extend();
    assert_eq!(e.search(1000), Err(Fault::InitialState));
}

#[test]
fn too_many_frames_is_a_fault() {
    let mut e = engine(&counter(5, 6), plain());
    assert!(e.base());
    e.state.solvers = usize::MAX - 2;
    e.session.reasoner().quirk.set(Quirk::NoBad);
    assert_eq!(e.search(1000), Err(Fault::TooManyFrames));
}

#[test]
fn missing_obligation_is_a_fault() {
    let mut e = engine(&counter(8, 5), plain());
    assert_eq!(e.check(1000), Ok(Some(false)));
    e.session.reasoner().quirk.set(Quirk::NoPeak);
    assert!(matches!(e.witness(), Err(Fault::NoObligation)));
}

#[test]
fn model_that_loses_nothing_is_a_fault() {
    let m = counter(8, 5);
    let mut e = engine(&m, plain());
    e.extend();
    e.extend();
    e.session.reasoner().quirk.set(Quirk::AllHold);
    let r = e.mic_by_drop_var(
        1,
        vec![Lit(0), Lit(3), Lit(5)],
        &Vec::new(),
        DropVarParameter::new(0, 0, 0),
        true,
    );
    assert_eq!(r, Err(Fault::NoProgress));
}

#[test]
fn core_with_a_dropped_literal_is_a_fault() {
    let m = counter(4, 5);
    let mut e = engine(&m, IC3Options { topo_sort: true, ..plain() });
    e.extend();
    e.extend();
    e.session.reasoner().quirk.set(Quirk::OldCore(Lit(0)));
    let r = e.mic_by_drop_var(
        1,
        vec![Lit(0), Lit(2), Lit(4)],
        &Vec::new(),
        DropVarParameter::new(0, 0, 0),
        false,
    );
    assert_eq!(r, Err(Fault::StrangeCore));
}

#[test]
fn generalized_cube_is_part_of_the_cube() {
    let m = counter(4, 5);
    for topo_sort in [false, true] {
        let mut e = engine(&m, IC3Options { topo_sort, ..plain() });
        e.extend();
        e.extend();
        let cube = vec![Lit(0), Lit(3), Lit(4)];
        let r = e.mic(1, cube.clone(), &Vec::new(), MicType::DropVar(DropVarParameter::new(0, 0, 0)));
        assert_eq!(r, Ok(vec![Lit(4)]));
        assert_eq!(e.session.reasoner().domains, 1);
        let r = e.mic(1, cube.clone(), &Vec::new(), MicType::NoMic);
        assert_eq!(r, Ok(cube));
    }
}

#[test]
fn several_clauses_differ() {
    let m = counter(3, 5);
    let mut e = engine(&m, plain());
    e.extend();
    e.extend();
    let cube = vec![Lit(0), Lit(2), Lit(4)];
    let p = DropVarParameter::new(0, 0, 0);
    let all = e.mic_multi(1, cube.clone(), &Vec::new(), MicType::MultiClauses(p, 3)).unwrap();
    assert!(!all.is_empty() && all.len() <= 3);
    for (i, c) in all.iter().enumerate() {
        assert!(c.iter().all(|l| cube.contains(l)));
        assert!(!all[..i].contains(c));
    }
    let first = e.mic(1, cube.clone(), &Vec::new(), MicType::MultiClauses(p, 3)).unwrap();
    assert_eq!(first, all[0]);
    let whole = e.mic_multi(1, cube.clone(), &Vec::new(), MicType::NoMic).unwrap();
    assert_eq!(whole, vec![cube.clone()]);
    let by = e.mic_by_multi_clauses(1, &cube, &Vec::new(), p, 1).unwrap();
    assert_eq!(by.len(), 1);
    let none = e.mic_by_multi_clauses(1, &cube, &Vec::new(), p, 0).unwrap();
    assert!(none.is_empty());
}

#[test]
fn shuffled_variants_give_parts_too() {
    let m = counter(3, 5);
    let mut e = engine(&m, IC3Options { hybrid_sort: true, ..plain() });
    e.extend();
    e.extend();
    let cube = vec![Lit(0), Lit(2), Lit(4)];
    let p = DropVarParameter::new(0, 0, 0);
    let all = e.mic_by_multi_clauses(1, &cube, &Vec::new(), p, 8).unwrap();
    assert!(!all.is_empty());
    for c in all.iter() {
        assert!(c.iter().all(|l| cube.contains(l)));
    }
    let tried = e
        .session
        .reasoner()
        .tallies
        .iter()
        .filter(|t| **t == Tally::TotalMultiClause)
        .count();
    assert_eq!(tried, 8);
}

#[test]
fn one_obligation_at_a_time() {
    let mut e = engine(&counter(8, 5), plain());
    assert!(e.base());
    assert_eq!(e.block_one(), Ok(Turn::Drained));
    assert_eq!(e.block(0), (Ok(Turn::More), 0));
    assert_eq!(e.block(5), (Ok(Turn::Drained), 4));
}

#[test]
fn counterexample_of_the_bounded_search() {
    let m = counter(8, 5);
    let mut e = engine(&m, plain());
    e.session.reasoner().unrolled.set(Some(1));
    let w = e.witness().unwrap();
    assert_eq!(w.init, vec![Lit(3), Lit(4)]);
    assert_eq!(w.wit, vec![vec![], vec![Lit(12)]]);
}

#[test]
fn certificate_is_violated_where_it_should_be() {
    let m = counter(5, 6);
    let mut e = engine(&m, plain());
    assert_eq!(e.check(1000), Ok(Some(true)));
    let cubes = e.session.invariant_cubes();
    let constraints = vec![Lit(1)];
    let r = e.certify(&constraints, Lit(6));
    let x = e.session.reasoner();
    for s in 0..8 {
        let expected = cubes.iter().any(|c| in_cube(s, c)) || s % 2 == 1 || s == 6;
        assert_eq!(x.value(r, s), expected);
    }
}

/// The least number of steps in which each state is reached, where it is.
fn distances(model: &Model) -> Vec<Option<usize>> {
    let mut r = vec![None; model.states() as usize];
    let mut now: Vec<u32> = (0..model.states()).filter(|s| model.initial(*s)).collect();
    let mut k = 0;
    while !now.is_empty() {
        let mut later = Vec::new();
        for s in now {
            if r[s as usize].is_none() {
                r[s as usize] = Some(k);
                later.extend(model.next[s as usize].iter().copied());
            }
        }
        now = later;
        k += 1;
    }
    r
}

#[test]
fn frames_hold_what_is_reached() {
    let mut r = Random(9);
    for _ in 0..30 {
        let m = random_model(&mut r);
        let ic3 = IC3Options { no_pred_prop: true, ctg: true, multi_clauses: 3, ..plain() };
        for rounds in [1, 5, 20, 1000] {
            let mut e = engine(&m, ic3);
            assert!(e.check(rounds).is_ok());
            for (s, d) in distances(&m).iter().enumerate() {
                if let Some(k) = d {
                    assert!(e.session.reasoner().admits(*k, s as u32));
                }
            }
        }
    }
}

#[test]
fn search_without_a_verdict_rules_out_short_counterexamples() {
    for rounds in 1..60 {
        let m = counter(8, 6);
        for no_pred_prop in [false, true] {
            let mut e = engine(&m, IC3Options { no_pred_prop, ..plain() });
            if e.check(rounds) == Ok(None) {
                let safe = if no_pred_prop { e.level() } else { e.level() + 1 };
                assert!(safe <= 6);
            }
        }
    }
}

#[test]
fn counterexample_follows_the_obligations() {
    let m = counter(8, 5);
    let mut e = engine(&m, IC3Options { no_pred_prop: true, ..plain() });
    assert_eq!(e.check(1000), Ok(Some(false)));
    let id = e.session.peak_obligation().unwrap();
    assert_eq!(e.state.obligations[id].frame, 0);
    assert_eq!(e.state.obligations[id].depth, 5);
    let w = e.witness().unwrap();
    assert_eq!(w.wit.len(), 6);
    assert_eq!(w.init, e.state.obligations[id].lemma);
    assert!(replay(&m, &w));
}

#[test]
fn mixed_order_is_for_its_own_variant() {
    let m = counter(3, 5);
    let cube = vec![Lit(0), Lit(2), Lit(4)];
    let p = DropVarParameter::new(0, 0, 0);
    for (num_clauses, mixed) in [(1, 0), (2, 0), (3, 0), (4, 0), (5, 2), (8, 2)] {
        for (topo_sort, reverse_sort) in [(false, false), (true, false), (true, true)] {
            let ic3 = IC3Options { hybrid_sort: true, topo_sort, reverse_sort, ..plain() };
            let mut e = engine(&m, ic3);
            e.extend();
            e.extend();
            let all = e.mic_by_multi_clauses(1, &cube, &Vec::new(), p, num_clauses).unwrap();
            assert!(!all.is_empty());
            assert_eq!(e.session.reasoner().mixed, mixed);
        }
    }
    let mut e = engine(&m, IC3Options { hybrid_sort: true, ..plain() });
    e.extend();
    e.extend();
    e.mic(1, cube, &Vec::new(), MicType::DropVar(p)).unwrap();
    assert_eq!(e.session.reasoner().mixed, 1);
}

#[test]
fn one_result_is_the_first_of_all() {
    let m = counter(3, 5);
    let cube = vec![Lit(0), Lit(2), Lit(4)];
    let p = DropVarParameter::new(0, 0, 0);
    for t in [
        MicType::NoMic,
        MicType::DropVar(p),
        MicType::MultiClauses(p, 0),
        MicType::MultiClauses(p, 1),
        MicType::MultiClauses(p, 4),
        MicType::MultiClauses(p, 7),
    ] {
        let mut a = engine(&m, plain());
        let mut b = engine(&m, plain());
        for e in [&mut a, &mut b] {
            e.extend();
            e.extend();
        }
        let one = a.mic(1, cube.clone(), &Vec::new(), t).unwrap();
        let all = b.mic_multi(1, cube.clone(), &Vec::new(), t).unwrap();
        assert_eq!(&one, all.first().unwrap_or(&cube));
        if let MicType::MultiClauses(_, n) = t {
            assert!(all.len() <= n);
            assert_eq!(all.is_empty(), n == 0);
        } else {
            assert_eq!(all.len(), 1);
        }
    }
}

#[test]
fn nothing_to_generalize_needs_no_frame() {
    let mut e = engine(&counter(3, 5), plain());
    let cube = vec![Lit(0), Lit(2)];
    assert_eq!(e.mic(0, cube.clone(), &Vec::new(), MicType::NoMic), Ok(cube.clone()));
    assert_eq!(e.mic_multi(9, cube.clone(), &Vec::new(), MicType::NoMic), Ok(vec![cube]));
}

#[test]
fn cubes_beyond_the_last_frame_are_pushed_no_further() {
    let mut e = engine(&counter(3, 5), plain());
    e.extend();
    let cube = vec![Lit(0), Lit(2)];
    assert_eq!(e.session.push_lemma(0, 5, cube.clone()), (1, cube));
}

#[test]
fn shrinking_without_nesting_needs_no_level() {
    let mut e = engine(&counter(3, 5), plain());
    e.extend();
    e.extend();
    let order = Order { hybrid: false, topo: false, reverse: false };
    let setting = Setting { order, level: 1 };
    let cube = vec![Lit(4)];
    let keep = lit_set(&Vec::new());
    let p = DropVarParameter::new(0, 0, 0);
    let before = e.session.reasoner().frames.clone();
    let r = e.session.ctg_down(setting, 1, &cube, &keep, &cube, p);
    assert_eq!(r, Ok(Some(vec![Lit(4)])));
    assert_eq!(e.session.reasoner().frames, before);
}

#[test]
fn cubes_are_pushed_until_a_frame_lets_them_in() {
    let mut e = engine(&counter(3, 5), plain());
    for _ in 0..3 {
        e.extend();
    }
    assert_eq!(e.session.push_lemma(2, 1, vec![Lit(4)]), (3, vec![Lit(4)]));
    assert_eq!(e.session.push_lemma(2, 1, vec![Lit(0)]), (2, vec![Lit(0)]));
    assert_eq!(e.session.push_lemma(2, 2, vec![Lit(0)]), (3, vec![Lit(0)]));
}

#[test]
fn requests_reach_the_reasoner_as_they_are() {
    let mut e = engine(&counter(3, 5), plain());
    e.extend();
    e.session.tally(Tally::MicCubeLen(7));
    assert_eq!(e.session.reasoner().tallies.last(), Some(&Tally::MicCubeLen(7)));
    e.session.add_init(Var(2), true);
    assert_eq!(e.session.reasoner().added_init.last(), Some(&(Var(2), true)));
    assert_eq!(e.session.sort_hybrid(&vec![Lit(0), Lit(2)], 0, false), vec![Lit(0), Lit(2)]);
    assert_eq!(e.session.sort_hybrid(&vec![Lit(0), Lit(2)], 0, true), vec![Lit(2), Lit(0)]);
    assert_eq!(e.session.reasoner().mixed, 2);
}

#[test]
fn choosing_by_activity_is_the_first_arm() {
    let m = counter(8, 5);
    let mut a = engine(&m, IC3Options { dynamic: true, no_pred_prop: true, ..plain() });
    let ic3 = IC3Options { enable_ctx_mab: true, no_pred_prop: true, ..plain() };
    let mut reasoner = Explicit::new(m.clone(), false);
    reasoner.scores[0] = 1000;
    let latchs = (0..3).map(Var).collect();
    let options = Options { ic3, rseed: 5 };
    let mut b = IC3::new(options, reasoner, latchs, vec![Var(6)], Vec::new(), Vec::new());
    assert_eq!(a.check(1000), Ok(Some(false)));
    assert_eq!(b.check(1000), Ok(Some(false)));
    assert_eq!(a.state.obligations.len(), b.state.obligations.len());
    for id in 0..a.state.obligations.len() {
        assert_eq!(a.strategy(id).1, b.strategy(id).1);
    }
    assert!(b.state.arm_pulls[1..].iter().all(|n| *n == 0));
}

#[test]
fn a_reasoner_without_knowledge_settles_nothing() {
    let options = Options { ic3: plain(), rseed: 1 };
    let mut e =
        IC3::new(options, Blank::new(), vec![Var(0)], vec![Var(1)], Vec::new(), Vec::new());
    assert_eq!(e.check(10), Ok(None));
    assert_eq!(e.level(), 10);
}

#[test]
fn verdicts_match_with_nested_attempts_in_several_orders() {
    let mut r = Random(31);
    for _ in 0..40 {
        let m = random_model(&mut r);
        for multi_clauses in [2, 4, 6] {
            let mut e = engine(&m, IC3Options { ctg: true, multi_clauses, ..plain() });
            assert_eq!(e.check(100_000), Ok(Some(!m.reachable_bad())));
        }
    }
}

#[test]
fn an_empty_cube_needs_no_frame() {
    let p = DropVarParameter::new(1, 3, 1);
    let mut e = engine(&counter(3, 5), plain());
    let none: Vec<Vec<Lit>> = Vec::new();
    assert_eq!(e.mic_by_multi_clauses(1, &Vec::new(), &none, p, 2), Ok(vec![Vec::new()]));
    let count = |e: &IC3<Explicit>, t: Tally| {
        e.session.reasoner().tallies.iter().filter(|x| **x == t).count()
    };
    assert_eq!(count(&e, Tally::UniqueMultiClause), 1);
    assert_eq!(count(&e, Tally::TotalMultiClause), 4);
    assert_eq!(e.mic(3, Vec::new(), &none, MicType::DropVar(p)), Ok(Vec::new()));
    let cube = vec![Lit(0)];
    assert_eq!(e.mic(1, cube.clone(), &none, MicType::MultiClauses(p, 0)), Ok(cube));
}

#[test]
fn steps_against_a_cube_are_remembered() {
    let mut e = engine(&counter(8, 5), plain());
    e.extend();
    e.extend();
    let cube = vec![Lit(0)];
    let keep = lit_set(&Vec::new());
    let none: Vec<Vec<Lit>> = Vec::new();
    let full = vec![Lit(0), Lit(2), Lit(4)];
    let mut seen: Vec<Step> = Vec::new();
    let queries = |e: &IC3<Explicit>| {
        e.session.reasoner().tallies.iter().filter(|x| **x == Tally::DownSat).count()
    };
    let r = e.session.down(1, &cube, &keep, &full, &none, &mut seen);
    assert_eq!(r, Ok(None));
    assert_eq!(seen.len(), queries(&e));
    assert_eq!(seen.len(), 1);
    let before = queries(&e);
    seen.push(Step { before: vec![Lit(1)], after: vec![Lit(0)] });
    let r = e.session.down(1, &cube, &keep, &full, &none, &mut seen);
    assert_eq!(r, Ok(None));
    assert_eq!(queries(&e), before);
    assert_eq!(seen.len(), 2);
}
