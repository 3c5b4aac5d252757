use vstd::arithmetic::power::{lemma_pow_increases, lemma_pow_positive, pow};
use vstd::prelude::*;

use crate::assignment::{model_of, num_assigned, value_of, Assignment};
use crate::cnf::{
    clause_holds, clause_seqs, clauses_in_range, entails, is_model, lemma_clause_holds_contains, lemma_resolution_sound, lit_holds,
    lit_in_range, satisfiable, CnfFormula,
};
use crate::lit::{negated, Lit};

verus! {

/// Under the partial valuation `a`, the literal `l` is false (its variable is
/// assigned the other value).
pub open spec fn lit_false(a: Seq<Option<bool>>, l: Lit) -> bool {
    value_of(a, l) == Some(!l.positive)
}

/// Under `a`, the literal `l` is true.
pub open spec fn lit_true(a: Seq<Option<bool>>, l: Lit) -> bool {
    value_of(a, l) == Some(l.positive)
}

/// Under `a`, every literal of `c` is false.
pub open spec fn clause_false(a: Seq<Option<bool>>, c: Seq<Lit>) -> bool {
    forall|i: int| 0 <= i < c.len() ==> #[trigger] lit_false(a, c[i])
}

/// Under `a`, the clause `c` is unit: one of its literals is unassigned,
/// and every literal other than that one (wherever it occurs) is false.
pub open spec fn is_unit(a: Seq<Option<bool>>, c: Seq<Lit>) -> bool {
    exists|l: Lit|
        #[trigger] c.contains(l) && value_of(a, l) is None && forall|i: int|
            0 <= i < c.len() ==> c[i] == l || lit_false(a, c[i])
}

/// Under `a`, the clause `c` has no true literal and some unassigned one: a
/// clause that branching may pick from.
pub open spec fn open_clause(a: Seq<Option<bool>>, c: Seq<Lit>) -> bool {
    &&& forall|i: int| 0 <= i < c.len() ==> !#[trigger] lit_true(a, c[i])
    &&& exists|i: int| 0 <= i < c.len() && value_of(a, #[trigger] c[i]) is None
}

/// `l` is the first unassigned literal of `c` under `a`.
pub open spec fn first_unassigned(a: Seq<Option<bool>>, c: Seq<Lit>, l: Lit) -> bool {
    exists|i: int|
        0 <= i < c.len() && #[trigger] c[i] == l && value_of(a, l) is None && forall|k: int|
            0 <= k < i ==> value_of(a, #[trigger] c[k]) is Some
}

/// The weight of a trail over `n` variables: an entry at decision level `l`
/// weighs `(n + 1)^(n - l)`, so one entry outweighs all entries at higher
/// levels together.
pub open spec fn weight(t: Seq<(Lit, usize)>, n: nat) -> int
    decreases t.len(),
{
    if t.len() == 0 {
        0
    } else {
        weight(t.drop_last(), n) + pow(n + 1int, (n - t.last().1) as nat)
    }
}

/// The literal that variable index `v` (variable `v + 1`) makes true under `a`.
pub open spec fn assigned_lit(a: Seq<Option<bool>>, v: int) -> Lit {
    Lit { var: (v + 1) as u64, positive: a[v]->0 }
}

/// The answer of a completed search.
pub enum SolveResult {
    /// A valuation of every variable under which every clause holds.
    Sat(Assignment),
    /// No valuation satisfies the clauses.
    Unsat,
}

/// A CDCL solver for one formula.
pub struct Solver {
    formula: CnfFormula,
}

impl Solver {
    /// The number of variables of the formula to solve.
    pub closed spec fn spec_num_vars(&self) -> nat {
        self.formula.spec_num_vars()
    }

    /// The clauses of the formula to solve.
    pub closed spec fn spec_clauses(&self) -> Seq<Seq<Lit>> {
        self.formula.spec_clauses()
    }

    /// A solver for `formula`.
    pub fn create(formula: CnfFormula) -> (r: Solver)
        ensures
            r.spec_num_vars() == formula.spec_num_vars(),
            r.spec_clauses() == formula.spec_clauses(),
    {
        Solver { formula }
    }

    /// Decides the formula: `Sat` with a valuation of every variable that
    /// satisfies every clause, or `Unsat` when no valuation does. The search
    /// always ends: every step adds to a bounded weight of the trail.
    pub fn solve(self) -> (r: SolveResult)
        ensures
            r matches SolveResult::Sat(a) ==> {
                &&& a.wf()
                &&& a@.len() == self.spec_num_vars()
                &&& forall|v: int| 0 <= v < a@.len() ==> #[trigger] a@[v] is Some
                &&& is_model(self.spec_num_vars(), model_of(a@), self.spec_clauses())
            },
            r is Unsat ==> !satisfiable(self.spec_num_vars(), self.spec_clauses()),
    {
        let ghost n = self.spec_num_vars();
        let ghost input = self.spec_clauses();
        let (num_vars, clauses) = self.formula.into_parts();
        let mut search = Search {
            assignment: Assignment::new(num_vars),
            trail: Vec::new(),
            order: nones(num_vars),
            formula: clauses,
            variable_count: num_vars,
            variable_decision_level: nones(num_vars),
            variable_antecedent: nones(num_vars),
            input: Ghost(input),
        };
        proof {
            assert forall|j: int| 0 <= j < search.clauses().len() implies entails(search.n(), search.input@, #[trigger] search.clauses()[j]) by {
                assert forall|m: Seq<bool>| #[trigger] is_model(search.n(), m, search.input@) implies clause_holds(m, search.clauses()[j]) by {
                    assert(clause_holds(m, search.input@[j]));
                }
            }
            assert(search.inv());
        }
        let mut decision_level: usize = 0;
        loop
            invariant
                search.inv(),
                search.at_level(decision_level as nat),
                search.no_false_below(decision_level as nat),
                search.input@ == input,
                search.n() == n,
                n == self.spec_num_vars(),
                input == self.spec_clauses(),
            decreases pow(n + 1int, n + 1) - search.potential(decision_level as nat),
        {
            proof {
                lemma_potential_bound(search, decision_level as nat);
            }
            match search.step(decision_level) {
                Step::Next(next) => {
                    decision_level = next;
                    proof {
                        lemma_potential_bound(search, decision_level as nat);
                    }
                },
                Step::Satisfied => {
                    proof {
                        lemma_complete_model(search);
                    }
                    return SolveResult::Sat(search.assignment);
                },
                Step::Refuted => {
                    return SolveResult::Unsat;
                },
            }
        }
    }
}

/// What one step of the search led to.
enum Step {
    /// The search goes on at this decision level.
    Next(usize),
    /// Every variable is assigned and no clause is false.
    Satisfied,
    /// A conflict with no decision made: the clauses are unsatisfiable.
    Refuted,
}

/// The search state: the valuation, the trail of assignments in order with
/// their decision levels, each variable's trail position, decision level and
/// antecedent clause, and the formula with the clauses learned so far.
struct Search {
    assignment: Assignment,
    trail: Vec<(Lit, usize)>,
    order: Vec<Option<usize>>,
    formula: Vec<Vec<Lit>>,
    variable_count: usize,
    variable_decision_level: Vec<Option<usize>>,
    variable_antecedent: Vec<Option<usize>>,
    input: Ghost<Seq<Seq<Lit>>>,
}

impl Search {
    /// The clauses, input and learned.
    spec fn clauses(&self) -> Seq<Seq<Lit>> {
        clause_seqs(self.formula@)
    }

    /// The number of variables.
    spec fn n(&self) -> nat {
        self.variable_count as nat
    }

    /// The records have one entry per variable, every clause names only
    /// those variables, the input clauses come first, and the number of
    /// assigned variables is the length of the trail.
    spec fn shape(&self) -> bool {
        &&& self.assignment.wf()
        &&& self.assignment@.len() == self.variable_count
        &&& self.variable_count <= usize::MAX / 2
        &&& self.order@.len() == self.variable_count
        &&& self.variable_decision_level@.len() == self.variable_count
        &&& self.variable_antecedent@.len() == self.variable_count
        &&& clauses_in_range(self.clauses(), self.n())
        &&& self.input@.len() <= self.clauses().len()
        &&& forall|j: int| 0 <= j < self.input@.len() ==> self.clauses()[j] == #[trigger] self.input@[j]
        &&& num_assigned(self.assignment@) == self.trail@.len()
    }

    /// The trail lists each assigned variable once, at the position its
    /// record gives, with the value and level it holds; levels never decrease
    /// along it.
    spec fn trail_ok(&self) -> bool {
        let a = self.assignment@;
        let t = self.trail@;
        &&& forall|k: int|
            0 <= k < t.len() ==> {
                &&& 1 <= (#[trigger] t[k]).0.var <= self.n()
                &&& a[t[k].0.var - 1] == Some(t[k].0.positive)
                &&& self.order@[t[k].0.var - 1] is Some && self.order@[t[k].0.var - 1]->0 == k
                &&& self.variable_decision_level@[t[k].0.var - 1] == Some(t[k].1)
                &&& t[k].1 <= k + 1
            }
        &&& forall|v: int|
            0 <= v < self.n() ==> {
                &&& ((#[trigger] a[v]) is Some <==> self.order@[v] is Some)
                &&& (a[v] is Some <==> self.variable_decision_level@[v] is Some)
                &&& (self.variable_antecedent@[v] is Some ==> a[v] is Some)
                &&& (self.order@[v] is Some ==> self.order@[v]->0 < t.len() && t[self.order@[v]->0 as int].0.var == v + 1)
            }
        &&& forall|i: int, j: int| 0 <= i <= j < t.len() ==> (#[trigger] t[i]).1 <= (#[trigger] t[j]).1
    }

    /// The antecedent of variable index `v`, if any, is a clause that holds
    /// its literal, all of whose other literals are false and were assigned
    /// before it.
    spec fn justified(&self, v: int) -> bool {
        let a = self.assignment@;
        let f = self.clauses();
        match self.variable_antecedent@[v] {
            None => true,
            Some(c) => {
                &&& c < f.len()
                &&& exists|i: int| 0 <= i < f[c as int].len() && f[c as int][i] == assigned_lit(a, v)
                &&& forall|i: int|
                    0 <= i < f[c as int].len() ==> #[trigger] f[c as int][i] == assigned_lit(a, v) || (
                    lit_false(a, f[c as int][i]) && self.order@[f[c as int][i].var - 1]->0
                        < self.order@[v]->0)
            },
        }
    }

    /// Clause `c` exists, holds `l`, and all its other literals are false.
    spec fn forces(&self, c: int, l: Lit) -> bool {
        let f = self.clauses();
        &&& 0 <= c < f.len()
        &&& exists|i: int| 0 <= i < f[c].len() && f[c][i] == l
        &&& forall|i: int| 0 <= i < f[c].len() ==> #[trigger] f[c][i] == l || lit_false(self.assignment@, f[c][i])
    }

    /// The invariant of the search: consistent records, every propagated
    /// literal justified, decisions only above level 0 and each the first
    /// entry of its level, and every clause entailed by the input clauses.
    spec fn inv(&self) -> bool {
        &&& self.shape()
        &&& self.trail_ok()
        &&& forall|v: int| 0 <= v < self.n() ==> #[trigger] self.justified(v)
        &&& forall|v: int|
            0 <= v < self.n() && #[trigger] self.variable_decision_level@[v] == Some(0usize)
                ==> self.variable_antecedent@[v] is Some
        &&& forall|k: int|
            0 <= k < self.trail@.len() && (#[trigger] self.variable_antecedent@[self.trail@[k].0.var - 1]) is None
                ==> self.trail@[k].1 >= 1 && (k == 0 || self.trail@[k - 1].1 < self.trail@[k].1)
        &&& forall|j: int| 0 <= j < self.clauses().len() ==> entails(self.n(), self.input@, #[trigger] self.clauses()[j])
    }

    /// The valuation restricted to the variables assigned below decision
    /// level `level`.
    spec fn below(&self, level: nat) -> Seq<Option<bool>> {
        Seq::new(
            self.n(),
            |v: int|
                if self.variable_decision_level@[v] is Some && self.variable_decision_level@[v]->0 < level {
                    self.assignment@[v]
                } else {
                    None
                },
        )
    }

    /// No clause is false under what was assigned below any level from 1 up
    /// to `dl`.
    spec fn no_false_below(&self, dl: nat) -> bool {
        forall|level: nat, j: int|
            1 <= level <= dl && 0 <= j < self.clauses().len() ==> !#[trigger] clause_false(self.below(level), self.clauses()[j])
    }

    /// The weight of the trail, plus the weight of one more entry at level
    /// `dl` while some clause is unit: propagation and every step of the
    /// search raise it.
    spec fn potential(&self, dl: nat) -> int {
        weight(self.trail@, self.n()) + if exists|j: int|
            0 <= j < self.clauses().len() && #[trigger] is_unit(self.assignment@, self.clauses()[j]) {
            pow(self.n() + 1int, (self.n() - dl) as nat)
        } else {
            0
        }
    }

    /// Every trail entry is at a level of at most `dl`, and some entry is at
    /// level `dl` unless it is 0.
    spec fn at_level(&self, dl: nat) -> bool {
        &&& forall|k: int| 0 <= k < self.trail@.len() ==> (#[trigger] self.trail@[k]).1 <= dl
        &&& dl == 0 || exists|k: int| 0 <= k < self.trail@.len() && (#[trigger] self.trail@[k]).1 == dl
    }

    /// Assigns `literal` true at `decision_level`, with `antecedent` the
    /// clause that forced it (`None` for a decision).
    fn assign_literal(&mut self, literal: Lit, decision_level: usize, antecedent: Option<usize>)
        requires
            old(self).inv(),
            lit_in_range(literal, old(self).n()),
            value_of(old(self).assignment@, literal) is None,
            forall|k: int| 0 <= k < old(self).trail@.len() ==> (#[trigger] old(self).trail@[k]).1 <= decision_level,
            decision_level <= old(self).trail@.len() + 1,
            decision_level == 0 ==> antecedent is Some,
            antecedent is None ==> old(self).trail@.len() == 0 || old(self).trail@.last().1 < decision_level,
            antecedent is Some ==> old(self).forces(antecedent->0 as int, literal),
        ensures
            final(self).inv(),
            final(self).trail@ == old(self).trail@.push((literal, decision_level)),
            final(self).assignment@ == old(self).assignment@.update(literal.var - 1, Some(literal.positive)),
            final(self).order@ == old(self).order@.update(literal.var - 1, Some(old(self).trail@.len() as usize)),
            final(self).variable_decision_level@ == old(self).variable_decision_level@.update(literal.var - 1, Some(decision_level)),
            final(self).variable_antecedent@ == old(self).variable_antecedent@.update(literal.var - 1, antecedent),
            forall|level: nat| level <= decision_level ==> #[trigger] final(self).below(level) == old(self).below(level),
            final(self).formula@ == old(self).formula@,
            final(self).input == old(self).input,
            final(self).variable_count == old(self).variable_count,
    {
        let ghost old_self = *self;
        let variable = literal.var as usize - 1;
        let ghost a0 = self.assignment@;
        proof {
            lemma_num_assigned_lt(a0, variable as int);
        }
        self.assignment.set_true(literal);
        self.order.set(variable, Some(self.trail.len()));
        self.trail.push((literal, decision_level));
        self.variable_decision_level.set(variable, Some(decision_level));
        self.variable_antecedent.set(variable, antecedent);
        proof {
            let a = self.assignment@;
            let t = self.trail@;
            assert(a == a0.update(variable as int, Some(literal.positive)));
            assert(assigned_lit(a, variable as int) == literal);
            assert(self.clauses() == old_self.clauses());
            assert forall|v: int| 0 <= v < self.n() implies #[trigger] self.justified(v) by {
                assert(old_self.justified(v));
                let f = self.clauses();
                if v != variable {
                    assert(assigned_lit(a, v) == assigned_lit(a0, v));
                    if let Some(c) = old_self.variable_antecedent@[v] {
                        assert(a0[v] is Some);
                        let i0 = choose|i: int| 0 <= i < f[c as int].len() && f[c as int][i] == assigned_lit(a0, v);
                        assert(f[c as int][i0] == assigned_lit(a, v));
                        assert forall|i: int|
                            0 <= i < f[c as int].len() implies #[trigger] f[c as int][i] == assigned_lit(a, v) || (
                            lit_false(a, f[c as int][i]) && self.order@[f[c as int][i].var - 1]->0
                                < self.order@[v]->0) by {
                            let l = f[c as int][i];
                            if l != assigned_lit(a0, v) {
                                assert(lit_false(a0, l));
                                assert(lit_in_range(l, self.n()));
                                assert(l.var - 1 != variable);
                                assert(a[l.var - 1] == a0[l.var - 1]);
                                assert(self.order@[l.var - 1] == old_self.order@[l.var - 1]);
                                assert(self.order@[v] == old_self.order@[v]);
                            }
                        }
                    }
                } else {
                    if let Some(c) = antecedent {
                        assert(self.order@[v] == Some(old_self.trail@.len() as usize));
                        let i0 = choose|i: int| 0 <= i < f[c as int].len() && f[c as int][i] == literal;
                        assert(f[c as int][i0] == assigned_lit(a, v));
                        assert forall|i: int|
                            0 <= i < f[c as int].len() implies #[trigger] f[c as int][i] == assigned_lit(a, v) || (
                            lit_false(a, f[c as int][i]) && self.order@[f[c as int][i].var - 1]->0
                                < self.order@[v]->0) by {
                            let l = f[c as int][i];
                            if l != literal {
                                assert(lit_false(a0, l));
                                assert(lit_in_range(l, self.n()));
                                assert(a0[l.var - 1] is Some);
                                assert(old_self.order@[l.var - 1] is Some);
                                assert(l.var - 1 != variable);
                            }
                        }
                    }
                }
            }
            assert forall|i: int, j: int| 0 <= i <= j < t.len() implies (#[trigger] t[i]).1 <= (#[trigger] t[j]).1 by {
                if j == t.len() - 1 && i < j {
                    assert(t[i] == old_self.trail@[i]);
                }
                if j < t.len() - 1 {
                    assert(t[i] == old_self.trail@[i]);
                    assert(t[j] == old_self.trail@[j]);
                }
            }
            assert forall|k: int| 0 <= k < t.len() implies {
                &&& 1 <= (#[trigger] t[k]).0.var <= self.n()
                &&& a[t[k].0.var - 1] == Some(t[k].0.positive)
                &&& self.order@[t[k].0.var - 1] is Some && self.order@[t[k].0.var - 1]->0 == k
                &&& self.variable_decision_level@[t[k].0.var - 1] == Some(t[k].1)
                &&& t[k].1 <= k + 1
            } by {
                if k < t.len() - 1 {
                    assert(t[k] == old_self.trail@[k]);
                    assert(old_self.order@[t[k].0.var - 1]->0 == k);
                    assert(t[k].0.var - 1 != variable);
                }
            }
            assert forall|v: int| 0 <= v < self.n() implies {
                &&& ((#[trigger] a[v]) is Some <==> self.order@[v] is Some)
                &&& (a[v] is Some <==> self.variable_decision_level@[v] is Some)
                &&& (self.variable_antecedent@[v] is Some ==> a[v] is Some)
                &&& (self.order@[v] is Some ==> self.order@[v]->0 < t.len() && t[self.order@[v]->0 as int].0.var == v + 1)
            } by {
                assert(a0[v] is Some <==> old_self.order@[v] is Some);
                if v != variable && old_self.order@[v] is Some {
                    assert(t[self.order@[v]->0 as int] == old_self.trail@[old_self.order@[v]->0 as int]);
                }
            }
            assert forall|j: int| 0 <= j < self.input@.len() implies self.clauses()[j] == #[trigger] self.input@[j] by {
                assert(old_self.clauses()[j] == old_self.input@[j]);
            }
            assert forall|j: int| 0 <= j < self.clauses().len() implies entails(self.n(), self.input@, #[trigger] self.clauses()[j]) by {
                assert(old_self.clauses()[j] == self.clauses()[j]);
            }
            assert forall|v: int|
                0 <= v < self.n() && #[trigger] self.variable_decision_level@[v] == Some(0usize)
                    implies self.variable_antecedent@[v] is Some by {
                if v != variable {
                    assert(old_self.variable_decision_level@[v] == Some(0usize));
                }
            }
            assert(num_assigned(a) == t.len()) by {
                crate::assignment::lemma_num_assigned_update(a0, variable as int, Some(literal.positive));
            }
            assert(self.shape());
            assert(self.trail_ok());
            assert forall|level: nat| level <= decision_level implies #[trigger] self.below(level) == old_self.below(level) by {
                assert(old_self.variable_decision_level@[variable as int] is None);
                assert(self.below(level) =~= old_self.below(level));
            }
        }
    }

    /// Undoes the last trail entry, clearing its variable's value, trail
    /// position, decision level and antecedent.
    fn pop_trail(&mut self)
        requires
            old(self).inv(),
            old(self).trail@.len() > 0,
        ensures
            final(self).inv(),
            final(self).trail@ == old(self).trail@.drop_last(),
            final(self).formula@ == old(self).formula@,
            final(self).input == old(self).input,
            final(self).variable_count == old(self).variable_count,
            ({
                let v = old(self).trail@.last().0.var - 1;
                &&& final(self).assignment@ == old(self).assignment@.update(v, None)
                &&& final(self).order@[v] is None
                &&& final(self).variable_decision_level@[v] is None
                &&& final(self).variable_antecedent@[v] is None
                &&& forall|w: int| 0 <= w < old(self).n() && w != v ==> {
                    &&& #[trigger] final(self).order@[w] == old(self).order@[w]
                    &&& final(self).variable_decision_level@[w] == old(self).variable_decision_level@[w]
                    &&& final(self).variable_antecedent@[w] == old(self).variable_antecedent@[w]
                }
            }),
    {
        let ghost old_self = *self;
        let ghost a0 = self.assignment@;
        let ghost t0 = self.trail@;
        let entry = self.trail.pop().unwrap();
        let literal = entry.0;
        proof {
            assert(t0[t0.len() - 1] == entry);
        }
        let variable = literal.var as usize - 1;
        self.assignment.unassign(literal);
        self.order.set(variable, None);
        self.variable_decision_level.set(variable, None);
        self.variable_antecedent.set(variable, None);
        proof {
            let a = self.assignment@;
            let t = self.trail@;
            let last = t0.len() - 1;
            assert(old_self.order@[variable as int]->0 == last);
            assert(self.clauses() == old_self.clauses());
            assert forall|w: int| 0 <= w < self.n() implies #[trigger] self.justified(w) by {
                assert(old_self.justified(w));
                let f = self.clauses();
                if w != variable {
                    if let Some(c) = old_self.variable_antecedent@[w] {
                        assert(a0[w] is Some);
                        assert(assigned_lit(a, w) == assigned_lit(a0, w));
                        let ow = old_self.order@[w]->0;
                        assert(t0[ow as int].0.var == w + 1);
                        assert(ow < last);
                        let i0 = choose|i: int| 0 <= i < f[c as int].len() && f[c as int][i] == assigned_lit(a0, w);
                        assert(f[c as int][i0] == assigned_lit(a, w));
                        assert forall|i: int|
                            0 <= i < f[c as int].len() implies #[trigger] f[c as int][i] == assigned_lit(a, w) || (
                            lit_false(a, f[c as int][i]) && self.order@[f[c as int][i].var - 1]->0
                                < self.order@[w]->0) by {
                            let l = f[c as int][i];
                            if l != assigned_lit(a0, w) {
                                assert(lit_false(a0, l));
                                assert(lit_in_range(l, self.n()));
                                assert(old_self.order@[l.var - 1]->0 < ow);
                                assert(l.var - 1 != variable);
                                assert(a[l.var - 1] == a0[l.var - 1]);
                                assert(self.order@[l.var - 1] == old_self.order@[l.var - 1]);
                            }
                        }
                    }
                }
            }
            assert(num_assigned(a) == t.len()) by {
                crate::assignment::lemma_num_assigned_update(a0, variable as int, None);
            }
            assert forall|k: int| 0 <= k < t.len() implies {
                &&& 1 <= (#[trigger] t[k]).0.var <= self.n()
                &&& a[t[k].0.var - 1] == Some(t[k].0.positive)
                &&& self.order@[t[k].0.var - 1] is Some && self.order@[t[k].0.var - 1]->0 == k
                &&& self.variable_decision_level@[t[k].0.var - 1] == Some(t[k].1)
                &&& t[k].1 <= k + 1
            } by {
                assert(t[k] == t0[k]);
                assert(old_self.order@[t[k].0.var - 1]->0 == k);
                assert(t[k].0.var - 1 != variable);
            }
            assert forall|w: int| 0 <= w < self.n() implies {
                &&& ((#[trigger] a[w]) is Some <==> self.order@[w] is Some)
                &&& (a[w] is Some <==> self.variable_decision_level@[w] is Some)
                &&& (self.variable_antecedent@[w] is Some ==> a[w] is Some)
                &&& (self.order@[w] is Some ==> self.order@[w]->0 < t.len() && t[self.order@[w]->0 as int].0.var == w + 1)
            } by {
                assert(a0[w] is Some <==> old_self.order@[w] is Some);
                if w != variable && old_self.order@[w] is Some {
                    let ow = old_self.order@[w]->0;
                    assert(t0[ow as int].0.var == w + 1);
                    assert(ow != last);
                    assert(t[ow as int] == t0[ow as int]);
                }
            }
            assert forall|i: int, j: int| 0 <= i <= j < t.len() implies (#[trigger] t[i]).1 <= (#[trigger] t[j]).1 by {
                assert(t[i] == t0[i]);
                assert(t[j] == t0[j]);
            }
            assert forall|j: int| 0 <= j < self.input@.len() implies self.clauses()[j] == #[trigger] self.input@[j] by {
                assert(old_self.clauses()[j] == old_self.input@[j]);
            }
            assert forall|j: int| 0 <= j < self.clauses().len() implies entails(self.n(), self.input@, #[trigger] self.clauses()[j]) by {
                assert(old_self.clauses()[j] == self.clauses()[j]);
            }
            assert forall|w: int|
                0 <= w < self.n() && #[trigger] self.variable_decision_level@[w] == Some(0usize)
                    implies self.variable_antecedent@[w] is Some by {
                assert(old_self.variable_decision_level@[w] == Some(0usize));
            }
            assert(self.shape());
            assert(self.trail_ok());
        }
    }

    /// Undoes every trail entry above decision level `target`: what was
    /// assigned at a level of at most `target` keeps its value, trail
    /// position, level and antecedent, and what was assigned above it is
    /// unassigned.
    fn backtrack_to_level(&mut self, target: usize)
        requires
            old(self).inv(),
        ensures
            final(self).inv(),
            final(self).formula@ == old(self).formula@,
            final(self).input == old(self).input,
            final(self).variable_count == old(self).variable_count,
            final(self).trail@.len() <= old(self).trail@.len(),
            final(self).trail@ == old(self).trail@.take(final(self).trail@.len() as int),
            forall|k: int| 0 <= k < final(self).trail@.len() ==> (#[trigger] final(self).trail@[k]).1 <= target,
            forall|k: int| final(self).trail@.len() <= k < old(self).trail@.len() ==> (#[trigger] old(self).trail@[k]).1 > target,
            forall|v: int|
                0 <= v < old(self).n() && #[trigger] old(self).variable_decision_level@[v] is Some
                    && old(self).variable_decision_level@[v]->0 <= target ==> {
                    &&& final(self).assignment@[v] == old(self).assignment@[v]
                    &&& final(self).order@[v] == old(self).order@[v]
                    &&& final(self).variable_decision_level@[v] == old(self).variable_decision_level@[v]
                    &&& final(self).variable_antecedent@[v] == old(self).variable_antecedent@[v]
                },
            forall|v: int|
                0 <= v < old(self).n() && #[trigger] old(self).variable_decision_level@[v] is Some
                    && old(self).variable_decision_level@[v]->0 > target ==> {
                    &&& final(self).assignment@[v] is None
                    &&& final(self).order@[v] is None
                    &&& final(self).variable_decision_level@[v] is None
                    &&& final(self).variable_antecedent@[v] is None
                },
            forall|level: nat| level <= target ==> #[trigger] final(self).below(level) == old(self).below(level),
    {
        let ghost s0 = *self;
        loop
            invariant
                self.inv(),
                s0.inv(),
                self.formula@ == s0.formula@,
                self.input == s0.input,
                self.variable_count == s0.variable_count,
                self.trail@.len() <= s0.trail@.len(),
                self.trail@ == s0.trail@.take(self.trail@.len() as int),
                forall|k: int| self.trail@.len() <= k < s0.trail@.len() ==> (#[trigger] s0.trail@[k]).1 > target,
                forall|v: int|
                    0 <= v < s0.n() && #[trigger] s0.order@[v] is Some && s0.order@[v]->0 < self.trail@.len() ==> {
                        &&& self.assignment@[v] == s0.assignment@[v]
                        &&& self.order@[v] == s0.order@[v]
                        &&& self.variable_decision_level@[v] == s0.variable_decision_level@[v]
                        &&& self.variable_antecedent@[v] == s0.variable_antecedent@[v]
                    },
                forall|v: int|
                    0 <= v < s0.n() && #[trigger] s0.order@[v] is Some && s0.order@[v]->0 >= self.trail@.len() ==> self.assignment@[v] is None,
                forall|v: int| 0 <= v < s0.n() && #[trigger] s0.order@[v] is None ==> self.assignment@[v] is None,
            ensures
                forall|k: int| 0 <= k < self.trail@.len() ==> (#[trigger] self.trail@[k]).1 <= target,
            decreases self.trail@.len(),
        {
            let len = self.trail.len();
            if len == 0 {
                break;
            }
            let level = self.trail[len - 1].1;
            if level <= target {
                proof {
                    assert forall|k: int| 0 <= k < self.trail@.len() implies (#[trigger] self.trail@[k]).1 <= target by {
                        assert(self.trail@[k].1 <= self.trail@[len - 1].1);
                    }
                }
                break;
            }
            let ghost before = *self;
            let ghost popped = (self.trail@.last().0.var - 1) as int;
            proof {
                assert(self.trail@[len - 1] == s0.trail@[len - 1]);
                assert(s0.order@[popped]->0 == len - 1);
            }
            self.pop_trail();
            proof {
                assert(self.trail@ =~= s0.trail@.take(self.trail@.len() as int));
                assert forall|v: int|
                    0 <= v < s0.n() && #[trigger] s0.order@[v] is Some && s0.order@[v]->0 < self.trail@.len() implies {
                        &&& self.assignment@[v] == s0.assignment@[v]
                        &&& self.order@[v] == s0.order@[v]
                        &&& self.variable_decision_level@[v] == s0.variable_decision_level@[v]
                        &&& self.variable_antecedent@[v] == s0.variable_antecedent@[v]
                    } by {
                    assert(v != popped);
                    assert(self.order@[v] == before.order@[v]);
                }
                assert forall|v: int|
                    0 <= v < s0.n() && #[trigger] s0.order@[v] is Some && s0.order@[v]->0 >= self.trail@.len() implies self.assignment@[v] is None by {
                    if v != popped {
                        assert(s0.order@[v]->0 != len - 1);
                    }
                }
                assert forall|v: int| 0 <= v < s0.n() && #[trigger] s0.order@[v] is None implies self.assignment@[v] is None by {
                    assert(v != popped);
                }
            }
        }
        proof {
            assert forall|v: int|
                0 <= v < s0.n() && #[trigger] s0.variable_decision_level@[v] is Some implies
                    (s0.order@[v] is Some && (s0.order@[v]->0 < self.trail@.len()
                        <==> s0.variable_decision_level@[v]->0 <= target)) by {
                assert(s0.assignment@[v] is Some);
                let o = s0.order@[v]->0 as int;
                assert(s0.trail@[o].0.var == v + 1);
                assert(s0.variable_decision_level@[v] == Some(s0.trail@[o].1));
                if o < self.trail@.len() {
                    assert(self.trail@[o] == s0.trail@[o]);
                }
            }
            assert forall|level: nat| level <= target implies #[trigger] self.below(level) == s0.below(level) by {
                assert forall|v: int| 0 <= v < s0.n() implies self.below(level)[v] == s0.below(level)[v] by {
                    assert(s0.assignment@[v] is Some <==> s0.order@[v] is Some);
                    assert(self.assignment@[v] is Some <==> self.variable_decision_level@[v] is Some);
                    if s0.variable_decision_level@[v] is Some {
                        assert(s0.order@[v] is Some);
                    }
                }
                assert(self.below(level) =~= s0.below(level));
            }
        }
    }

    /// Whether clause `ci` has a true literal.
    fn is_sat(&self, ci: usize) -> (r: bool)
        requires
            self.inv(),
            ci < self.formula@.len(),
        ensures
            r == exists|i: int| 0 <= i < self.clauses()[ci as int].len() && #[trigger] lit_true(self.assignment@, self.clauses()[ci as int][i]),
    {
        let clause = &self.formula[ci];
        let ghost c = self.clauses()[ci as int];
        let mut i: usize = 0;
        while i < clause.len()
            invariant
                self.inv(),
                ci < self.formula@.len(),
                c == self.clauses()[ci as int],
                *clause == self.formula@[ci as int],
                i <= c.len(),
                forall|k: int| 0 <= k < i ==> !#[trigger] lit_true(self.assignment@, c[k]),
            decreases c.len() - i,
        {
            assert(lit_in_range(c[i as int], self.n()));
            if self.assignment.is_true(clause[i]) {
                assert(lit_true(self.assignment@, self.clauses()[ci as int][i as int]));
                return true;
            }
            i += 1;
        }
        false
    }

    /// Whether every literal of clause `ci` is false.
    fn all_false(&self, ci: usize) -> (r: bool)
        requires
            self.inv(),
            ci < self.formula@.len(),
        ensures
            r == clause_false(self.assignment@, self.clauses()[ci as int]),
    {
        let clause = &self.formula[ci];
        let ghost c = self.clauses()[ci as int];
        let mut i: usize = 0;
        while i < clause.len()
            invariant
                self.inv(),
                ci < self.formula@.len(),
                c == self.clauses()[ci as int],
                *clause == self.formula@[ci as int],
                i <= c.len(),
                forall|k: int| 0 <= k < i ==> #[trigger] lit_false(self.assignment@, c[k]),
            decreases c.len() - i,
        {
            assert(lit_in_range(c[i as int], self.n()));
            if !self.assignment.is_false(clause[i]) {
                assert(!lit_false(self.assignment@, self.clauses()[ci as int][i as int]));
                return false;
            }
            i += 1;
        }
        true
    }

    /// The literal that clause `ci` forces, if it is a unit clause: no
    /// literal is true and exactly one literal is unassigned (a literal that
    /// occurs twice counts once).
    fn unit_literal(&self, ci: usize) -> (r: Option<Lit>)
        requires
            self.inv(),
            ci < self.formula@.len(),
        ensures
            r matches Some(l) ==> {
                &&& value_of(self.assignment@, l) is None
                &&& lit_in_range(l, self.n())
                &&& self.forces(ci as int, l)
            },
            is_unit(self.assignment@, self.clauses()[ci as int]) ==> r is Some,
    {
        let clause = &self.formula[ci];
        let ghost c = self.clauses()[ci as int];
        let mut unassigned_literal: Option<Lit> = None;
        let mut i: usize = 0;
        while i < clause.len()
            invariant
                self.inv(),
                ci < self.formula@.len(),
                c == self.clauses()[ci as int],
                *clause == self.formula@[ci as int],
                i <= c.len(),
                unassigned_literal matches Some(l) ==> {
                    &&& value_of(self.assignment@, l) is None
                    &&& lit_in_range(l, self.n())
                    &&& exists|k: int| 0 <= k < i && c[k] == l
                    &&& forall|k: int| 0 <= k < i ==> #[trigger] c[k] == l || lit_false(self.assignment@, c[k])
                },
                unassigned_literal is None ==> forall|k: int| 0 <= k < i ==> #[trigger] lit_false(self.assignment@, c[k]),
            decreases c.len() - i,
        {
            let literal = clause[i];
            assert(lit_in_range(c[i as int], self.n()));
            if self.assignment.is_true(literal) {
                proof {
                    if is_unit(self.assignment@, c) {
                        let l = choose|l: Lit|
                            #[trigger] c.contains(l) && value_of(self.assignment@, l) is None && forall|k: int|
                                0 <= k < c.len() ==> c[k] == l || lit_false(self.assignment@, c[k]);
                        assert(c[i as int] == l || lit_false(self.assignment@, c[i as int]));
                    }
                }
                return None;
            }
            if self.assignment.is_unassigned(literal) {
                if unassigned_literal.is_none() {
                    unassigned_literal = Some(literal);
                } else if unassigned_literal != Some(literal) {
                    proof {
                        if is_unit(self.assignment@, c) {
                            let l = choose|l: Lit|
                                #[trigger] c.contains(l) && value_of(self.assignment@, l) is None && forall|k: int|
                                    0 <= k < c.len() ==> c[k] == l || lit_false(self.assignment@, c[k]);
                            let u = unassigned_literal->0;
                            let k = choose|k: int| 0 <= k < i && c[k] == u;
                            assert(c[k] == l || lit_false(self.assignment@, c[k]));
                            assert(c[i as int] == l || lit_false(self.assignment@, c[i as int]));
                        }
                    }
                    return None;
                }
            }
            i += 1;
        }
        proof {
            if is_unit(self.assignment@, c) && unassigned_literal is None {
                let l = choose|l: Lit|
                    #[trigger] c.contains(l) && value_of(self.assignment@, l) is None && forall|k: int|
                        0 <= k < c.len() ==> c[k] == l || lit_false(self.assignment@, c[k]);
                let k = choose|k: int| 0 <= k < c.len() && c[k] == l;
                assert(lit_false(self.assignment@, c[k]));
            }
        }
        unassigned_literal
    }

    /// Boolean constraint propagation at `decision_level`: assigns the
    /// literal of each unit clause until none is left, then returns the
    /// index of the first clause whose literals are all false, if any.
    fn unit_propagate(&mut self, decision_level: usize) -> (r: Option<usize>)
        requires
            old(self).inv(),
            old(self).at_level(decision_level as nat),
        ensures
            final(self).inv(),
            final(self).at_level(decision_level as nat),
            forall|level: nat| level <= decision_level ==> #[trigger] final(self).below(level) == old(self).below(level),
            final(self).formula@ == old(self).formula@,
            final(self).input == old(self).input,
            final(self).variable_count == old(self).variable_count,
            old(self).trail@.len() <= final(self).trail@.len(),
            final(self).trail@.take(old(self).trail@.len() as int) == old(self).trail@,
            r matches Some(c) ==> c < final(self).formula@.len() && clause_false(
                final(self).assignment@,
                final(self).clauses()[c as int],
            ),
            r matches Some(c) ==> forall|j: int|
                0 <= j < c ==> !clause_false(final(self).assignment@, #[trigger] final(self).clauses()[j]),
            forall|k: int|
                old(self).trail@.len() <= k < final(self).trail@.len() ==> (#[trigger] final(self).trail@[k]).1 == decision_level,
            forall|v: int|
                0 <= v < old(self).n() && #[trigger] old(self).assignment@[v] is Some ==> {
                    &&& final(self).assignment@[v] == old(self).assignment@[v]
                    &&& final(self).order@[v] == old(self).order@[v]
                    &&& final(self).variable_decision_level@[v] == old(self).variable_decision_level@[v]
                    &&& final(self).variable_antecedent@[v] == old(self).variable_antecedent@[v]
                },
            r is None ==> forall|j: int|
                0 <= j < final(self).clauses().len() ==> !clause_false(
                    final(self).assignment@,
                    #[trigger] final(self).clauses()[j],
                ),
            forall|j: int| 0 <= j < final(self).clauses().len() ==> !#[trigger] is_unit(final(self).assignment@, final(self).clauses()[j]),
            weight(final(self).trail@, final(self).n()) >= weight(old(self).trail@, old(self).n()),
            (exists|j: int| 0 <= j < old(self).clauses().len() && #[trigger] is_unit(old(self).assignment@, old(self).clauses()[j]))
                ==> weight(final(self).trail@, final(self).n()) >= weight(old(self).trail@, old(self).n())
                + pow(old(self).n() + 1int, (old(self).n() - decision_level) as nat),
    {
        let ghost s0 = *self;
        let ghost step = pow(s0.n() + 1int, (s0.n() - decision_level) as nat);
        proof {
            lemma_pow_positive(s0.n() + 1int, (s0.n() - decision_level) as nat);
        }
        let mut unit_clause_found = true;
        while unit_clause_found
            invariant
                self.inv(),
                self.at_level(decision_level as nat),
                forall|level: nat| level <= decision_level ==> #[trigger] self.below(level) == s0.below(level),
                self.formula@ == s0.formula@,
                self.input == s0.input,
                self.variable_count == s0.variable_count,
                s0.trail@.len() <= self.trail@.len(),
                self.trail@.take(s0.trail@.len() as int) == s0.trail@,
                forall|k: int|
                    s0.trail@.len() <= k < self.trail@.len() ==> (#[trigger] self.trail@[k]).1 == decision_level,
                forall|v: int|
                    0 <= v < s0.n() && #[trigger] s0.assignment@[v] is Some ==> {
                        &&& self.assignment@[v] == s0.assignment@[v]
                        &&& self.order@[v] == s0.order@[v]
                        &&& self.variable_decision_level@[v] == s0.variable_decision_level@[v]
                        &&& self.variable_antecedent@[v] == s0.variable_antecedent@[v]
                    },
                step == pow(s0.n() + 1int, (s0.n() - decision_level) as nat),
                step > 0,
                self.trail@.len() == s0.trail@.len() ==> self.assignment@ == s0.assignment@,
                weight(self.trail@, self.n()) >= weight(s0.trail@, s0.n()),
                self.trail@.len() > s0.trail@.len() ==> weight(self.trail@, self.n()) >= weight(s0.trail@, s0.n()) + step,
                !unit_clause_found ==> forall|j: int|
                    0 <= j < self.clauses().len() ==> !#[trigger] is_unit(self.assignment@, self.clauses()[j]),
            decreases (self.n() - self.trail@.len()) + if unit_clause_found { 1int } else { 0int },
        {
            proof {
                crate::assignment::lemma_num_assigned_bound(self.assignment@);
            }
            unit_clause_found = false;
            let ghost len0 = self.trail@.len();
            let mut clause_idx: usize = 0;
            while clause_idx < self.formula.len()
                invariant
                    self.inv(),
                    self.at_level(decision_level as nat),
                    forall|level: nat| level <= decision_level ==> #[trigger] self.below(level) == s0.below(level),
                    self.formula@ == s0.formula@,
                    self.input == s0.input,
                    self.variable_count == s0.variable_count,
                    s0.trail@.len() <= len0 <= self.trail@.len(),
                    self.trail@.take(s0.trail@.len() as int) == s0.trail@,
                    forall|k: int|
                        s0.trail@.len() <= k < self.trail@.len() ==> (#[trigger] self.trail@[k]).1 == decision_level,
                    forall|v: int|
                        0 <= v < s0.n() && #[trigger] s0.assignment@[v] is Some ==> {
                            &&& self.assignment@[v] == s0.assignment@[v]
                            &&& self.order@[v] == s0.order@[v]
                            &&& self.variable_decision_level@[v] == s0.variable_decision_level@[v]
                            &&& self.variable_antecedent@[v] == s0.variable_antecedent@[v]
                        },
                    unit_clause_found ==> len0 < self.trail@.len(),
                    !unit_clause_found ==> len0 == self.trail@.len(),
                    step == pow(s0.n() + 1int, (s0.n() - decision_level) as nat),
                    step > 0,
                    self.trail@.len() == s0.trail@.len() ==> self.assignment@ == s0.assignment@,
                    weight(self.trail@, self.n()) >= weight(s0.trail@, s0.n()),
                    self.trail@.len() > s0.trail@.len() ==> weight(self.trail@, self.n()) >= weight(s0.trail@, s0.n()) + step,
                    clause_idx <= self.formula@.len(),
                    !unit_clause_found ==> forall|j: int|
                        0 <= j < clause_idx ==> !#[trigger] is_unit(self.assignment@, self.clauses()[j]),
                decreases self.formula@.len() - clause_idx,
            {
                if let Some(literal) = self.unit_literal(clause_idx) {
                    let ghost before = *self;
                    proof {
                        if decision_level > 0 {
                            let k = choose|k: int| 0 <= k < self.trail@.len() && (#[trigger] self.trail@[k]).1 == decision_level;
                            assert(self.trail_ok());
                            assert(self.trail@[k].1 <= k + 1);
                        }
                    }
                    self.assign_literal(literal, decision_level, Some(clause_idx));
                    proof {
                        let t = self.trail@;
                        assert(t.take(s0.trail@.len() as int) =~= before.trail@.take(s0.trail@.len() as int));
                        assert forall|k: int| 0 <= k < t.len() implies (#[trigger] t[k]).1 <= decision_level by {
                            if k < t.len() - 1 {
                                assert(t[k] == before.trail@[k]);
                            }
                        }
                        if decision_level > 0 {
                            let k = choose|k: int| 0 <= k < before.trail@.len() && (#[trigger] before.trail@[k]).1 == decision_level;
                            assert(t[k] == before.trail@[k]);
                        }
                        assert(t.drop_last() == before.trail@);
                        assert(weight(t, self.n()) == weight(before.trail@, self.n()) + step);
                        assert(t[t.len() - 1].1 == decision_level);
                        assert forall|k: int| s0.trail@.len() <= k < t.len() implies (#[trigger] t[k]).1 == decision_level by {
                            if k < t.len() - 1 {
                                assert(t[k] == before.trail@[k]);
                            }
                        }
                    }
                    unit_clause_found = true;
                }
                clause_idx += 1;
            }
            proof {
                crate::assignment::lemma_num_assigned_bound(self.assignment@);
            }
        }
        proof {
            if exists|j: int| 0 <= j < s0.clauses().len() && #[trigger] is_unit(s0.assignment@, s0.clauses()[j]) {
                let j = choose|j: int| 0 <= j < s0.clauses().len() && #[trigger] is_unit(s0.assignment@, s0.clauses()[j]);
                assert(!is_unit(self.assignment@, self.clauses()[j]));
            }
        }
        let mut ci: usize = 0;
        while ci < self.formula.len()
            invariant
                self.inv(),
                self.at_level(decision_level as nat),
                forall|level: nat| level <= decision_level ==> #[trigger] self.below(level) == s0.below(level),
                self.formula@ == s0.formula@,
                self.input == s0.input,
                self.variable_count == s0.variable_count,
                s0.trail@.len() <= self.trail@.len(),
                self.trail@.take(s0.trail@.len() as int) == s0.trail@,
                s0 == *old(self),
                forall|k: int|
                    s0.trail@.len() <= k < self.trail@.len() ==> (#[trigger] self.trail@[k]).1 == decision_level,
                forall|v: int|
                    0 <= v < s0.n() && #[trigger] s0.assignment@[v] is Some ==> {
                        &&& self.assignment@[v] == s0.assignment@[v]
                        &&& self.order@[v] == s0.order@[v]
                        &&& self.variable_decision_level@[v] == s0.variable_decision_level@[v]
                        &&& self.variable_antecedent@[v] == s0.variable_antecedent@[v]
                    },

                weight(self.trail@, self.n()) >= weight(s0.trail@, s0.n()),
                (exists|j: int| 0 <= j < s0.clauses().len() && #[trigger] is_unit(s0.assignment@, s0.clauses()[j]))
                    ==> weight(self.trail@, self.n()) >= weight(s0.trail@, s0.n()) + pow(s0.n() + 1int, (s0.n() - decision_level) as nat),
                forall|j: int| 0 <= j < self.clauses().len() ==> !#[trigger] is_unit(self.assignment@, self.clauses()[j]),
                forall|j: int| 0 <= j < ci ==> !clause_false(self.assignment@, #[trigger] self.clauses()[j]),
            decreases self.formula@.len() - ci,
        {
            if self.all_false(ci) {
                return Some(ci);
            }
            ci += 1;
        }
        None
    }

    /// The literals of clause `ci`, each once.
    fn distinct_literals(&self, ci: usize) -> (r: Vec<Lit>)
        requires
            ci < self.formula@.len(),
        ensures
            forall|l: Lit| #[trigger] r@.contains(l) <==> self.clauses()[ci as int].contains(l),
            r@.no_duplicates(),
    {
        let clause = &self.formula[ci];
        let ghost c = self.clauses()[ci as int];
        let mut out: Vec<Lit> = Vec::new();
        let mut i: usize = 0;
        while i < clause.len()
            invariant
                ci < self.formula@.len(),
                *clause == self.formula@[ci as int],
                c == clause@,
                i <= c.len(),
                forall|l: Lit| #[trigger] out@.contains(l) <==> c.take(i as int).contains(l),
                out@.no_duplicates(),
            decreases c.len() - i,
        {
            let l = clause[i];
            proof {
                assert(c.take(i + 1) =~= c.take(i as int).push(l));
            }
            let ghost out0 = out@;
            if !contains_lit(&out, l) {
                out.push(l);
                proof {
                    lemma_push_distinct(out0, l);
                }
            }
            proof {
                assert forall|x: Lit| #[trigger] out@.contains(x) <==> c.take(i + 1).contains(x) by {
                    lemma_push_contains(out0, l, x);
                    lemma_push_contains(c.take(i as int), l, x);
                }
            }
            i += 1;
        }
        assert(c.take(c.len() as int) =~= c);
        out
    }

    /// The decision level of the variable of `literal`.
    fn decision_level(&self, literal: Lit) -> (r: Option<usize>)
        requires
            self.inv(),
            lit_in_range(literal, self.n()),
        ensures
            r == self.variable_decision_level@[literal.var - 1],
    {
        self.variable_decision_level[literal.var as usize - 1]
    }

    /// The trail position of the variable of `literal`.
    fn assignment_order(&self, literal: Lit) -> (r: Option<usize>)
        requires
            self.inv(),
            lit_in_range(literal, self.n()),
        ensures
            r == self.order@[literal.var - 1],
    {
        self.order[literal.var as usize - 1]
    }

    /// The resolvent of `learnt` with the antecedent clause `antecedent` on
    /// the variable of `pivot`: the literals of both, without any on that
    /// variable, each once.
    fn resolve(&self, learnt: &Vec<Lit>, pivot: Lit, antecedent: usize) -> (r: Vec<Lit>)
        requires
            antecedent < self.formula@.len(),
        ensures
            forall|l: Lit|
                #[trigger] r@.contains(l) <==> ((learnt@.contains(l) || self.clauses()[antecedent as int].contains(l))
                    && l.var != pivot.var),
            r@.no_duplicates(),
    {
        let other = &self.formula[antecedent];
        let ghost d = self.clauses()[antecedent as int];
        let mut out: Vec<Lit> = Vec::new();
        let mut i: usize = 0;
        while i < learnt.len()
            invariant
                i <= learnt@.len(),
                forall|l: Lit|
                    #[trigger] out@.contains(l) <==> (learnt@.take(i as int).contains(l) && l.var != pivot.var),
                out@.no_duplicates(),
            decreases learnt@.len() - i,
        {
            let l = learnt[i];
            proof {
                assert(learnt@.take(i + 1) =~= learnt@.take(i as int).push(l));
            }
            let ghost out0 = out@;
            if l.var != pivot.var && !contains_lit(&out, l) {
                out.push(l);
                proof {
                    lemma_push_distinct(out0, l);
                }
            }
            proof {
                assert forall|x: Lit| #[trigger] out@.contains(x) <==> (learnt@.take(i + 1).contains(x) && x.var != pivot.var) by {
                    lemma_push_contains(out0, l, x);
                    lemma_push_contains(learnt@.take(i as int), l, x);
                }
            }
            i += 1;
        }
        assert(learnt@.take(learnt@.len() as int) =~= learnt@);
        let mut j: usize = 0;
        while j < other.len()
            invariant
                antecedent < self.formula@.len(),
                *other == self.formula@[antecedent as int],
                d == other@,
                j <= other@.len(),
                forall|l: Lit|
                    #[trigger] out@.contains(l) <==> ((learnt@.contains(l) || d.take(j as int).contains(l)) && l.var != pivot.var),
                out@.no_duplicates(),
            decreases other@.len() - j,
        {
            let l = other[j];
            proof {
                assert(d.take(j + 1) =~= d.take(j as int).push(l));
            }
            let ghost out0 = out@;
            if l.var != pivot.var && !contains_lit(&out, l) {
                out.push(l);
                proof {
                    lemma_push_distinct(out0, l);
                }
            }
            proof {
                assert forall|x: Lit| #[trigger] out@.contains(x) <==> ((learnt@.contains(x) || d.take(j + 1).contains(x)) && x.var != pivot.var) by {
                    lemma_push_contains(out0, l, x);
                    lemma_push_contains(d.take(j as int), l, x);
                }
            }
            j += 1;
        }
        assert(d.take(d.len() as int) =~= d);
        out
    }

    /// Every literal of `learnt` names a variable and is false.
    spec fn all_false_in_range(&self, learnt: Seq<Lit>) -> bool {
        forall|x: Lit| #[trigger] learnt.contains(x) ==> lit_in_range(x, self.n()) && lit_false(self.assignment@, x)
    }

    /// Counts the literals of `learnt` assigned at `conflict_level` and picks
    /// the one of them assigned last.
    fn find_pivot(&self, learnt: &Vec<Lit>, conflict_level: usize) -> (r: (usize, Option<Lit>))
        requires
            self.inv(),
            self.all_false_in_range(learnt@),
            learnt@.no_duplicates(),
        ensures
            r.1 is None ==> r.0 == 0 && forall|x: Lit|
                #[trigger] learnt@.contains(x) ==> self.variable_decision_level@[x.var - 1] != Some(conflict_level),
            r.1 matches Some(p) ==> {
                &&& learnt@.contains(p)
                &&& self.variable_decision_level@[p.var - 1] == Some(conflict_level)
                &&& forall|x: Lit|
                    #[trigger] learnt@.contains(x) && self.variable_decision_level@[x.var - 1] == Some(conflict_level)
                        ==> self.order@[x.var - 1]->0 <= self.order@[p.var - 1]->0
                &&& r.0 != 1 ==> exists|q: Lit|
                    #[trigger] learnt@.contains(q) && q != p && self.variable_decision_level@[q.var - 1] == Some(conflict_level)
                &&& r.0 == 1 ==> forall|x: Lit|
                    #[trigger] learnt@.contains(x) && self.variable_decision_level@[x.var - 1] == Some(conflict_level) ==> x == p
            },
    {
        let mut count: usize = 0;
        let mut pivot: Option<Lit> = None;
        let mut best: usize = 0;
        let ghost mut pivot_at: int = 0;
        let ghost mut other_at: int = 0;
        let mut i: usize = 0;
        while i < learnt.len()
            invariant
                self.inv(),
                self.all_false_in_range(learnt@),
                learnt@.no_duplicates(),
                i <= learnt@.len(),
                count <= i,
                pivot is None ==> count == 0,
                pivot is Some ==> count >= 1,
                pivot matches Some(p) ==> {
                    &&& 0 <= pivot_at < i
                    &&& learnt@[pivot_at] == p
                    &&& self.variable_decision_level@[p.var - 1] == Some(conflict_level)
                    &&& self.order@[p.var - 1] == Some(best)
                    &&& forall|k: int|
                        0 <= k < i && #[trigger] self.variable_decision_level@[learnt@[k].var - 1] == Some(conflict_level)
                            ==> self.order@[learnt@[k].var - 1]->0 <= best
                    &&& count == 1 ==> forall|k: int|
                        0 <= k < i && #[trigger] self.variable_decision_level@[learnt@[k].var - 1] == Some(conflict_level)
                            ==> learnt@[k] == p
                    &&& count >= 2 ==> {
                        &&& 0 <= other_at < i
                        &&& self.variable_decision_level@[learnt@[other_at].var - 1] == Some(conflict_level)
                        &&& learnt@[other_at] != p
                    }
                },
                pivot is None ==> forall|k: int|
                    0 <= k < i ==> #[trigger] self.variable_decision_level@[learnt@[k].var - 1] != Some(conflict_level),
            decreases learnt@.len() - i,
        {
            let literal = learnt[i];
            proof {
                assert(learnt@.contains(learnt@[i as int]));
                assert(self.assignment@[literal.var - 1] is Some);
            }
            let level = self.decision_level(literal).unwrap();
            if level == conflict_level {
                count = count + 1;
                let ord = self.assignment_order(literal).unwrap();
                if pivot.is_none() || ord > best {
                    proof {
                        if pivot is Some {
                            assert(learnt@[pivot_at] != learnt@[i as int]);
                            other_at = pivot_at;
                        }
                        pivot_at = i as int;
                    }
                    pivot = Some(literal);
                    best = ord;
                } else {
                    proof {
                        assert(learnt@[pivot_at] != learnt@[i as int]);
                        other_at = i as int;
                    }
                }
            }
            i += 1;
        }
        proof {
            if let Some(p) = pivot {
                assert forall|x: Lit|
                    #[trigger] learnt@.contains(x) && self.variable_decision_level@[x.var - 1] == Some(conflict_level)
                        implies self.order@[x.var - 1]->0 <= self.order@[p.var - 1]->0 by {
                    let k = choose|k: int| 0 <= k < learnt@.len() && learnt@[k] == x;
                    assert(self.variable_decision_level@[learnt@[k].var - 1] == Some(conflict_level));
                }
                if count != 1 {
                    assert(learnt@.contains(learnt@[other_at]));
                } else {
                    assert forall|x: Lit|
                        #[trigger] learnt@.contains(x) && self.variable_decision_level@[x.var - 1] == Some(conflict_level)
                            implies x == p by {
                        let k = choose|k: int| 0 <= k < learnt@.len() && learnt@[k] == x;
                        assert(self.variable_decision_level@[learnt@[k].var - 1] == Some(conflict_level));
                    }
                }
            } else {
                assert forall|x: Lit|
                    #[trigger] learnt@.contains(x) implies self.variable_decision_level@[x.var - 1] != Some(conflict_level) by {
                    let k = choose|k: int| 0 <= k < learnt@.len() && learnt@[k] == x;
                    assert(self.variable_decision_level@[learnt@[k].var - 1] != Some(conflict_level));
                }
            }
        }
        (count, pivot)
    }

    /// Conflict analysis: starting from the conflicting clause, resolves on
    /// the most recently assigned literal of `conflict_level` with its
    /// antecedent until one literal of that level is left.
    #[verifier::rlimit(50)]
    fn analyze(&self, conflict: usize, conflict_level: usize) -> (learnt: Vec<Lit>)
        requires
            self.inv(),
            self.at_level(conflict_level as nat),
            self.no_false_below(conflict_level as nat),
            conflict_level > 0,
            conflict < self.formula@.len(),
            clause_false(self.assignment@, self.clauses()[conflict as int]),
        ensures
            entails(self.n(), self.input@, learnt@),
            self.all_false_in_range(learnt@),
            learnt@.no_duplicates(),
            exists|x: Lit|
                #[trigger] learnt@.contains(x) && self.variable_decision_level@[x.var - 1] == Some(conflict_level)
                    && forall|y: Lit| #[trigger] learnt@.contains(y) && self.variable_decision_level@[y.var - 1] == Some(conflict_level) ==> y == x,
    {
        let mut learnt = self.distinct_literals(conflict);
        proof {
            let c = self.clauses()[conflict as int];
            assert forall|x: Lit| #[trigger] learnt@.contains(x) implies lit_in_range(x, self.n()) && lit_false(self.assignment@, x) by {
                assert(c.contains(x));
                let i = choose|i: int| 0 <= i < c.len() && c[i] == x;
                assert(lit_false(self.assignment@, c[i]));
                assert(lit_in_range(c[i], self.n()));
            }
            assert(entails(self.n(), self.input@, c));
            assert forall|m: Seq<bool>| #[trigger] is_model(self.n(), m, self.input@) implies clause_holds(m, learnt@) by {
                lemma_clause_holds_contains(m, c);
                lemma_clause_holds_contains(m, learnt@);
                let x = choose|x: Lit| #[trigger] c.contains(x) && lit_holds(m, x);
                assert(learnt@.contains(x));
            }
            assert(!clause_false(self.below(conflict_level as nat), c));
            let i = choose|i: int| 0 <= i < c.len() && !#[trigger] lit_false(self.below(conflict_level as nat), c[i]);
            let x = c[i];
            assert(lit_false(self.assignment@, x));
            assert(lit_in_range(x, self.n()));
            let o = self.order@[x.var - 1]->0 as int;
            assert(self.trail@[o].0.var == x.var);
            assert(self.trail@[o].1 <= conflict_level);
            assert(self.variable_decision_level@[x.var - 1] == Some(conflict_level));
            assert(c.contains(x));
            assert(learnt@.contains(x));
        }
        let mut bound: usize = self.trail.len();
        loop
            invariant
                self.inv(),
                self.at_level(conflict_level as nat),
                entails(self.n(), self.input@, learnt@),
                self.all_false_in_range(learnt@),
                learnt@.no_duplicates(),
                exists|x: Lit| #[trigger] learnt@.contains(x) && self.variable_decision_level@[x.var - 1] == Some(conflict_level),
                bound <= self.trail@.len(),
                forall|x: Lit|
                    #[trigger] learnt@.contains(x) && self.variable_decision_level@[x.var - 1] == Some(conflict_level)
                        ==> self.order@[x.var - 1]->0 < bound,
            ensures
                entails(self.n(), self.input@, learnt@),
                self.all_false_in_range(learnt@),
                learnt@.no_duplicates(),
                exists|x: Lit|
                    #[trigger] learnt@.contains(x) && self.variable_decision_level@[x.var - 1] == Some(conflict_level)
                        && forall|y: Lit| #[trigger] learnt@.contains(y) && self.variable_decision_level@[y.var - 1] == Some(conflict_level) ==> y == x,
            decreases bound,
        {
            let (count, pivot) = self.find_pivot(&learnt, conflict_level);
            if count == 1 {
                proof {
                    let p = pivot->0;
                    assert(learnt@.contains(p) && self.variable_decision_level@[p.var - 1] == Some(conflict_level)
                        && forall|y: Lit| #[trigger] learnt@.contains(y) && self.variable_decision_level@[y.var - 1] == Some(conflict_level) ==> y == p);
                }
                break;
            }
            let p = pivot.unwrap();
            let v = p.var as usize - 1;
            let best = self.assignment_order(p).unwrap();
            proof {
                let a = self.assignment@;
                let q = choose|q: Lit|
                    #[trigger] learnt@.contains(q) && q != p && self.variable_decision_level@[q.var - 1] == Some(conflict_level);
                assert(learnt@.contains(p));
                assert(q.var != p.var);
                let o = self.order@[q.var - 1]->0;
                assert(self.trail@[o as int].0.var == q.var);
                assert(self.trail@[best as int].0.var == p.var);
                assert(o < best);
                assert(self.trail@[o as int].1 == conflict_level);
                assert(self.trail@[best as int].1 == conflict_level);
                if self.variable_antecedent@[v as int] is None {
                    assert(self.variable_antecedent@[self.trail@[best as int].0.var - 1] is None);
                    assert(self.trail@[o as int].1 <= self.trail@[best - 1].1);
                }
            }
            let c = self.variable_antecedent[v].unwrap();
            proof {
                assert(lit_in_range(p, self.n()));
                assert(self.justified(v as int));
            }
            let resolvent = self.resolve(&learnt, p, c);
            proof {
                let a = self.assignment@;
                let f = self.clauses();
                let d = f[c as int];
                assert(self.justified(v as int));
                assert(assigned_lit(a, v as int) == negated(p));
                assert forall|x: Lit| #[trigger] d.contains(x) implies lit_in_range(x, self.n())
                    && (x == negated(p) || (lit_false(a, x) && self.order@[x.var - 1]->0 < best)) by {
                    let i = choose|i: int| 0 <= i < d.len() && d[i] == x;
                    assert(lit_in_range(f[c as int][i], self.n()));
                    assert(d[i] == assigned_lit(a, v as int) || (lit_false(a, d[i]) && self.order@[d[i].var - 1]->0 < best));
                }
                assert forall|x: Lit| #[trigger] learnt@.contains(x) && x.var == p.var implies x == p by {
                    assert(lit_false(a, x));
                }
                assert forall|x: Lit| #[trigger] d.contains(x) && x.var == p.var implies x == negated(p) by {
                    if x != negated(p) {
                        assert(self.order@[x.var - 1]->0 < best);
                    }
                }
                assert forall|x: Lit| (learnt@.contains(x) || d.contains(x)) && x.var != p.var implies #[trigger] resolvent@.contains(x) by {
                }
                lemma_resolution_sound(self.n(), self.input@, learnt@, d, resolvent@, p);
                assert forall|x: Lit| #[trigger] resolvent@.contains(x) implies lit_in_range(x, self.n()) && lit_false(a, x) by {
                    if !learnt@.contains(x) {
                        assert(d.contains(x));
                    }
                }
                assert forall|x: Lit|
                    #[trigger] resolvent@.contains(x) && self.variable_decision_level@[x.var - 1] == Some(conflict_level)
                        implies self.order@[x.var - 1]->0 < best by {
                    if learnt@.contains(x) {
                        let k = choose|k: int| 0 <= k < learnt@.len() && learnt@[k] == x;
                        assert(self.variable_decision_level@[learnt@[k].var - 1] == Some(conflict_level));
                        let o = self.order@[x.var - 1]->0;
                        assert(self.trail@[o as int].0.var == x.var);
                        assert(self.trail@[best as int].0.var == p.var);
                    } else {
                        assert(d.contains(x));
                    }
                }
                let q = choose|q: Lit|
                    #[trigger] learnt@.contains(q) && q != p && self.variable_decision_level@[q.var - 1] == Some(conflict_level);
                assert(q.var != p.var) by {
                    assert(lit_false(a, q) && lit_false(a, p));
                }
                assert(resolvent@.contains(q));
            }
            learnt = resolvent;
            bound = best;
        }
        learnt
    }

    /// Appends a learned clause to the formula.
    fn learn(&mut self, clause: Vec<Lit>)
        requires
            old(self).inv(),
            old(self).all_false_in_range(clause@),
            entails(old(self).n(), old(self).input@, clause@),
        ensures
            final(self).inv(),
            final(self).formula@ == old(self).formula@.push(clause),
            final(self).assignment@ == old(self).assignment@,
            final(self).trail@ == old(self).trail@,
            final(self).order@ == old(self).order@,
            final(self).variable_decision_level@ == old(self).variable_decision_level@,
            final(self).variable_antecedent@ == old(self).variable_antecedent@,
            final(self).input == old(self).input,
            final(self).variable_count == old(self).variable_count,
    {
        let ghost old_self = *self;
        let ghost c = clause@;
        self.formula.push(clause);
        proof {
            let f0 = old_self.clauses();
            let f = self.clauses();
            assert(f =~= f0.push(c));
            assert forall|j: int, i: int| 0 <= j < f.len() && 0 <= i < f[j].len() implies #[trigger] lit_in_range(f[j][i], self.n()) by {
                if j == f0.len() {
                    assert(c.contains(c[i]));
                } else {
                    assert(f[j] == f0[j]);
                }
            }
            assert forall|v: int| 0 <= v < self.n() implies #[trigger] self.justified(v) by {
                assert(old_self.justified(v));
                if let Some(a) = self.variable_antecedent@[v] {
                    assert(f[a as int] == f0[a as int]);
                }
            }
            assert forall|j: int| 0 <= j < self.input@.len() implies self.clauses()[j] == #[trigger] self.input@[j] by {
                assert(f0[j] == old_self.input@[j]);
            }
            assert forall|j: int| 0 <= j < f.len() implies entails(self.n(), self.input@, #[trigger] f[j]) by {
                if j < f0.len() {
                    assert(f[j] == f0[j]);
                }
            }
            assert(self.shape());
        }
    }

    /// Analyzes the conflict on clause `conflict` found at `conflict_level`,
    /// learns the resulting clause, and backtracks to the highest level of
    /// its literals below `conflict_level` (0 if none), which it returns.
    #[verifier::rlimit(80)]
    fn conflict_analysis_and_backtrack(&mut self, conflict: usize, conflict_level: usize) -> (target: usize)
        requires
            old(self).inv(),
            old(self).at_level(conflict_level as nat),
            old(self).no_false_below(conflict_level as nat),
            conflict_level > 0,
            conflict < old(self).formula@.len(),
            clause_false(old(self).assignment@, old(self).clauses()[conflict as int]),
        ensures
            final(self).inv(),
            final(self).at_level(target as nat),
            final(self).no_false_below(target as nat),
            exists|j: int| 0 <= j < final(self).clauses().len() && #[trigger] is_unit(final(self).assignment@, final(self).clauses()[j]),
            weight(final(self).trail@, final(self).n()) + pow(final(self).n() + 1int, (final(self).n() - target) as nat)
                > weight(old(self).trail@, old(self).n()),
            target < conflict_level,
            final(self).input == old(self).input,
            final(self).variable_count == old(self).variable_count,
            final(self).formula@.len() == old(self).formula@.len() + 1,
            final(self).formula@ == old(self).formula@.push(final(self).formula@[old(self).formula@.len() as int]),
            ({
                let c = final(self).clauses()[old(self).clauses().len() as int];
                let lv = old(self).variable_decision_level@;
                &&& entails(old(self).n(), old(self).input@, c)
                &&& forall|x: Lit| #[trigger] c.contains(x) ==> lit_in_range(x, old(self).n()) && lit_false(old(self).assignment@, x)
                &&& exists|x: Lit|
                    #[trigger] c.contains(x) && lv[x.var - 1] == Some(conflict_level) && forall|y: Lit|
                        #[trigger] c.contains(y) && lv[y.var - 1] == Some(conflict_level) ==> y == x
                &&& forall|x: Lit| #[trigger] c.contains(x) && lv[x.var - 1] != Some(conflict_level) ==> lv[x.var - 1]->0 <= target
                &&& target == 0 || exists|x: Lit| #[trigger] c.contains(x) && lv[x.var - 1] == Some(target)
                &&& is_unit(final(self).assignment@, c)
            }),
            final(self).trail@ == old(self).trail@.take(final(self).trail@.len() as int),
            forall|v: int|
                0 <= v < old(self).n() && #[trigger] old(self).variable_decision_level@[v] is Some
                    && old(self).variable_decision_level@[v]->0 <= target ==> {
                    &&& final(self).assignment@[v] == old(self).assignment@[v]
                    &&& final(self).order@[v] == old(self).order@[v]
                    &&& final(self).variable_decision_level@[v] == old(self).variable_decision_level@[v]
                    &&& final(self).variable_antecedent@[v] == old(self).variable_antecedent@[v]
                },
            forall|v: int|
                0 <= v < old(self).n() && #[trigger] old(self).variable_decision_level@[v] is Some
                    && old(self).variable_decision_level@[v]->0 > target ==> {
                    &&& final(self).assignment@[v] is None
                    &&& final(self).order@[v] is None
                    &&& final(self).variable_decision_level@[v] is None
                    &&& final(self).variable_antecedent@[v] is None
                },
    {
        let learnt = self.analyze(conflict, conflict_level);
        let ghost cl_lit = choose|x: Lit|
            #[trigger] learnt@.contains(x) && self.variable_decision_level@[x.var - 1] == Some(conflict_level)
                && forall|y: Lit| #[trigger] learnt@.contains(y) && self.variable_decision_level@[y.var - 1] == Some(conflict_level) ==> y == x;
        let mut target: usize = 0;
        let mut i: usize = 0;
        while i < learnt.len()
            invariant
                self.inv(),
                self.at_level(conflict_level as nat),
                self.all_false_in_range(learnt@),
                i <= learnt@.len(),
                target < conflict_level,
                target == 0 || exists|k: int| 0 <= k < i && self.variable_decision_level@[(#[trigger] learnt@[k]).var - 1] == Some(target),
                forall|k: int|
                    0 <= k < i && #[trigger] self.variable_decision_level@[learnt@[k].var - 1] != Some(conflict_level)
                        ==> self.variable_decision_level@[learnt@[k].var - 1]->0 <= target,
            decreases learnt@.len() - i,
        {
            let literal = learnt[i];
            proof {
                assert(learnt@.contains(learnt@[i as int]));
                let v = literal.var - 1;
                assert(self.assignment@[v] is Some);
                let o = self.order@[v]->0 as int;
                assert(self.trail@[o].0.var == v + 1);
                assert(self.trail@[o].1 <= conflict_level);
            }
            let level = self.decision_level(literal).unwrap();
            if level != conflict_level && level > target {
                target = level;
            }
            i += 1;
        }
        let ghost witness = if target == 0 {
            arbitrary()
        } else {
            learnt@[choose|k: int| 0 <= k < learnt@.len() && self.variable_decision_level@[(#[trigger] learnt@[k]).var - 1] == Some(target)]
        };
        proof {
            if target > 0 {
                assert(learnt@.contains(witness));
            }
            assert forall|x: Lit|
                #[trigger] learnt@.contains(x) && self.variable_decision_level@[x.var - 1] != Some(conflict_level)
                    implies self.variable_decision_level@[x.var - 1]->0 <= target by {
                let k = choose|k: int| 0 <= k < learnt@.len() && learnt@[k] == x;
                assert(self.variable_decision_level@[learnt@[k].var - 1] != Some(conflict_level));
            }
        }
        let ghost before = *self;
        let ghost learnt_seq = learnt@;
        self.learn(learnt);
        let ghost learned = *self;
        self.backtrack_to_level(target);
        proof {
            let a = self.assignment@;
            let n = self.n();
            crate::assignment::lemma_num_assigned_bound(before.assignment@);
            let kc = choose|k: int| 0 <= k < before.trail@.len() && (#[trigger] before.trail@[k]).1 == conflict_level;
            assert(before.trail@[kc].1 <= kc + 1);
            assert(self.clauses()[before.clauses().len() as int] == learnt_seq);
            assert(learnt_seq.contains(cl_lit));
            assert(before.variable_decision_level@[cl_lit.var - 1] == Some(conflict_level));
            assert(a[cl_lit.var - 1] is None);
            assert forall|i: int| 0 <= i < learnt_seq.len() implies learnt_seq[i] == cl_lit || lit_false(a, learnt_seq[i]) by {
                let x = learnt_seq[i];
                assert(learnt_seq.contains(x));
                if x != cl_lit {
                    assert(before.variable_decision_level@[x.var - 1] != Some(conflict_level));
                    assert(before.assignment@[x.var - 1] is Some);
                    assert(before.variable_decision_level@[x.var - 1]->0 <= target);
                }
            }
            assert(is_unit(a, self.clauses()[before.clauses().len() as int]));
            assert forall|k: int| self.trail@.len() <= k < before.trail@.len() implies target < (#[trigger] before.trail@[k]).1 <= n by {
                assert(before.trail@[k].1 <= k + 1);
            }
            lemma_weight_drop(before.trail@, self.trail@.len() as int, n, target as nat);
        }
        proof {
            assert(learned.below(0) == before.below(0));
            assert forall|level: nat, j: int|
                1 <= level <= target && 0 <= j < self.clauses().len() implies !#[trigger] clause_false(self.below(level), self.clauses()[j]) by {
                assert(learned.below(level) =~= before.below(level));
                assert(self.below(level) == before.below(level));
                if j < before.clauses().len() {
                    assert(self.clauses()[j] == before.clauses()[j]);
                } else {
                    assert(self.clauses()[j] == learnt@);
                    let i = choose|i: int| 0 <= i < learnt@.len() && learnt@[i] == cl_lit;
                    assert(!lit_false(self.below(level), learnt@[i]));
                }
            }
            assert(self.formula@ =~= before.formula@.push(self.formula@[before.formula@.len() as int]));
            if target > 0 {
                let v = witness.var - 1;
                assert(self.variable_decision_level@[v] == Some(target));
                assert(self.assignment@[v] is Some);
                let o = self.order@[v]->0 as int;
                assert(self.trail@[o].0.var == v + 1);
                assert(self.trail@[o].1 == target);
            }
        }
        target
    }

    /// One step of the search: propagates at `decision_level`, then, on a
    /// conflict, learns and backtracks, and otherwise decides.
    #[verifier::rlimit(50)]
    fn step(&mut self, decision_level: usize) -> (r: Step)
        requires
            old(self).inv(),
            old(self).at_level(decision_level as nat),
            old(self).no_false_below(decision_level as nat),
        ensures
            final(self).input == old(self).input,
            final(self).variable_count == old(self).variable_count,
            r matches Step::Next(next) ==> {
                &&& final(self).inv()
                &&& final(self).at_level(next as nat)
                &&& final(self).no_false_below(next as nat)
                &&& final(self).potential(next as nat) > old(self).potential(decision_level as nat)
            },
            r is Refuted ==> !satisfiable(old(self).n(), old(self).input@),
            r is Satisfied ==> {
                &&& final(self).inv()
                &&& final(self).trail@.len() == final(self).n()
                &&& forall|j: int| 0 <= j < final(self).clauses().len() ==> !clause_false(final(self).assignment@, #[trigger] final(self).clauses()[j])
            },
    {
        let ghost n = self.n();
        let ghost phi0 = self.potential(decision_level as nat);
        let propagated = self.unit_propagate(decision_level);
        let ghost w1 = weight(self.trail@, n);
        proof {
            lemma_pow_positive(n + 1int, (n - decision_level) as nat);
            assert(w1 >= phi0);
        }
        match propagated {
            Some(conflict) => {
                if decision_level == 0 {
                    proof {
                        lemma_root_conflict(*self, conflict as int);
                    }
                    return Step::Refuted;
                }
                let next = self.conflict_analysis_and_backtrack(conflict, decision_level);
                proof {
                    assert(self.potential(next as nat) > w1);
                }
                Step::Next(next)
            },
            None => {
                if self.all_variables_assigned() {
                    return Step::Satisfied;
                }
                proof {
                    crate::assignment::lemma_num_assigned_bound(self.assignment@);
                }
                let next = self.decide(decision_level);
                proof {
                    lemma_pow_positive(n + 1int, (n - next) as nat);
                    assert(self.potential(next as nat) > w1);
                }
                Step::Next(next)
            },
        }
    }

    /// Makes the next decision, one level above `decision_level`, which it
    /// returns.
    fn decide(&mut self, decision_level: usize) -> (next: usize)
        requires
            old(self).inv(),
            old(self).at_level(decision_level as nat),
            old(self).trail@.len() < old(self).n(),
            forall|j: int| 0 <= j < old(self).clauses().len() ==> !clause_false(old(self).assignment@, #[trigger] old(self).clauses()[j]),
        ensures
            final(self).inv(),
            next == decision_level + 1,
            final(self).at_level(next as nat),
            final(self).no_false_below(next as nat),
            weight(final(self).trail@, final(self).n()) > weight(old(self).trail@, old(self).n()),
            final(self).input == old(self).input,
            final(self).variable_count == old(self).variable_count,
    {
        proof {
            crate::assignment::lemma_num_assigned_bound(self.assignment@);
            if decision_level > 0 {
                let k = choose|k: int| 0 <= k < self.trail@.len() && (#[trigger] self.trail@[k]).1 == decision_level;
                assert(self.trail@[k].1 <= k + 1);
            }
        }
        let literal = self.pick_branching_variable();
        let next = decision_level + 1;
        let ghost before = *self;
        self.assign_literal(literal, next, None);
        proof {
            let t = self.trail@;
            assert(t[t.len() - 1].1 == next);
            assert forall|k: int| 0 <= k < t.len() implies (#[trigger] t[k]).1 <= next by {
                if k < t.len() - 1 {
                    assert(t[k] == before.trail@[k]);
                }
            }
            assert forall|level: nat, j: int|
                1 <= level <= next && 0 <= j < self.clauses().len() implies !#[trigger] clause_false(self.below(level), self.clauses()[j]) by {
                if clause_false(self.below(level), self.clauses()[j]) {
                    assert(self.below(level) == before.below(level));
                    assert(self.clauses()[j] == before.clauses()[j]);
                    lemma_below_sub(before, level, j);
                }
            }
            assert(t.drop_last() == before.trail@);
            lemma_pow_positive(self.n() + 1int, (self.n() - next) as nat);
        }
        next
    }

    /// Whether every variable is assigned.
    fn all_variables_assigned(&self) -> (r: bool)
        requires
            self.inv(),
        ensures
            r == (self.trail@.len() == self.n()),
    {
        self.variable_count == self.assignment.size()
    }

    /// The literal to branch on: the first unassigned literal of the first
    /// clause that is not satisfied; when every clause is satisfied, the
    /// lowest unassigned variable, positive.
    fn pick_branching_variable(&self) -> (r: Lit)
        requires
            self.inv(),
            self.trail@.len() < self.n(),
        ensures
            lit_in_range(r, self.n()),
            value_of(self.assignment@, r) is None,
            forall|j: int|
                0 <= j < self.clauses().len() && #[trigger] open_clause(self.assignment@, self.clauses()[j])
                    && (forall|k: int| 0 <= k < j ==> !open_clause(self.assignment@, #[trigger] self.clauses()[k]))
                    ==> first_unassigned(self.assignment@, self.clauses()[j], r),
            (forall|j: int| 0 <= j < self.clauses().len() ==> !#[trigger] open_clause(self.assignment@, self.clauses()[j]))
                ==> r.positive && forall|w: int| 0 <= w < r.var - 1 ==> #[trigger] self.assignment@[w] is Some,
    {
        let mut ci: usize = 0;
        while ci < self.formula.len()
            invariant
                self.inv(),
                forall|k: int| 0 <= k < ci ==> !#[trigger] open_clause(self.assignment@, self.clauses()[k]),
            decreases self.formula@.len() - ci,
        {
            let ghost c = self.clauses()[ci as int];
            if !self.is_sat(ci) {
                let clause = &self.formula[ci];
                let mut i: usize = 0;
                while i < clause.len()
                    invariant
                        self.inv(),
                        ci < self.formula@.len(),
                        *clause == self.formula@[ci as int],
                        c == self.clauses()[ci as int],
                        i <= clause@.len(),
                        forall|k: int| 0 <= k < i ==> value_of(self.assignment@, #[trigger] c[k]) is Some,
                        forall|k: int| 0 <= k < c.len() ==> !#[trigger] lit_true(self.assignment@, c[k]),
                        forall|k: int| 0 <= k < ci ==> !#[trigger] open_clause(self.assignment@, self.clauses()[k]),
                    decreases clause@.len() - i,
                {
                    proof {
                        assert(self.clauses()[ci as int][i as int] == clause@[i as int]);
                        assert(lit_in_range(self.clauses()[ci as int][i as int], self.n()));
                    }
                    if self.assignment.is_unassigned(clause[i]) {
                        proof {
                            assert(c[i as int] == clause[i as int]);
                            assert(first_unassigned(self.assignment@, c, clause[i as int]));
                            assert(open_clause(self.assignment@, c));
                            assert forall|j: int|
                                0 <= j < self.clauses().len() && #[trigger] open_clause(self.assignment@, self.clauses()[j])
                                    && (forall|k: int| 0 <= k < j ==> !open_clause(self.assignment@, #[trigger] self.clauses()[k]))
                                    implies first_unassigned(self.assignment@, self.clauses()[j], clause[i as int]) by {
                                if j > ci {
                                    assert(!open_clause(self.assignment@, self.clauses()[ci as int]));
                                } else if j < ci {
                                    assert(!open_clause(self.assignment@, self.clauses()[j]));
                                }
                            }
                        }
                        return clause[i];
                    }
                    i += 1;
                }
                proof {
                    assert(!open_clause(self.assignment@, c));
                }
            }
            ci += 1;
        }
        proof {
            lemma_some_unassigned(self.assignment@);
        }
        let mut v: usize = 0;
        loop
            invariant
                self.inv(),
                v < self.n(),
                exists|w: int| v <= w < self.n() && #[trigger] self.assignment@[w] is None,
                forall|w: int| 0 <= w < v ==> #[trigger] self.assignment@[w] is Some,
                forall|k: int| 0 <= k < self.clauses().len() ==> !#[trigger] open_clause(self.assignment@, self.clauses()[k]),
            decreases self.n() - v,
        {
            let literal = Lit { var: v as u64 + 1, positive: true };
            if self.assignment.is_unassigned(literal) {
                return literal;
            }
            proof {
                let w = choose|w: int| v <= w < self.n() && #[trigger] self.assignment@[w] is None;
                assert(w != v);
            }
            v += 1;
        }
    }
}

/// Every literal on the trail of a search with no decision is true in each
/// model of the input clauses: it was forced by a clause whose other
/// literals were already false.
proof fn lemma_root_forced(s: Search, m: Seq<bool>, k: int)
    requires
        s.inv(),
        s.at_level(0),
        is_model(s.n(), m, s.input@),
        0 <= k < s.trail@.len(),
    ensures
        lit_holds(m, s.trail@[k].0),
    decreases k,
{
    let a = s.assignment@;
    let f = s.clauses();
    let l = s.trail@[k].0;
    let v = l.var - 1;
    assert(s.trail@[k].1 <= 0);
    assert(s.variable_decision_level@[v] == Some(0usize));
    let c = s.variable_antecedent@[v]->0 as int;
    assert(s.justified(v));
    assert(assigned_lit(a, v) == l);
    assert(entails(s.n(), s.input@, f[c]));
    assert(clause_holds(m, f[c]));
    let i = choose|i: int| 0 <= i < f[c].len() && #[trigger] lit_holds(m, f[c][i]);
    let x = f[c][i];
    if x != l {
        assert(lit_false(a, x));
        assert(lit_in_range(x, s.n()));
        let o = s.order@[x.var - 1]->0 as int;
        assert(s.trail@[o].0.var == x.var);
        lemma_root_forced(s, m, o);
    }
}

/// A search with no decision that reaches a false clause proves the input
/// clauses unsatisfiable.
proof fn lemma_root_conflict(s: Search, conflict: int)
    requires
        s.inv(),
        s.at_level(0),
        0 <= conflict < s.clauses().len(),
        clause_false(s.assignment@, s.clauses()[conflict]),
    ensures
        !satisfiable(s.n(), s.input@),
{
    if satisfiable(s.n(), s.input@) {
        let m = choose|m: Seq<bool>| #[trigger] is_model(s.n(), m, s.input@);
        let c = s.clauses()[conflict];
        assert(entails(s.n(), s.input@, c));
        let i = choose|i: int| 0 <= i < c.len() && #[trigger] lit_holds(m, c[i]);
        let x = c[i];
        assert(lit_false(s.assignment@, x));
        assert(lit_in_range(x, s.n()));
        let o = s.order@[x.var - 1]->0 as int;
        assert(s.trail@[o].0.var == x.var);
        lemma_root_forced(s, m, o);
    }
}

/// A search that has assigned every variable with no false clause has found
/// a model of the input clauses.
proof fn lemma_complete_model(s: Search)
    requires
        s.inv(),
        s.trail@.len() == s.n(),
        forall|j: int| 0 <= j < s.clauses().len() ==> !clause_false(s.assignment@, #[trigger] s.clauses()[j]),
    ensures
        forall|v: int| 0 <= v < s.n() ==> #[trigger] s.assignment@[v] is Some,
        is_model(s.n(), model_of(s.assignment@), s.input@),
{
    let a = s.assignment@;
    assert forall|v: int| 0 <= v < s.n() implies #[trigger] a[v] is Some by {
        if a[v] is None {
            lemma_num_assigned_lt(a, v);
        }
    }
    let m = model_of(a);
    assert forall|j: int| 0 <= j < s.input@.len() implies #[trigger] clause_holds(m, s.input@[j]) by {
        let c = s.clauses()[j];
        assert(!clause_false(a, c));
        let i = choose|i: int| 0 <= i < c.len() && !#[trigger] lit_false(a, c[i]);
        assert(lit_in_range(c[i], s.n()));
        assert(a[c[i].var - 1] is Some);
        assert(lit_holds(m, c[i]));
    }
}

/// What was assigned below a level is part of the valuation: a clause false
/// under it is false under the valuation.
proof fn lemma_below_sub(s: Search, level: nat, j: int)
    requires
        s.inv(),
        0 <= j < s.clauses().len(),
        clause_false(s.below(level), s.clauses()[j]),
    ensures
        clause_false(s.assignment@, s.clauses()[j]),
{
    let c = s.clauses()[j];
    assert forall|i: int| 0 <= i < c.len() implies #[trigger] lit_false(s.assignment@, c[i]) by {
        assert(lit_false(s.below(level), c[i]));
        assert(lit_in_range(c[i], s.n()));
    }
}

/// Dropping trail entries above level `target` loses less weight than one
/// entry at that level has.
proof fn lemma_weight_drop(t: Seq<(Lit, usize)>, m: int, n: nat, target: nat)
    requires
        0 <= m <= t.len(),
        t.len() <= n,
        target < n,
        forall|k: int| m <= k < t.len() ==> target < (#[trigger] t[k]).1 <= n,
    ensures
        weight(t, n) - weight(t.take(m), n) <= (t.len() - m) * pow(n + 1int, (n - target - 1) as nat),
        weight(t, n) - weight(t.take(m), n) < pow(n + 1int, (n - target) as nat),
    decreases t.len(),
{
    let p = pow(n + 1int, (n - target - 1) as nat);
    lemma_pow_positive(n + 1int, (n - target - 1) as nat);
    if t.len() == m {
        assert(t.take(m) =~= t);
    } else {
        let d = t.drop_last();
        assert(d.take(m) =~= t.take(m));
        lemma_weight_drop(d, m, n, target);
        let e = (n - t.last().1) as nat;
        assert(t.last() == t[t.len() - 1]);
        lemma_pow_increases((n + 1) as nat, e, (n - target - 1) as nat);
        assert((t.len() - m) * p == (d.len() - m) * p + p) by (nonlinear_arith)
            requires
                t.len() == d.len() + 1,
        ;
    }
    assert((t.len() - m) * p <= n * p) by (nonlinear_arith)
        requires
            t.len() - m <= n,
            p > 0,
    ;
    assert(pow(n + 1int, (n - target) as nat) == (n + 1) * p) by {
        reveal(pow);
        assert(((n - target) as nat - 1) as nat == (n - target - 1) as nat);
    }
    assert(n * p < (n + 1) * p) by (nonlinear_arith)
        requires
            p > 0,
    ;
}

/// A trail of levels at most `n` weighs at most `len * (n + 1)^n`.
proof fn lemma_weight_upper(t: Seq<(Lit, usize)>, n: nat)
    requires
        forall|k: int| 0 <= k < t.len() ==> (#[trigger] t[k]).1 <= n,
    ensures
        0 <= weight(t, n) <= t.len() * pow(n + 1int, n),
    decreases t.len(),
{
    let p = pow(n + 1int, n);
    if t.len() > 0 {
        let d = t.drop_last();
        assert forall|k: int| 0 <= k < d.len() implies (#[trigger] d[k]).1 <= n by {
            assert(d[k] == t[k]);
        }
        lemma_weight_upper(d, n);
        assert(t.last() == t[t.len() - 1]);
        lemma_pow_increases((n + 1) as nat, (n - t.last().1) as nat, n);
        lemma_pow_positive(n + 1int, (n - t.last().1) as nat);
        assert(t.len() * p == d.len() * p + p) by (nonlinear_arith)
            requires
                t.len() == d.len() + 1,
        ;
        assert(pow(n + 1int, (n - t.last().1) as nat) <= p);
        assert(weight(t, n) == weight(d, n) + pow(n + 1int, (n - t.last().1) as nat));
    }
}

/// The potential of a search is at most `(n + 1)^(n + 1)`.
proof fn lemma_potential_bound(s: Search, dl: nat)
    requires
        s.inv(),
        s.at_level(dl),
    ensures
        0 <= s.potential(dl) <= pow(s.n() + 1int, s.n() + 1),
{
    let n = s.n();
    let p = pow(n + 1int, n);
    crate::assignment::lemma_num_assigned_bound(s.assignment@);
    assert forall|k: int| 0 <= k < s.trail@.len() implies (#[trigger] s.trail@[k]).1 <= n by {
        assert(s.trail@[k].1 <= k + 1);
    }
    lemma_weight_upper(s.trail@, n);
    lemma_pow_positive(n + 1int, n);
    if dl > 0 {
        let k = choose|k: int| 0 <= k < s.trail@.len() && (#[trigger] s.trail@[k]).1 == dl;
        assert(s.trail@[k].1 <= k + 1);
    }
    lemma_pow_increases((n + 1) as nat, (n - dl) as nat, n);
    lemma_pow_positive(n + 1int, (n - dl) as nat);
    assert(s.trail@.len() * p <= n * p) by (nonlinear_arith)
        requires
            s.trail@.len() <= n,
            p > 0,
    ;
    assert(pow(n + 1int, n + 1) == (n + 1) * p) by {
        reveal(pow);
    }
    assert((n + 1) * p == n * p + p) by (nonlinear_arith);
}

/// Fresh per-variable records, all empty.
fn nones(n: usize) -> (r: Vec<Option<usize>>)
    ensures
        r@ == Seq::new(n as nat, |i: int| None::<usize>),
{
    let mut out: Vec<Option<usize>> = Vec::new();
    let mut i: usize = 0;
    while i < n
        invariant
            i <= n,
            out@ == Seq::new(i as nat, |k: int| None::<usize>),
        decreases n - i,
    {
        out.push(None);
        proof {
            assert(out@ =~= Seq::new((i + 1) as nat, |k: int| None::<usize>));
        }
        i += 1;
    }
    out
}

/// Whether `v` holds `l`.
fn contains_lit(v: &Vec<Lit>, l: Lit) -> (r: bool)
    ensures
        r == v@.contains(l),
{
    let mut i: usize = 0;
    while i < v.len()
        invariant
            i <= v@.len(),
            forall|k: int| 0 <= k < i ==> v@[k] != l,
        decreases v@.len() - i,
    {
        if v[i] == l {
            assert(v@[i as int] == l);
            return true;
        }
        i += 1;
    }
    false
}

/// A sequence with `l` pushed holds exactly what it held, and `l`.
proof fn lemma_push_contains(s: Seq<Lit>, l: Lit, x: Lit)
    ensures
        s.push(l).contains(x) <==> (s.contains(x) || x == l),
{
    let t = s.push(l);
    if t.contains(x) {
        let k = choose|k: int| 0 <= k < t.len() && t[k] == x;
        if k < s.len() {
            assert(s[k] == x);
        }
    }
    if s.contains(x) {
        let k = choose|k: int| 0 <= k < s.len() && s[k] == x;
        assert(t[k] == x);
    }
    if x == l {
        assert(t[s.len() as int] == l);
    }
}

/// While fewer variables than all are assigned, some one is unassigned.
proof fn lemma_some_unassigned(s: Seq<Option<bool>>)
    requires
        num_assigned(s) < s.len(),
    ensures
        exists|w: int| 0 <= w < s.len() && #[trigger] s[w] is None,
    decreases s.len(),
{
    if s.last() is Some {
        lemma_some_unassigned(s.drop_last());
        let w = choose|w: int| 0 <= w < s.drop_last().len() && #[trigger] s.drop_last()[w] is None;
        assert(s[w] is None);
    } else {
        assert(s[s.len() - 1] is None);
    }
}

/// Pushing a literal that is not there keeps a sequence free of repeats.
proof fn lemma_push_distinct(s: Seq<Lit>, l: Lit)
    requires
        s.no_duplicates(),
        !s.contains(l),
    ensures
        s.push(l).no_duplicates(),
{
    let t = s.push(l);
    assert forall|i: int, j: int| 0 <= i < t.len() && 0 <= j < t.len() && i != j implies t[i] != t[j] by {
        if i == s.len() {
            assert(t[j] == s[j]);
        } else if j == s.len() {
            assert(t[i] == s[i]);
        } else {
            assert(t[i] == s[i] && t[j] == s[j]);
        }
    }
}

/// While some variable is unassigned, fewer than all are.
proof fn lemma_num_assigned_lt(s: Seq<Option<bool>>, i: int)
    requires
        0 <= i < s.len(),
        s[i] is None,
    ensures
        num_assigned(s) < s.len(),
    decreases s.len(),
{
    crate::assignment::lemma_num_assigned_bound(s.drop_last());
    if i < s.len() - 1 {
        lemma_num_assigned_lt(s.drop_last(), i);
    }
}

} // verus!
