use vstd::prelude::*;

use crate::lit::{negated, Lit};

verus! {

/// The clause sequences of a list of clause vectors.
pub open spec fn clause_seqs(cs: Seq<Vec<Lit>>) -> Seq<Seq<Lit>> {
    cs.map_values(|c: Vec<Lit>| c@)
}

/// Whether the literal `l` names a variable in `[1, n]`.
pub open spec fn lit_in_range(l: Lit, n: nat) -> bool {
    1 <= l.var <= n
}

/// Whether every literal of every clause names a variable in `[1, n]`.
pub open spec fn clauses_in_range(f: Seq<Seq<Lit>>, n: nat) -> bool {
    forall|j: int, i: int|
        0 <= j < f.len() && 0 <= i < f[j].len() ==> #[trigger] lit_in_range(f[j][i], n)
}

/// Under the total valuation `m` (variable `v` has value `m[v - 1]`),
/// the literal `l` is true.
pub open spec fn lit_holds(m: Seq<bool>, l: Lit) -> bool {
    m[l.var - 1] == l.positive
}

/// Under `m` some literal of the clause `c` is true.
pub open spec fn clause_holds(m: Seq<bool>, c: Seq<Lit>) -> bool {
    exists|i: int| 0 <= i < c.len() && #[trigger] lit_holds(m, c[i])
}

/// Under `m` every clause of `f` holds.
pub open spec fn formula_holds(m: Seq<bool>, f: Seq<Seq<Lit>>) -> bool {
    forall|j: int| 0 <= j < f.len() ==> #[trigger] clause_holds(m, f[j])
}

/// `m` is a valuation of `n` variables under which `f` holds.
pub open spec fn is_model(n: nat, m: Seq<bool>, f: Seq<Seq<Lit>>) -> bool {
    m.len() == n && formula_holds(m, f)
}

/// Some valuation of `n` variables satisfies `f`.
pub open spec fn satisfiable(n: nat, f: Seq<Seq<Lit>>) -> bool {
    exists|m: Seq<bool>| #[trigger] is_model(n, m, f)
}

/// Every model of `f` over `n` variables satisfies the clause `c`.
pub open spec fn entails(n: nat, f: Seq<Seq<Lit>>, c: Seq<Lit>) -> bool {
    forall|m: Seq<bool>| #[trigger] is_model(n, m, f) ==> clause_holds(m, c)
}

/// A clause holds under `m` exactly when one of the literals it contains does.
pub proof fn lemma_clause_holds_contains(m: Seq<bool>, c: Seq<Lit>)
    ensures
        clause_holds(m, c) <==> exists|x: Lit| #[trigger] c.contains(x) && lit_holds(m, x),
{
    if clause_holds(m, c) {
        let i = choose|i: int| 0 <= i < c.len() && #[trigger] lit_holds(m, c[i]);
        assert(c.contains(c[i]));
    }
    if exists|x: Lit| #[trigger] c.contains(x) && lit_holds(m, x) {
        let x = choose|x: Lit| #[trigger] c.contains(x) && lit_holds(m, x);
        let i = choose|i: int| 0 <= i < c.len() && c[i] == x;
        assert(lit_holds(m, c[i]));
    }
}

/// Resolution is sound: if a formula entails a clause `c` whose only literal
/// on the variable of `p` is `p`, and a clause `d` whose only literal on that
/// variable is its complement, then it entails every clause `r` that keeps
/// all the other literals of `c` and `d`.
pub proof fn lemma_resolution_sound(n: nat, f: Seq<Seq<Lit>>, c: Seq<Lit>, d: Seq<Lit>, r: Seq<Lit>, p: Lit)
    requires
        entails(n, f, c),
        entails(n, f, d),
        forall|x: Lit| #[trigger] c.contains(x) && x.var == p.var ==> x == p,
        forall|x: Lit| #[trigger] d.contains(x) && x.var == p.var ==> x == negated(p),
        forall|x: Lit| (c.contains(x) || d.contains(x)) && x.var != p.var ==> #[trigger] r.contains(x),
    ensures
        entails(n, f, r),
{
    assert forall|m: Seq<bool>| #[trigger] is_model(n, m, f) implies clause_holds(m, r) by {
        lemma_clause_holds_contains(m, c);
        lemma_clause_holds_contains(m, d);
        lemma_clause_holds_contains(m, r);
        let xc = choose|x: Lit| #[trigger] c.contains(x) && lit_holds(m, x);
        let xd = choose|x: Lit| #[trigger] d.contains(x) && lit_holds(m, x);
        if xc.var != p.var {
            assert(r.contains(xc));
        } else {
            assert(xc == p);
            if xd.var == p.var {
                assert(xd == negated(p));
                assert(false);
            }
            assert(r.contains(xd));
        }
    }
}

/// A formula in conjunctive normal form: a number of variables and a list of
/// clauses whose literals all name one of those variables.
pub struct CnfFormula {
    num_vars: usize,
    clauses: Vec<Vec<Lit>>,
}

/// The input is not a formula in conjunctive normal form over its declared
/// variables.
#[derive(Debug, PartialEq, Eq, Structural)]
pub struct UnknownFormulaFormat;

/// A clause of `(variable, positive)` pairs names variables in `[1, n]`.
pub open spec fn pairs_in_range(c: Seq<(u64, bool)>, n: nat) -> bool {
    forall|i: int| 0 <= i < c.len() ==> 1 <= #[trigger] c[i].0 <= n
}

/// The literal of a `(variable, positive)` pair.
pub open spec fn lit_of_pair(p: (u64, bool)) -> Lit {
    Lit { var: p.0, positive: p.1 }
}

impl CnfFormula {
    #[verifier::type_invariant]
    spec fn inv(self) -> bool {
        &&& self.num_vars <= usize::MAX / 2
        &&& clauses_in_range(clause_seqs(self.clauses@), self.num_vars as nat)
    }

    /// The number of variables.
    pub closed spec fn spec_num_vars(self) -> nat {
        self.num_vars as nat
    }

    /// The clauses, in order.
    pub closed spec fn spec_clauses(self) -> Seq<Seq<Lit>> {
        clause_seqs(self.clauses@)
    }

    /// The formula over `num_vars` variables with the given clauses, or
    /// `None` if a literal names a variable outside `[1, num_vars]` or there
    /// are too many variables to hold two bits for each in memory.
    pub fn new(num_vars: usize, clauses: Vec<Vec<Lit>>) -> (r: Option<CnfFormula>)
        ensures
            r is Some <==> num_vars <= usize::MAX / 2 && clauses_in_range(clause_seqs(clauses@), num_vars as nat),
            r is Some ==> r->0.spec_num_vars() == num_vars
                && r->0.spec_clauses() == clause_seqs(clauses@),
    {
        if num_vars > usize::MAX / 2 {
            return None;
        }
        let n = clauses.len();
        let mut j: usize = 0;
        while j < n
            invariant
                n == clauses@.len(),
                j <= n,
                clauses_in_range(clause_seqs(clauses@.take(j as int)), num_vars as nat),
            decreases n - j,
        {
            let c = &clauses[j];
            let mut i: usize = 0;
            while i < c.len()
                invariant
                    i <= c@.len(),
                    j < n,
                    n == clauses@.len(),
                    *c == clauses@[j as int],
                    forall|k: int| 0 <= k < i ==> #[trigger] lit_in_range(c@[k], num_vars as nat),
                decreases c@.len() - i,
            {
                let v = c[i].var;
                if v < 1 || v as u128 > num_vars as u128 {
                    proof {
                        assert(clause_seqs(clauses@)[j as int][i as int] == c@[i as int]);
                        assert(!lit_in_range(clause_seqs(clauses@)[j as int][i as int], num_vars as nat));
                    }
                    return None;
                }
                i += 1;
            }
            proof {
                let f = clause_seqs(clauses@.take(j as int + 1));
                assert forall|jj: int, ii: int|
                    0 <= jj < f.len() && 0 <= ii < f[jj].len() implies #[trigger] lit_in_range(
                        f[jj][ii],
                        num_vars as nat,
                    ) by {
                    if jj < j {
                        assert(f[jj] == clause_seqs(clauses@.take(j as int))[jj]);
                    }
                }
            }
            j += 1;
        }
        assert(clauses@.take(n as int) =~= clauses@);
        Some(CnfFormula { num_vars, clauses })
    }

    /// The CNF formula of an instance given as its variable count and its
    /// clauses of `(variable, positive)` pairs; `None` stands for an instance
    /// of another kind than CNF. `Err` for another kind, for too many
    /// variables, or for a literal outside the declared range.
    pub fn from_parts(parts: Option<(u64, Vec<Vec<(u64, bool)>>)>) -> (r: Result<CnfFormula, UnknownFormulaFormat>)
        ensures
            parts is None ==> r is Err,
            parts matches Some((n, ps)) ==> {
                &&& (r is Ok <==> n <= usize::MAX / 2 && forall|j: int|
                    0 <= j < ps@.len() ==> pairs_in_range(#[trigger] ps@[j]@, n as nat))
                &&& (r matches Ok(f) ==> f.spec_num_vars() == n && f.spec_clauses() == ps@.map_values(
                    |c: Vec<(u64, bool)>| c@.map_values(|p: (u64, bool)| lit_of_pair(p)),
                ))
            },
    {
        match parts {
            None => Err(UnknownFormulaFormat),
            Some((num_vars, pairs)) => match Self::from_pairs(num_vars, pairs) {
                Some(f) => Ok(f),
                None => Err(UnknownFormulaFormat),
            },
        }
    }

    /// The formula over `num_vars` variables whose clauses are given as
    /// `(variable, positive)` pairs, or `None` if there are too many variables
    /// to hold two bits for each in memory or a pair names a variable outside
    /// `[1, num_vars]`.
    pub fn from_pairs(num_vars: u64, pairs: Vec<Vec<(u64, bool)>>) -> (r: Option<CnfFormula>)
        ensures
            r is Some <==> num_vars <= usize::MAX / 2 && forall|j: int|
                0 <= j < pairs@.len() ==> pairs_in_range(#[trigger] pairs@[j]@, num_vars as nat),
            r is Some ==> r->0.spec_num_vars() == num_vars && r->0.spec_clauses() == pairs@.map_values(
                |c: Vec<(u64, bool)>| c@.map_values(|p: (u64, bool)| lit_of_pair(p)),
            ),
    {
        if num_vars as u128 > (usize::MAX / 2) as u128 {
            return None;
        }
        let ghost target = pairs@.map_values(
            |c: Vec<(u64, bool)>| c@.map_values(|p: (u64, bool)| lit_of_pair(p)),
        );
        let mut clauses: Vec<Vec<Lit>> = Vec::new();
        let mut j: usize = 0;
        while j < pairs.len()
            invariant
                j <= pairs@.len(),
                num_vars <= usize::MAX / 2,
                target == pairs@.map_values(
                    |c: Vec<(u64, bool)>| c@.map_values(|p: (u64, bool)| lit_of_pair(p)),
                ),
                clauses@.len() == j,
                forall|k: int| 0 <= k < j ==> pairs_in_range(#[trigger] pairs@[k]@, num_vars as nat),
                forall|k: int| 0 <= k < j ==> (#[trigger] clauses@[k])@ == target[k],
            decreases pairs@.len() - j,
        {
            let c = &pairs[j];
            let mut lits: Vec<Lit> = Vec::new();
            let mut i: usize = 0;
            while i < c.len()
                invariant
                    i <= c@.len(),
                    j < pairs@.len(),
                    c@ == pairs@[j as int]@,
                    lits@.len() == i,
                    forall|k: int| 0 <= k < i ==> 1 <= #[trigger] c@[k].0 <= num_vars,
                    forall|k: int| 0 <= k < i ==> #[trigger] lits@[k] == lit_of_pair(c@[k]),
                decreases c@.len() - i,
            {
                let (v, pos) = c[i];
                if v < 1 || v > num_vars {
                    proof {
                        assert(!pairs_in_range(pairs@[j as int]@, num_vars as nat));
                    }
                    return None;
                }
                lits.push(Lit { var: v, positive: pos });
                i += 1;
            }
            assert(lits@ =~= target[j as int]);
            clauses.push(lits);
            j += 1;
        }
        proof {
            assert(clause_seqs(clauses@) =~= target);
            assert forall|jj: int, ii: int|
                0 <= jj < target.len() && 0 <= ii < target[jj].len() implies #[trigger] lit_in_range(
                    target[jj][ii],
                    num_vars as nat,
                ) by {
                assert(pairs_in_range(pairs@[jj]@, num_vars as nat));
                assert(1 <= pairs@[jj]@[ii].0 <= num_vars);
            }
        }
        Some(CnfFormula { num_vars: num_vars as usize, clauses })
    }

    /// The number of variables.
    pub fn num_variables(&self) -> (r: usize)
        ensures
            r == self.spec_num_vars(),
    {
        self.num_vars
    }

    /// The clauses, in order.
    pub fn clauses(&self) -> (r: &[Vec<Lit>])
        ensures
            clause_seqs(r@) == self.spec_clauses(),
            clauses_in_range(self.spec_clauses(), self.spec_num_vars()),
            self.spec_num_vars() <= usize::MAX / 2,
    {
        proof { use_type_invariant(self); }
        self.clauses.as_slice()
    }

    /// Takes the formula apart into its number of variables and its clauses.
    pub fn into_parts(self) -> (r: (usize, Vec<Vec<Lit>>))
        ensures
            r.0 == self.spec_num_vars(),
            clause_seqs(r.1@) == self.spec_clauses(),
            clauses_in_range(clause_seqs(r.1@), r.0 as nat),
            r.0 <= usize::MAX / 2,
    {
        proof { use_type_invariant(&self); }
        (self.num_vars, self.clauses)
    }
}

} // verus!
