use vstd::prelude::*;

use fixedbitset::FixedBitSet;

use crate::lit::{negated, Lit};

verus! {

#[verifier::external_type_specification]
#[verifier::external_body]
pub struct ExFixedBitSet(FixedBitSet);

/// The bits of a bit set, in order; its length is the bit set's length.
pub uninterp spec fn bits_of(b: FixedBitSet) -> Seq<bool>;

/// Relies on `FixedBitSet::with_capacity`: a bit set of `bits` bits, all clear.
#[verifier::external_body]
fn bitset_with_capacity(bits: usize) -> (r: FixedBitSet)
    ensures
        bits_of(r) == Seq::new(bits as nat, |i: int| false),
{
    FixedBitSet::with_capacity(bits)
}

/// Relies on `FixedBitSet::len`: the number of bits, set or clear.
#[verifier::external_body]
fn bitset_len(b: &FixedBitSet) -> (r: usize)
    ensures
        r == bits_of(*b).len(),
{
    b.len()
}

/// Relies on `FixedBitSet::contains`: whether the bit is set; `false` past
/// the end.
#[verifier::external_body]
fn bitset_contains(b: &FixedBitSet, bit: usize) -> (r: bool)
    ensures
        r == (bit < bits_of(*b).len() && bits_of(*b)[bit as int]),
{
    b.contains(bit)
}

/// Relies on `FixedBitSet::set`: sets one bit to `enabled`, leaving the
/// others; it panics past the end.
#[verifier::external_body]
fn bitset_set(b: &mut FixedBitSet, bit: usize, enabled: bool)
    requires
        bit < bits_of(*old(b)).len(),
    ensures
        bits_of(*final(b)) == bits_of(*old(b)).update(bit as int, enabled),
{
    b.set(bit, enabled)
}

/// The number of assigned entries of a partial valuation.
pub open spec fn num_assigned(s: Seq<Option<bool>>) -> nat
    decreases s.len(),
{
    if s.len() == 0 {
        0
    } else {
        num_assigned(s.drop_last()) + if s.last() is Some {
            1nat
        } else {
            0nat
        }
    }
}

/// The literals that a partial valuation makes true, one per assigned
/// variable, in increasing variable order (entry `i` is variable `i + 1`).
pub open spec fn true_lits(s: Seq<Option<bool>>) -> Seq<Lit>
    decreases s.len(),
{
    if s.len() == 0 {
        Seq::empty()
    } else {
        let rest = true_lits(s.drop_last());
        match s.last() {
            Some(b) => rest.push(Lit { var: s.len() as u64, positive: b }),
            None => rest,
        }
    }
}

/// The count of assigned entries is at most the length.
pub proof fn lemma_num_assigned_bound(s: Seq<Option<bool>>)
    ensures
        num_assigned(s) <= s.len(),
    decreases s.len(),
{
    if s.len() > 0 {
        lemma_num_assigned_bound(s.drop_last());
    }
}

/// Changing one entry changes the count by what that entry contributes.
pub proof fn lemma_num_assigned_update(s: Seq<Option<bool>>, i: int, x: Option<bool>)
    requires
        0 <= i < s.len(),
    ensures
        num_assigned(s.update(i, x)) + (if s[i] is Some { 1int } else { 0int }) == num_assigned(s)
            + (if x is Some { 1int } else { 0int }),
    decreases s.len(),
{
    let t = s.update(i, x);
    if i < s.len() - 1 {
        assert(t.drop_last() =~= s.drop_last().update(i, x));
        lemma_num_assigned_update(s.drop_last(), i, x);
    } else {
        assert(t.drop_last() =~= s.drop_last());
    }
}

/// The total valuation that a partial one gives, unassigned variables false.
pub open spec fn model_of(s: Seq<Option<bool>>) -> Seq<bool> {
    s.map_values(|o: Option<bool>| o == Some(true))
}

/// A partial valuation of variables `1..=n`, two bits per variable: whether it
/// is assigned, and its value.
pub struct Assignment {
    buffer: FixedBitSet,
    assigned_literal_count: usize,
}

impl View for Assignment {
    /// Entry `i` is the value of variable `i + 1`, `None` while unassigned.
    type V = Seq<Option<bool>>;

    closed spec fn view(&self) -> Seq<Option<bool>> {
        let bits = bits_of(self.buffer);
        Seq::new(
            bits.len() / 2,
            |i: int|
                if bits[2 * i] {
                    Some(bits[2 * i + 1])
                } else {
                    None
                },
        )
    }
}

/// Whether `l` names a variable of the valuation `s`.
pub open spec fn names_var(s: Seq<Option<bool>>, l: Lit) -> bool {
    1 <= l.var <= s.len()
}

/// The value of the variable of `l` in `s`.
pub open spec fn value_of(s: Seq<Option<bool>>, l: Lit) -> Option<bool> {
    s[l.var - 1]
}

impl Assignment {
    /// The bit set holds two bits per variable and the count is exact.
    pub closed spec fn wf(&self) -> bool {
        &&& bits_of(self.buffer).len() % 2 == 0
        &&& bits_of(self.buffer).len() <= usize::MAX
        &&& self.assigned_literal_count == num_assigned(self@)
    }

    /// The valuation of `num_variables` variables, all unassigned.
    pub fn new(num_variables: usize) -> (r: Assignment)
        requires
            num_variables <= usize::MAX / 2,
        ensures
            r.wf(),
            r@ == Seq::new(num_variables as nat, |i: int| None::<bool>),
            num_assigned(r@) == 0,
    {
        let r = Assignment {
            buffer: bitset_with_capacity(num_variables * 2),
            assigned_literal_count: 0,
        };
        proof {
            let s = Seq::new(num_variables as nat, |i: int| None::<bool>);
            assert(r@ =~= s);
            lemma_all_unassigned(s);
        }
        r
    }

    fn index(&self, literal: Lit) -> (r: usize)
        requires
            self.wf(),
            names_var(self@, literal),
        ensures
            r == 2 * (literal.var - 1),
            r + 1 < bits_of(self.buffer).len(),
    {
        proof {
            let n = bits_of(self.buffer).len();
            assert(self@.len() == n / 2);
            assert(n == 2 * (n / 2));
        }
        (literal.var as usize - 1) * 2
    }

    /// Whether `literal` is true; `false` when its variable is unassigned.
    pub fn is_true(&self, literal: Lit) -> (r: bool)
        requires
            self.wf(),
            names_var(self@, literal),
        ensures
            r == (value_of(self@, literal) == Some(literal.positive)),
    {
        let idx = self.index(literal);
        bitset_contains(&self.buffer, idx) && bitset_contains(&self.buffer, idx + 1)
            == literal.positive
    }

    /// Whether `literal` is false; `false` when its variable is unassigned.
    pub fn is_false(&self, literal: Lit) -> (r: bool)
        requires
            self.wf(),
            names_var(self@, literal),
        ensures
            r == (value_of(self@, literal) == Some(!literal.positive)),
    {
        let idx = self.index(literal);
        bitset_contains(&self.buffer, idx) && bitset_contains(&self.buffer, idx + 1)
            != literal.positive
    }

    /// Whether the variable of `literal` is unassigned.
    pub fn is_unassigned(&self, literal: Lit) -> (r: bool)
        requires
            self.wf(),
            names_var(self@, literal),
        ensures
            r == (value_of(self@, literal) is None),
    {
        !bitset_contains(&self.buffer, self.index(literal))
    }

    /// Assigns the variable of `literal` the value that makes it true.
    pub fn set_true(&mut self, literal: Lit)
        requires
            old(self).wf(),
            names_var(old(self)@, literal),
            value_of(old(self)@, literal) is None,
        ensures
            final(self).wf(),
            final(self)@ == old(self)@.update(literal.var - 1, Some(literal.positive)),
    {
        let idx = self.index(literal);
        let ghost before = self@;
        bitset_set(&mut self.buffer, idx, true);
        bitset_set(&mut self.buffer, idx + 1, literal.positive);
        proof {
            assert(self@ =~= before.update(literal.var - 1, Some(literal.positive)));
            lemma_num_assigned_update(before, literal.var - 1, Some(literal.positive));
            lemma_num_assigned_bound(self@);
        }
        self.assigned_literal_count = self.assigned_literal_count + 1;
    }

    /// Clears the variable of `literal`.
    pub fn unassign(&mut self, literal: Lit)
        requires
            old(self).wf(),
            names_var(old(self)@, literal),
            value_of(old(self)@, literal) is Some,
        ensures
            final(self).wf(),
            final(self)@ == old(self)@.update(literal.var - 1, None),
    {
        let idx = self.index(literal);
        let ghost before = self@;
        bitset_set(&mut self.buffer, idx, false);
        proof {
            assert(self@ =~= before.update(literal.var - 1, None));
            lemma_num_assigned_update(before, literal.var - 1, None);
        }
        self.assigned_literal_count = self.assigned_literal_count - 1;
    }

    /// The number of assigned variables.
    pub fn size(&self) -> (r: usize)
        requires
            self.wf(),
        ensures
            r == num_assigned(self@),
    {
        self.assigned_literal_count
    }

    /// The number of variables, assigned or not.
    pub fn num_variables(&self) -> (r: usize)
        requires
            self.wf(),
        ensures
            r == self@.len(),
    {
        bitset_len(&self.buffer) / 2
    }

    /// The true literals, one per assigned variable, in increasing variable
    /// order.
    pub fn literals(&self) -> (r: Vec<Lit>)
        requires
            self.wf(),
        ensures
            r@ == true_lits(self@),
    {
        let len = bitset_len(&self.buffer);
        let mut out: Vec<Lit> = Vec::new();
        let mut idx: usize = 0;
        while idx < len
            invariant
                len == bits_of(self.buffer).len(),
                len % 2 == 0,
                idx % 2 == 0,
                idx <= len,
                out@ == true_lits(self@.take(idx as int / 2)),
            decreases len - idx,
        {
            let ghost v = idx as int / 2;
            proof {
                assert(self@.take(v + 1).drop_last() =~= self@.take(v));
            }
            if bitset_contains(&self.buffer, idx) {
                let is_positive = bitset_contains(&self.buffer, idx + 1);
                out.push(Lit { var: (idx / 2) as u64 + 1, positive: is_positive });
            }
            idx = idx + 2;
        }
        assert(self@.take(len as int / 2) =~= self@);
        out
    }

    /// The true literals, in increasing variable order, as an iterator.
    pub fn iter(&self) -> (r: std::vec::IntoIter<Lit>)
        requires
            self.wf(),
        ensures
            vstd::std_specs::vec::into_iter_elts(r) == true_lits(self@),
    {
        self.literals().into_iter()
    }
}

/// For a literal on a variable of a valuation, exactly one of "true",
/// "false" and "unassigned" holds, and the literal is true exactly when its
/// complement is false.
pub proof fn lemma_exactly_one_status(s: Seq<Option<bool>>, l: Lit)
    requires
        names_var(s, l),
    ensures
        ({
            let t = value_of(s, l) == Some(l.positive);
            let f = value_of(s, l) == Some(!l.positive);
            let u = value_of(s, l) is None;
            &&& t || f || u
            &&& !(t && f) && !(t && u) && !(f && u)
        }),
        (value_of(s, l) == Some(l.positive)) == (value_of(s, negated(l)) == Some(!negated(l).positive)),
{
    if let Some(b) = value_of(s, l) {
        assert(b == l.positive || b == !l.positive);
    }
}

/// Assigning an unassigned variable and then unassigning it gives back the
/// valuation as it was.
pub proof fn lemma_set_unassign_round_trip(s: Seq<Option<bool>>, l: Lit)
    requires
        names_var(s, l),
        value_of(s, l) is None,
    ensures
        s.update(l.var - 1, Some(l.positive)).update(l.var - 1, None) == s,
{
    assert(s.update(l.var - 1, Some(l.positive)).update(l.var - 1, None) =~= s);
}

/// The listed literals are exactly the assigned variables, each with its
/// value, in strictly increasing variable order.
pub proof fn lemma_true_lits(s: Seq<Option<bool>>)
    requires
        s.len() <= u64::MAX,
    ensures
        forall|l: Lit| #[trigger] true_lits(s).contains(l) <==> (names_var(s, l) && value_of(s, l) == Some(l.positive)),
        forall|i: int, j: int| 0 <= i < j < true_lits(s).len() ==> (#[trigger] true_lits(s)[i]).var < (#[trigger] true_lits(s)[j]).var,
        forall|i: int| 0 <= i < true_lits(s).len() ==> (#[trigger] true_lits(s)[i]).var <= s.len(),
    decreases s.len(),
{
    if s.len() > 0 {
        let p = s.drop_last();
        lemma_true_lits(p);
        let rest = true_lits(p);
        assert forall|l: Lit| #[trigger] true_lits(s).contains(l) <==> (names_var(s, l) && value_of(s, l) == Some(l.positive)) by {
            if let Some(b) = s.last() {
                let top = Lit { var: s.len() as u64, positive: b };
                assert(true_lits(s) == rest.push(top));
                if true_lits(s).contains(l) {
                    let k = choose|k: int| 0 <= k < true_lits(s).len() && true_lits(s)[k] == l;
                    if k < rest.len() {
                        assert(rest[k] == l);
                        assert(rest.contains(l));
                        assert(names_var(p, l));
                        assert(value_of(p, l) == value_of(s, l));
                    } else {
                        assert(l == top);
                    }
                }
                if names_var(s, l) && value_of(s, l) == Some(l.positive) {
                    if l.var == s.len() {
                        assert(l == top);
                        assert(true_lits(s)[rest.len() as int] == l);
                    } else {
                        assert(names_var(p, l));
                        assert(value_of(p, l) == value_of(s, l));
                        assert(rest.contains(l));
                        let k = choose|k: int| 0 <= k < rest.len() && rest[k] == l;
                        assert(true_lits(s)[k] == l);
                    }
                }
            } else {
                assert(true_lits(s) == rest);
                if names_var(s, l) && value_of(s, l) == Some(l.positive) {
                    assert(l.var != s.len());
                    assert(names_var(p, l));
                    assert(value_of(p, l) == value_of(s, l));
                }
                if rest.contains(l) {
                    assert(names_var(p, l));
                    assert(value_of(p, l) == value_of(s, l));
                }
            }
        }
    }
}

/// A valuation with nothing assigned has count zero.
proof fn lemma_all_unassigned(s: Seq<Option<bool>>)
    requires
        forall|i: int| 0 <= i < s.len() ==> s[i] is None,
    ensures
        num_assigned(s) == 0,
    decreases s.len(),
{
    if s.len() > 0 {
        lemma_all_unassigned(s.drop_last());
    }
}

} // verus!
