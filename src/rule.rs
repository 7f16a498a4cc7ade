//! Rules: non-increasing digit patterns that define a numeral system.

use itertools::Itertools;
use vstd::prelude::*;

use crate::Value;

verus! {

/// A well-formed rule: at least one coefficient, every one positive, and
/// the sequence non-increasing.
pub open spec fn rule_digits_wf(r: Seq<Value>) -> bool {
    &&& r.len() >= 1
    &&& forall|i: int| 0 <= i < r.len() ==> #[trigger] r[i] > 0
    &&& forall|i: int, j: int| 0 <= i <= j < r.len() ==> r[i] >= r[j]
}

/// Some coefficient is followed by a strictly larger one.
pub open spec fn has_increase(s: Seq<Value>) -> bool {
    exists|i: int| 0 <= i && i + 1 < s.len() && #[trigger] s[i] < s[i + 1]
}

/// `p` is what is left of `s` when it is cut at its first zero.
pub open spec fn is_nonzero_prefix(p: Seq<Value>, s: Seq<Value>) -> bool {
    &&& p.len() <= s.len()
    &&& p == s.take(p.len() as int)
    &&& forall|i: int| 0 <= i < p.len() ==> #[trigger] p[i] != 0
    &&& p.len() < s.len() ==> s[p.len() as int] == 0
}

/// A recurrence `x^n = r[0]·x^(n-1) + r[1]·x^(n-2) + … + r[n-1]` given by
/// its coefficients.
pub struct Rule {
    values: Vec<Value>,
}

impl View for Rule {
    type V = Seq<Value>;

    closed spec fn view(&self) -> Seq<Value> {
        self.values@
    }
}

/// Relies on itertools' `tuple_windows`: over `n` items it yields the `n - 1`
/// pairs of neighbours, in order, and nothing when `n < 2`.
#[verifier::external_body]
fn adjacent_pairs(values: &[Value]) -> (r: Vec<(Value, Value)>)
    ensures
        r@.len() == if values@.len() == 0 { 0 } else { values@.len() - 1 },
        forall|i: int| 0 <= i < r@.len() ==> #[trigger] r@[i] == (values@[i], values@[i + 1]),
{
    values.iter().copied().tuple_windows().collect()
}

impl Rule {
    pub open spec fn wf(&self) -> bool {
        rule_digits_wf(self@)
    }

    /// Builds a rule from its coefficients, dropping trailing zeros. Fails on
    /// a strict increase between neighbours and on a pattern with no
    /// non-zero leading coefficient.
    pub fn from_array(values: &[Value]) -> (r: Option<Rule>)
        ensures
            r is None <==> (values@.len() == 0 || values@[0] == 0 || has_increase(values@)),
            r matches Some(rule) ==> rule.wf() && is_nonzero_prefix(rule@, values@),
    {
        let pairs = adjacent_pairs(values);
        let mut i: usize = 0;
        while i < pairs.len()
            invariant
                0 <= i <= pairs@.len(),
                pairs@.len() == if values@.len() == 0 { 0 } else { values@.len() - 1 },
                forall|k: int| 0 <= k < pairs@.len() ==> #[trigger] pairs@[k] == (values@[k], values@[k + 1]),
                forall|k: int| 0 <= k < i ==> values@[k] >= #[trigger] values@[k + 1],
            decreases pairs@.len() - i,
        {
            let (a, b) = pairs[i];
            if a < b {
                assert(values@[i as int] < values@[i + 1]);
                return None;
            }
            i = i + 1;
        }
        assert(!has_increase(values@));
        let mut result: Vec<Value> = Vec::new();
        let mut j: usize = 0;
        while j < values.len() && values[j] != 0
            invariant
                j <= values@.len(),
                result@ == values@.take(j as int),
                forall|k: int| 0 <= k < j ==> #[trigger] values@[k] != 0,
                forall|k: int| 0 <= k < values@.len() - 1 ==> values@[k] >= #[trigger] values@[k + 1],
                forall|a: int, b: int| 0 <= a <= b < j ==> values@[a] >= values@[b],
            decreases values@.len() - j,
        {
            proof {
                if j > 0 {
                    let k = j - 1;
                    assert(values@[k] >= values@[k + 1]);
                }
            }
            result.push(values[j]);
            j = j + 1;
            assert(result@ =~= values@.take(j as int));
        }
        if result.len() == 0 {
            None
        } else {
            let rule = Rule { values: result };
            assert(rule@ == values@.take(j as int));
            Some(rule)
        }
    }

    /// The leading, and largest, coefficient: also the largest digit a valid
    /// tape may hold.
    pub fn first(&self) -> (r: Value)
        requires
            self.wf(),
        ensures
            r == self@[0],
    {
        self.values[0]
    }

    pub fn len(&self) -> (r: usize)
        ensures
            r == self@.len(),
    {
        self.values.len()
    }

    pub fn is_empty(&self) -> (r: bool)
        ensures
            r == (self@.len() == 0),
    {
        self.values.len() == 0
    }

    /// The coefficient at `index`, or `None` past the end of the rule.
    pub fn get(&self, index: usize) -> (r: Option<Value>)
        ensures
            index < self@.len() ==> r == Some(self@[index as int]),
            index >= self@.len() ==> r is None,
    {
        if index < self.values.len() {
            Some(self.values[index])
        } else {
            None
        }
    }

    pub fn values(&self) -> (r: &[Value])
        ensures
            r@ == self@,
    {
        self.values.as_slice()
    }

    /// The coefficients, in order.
    pub fn iter(&self) -> (r: Vec<Value>)
        ensures
            r@ == self@,
    {
        let mut r: Vec<Value> = Vec::new();
        let mut i: usize = 0;
        while i < self.values.len()
            invariant
                i <= self@.len(),
                self@ == self.values@,
                r@ == self@.take(i as int),
            decreases self@.len() - i,
        {
            r.push(self.values[i]);
            i = i + 1;
            assert(r@ =~= self@.take(i as int));
        }
        assert(r@ =~= self@);
        r
    }
}

impl PartialEq for Rule {
    fn eq(&self, other: &Rule) -> (r: bool) {
        if self.values.len() != other.values.len() {
            return false;
        }
        let mut i: usize = 0;
        while i < self.values.len()
            invariant
                i <= self.values@.len(),
                self.values@.len() == other.values@.len(),
                forall|k: int| 0 <= k < i ==> self.values@[k] == other.values@[k],
            decreases self.values@.len() - i,
        {
            if self.values[i] != other.values[i] {
                return false;
            }
            i = i + 1;
        }
        assert(self.values@ =~= other.values@);
        true
    }
}

impl vstd::std_specs::cmp::PartialEqSpecImpl for Rule {
    open spec fn obeys_eq_spec() -> bool {
        true
    }

    open spec fn eq_spec(&self, other: &Rule) -> bool {
        self@ == other@
    }
}

impl Eq for Rule {

}

} // verus!
