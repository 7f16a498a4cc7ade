//! Tapes: digits at every integer position, of which a finite window is
//! stored, and their carry normalization under a rule.

use vstd::prelude::*;

use vstd::arithmetic::power::{lemma1_pow, pow};

use crate::poly::{
    char_poly, lemma_carry_delta, lemma_poly_add, lemma_poly_at_one_nonneg, lemma_poly_point,
    lemma_poly_split, lemma_poly_zero, lemma_rule_poly_at_one, poly, rule_poly,
};
use crate::rule::{rule_digits_wf, Rule};
use crate::Value;

verus! {

/// The digit stored at `k` in `v`, or 0 past its end.
pub open spec fn side(v: Seq<Value>, k: int) -> int {
    if 0 <= k < v.len() {
        v[k] as int
    } else {
        0
    }
}

/// Why a carry could not be made: the digit at `application_index - 1 -
/// rule_index` holds `tape_value`, less than the coefficient `rule_value`
/// that the carry would take from it.
#[derive(Clone, Debug, PartialEq, Eq)]
pub struct ApplyRuleError {
    pub application_index: isize,
    pub rule_index: usize,
    pub rule_value: Value,
    pub tape_value: Value,
}

/// Digits at every integer position. Positions `0, 1, 2, …` are stored in
/// `positive_values`, positions `-1, -2, …` in `negative_values`; every
/// position past either end holds 0.
#[derive(Clone, Debug)]
pub struct Tape {
    positive_values: Vec<Value>,
    negative_values: Vec<Value>,
}

/// Sets `v[k]`, first filling the gap past the end with zeros.
fn set_side(v: &mut Vec<Value>, k: usize, value: Value)
    requires
        k < usize::MAX,
    ensures
        final(v)@.len() == if k < old(v)@.len() { old(v)@.len() as int } else { k + 1 },
        forall|j: int| #[trigger] side(final(v)@, j) == if j == k { value as int } else { side(old(v)@, j) },
{
    while v.len() <= k
        invariant
            k < usize::MAX,
            old(v)@.len() <= v@.len() <= if k < old(v)@.len() { old(v)@.len() as int } else { k + 1 },
            forall|j: int| #[trigger] side(v@, j) == side(old(v)@, j),
        decreases k + 1 - v@.len(),
    {
        let ghost before = v@;
        v.push(0);
        assert forall|j: int| #[trigger] side(v@, j) == side(old(v)@, j) by {
            assert(side(v@, j) == side(before, j));
        }
    }
    let ghost before = v@;
    v.set(k, value);
    assert forall|j: int| #[trigger] side(v@, j) == if j == k { value as int } else { side(old(v)@, j) } by {
        assert(side(before, j) == side(old(v)@, j));
    }
}

/// A copy of a digit vector.
fn copy_digits(v: &Vec<Value>) -> (r: Vec<Value>)
    ensures
        r@ == v@,
{
    let mut r: Vec<Value> = Vec::new();
    let mut i: usize = 0;
    while i < v.len()
        invariant
            i <= v@.len(),
            r@ == v@.take(i as int),
        decreases v@.len() - i,
    {
        r.push(v[i]);
        i = i + 1;
        assert(r@ =~= v@.take(i as int));
    }
    assert(r@ =~= v@);
    r
}

impl Tape {
    /// The digit at position `p`.
    pub closed spec fn at(&self, p: int) -> int {
        if p >= 0 {
            side(self.positive_values@, p)
        } else {
            side(self.negative_values@, -p - 1)
        }
    }

    /// The lowest stored position.
    pub closed spec fn lo(&self) -> int {
        -self.negative_values@.len()
    }

    /// One past the highest stored position.
    pub closed spec fn hi(&self) -> int {
        self.positive_values@.len() as int
    }

    /// Every stored position fits in an `isize`.
    pub closed spec fn wf(&self) -> bool {
        &&& self.positive_values@.len() <= isize::MAX
        &&& self.negative_values@.len() <= isize::MAX
    }

    /// The digits as a function of their position.
    pub open spec fn digits(&self) -> spec_fn(int) -> int {
        |p: int| self.at(p)
    }

    /// The two tapes hold the same digit at every position.
    pub open spec fn same_digits(&self, other: &Tape) -> bool {
        forall|p: int| #[trigger] self.at(p) == other.at(p)
    }

    /// Positions past the stored window hold 0, and no digit is negative.
    pub proof fn lemma_outside(&self)
        ensures
            self.lo() <= 0 <= self.hi(),
            forall|p: int| (p < self.lo() || p >= self.hi()) ==> #[trigger] self.at(p) == 0,
            forall|p: int| #[trigger] self.at(p) >= 0,
    {
    }

    fn copy(&self) -> (r: Tape)
        ensures
            r.wf() == self.wf(),
            r.lo() == self.lo(),
            r.hi() == self.hi(),
            r.same_digits(self),
    {
        Tape {
            positive_values: copy_digits(&self.positive_values),
            negative_values: copy_digits(&self.negative_values),
        }
    }

    /// The tape whose positions `0, 1, 2, …` hold `positives` read from its
    /// end (the last element is position 0), and whose positions `-1, -2,
    /// …` hold `negatives` in order.
    pub fn from_arrays(positives: &[Value], negatives: &[Value]) -> (r: Tape)
        requires
            positives@.len() <= isize::MAX,
            negatives@.len() <= isize::MAX,
        ensures
            r.wf(),
            r.lo() == -negatives@.len(),
            r.hi() == positives@.len(),
            forall|p: int|
                #[trigger] r.at(p) == if 0 <= p < positives@.len() {
                    positives@[positives@.len() - 1 - p] as int
                } else if -negatives@.len() <= p < 0 {
                    negatives@[-p - 1] as int
                } else {
                    0
                },
    {
        let mut pos: Vec<Value> = Vec::new();
        let mut i: usize = positives.len();
        while i > 0
            invariant
                i <= positives@.len(),
                pos@.len() == positives@.len() - i,
                forall|k: int| 0 <= k < pos@.len() ==> #[trigger] pos@[k] == positives@[positives@.len() - 1 - k],
            decreases i,
        {
            i = i - 1;
            pos.push(positives[i]);
        }
        let mut neg: Vec<Value> = Vec::new();
        let mut j: usize = 0;
        while j < negatives.len()
            invariant
                j <= negatives@.len(),
                neg@ == negatives@.take(j as int),
            decreases negatives@.len() - j,
        {
            neg.push(negatives[j]);
            j = j + 1;
            assert(neg@ =~= negatives@.take(j as int));
        }
        assert(neg@ =~= negatives@);
        Tape { positive_values: pos, negative_values: neg }
    }

    /// The tape of zeros, with nothing stored.
    pub fn zero() -> (r: Tape)
        ensures
            r.wf(),
            r.lo() == 0,
            r.hi() == 0,
            forall|p: int| #[trigger] r.at(p) == 0,
    {
        Tape { positive_values: Vec::new(), negative_values: Vec::new() }
    }

    /// The stored positions, `lo` included and `hi` excluded.
    pub fn range(&self) -> (r: (isize, isize))
        requires
            self.wf(),
        ensures
            r.0 == self.lo(),
            r.1 == self.hi(),
    {
        (-(self.negative_values.len() as isize), self.positive_values.len() as isize)
    }

    /// Which side stores `index`, and where in it.
    fn internal_index(index: isize) -> (r: (bool, usize))
        ensures
            index >= 0 ==> r == (true, index as usize),
            index < 0 ==> r.0 == false && r.1 == -index - 1,
    {
        if index >= 0 {
            (true, index as usize)
        } else {
            (false, (-(index + 1)) as usize)
        }
    }

    /// The stored digits, from the highest position down.
    pub fn iter(&self) -> (r: Vec<Value>)
        requires
            self.wf(),
        ensures
            r@.len() == self.hi() - self.lo(),
            forall|j: int| 0 <= j < r@.len() ==> #[trigger] r@[j] == self.at(self.hi() - 1 - j),
    {
        let mut r: Vec<Value> = Vec::new();
        let mut i: usize = self.positive_values.len();
        while i > 0
            invariant
                i <= self.positive_values@.len(),
                r@.len() == self.positive_values@.len() - i,
                forall|j: int| 0 <= j < r@.len() ==> #[trigger] r@[j] == self.at(self.hi() - 1 - j),
            decreases i,
        {
            i = i - 1;
            r.push(self.positive_values[i]);
        }
        let mut k: usize = 0;
        while k < self.negative_values.len()
            invariant
                k <= self.negative_values@.len(),
                r@.len() == self.positive_values@.len() + k,
                forall|j: int| 0 <= j < r@.len() ==> #[trigger] r@[j] == self.at(self.hi() - 1 - j),
            decreases self.negative_values@.len() - k,
        {
            r.push(self.negative_values[k]);
            k = k + 1;
        }
        r
    }

    /// The stored positions, from the highest down.
    pub fn index_iter(&self) -> (r: Vec<isize>)
        requires
            self.wf(),
        ensures
            r@.len() == self.hi() - self.lo(),
            forall|j: int| 0 <= j < r@.len() ==> #[trigger] r@[j] == self.hi() - 1 - j,
    {
        let (min, max) = self.range();
        let mut r: Vec<isize> = Vec::new();
        let mut i: isize = max;
        while i > min
            invariant
                min <= i <= max,
                min == self.lo(),
                max == self.hi(),
                r@.len() == max - i,
                forall|j: int| 0 <= j < r@.len() ==> #[trigger] r@[j] == max - 1 - j,
            decreases i - min,
        {
            i = i - 1;
            r.push(i);
        }
        r
    }

    /// The digit at `index`; 0 outside the stored window.
    pub fn get(&self, index: isize) -> (r: Value)
        ensures
            r == self.at(index as int),
    {
        let (positive, k) = Self::internal_index(index);
        let v = if positive { &self.positive_values } else { &self.negative_values };
        if k < v.len() {
            v[k]
        } else {
            0
        }
    }

    /// Writes `value` at `index`, storing zeros in the gap that this opens.
    pub fn set(&mut self, index: isize, value: Value)
        requires
            old(self).wf(),
            index < isize::MAX,
            index > isize::MIN,
        ensures
            final(self).wf(),
            final(self).lo() == if index < old(self).lo() { index as int } else { old(self).lo() },
            final(self).hi() == if index >= old(self).hi() { index + 1 } else { old(self).hi() },
            forall|p: int|
                #[trigger] final(self).at(p) == if p == index { value as int } else { old(self).at(p) },
    {
        let (positive, k) = Self::internal_index(index);
        if positive {
            set_side(&mut self.positive_values, k, value);
        } else {
            set_side(&mut self.negative_values, k, value);
        }
    }
}


impl Tape {
    /// A carry at `c` is possible: for each `k`, the digit at `c - 1 - k`
    /// covers the coefficient `r[k]` that the carry takes from it.
    pub open spec fn can_apply(&self, r: Seq<Value>, c: int) -> bool {
        forall|k: int| 0 <= k < r.len() ==> #[trigger] r[k] <= self.at(c - 1 - k)
    }

    /// `k` is the first coefficient that the digits below `c` fail to cover.
    pub open spec fn shortfall(&self, r: Seq<Value>, c: int, k: int) -> bool {
        &&& 0 <= k < r.len()
        &&& self.at(c - 1 - k) < r[k]
        &&& forall|j: int| 0 <= j < k ==> #[trigger] r[j] <= self.at(c - 1 - j)
    }

    /// The digit at `p` after a carry at `c`: one more at `c`, and `r[k]`
    /// less at `c - 1 - k`.
    pub open spec fn carried(&self, r: Seq<Value>, c: int, p: int) -> int {
        self.at(p) + (if p == c { 1int } else { 0int }) - (if c - r.len() <= p < c {
            r[c - 1 - p] as int
        } else {
            0int
        })
    }

    /// `t` is this tape after a carry at `c`.
    pub open spec fn carries_to(&self, r: Seq<Value>, c: int, t: Tape) -> bool {
        &&& self.can_apply(r, c)
        &&& forall|p: int| #[trigger] t.at(p) == self.carried(r, c, p)
    }

    /// No digit exceeds the rule's leading coefficient.
    pub open spec fn is_valid_for(&self, r: Seq<Value>) -> bool {
        forall|p: int| #[trigger] self.at(p) <= r[0]
    }

    /// Valid, and no carry is possible anywhere.
    pub open spec fn is_standard_for(&self, r: Seq<Value>) -> bool {
        &&& self.is_valid_for(r)
        &&& forall|c: int| !(#[trigger] self.can_apply(r, c))
    }

    /// Only positions no lower than `c - n` can carry: below that some
    /// digit is past the stored window.
    proof fn lemma_can_apply_in_window(&self, r: Seq<Value>, c: int)
        requires
            rule_digits_wf(r),
            self.can_apply(r, c),
        ensures
            self.lo() <= c - r.len(),
            c <= self.hi(),
    {
        let n = r.len() as int;
        assert(r[n - 1] <= self.at(c - 1 - (n - 1)));
        assert(r[0] <= self.at(c - 1 - 0));
    }

    /// The first coefficient that the digits below `index` fail to cover,
    /// if any.
    fn first_shortfall(&self, rule: &Rule, index: isize) -> (r: Option<(usize, Value)>)
        requires
            rule.wf(),
            index - rule@.len() >= isize::MIN,
        ensures
            r is None <==> self.can_apply(rule@, index as int),
            r matches Some((k, d)) ==> self.shortfall(rule@, index as int, k as int) && d == self.at(
                index - 1 - k,
            ),
    {
        let values = rule.values();
        let mut k: usize = 0;
        let mut pos: isize = index - 1;
        while k < values.len()
            invariant
                values@ == rule@,
                k <= values@.len(),
                k < values@.len() ==> pos == index - 1 - k,
                index - rule@.len() >= isize::MIN,
                forall|j: int| 0 <= j < k ==> #[trigger] rule@[j] <= self.at(index - 1 - j),
            decreases values@.len() - k,
        {
            let d = self.get(pos);
            if d < values[k] {
                return Some((k, d));
            }
            k = k + 1;
            if k < values.len() {
                pos = pos - 1;
            }
        }
        None
    }

    /// Carries at `index`, in place.
    fn carry(&mut self, rule: &Rule, index: isize)
        requires
            rule.wf(),
            old(self).wf(),
            old(self).can_apply(rule@, index as int),
            old(self).at(index as int) < Value::MAX,
            index < isize::MAX,
        ensures
            old(self).carries_to(rule@, index as int, *final(self)),
            final(self).wf(),
            final(self).lo() == old(self).lo(),
            final(self).hi() == if index >= old(self).hi() { index + 1 } else { old(self).hi() },
    {
        proof {
            old(self).lemma_can_apply_in_window(rule@, index as int);
        }
        let ghost start = *self;
        let values = rule.values();
        let d = self.get(index);
        self.set(index, d + 1);
        let ghost top = *self;
        let mut k: usize = 0;
        let mut pos: isize = index - 1;
        while k < values.len()
            invariant
                values@ == rule@,
                rule_digits_wf(rule@),
                start.can_apply(rule@, index as int),
                start.lo() <= index - rule@.len(),
                k <= values@.len(),
                k < values@.len() ==> pos == index - 1 - k,
                self.wf(),
                self.lo() == start.lo(),
                self.hi() == top.hi(),
                top.hi() == if index >= start.hi() { index + 1 } else { start.hi() },
                forall|p: int|
                    #[trigger] self.at(p) == start.at(p) + (if p == index { 1int } else { 0int }) - (
                    if index - k <= p < index {
                        rule@[index - 1 - p] as int
                    } else {
                        0int
                    }),
            decreases values@.len() - k,
        {
            proof {
                start.lemma_outside();
                assert(rule@[k as int] <= start.at(index - 1 - k));
            }
            let d = self.get(pos);
            self.set(pos, d - values[k]);
            k = k + 1;
            if k < values.len() {
                pos = pos - 1;
            }
        }
        proof {
            assert forall|p: int| #[trigger] self.at(p) == start.carried(rule@, index as int, p) by {}
        }
    }

    /// The tape after a carry at `index`: one more at `index`, and `rule[k]`
    /// less at `index - 1 - k`. Fails, reporting the first coefficient not
    /// covered, where some digit is too small to give it up.
    pub fn apply(&self, rule: &Rule, index: isize) -> (r: Result<Tape, ApplyRuleError>)
        requires
            self.wf(),
            rule.wf(),
            index < isize::MAX,
            index - rule@.len() >= isize::MIN,
            self.can_apply(rule@, index as int) ==> self.at(index as int) < Value::MAX,
        ensures
            r is Ok <==> self.can_apply(rule@, index as int),
            r matches Ok(t) ==> {
                &&& self.carries_to(rule@, index as int, t)
                &&& t.wf()
                &&& t.lo() == self.lo()
                &&& t.hi() == if index >= self.hi() { index + 1 } else { self.hi() }
            },
            r matches Err(e) ==> {
                &&& self.shortfall(rule@, index as int, e.rule_index as int)
                &&& e.application_index == index
                &&& e.rule_value == rule@[e.rule_index as int]
                &&& e.tape_value == self.at(index - 1 - e.rule_index)
            },
    {
        self.copy().apply_in_place(rule, index)
    }

    /// `apply`, consuming the tape.
    pub fn apply_in_place(self, rule: &Rule, index: isize) -> (r: Result<Tape, ApplyRuleError>)
        requires
            self.wf(),
            rule.wf(),
            index < isize::MAX,
            index - rule@.len() >= isize::MIN,
            self.can_apply(rule@, index as int) ==> self.at(index as int) < Value::MAX,
        ensures
            r is Ok <==> self.can_apply(rule@, index as int),
            r matches Ok(t) ==> {
                &&& self.carries_to(rule@, index as int, t)
                &&& t.wf()
                &&& t.lo() == self.lo()
                &&& t.hi() == if index >= self.hi() { index + 1 } else { self.hi() }
            },
            r matches Err(e) ==> {
                &&& self.shortfall(rule@, index as int, e.rule_index as int)
                &&& e.application_index == index
                &&& e.rule_value == rule@[e.rule_index as int]
                &&& e.tape_value == self.at(index - 1 - e.rule_index)
            },
    {
        match self.first_shortfall(rule, index) {
            Some((k, tape_value)) => {
                let rule_value = rule.values()[k];
                Err(ApplyRuleError { application_index: index, rule_index: k, rule_value, tape_value })
            },
            None => {
                let mut t = self;
                t.carry(rule, index);
                Ok(t)
            },
        }
    }
}


/// The digits of `t` on positions `lo .. hi` as a polynomial in `x`:
/// `Σ t.at(p)·x^(p-lo)`. At the base `β` of a rule, on a window that holds
/// every stored digit, this is the tape's value times `β^(-lo)`.
pub open spec fn value_on(t: Tape, x: int, lo: int, hi: int) -> int {
    poly(t.digits(), x, lo, hi)
}

/// `lo .. hi` holds every stored digit of `a` and of `b`.
pub open spec fn covers_both(a: Tape, b: Tape, lo: int, hi: int) -> bool {
    lo <= a.lo() && lo <= b.lo() && a.hi() <= hi && b.hi() <= hi
}

/// On every window that holds both tapes, `b` spells what `a` spells plus
/// the characteristic polynomial times the polynomial of `q`.
pub open spec fn carry_witness(a: Tape, b: Tape, r: Seq<Value>, q: spec_fn(int) -> int) -> bool {
    forall|x: int, lo: int, hi: int|
        covers_both(a, b, lo, hi) ==> #[trigger] value_on(b, x, lo, hi) == value_on(a, x, lo, hi)
            + char_poly(r, x) * poly(q, x, lo, hi)
}

/// `b` differs from `a` by a multiple of the characteristic polynomial, as
/// a chain of carries makes it do: at the base, a root of that
/// polynomial, the two tapes have the same value.
pub open spec fn differ_by_carries(a: Tape, b: Tape, r: Seq<Value>) -> bool {
    exists|q: spec_fn(int) -> int| #[trigger] carry_witness(a, b, r, q)
}

impl Tape {
    /// The sum of the stored digits.
    pub open spec fn digit_sum(&self) -> int {
        value_on(*self, 1, self.lo(), self.hi())
    }

    /// `t` is the standard form of this tape: it is standard, it differs
    /// from this tape by carries, its lowest stored position is unchanged,
    /// and a tape that is standard already is its own standard form.
    pub open spec fn standardizes_to(&self, r: Seq<Value>, t: Tape) -> bool {
        &&& t.is_standard_for(r)
        &&& differ_by_carries(*self, t, r)
        &&& t.lo() == self.lo()
        &&& self.is_standard_for(r) ==> t.same_digits(self)
    }
}

/// A carry keeps the value: on every window that holds both tapes, it adds
/// `x^(c-n-lo)` times the characteristic polynomial to what the digits
/// spell, so at any root of that polynomial, the base among them, the two
/// spell the same.
pub proof fn lemma_apply_keeps_value(a: Tape, b: Tape, r: Seq<Value>, c: int, x: int, lo: int, hi: int)
    requires
        rule_digits_wf(r),
        a.carries_to(r, c, b),
        covers_both(a, b, lo, hi),
    ensures
        value_on(b, x, lo, hi) == value_on(a, x, lo, hi) + pow(x, (c - r.len() - lo) as nat) * char_poly(
            r,
            x,
        ),
        char_poly(r, x) == 0 ==> value_on(b, x, lo, hi) == value_on(a, x, lo, hi),
{
    a.lemma_can_apply_in_window(r, c);
    b.lemma_outside();
    assert(b.at(c) >= 1);
    let h = |p: int| (if p == c { 1int } else { 0int }) - (if c - r.len() <= p < c {
        r[c - 1 - p] as int
    } else {
        0int
    });
    assert forall|p: int| lo <= p < hi implies #[trigger] b.digits()(p) == a.digits()(p) + h(p) by {
        assert(b.at(p) == a.carried(r, c, p));
    }
    lemma_poly_add(b.digits(), a.digits(), h, x, lo, hi);
    lemma_carry_delta(r, h, x, lo, hi, c);
}

/// The tape holds zeros on `hi .. top`: widening the window up to `top`
/// changes nothing that it spells.
proof fn lemma_widen(t: Tape, x: int, lo: int, hi: int, top: int)
    requires
        lo <= hi <= top,
        t.hi() <= hi,
    ensures
        value_on(t, x, lo, top) == value_on(t, x, lo, hi),
{
    t.lemma_outside();
    lemma_poly_split(t.digits(), x, lo, hi, top);
    assert forall|p: int| hi <= p < top implies #[trigger] t.digits()(p) == 0 by {}
    lemma_poly_zero(t.digits(), x, hi, top);
}

impl Tape {
    /// A carry at `c` means one at `c + 1` is possible too, unless the digit
    /// at `c` is below the leading coefficient.
    proof fn lemma_carry_above(&self, r: Seq<Value>, c: int)
        requires
            rule_digits_wf(r),
            self.can_apply(r, c),
            self.at(c) >= r[0],
        ensures
            self.can_apply(r, c + 1),
    {
        assert forall|k: int| 0 <= k < r.len() implies #[trigger] r[k] <= self.at(c + 1 - 1 - k) by {
            if k > 0 {
                assert(r[k - 1] <= self.at(c - 1 - (k - 1)));
                assert(r[k - 1] >= r[k]);
            }
        }
    }

    /// The highest position at which a carry is possible, found by one scan
    /// down the stored digits. The scan keeps a window that starts just below
    /// `cur`: a digit below the rule coefficient it meets restarts the
    /// window below itself, and a window that covers every coefficient
    /// ends the scan.
    pub fn find_carry(&self, rule: &Rule) -> (r: Option<isize>)
        requires
            self.wf(),
            rule.wf(),
        ensures
            r is None ==> forall|c: int| !(#[trigger] self.can_apply(rule@, c)),
            r matches Some(c) ==> {
                &&& self.can_apply(rule@, c as int)
                &&& forall|c2: int| c < c2 ==> !(#[trigger] self.can_apply(rule@, c2))
            },
    {
        proof {
            self.lemma_outside();
        }
        let ghost r = rule@;
        let n = rule.len();
        let (min, max) = self.range();
        let mut cur: isize = max;
        let mut i: isize = max;
        let mut win: usize = 0;
        proof {
            assert forall|c2: int| cur < c2 implies !(#[trigger] self.can_apply(r, c2)) by {
                assert(r[0] > self.at(c2 - 1 - 0));
            }
        }
        while i > min
            invariant
                self.wf(),
                rule_digits_wf(r),
                r == rule@,
                n == r.len(),
                min == self.lo(),
                max == self.hi(),
                forall|p: int| (p < self.lo() || p >= self.hi()) ==> #[trigger] self.at(p) == 0,
                min <= i <= cur <= max,
                win == cur - i,
                win <= n,
                forall|k: int| 0 <= k < cur - i ==> #[trigger] r[k] <= self.at(cur - 1 - k),
                forall|c2: int| cur < c2 ==> !(#[trigger] self.can_apply(r, c2)),
            decreases i - min,
        {
            i = i - 1;
            match rule.get(win) {
                Some(rule_value) => {
                    if self.get(i) < rule_value {
                        proof {
                            assert forall|c2: int| i < c2 implies !(#[trigger] self.can_apply(r, c2)) by {
                                if c2 <= cur {
                                    let k = c2 - 1 - i;
                                    assert(r[k] >= r[win as int]);
                                    assert(r[k] > self.at(c2 - 1 - k));
                                }
                            }
                        }
                        cur = i;
                        win = 0;
                    } else {
                        win = win + 1;
                    }
                },
                None => {
                    return Some(cur);
                },
            }
        }
        if win == n {
            Some(cur)
        } else {
            proof {
                assert forall|c2: int| !(#[trigger] self.can_apply(r, c2)) by {
                    if c2 <= cur {
                        let k = n - 1;
                        assert(r[k] > self.at(c2 - 1 - k));
                    }
                }
            }
            None
        }
    }

    /// No digit exceeds the rule's leading coefficient.
    pub fn is_valid(&self, rule: &Rule) -> (r: bool)
        requires
            self.wf(),
            rule.wf(),
        ensures
            r == self.is_valid_for(rule@),
    {
        proof {
            self.lemma_outside();
        }
        let max_allowed = rule.first();
        let digits = self.iter();
        let mut j: usize = 0;
        while j < digits.len()
            invariant
                j <= digits@.len(),
                max_allowed == rule@[0],
                digits@.len() == self.hi() - self.lo(),
                forall|m: int| 0 <= m < digits@.len() ==> #[trigger] digits@[m] == self.at(self.hi() - 1 - m),
                forall|m: int| 0 <= m < j ==> #[trigger] digits@[m] <= max_allowed,
            decreases digits@.len() - j,
        {
            if digits[j] > max_allowed {
                return false;
            }
            j = j + 1;
        }
        proof {
            assert forall|p: int| #[trigger] self.at(p) <= rule@[0] by {
                if self.lo() <= p < self.hi() {
                    assert(digits@[self.hi() - 1 - p] <= max_allowed);
                }
            }
        }
        true
    }

    /// Valid, with no carry possible at any position.
    pub fn is_standard(&self, rule: &Rule) -> (r: bool)
        requires
            self.wf(),
            rule.wf(),
        ensures
            r == self.is_standard_for(rule@),
    {
        if !self.is_valid(rule) {
            return false;
        }
        self.find_carry(rule).is_none()
    }
}


impl Tape {
    /// Carries, always at the highest position where one is possible, until
    /// none is: the digit at that position is below the leading
    /// coefficient, so the tape stays valid, and each carry lowers the digit
    /// sum, so the loop ends. The rule `[1]`, whose carries keep the digit
    /// sum, has no standard form for a non-zero tape.
    pub fn standardize_in_place(self, rule: &Rule) -> (r: Tape)
        requires
            self.wf(),
            rule.wf(),
            rule@ != seq![1u32],
            self.is_valid_for(rule@),
            self.hi() + self.digit_sum() < isize::MAX,
        ensures
            r.wf(),
            self.standardizes_to(rule@, r),
    {
        let ghost r = rule@;
        let ghost t0 = self;
        let ghost mut q: spec_fn(int) -> int = |p: int| 0int;
        let mut t = self;
        proof {
            lemma_rule_poly_at_one(r);
            lemma1_pow(r.len());
            if r.len() == 1 && r[0] == 1 {
                assert(r =~= seq![1u32]);
            }
            assert(char_poly(r, 1) <= -1);
            assert forall|x: int, lo: int, hi: int| covers_both(t0, t, lo, hi) implies #[trigger] value_on(
                t,
                x,
                lo,
                hi,
            ) == value_on(t0, x, lo, hi) + char_poly(r, x) * poly(q, x, lo, hi) by {
                lemma_poly_zero(q, x, lo, hi);
            }
        }
        let mut done = false;
        while !done
            invariant
                rule.wf(),
                r == rule@,
                char_poly(r, 1) <= -1,
                t.wf(),
                t.is_valid_for(r),
                t.lo() == t0.lo(),
                t0.hi() <= t.hi(),
                t.hi() + t.digit_sum() <= t0.hi() + t0.digit_sum(),
                t0.hi() + t0.digit_sum() < isize::MAX,
                carry_witness(t0, t, r, q),
                t0.is_standard_for(r) ==> t.same_digits(&t0),
                done ==> forall|c: int| !(#[trigger] t.can_apply(r, c)),
            decreases t.digit_sum() + if done { 0int } else { 1int },
        {
            proof {
                t.lemma_outside();
                lemma_poly_at_one_nonneg(t.digits(), t.lo(), t.hi());
            }
            match t.find_carry(rule) {
                None => {
                    done = true;
                },
                Some(c) => {
                    let ghost before = t;
                    proof {
                        before.lemma_can_apply_in_window(r, c as int);
                        if before.at(c as int) >= r[0] {
                            before.lemma_carry_above(r, c as int);
                        }
                        if t0.is_standard_for(r) {
                            assert(t0.can_apply(r, c as int) == before.can_apply(r, c as int));
                        }
                    }
                    t.carry(rule, c);
                    proof {
                        let n = r.len() as int;
                        t.lemma_outside();
                        assert forall|p: int| #[trigger] t.at(p) <= r[0] by {
                            assert(t.at(p) == before.carried(r, c as int, p));
                        }
                        lemma_apply_keeps_value(before, t, r, c as int, 1, t.lo(), t.hi());
                        lemma_widen(before, 1, before.lo(), before.hi(), t.hi());
                        lemma1_pow((c - n - t.lo()) as nat);
                        assert(t.digit_sum() == value_on(before, 1, t.lo(), t.hi()) + char_poly(r, 1));
                        assert(t.digit_sum() <= before.digit_sum() - 1);
                        lemma_poly_at_one_nonneg(t.digits(), t.lo(), t.hi());
                        let q_old = q;
                        let d = |p: int| if p == c - n { 1int } else { 0int };
                        let q_new = |p: int| q_old(p) + d(p);
                        assert forall|x: int, lo: int, hi: int| covers_both(t0, t, lo, hi) implies #[trigger] value_on(
                            t,
                            x,
                            lo,
                            hi,
                        ) == value_on(t0, x, lo, hi) + char_poly(r, x) * poly(q_new, x, lo, hi) by {
                            assert(covers_both(t0, before, lo, hi));
                            lemma_apply_keeps_value(before, t, r, c as int, x, lo, hi);
                            lemma_poly_add(q_new, q_old, d, x, lo, hi);
                            lemma_poly_point(d, x, lo, c - n, hi);
                            let cp = char_poly(r, x);
                            let a = poly(q_old, x, lo, hi);
                            let e = pow(x, (c - n - lo) as nat);
                            assert(d(c - n) == 1);
                            assert(cp * (a + 1 * e) == cp * a + e * cp) by (nonlinear_arith);
                        }
                        q = q_new;
                    }
                },
            }
        }
        proof {
            assert(carry_witness(t0, t, r, q));
        }
        t
    }

    /// The standard form of this tape: see `standardize_in_place`.
    pub fn standardize(&self, rule: &Rule) -> (r: Tape)
        requires
            self.wf(),
            rule.wf(),
            rule@ != seq![1u32],
            self.is_valid_for(rule@),
            self.hi() + self.digit_sum() < isize::MAX,
        ensures
            r.wf(),
            self.standardizes_to(rule@, r),
    {
        let t = self.copy();
        proof {
            assert(t.digits() =~= self.digits());
        }
        let res = t.standardize_in_place(rule);
        proof {
            let r = rule@;
            let q = choose|q: spec_fn(int) -> int| carry_witness(t, res, r, q);
            assert forall|x: int, lo: int, hi: int| covers_both(*self, res, lo, hi) implies #[trigger] value_on(
                res,
                x,
                lo,
                hi,
            ) == value_on(*self, x, lo, hi) + char_poly(r, x) * poly(q, x, lo, hi) by {
                assert(covers_both(t, res, lo, hi));
            }
            assert(carry_witness(*self, res, r, q));
            assert(differ_by_carries(*self, res, r));
            assert(res.lo() == self.lo());
            assert forall|c: int| #[trigger] self.can_apply(r, c) == t.can_apply(r, c) by {
                if self.can_apply(r, c) {
                    assert forall|k: int| 0 <= k < r.len() implies #[trigger] r[k] <= t.at(c - 1 - k) by {
                        assert(r[k] <= self.at(c - 1 - k));
                    }
                }
                if t.can_apply(r, c) {
                    assert forall|k: int| 0 <= k < r.len() implies #[trigger] r[k] <= self.at(c - 1 - k) by {
                        assert(r[k] <= t.at(c - 1 - k));
                    }
                }
            }
            if self.is_standard_for(r) {
                assert(t.is_valid_for(r)) by {
                    assert forall|p: int| #[trigger] t.at(p) <= r[0] by {
                        assert(self.at(p) == t.at(p));
                    }
                }
                assert forall|c: int| !(#[trigger] t.can_apply(r, c)) by {
                    assert(self.can_apply(r, c) == t.can_apply(r, c));
                }
                assert forall|p: int| #[trigger] res.at(p) == self.at(p) by {
                    assert(res.at(p) == t.at(p));
                }
            }
        }
        res
    }
}

/// Standardizing keeps the value: the standard form differs from the tape
/// by a multiple of the characteristic polynomial, so at any root of it,
/// the base among them, the two spell the same on every window that holds
/// both.
pub proof fn lemma_standardize_keeps_value(t: Tape, s: Tape, r: Seq<Value>, x: int, lo: int, hi: int)
    requires
        t.standardizes_to(r, s),
        char_poly(r, x) == 0,
        covers_both(t, s, lo, hi),
    ensures
        value_on(s, x, lo, hi) == value_on(t, x, lo, hi),
{
    let q = choose|q: spec_fn(int) -> int| carry_witness(t, s, r, q);
    assert(value_on(s, x, lo, hi) == value_on(t, x, lo, hi) + char_poly(r, x) * poly(q, x, lo, hi));
}

/// Standardizing is idempotent: the standard form of a standard form is
/// itself, and it is standard.
pub proof fn lemma_standardize_idempotent(t: Tape, once: Tape, twice: Tape, r: Seq<Value>)
    requires
        t.standardizes_to(r, once),
        once.standardizes_to(r, twice),
    ensures
        twice.same_digits(&once),
        once.is_standard_for(r),
{
}


/// The two digit vectors agree wherever either stores a digit, zeros past
/// the shorter one included.
fn sides_equal(a: &Vec<Value>, b: &Vec<Value>) -> (r: bool)
    ensures
        r == forall|k: int| #[trigger] side(a@, k) == side(b@, k),
{
    let len = if a.len() > b.len() { a.len() } else { b.len() };
    let mut k: usize = 0;
    while k < len
        invariant
            len == if a@.len() > b@.len() { a@.len() } else { b@.len() },
            k <= len,
            forall|j: int| 0 <= j < k ==> #[trigger] side(a@, j) == side(b@, j),
        decreases len - k,
    {
        let x = if k < a.len() { a[k] } else { 0 };
        let y = if k < b.len() { b[k] } else { 0 };
        if x != y {
            assert(side(a@, k as int) != side(b@, k as int));
            return false;
        }
        k = k + 1;
    }
    true
}

/// Adds `b` into `a` digit by digit, first filling `a` with zeros up to the
/// length of `b`.
fn add_side(a: &mut Vec<Value>, b: &Vec<Value>)
    requires
        forall|k: int| #[trigger] side(old(a)@, k) + side(b@, k) <= Value::MAX,
    ensures
        final(a)@.len() == if old(a)@.len() >= b@.len() { old(a)@.len() } else { b@.len() },
        forall|k: int| #[trigger] side(final(a)@, k) == side(old(a)@, k) + side(b@, k),
{
    while a.len() < b.len()
        invariant
            old(a)@.len() <= a@.len() <= if old(a)@.len() >= b@.len() { old(a)@.len() } else { b@.len() },
            forall|k: int| #[trigger] side(a@, k) == side(old(a)@, k),
        decreases b@.len() - a@.len(),
    {
        let ghost before = a@;
        a.push(0);
        assert forall|k: int| #[trigger] side(a@, k) == side(old(a)@, k) by {
            assert(side(a@, k) == side(before, k));
        }
    }
    let ghost filled = a@;
    let mut k: usize = 0;
    while k < b.len()
        invariant
            k <= b@.len(),
            b@.len() <= a@.len(),
            a@.len() == filled.len(),
            filled.len() == if old(a)@.len() >= b@.len() { old(a)@.len() } else { b@.len() },
            forall|j: int| #[trigger] side(filled, j) == side(old(a)@, j),
            forall|j: int| #[trigger] side(old(a)@, j) + side(b@, j) <= Value::MAX,
            forall|j: int| #[trigger] side(a@, j) == if 0 <= j < k { side(filled, j) + side(b@, j) } else { side(filled, j) },
        decreases b@.len() - k,
    {
        let ghost prev = a@;
        assert(side(old(a)@, k as int) + side(b@, k as int) <= Value::MAX);
        assert(side(a@, k as int) == side(filled, k as int));
        assert(side(filled, k as int) == side(old(a)@, k as int));
        assert(side(a@, k as int) == a@[k as int]);
        let v = a[k] + b[k];
        a.set(k, v);
        assert forall|j: int| #[trigger] side(a@, j) == if 0 <= j < k + 1 { side(filled, j) + side(b@, j) } else { side(filled, j) } by {
            assert(side(prev, j) == if 0 <= j < k { side(filled, j) + side(b@, j) } else { side(filled, j) });
        }
        k = k + 1;
    }
}

impl Tape {
    /// Adds `rhs` into this tape, digit by digit.
    pub fn add_assign(&mut self, rhs: Tape)
        requires
            old(self).wf(),
            rhs.wf(),
            forall|p: int| #[trigger] old(self).at(p) + rhs.at(p) <= Value::MAX,
        ensures
            final(self).wf(),
            final(self).lo() == if old(self).lo() <= rhs.lo() { old(self).lo() } else { rhs.lo() },
            final(self).hi() == if old(self).hi() >= rhs.hi() { old(self).hi() } else { rhs.hi() },
            forall|p: int| #[trigger] final(self).at(p) == old(self).at(p) + rhs.at(p),
    {
        proof {
            assert forall|k: int| #[trigger] side(self.positive_values@, k) + side(rhs.positive_values@, k) <= Value::MAX by {
                if k >= 0 {
                    assert(self.at(k) + rhs.at(k) <= Value::MAX);
                }
            }
            assert forall|k: int| #[trigger] side(self.negative_values@, k) + side(rhs.negative_values@, k) <= Value::MAX by {
                if k >= 0 {
                    assert(self.at(-k - 1) + rhs.at(-k - 1) <= Value::MAX);
                }
            }
        }
        add_side(&mut self.positive_values, &rhs.positive_values);
        add_side(&mut self.negative_values, &rhs.negative_values);
    }

    /// The digit-wise sum of two tapes.
    pub fn add(self, rhs: Tape) -> (r: Tape)
        requires
            self.wf(),
            rhs.wf(),
            forall|p: int| #[trigger] self.at(p) + rhs.at(p) <= Value::MAX,
        ensures
            r.wf(),
            r.lo() == if self.lo() <= rhs.lo() { self.lo() } else { rhs.lo() },
            r.hi() == if self.hi() >= rhs.hi() { self.hi() } else { rhs.hi() },
            forall|p: int| #[trigger] r.at(p) == self.at(p) + rhs.at(p),
    {
        let mut t = self;
        t.add_assign(rhs);
        t
    }
}

impl PartialEq for Tape {
    fn eq(&self, other: &Tape) -> (r: bool) {
        let r = sides_equal(&self.positive_values, &other.positive_values) && sides_equal(
            &self.negative_values,
            &other.negative_values,
        );
        proof {
            if self.same_digits(other) {
                assert forall|k: int| #[trigger] side(self.positive_values@, k) == side(other.positive_values@, k) by {
                    if k >= 0 {
                        assert(self.at(k) == other.at(k));
                    }
                }
                assert forall|k: int| #[trigger] side(self.negative_values@, k) == side(other.negative_values@, k) by {
                    if k >= 0 {
                        assert(self.at(-k - 1) == other.at(-k - 1));
                    }
                }
            }
        }
        r
    }
}

impl vstd::std_specs::cmp::PartialEqSpecImpl for Tape {
    open spec fn obeys_eq_spec() -> bool {
        true
    }

    open spec fn eq_spec(&self, other: &Tape) -> bool {
        self.same_digits(other)
    }
}

impl Eq for Tape {

}

} // verus!
