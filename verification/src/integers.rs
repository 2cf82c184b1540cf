//! An example embedding: unsigned integer items summarised by their
//! count and their total, with a dimension for each of the two.

use vstd::prelude::*;
use crate::algebra::Dimension;
use crate::algebra::Item;
use crate::algebra::Summary;
use crate::cursor::seek_target;
use crate::cursor::SeekBias;
use crate::tree::sum_items;

verus! {

/// Addition that stops at the largest machine word instead of
/// wrapping; it is associative and has 0 as identity.
pub open spec fn sat_add(a: usize, b: usize) -> usize {
    if a + b > usize::MAX {
        usize::MAX
    } else {
        (a + b) as usize
    }
}

/// How many items a subtree holds and what they add up to.
#[derive(PartialEq, Eq, Clone, Debug)]
pub struct IntegersSummary {
    pub count: usize,
    pub sum: usize,
}

impl Summary for IntegersSummary {
    open spec fn zero() -> Self {
        IntegersSummary { count: 0, sum: 0 }
    }

    open spec fn plus(self, other: Self) -> Self {
        IntegersSummary {
            count: sat_add(self.count, other.count),
            sum: sat_add(self.sum, other.sum),
        }
    }

    fn empty() -> (r: Self)
        ensures
            r == Self::zero(),
    {
        IntegersSummary { count: 0, sum: 0 }
    }

    fn accumulate(&mut self, other: &Self)
        ensures
            *final(self) == old(self).plus(*other),
    {
        self.count = checked_sat_add(self.count, other.count);
        self.sum = checked_sat_add(self.sum, other.sum);
    }

    fn duplicate(&self) -> (r: Self)
        ensures
            r == *self,
    {
        IntegersSummary { count: self.count, sum: self.sum }
    }

    proof fn zero_plus(a: Self)
        ensures
            Self::zero().plus(a) == a,
    {
    }

    proof fn plus_zero(a: Self)
        ensures
            a.plus(Self::zero()) == a,
    {
    }

    proof fn plus_assoc(a: Self, b: Self, c: Self)
        ensures
            a.plus(b).plus(c) == a.plus(b.plus(c)),
    {
    }
}

/// Executable saturating addition.
pub fn checked_sat_add(a: usize, b: usize) -> (r: usize)
    ensures
        r == sat_add(a, b),
{
    if usize::MAX - a < b {
        usize::MAX
    } else {
        a + b
    }
}

/// The item-count coordinate.
#[derive(PartialEq, Eq, Clone, Debug)]
pub struct Count(pub usize);

impl Dimension for Count {
    type Summary = IntegersSummary;

    open spec fn from_summary_spec(s: IntegersSummary) -> Self {
        Count(s.count)
    }

    open spec fn plus_spec(self, other: Self) -> Self {
        Count(sat_add(self.0, other.0))
    }

    open spec fn lte(self, other: Self) -> bool {
        self.0 <= other.0
    }

    fn from_summary(s: &IntegersSummary) -> (r: Self)
        ensures
            r == Self::from_summary_spec(*s),
    {
        Count(s.count)
    }

    fn plus_ref(self, other: &Self) -> (r: Self)
        ensures
            r == self.plus_spec(*other),
    {
        Count(checked_sat_add(self.0, other.0))
    }

    fn le(&self, other: &Self) -> (r: bool)
        ensures
            r == self.lte(*other),
    {
        self.0 <= other.0
    }

    fn duplicate(&self) -> (r: Self)
        ensures
            r == *self,
    {
        Count(self.0)
    }

    proof fn homomorphism(a: IntegersSummary, b: IntegersSummary)
        ensures
            Self::from_summary_spec(a.plus(b)) == Self::from_summary_spec(a).plus_spec(
                Self::from_summary_spec(b),
            ),
    {
    }

    proof fn total(a: Self, b: Self)
        ensures
            a.lte(b) || b.lte(a),
    {
    }

    proof fn transitive(a: Self, b: Self, c: Self)
        ensures
            a.lte(c),
    {
    }

    proof fn antisymmetric(a: Self, b: Self)
        ensures
            a == b,
    {
    }

    proof fn monotonic(a: IntegersSummary, b: IntegersSummary)
        ensures
            Self::from_summary_spec(a).lte(Self::from_summary_spec(a.plus(b))),
    {
    }
}

/// The running-total coordinate.
#[derive(PartialEq, Eq, Clone, Debug)]
pub struct Sum(pub usize);

impl Dimension for Sum {
    type Summary = IntegersSummary;

    open spec fn from_summary_spec(s: IntegersSummary) -> Self {
        Sum(s.sum)
    }

    open spec fn plus_spec(self, other: Self) -> Self {
        Sum(sat_add(self.0, other.0))
    }

    open spec fn lte(self, other: Self) -> bool {
        self.0 <= other.0
    }

    fn from_summary(s: &IntegersSummary) -> (r: Self)
        ensures
            r == Self::from_summary_spec(*s),
    {
        Sum(s.sum)
    }

    fn plus_ref(self, other: &Self) -> (r: Self)
        ensures
            r == self.plus_spec(*other),
    {
        Sum(checked_sat_add(self.0, other.0))
    }

    fn le(&self, other: &Self) -> (r: bool)
        ensures
            r == self.lte(*other),
    {
        self.0 <= other.0
    }

    fn duplicate(&self) -> (r: Self)
        ensures
            r == *self,
    {
        Sum(self.0)
    }

    proof fn homomorphism(a: IntegersSummary, b: IntegersSummary)
        ensures
            Self::from_summary_spec(a.plus(b)) == Self::from_summary_spec(a).plus_spec(
                Self::from_summary_spec(b),
            ),
    {
    }

    proof fn total(a: Self, b: Self)
        ensures
            a.lte(b) || b.lte(a),
    {
    }

    proof fn transitive(a: Self, b: Self, c: Self)
        ensures
            a.lte(c),
    {
    }

    proof fn antisymmetric(a: Self, b: Self)
        ensures
            a == b,
    {
    }

    proof fn monotonic(a: IntegersSummary, b: IntegersSummary)
        ensures
            Self::from_summary_spec(a).lte(Self::from_summary_spec(a.plus(b))),
    {
    }
}

/// The count of a prefix of integer items is its length.
pub proof fn lemma_prefix_count(items: Seq<u16>, j: int)
    requires
        0 <= j <= items.len(),
        items.len() <= usize::MAX,
    ensures
        sum_items(items.subrange(0, j)).count == j,
    decreases j,
{
    if j == 0 {
        assert(items.subrange(0, 0) =~= Seq::<u16>::empty());
    } else {
        lemma_prefix_count(items, j - 1);
        let s = items.subrange(0, j);
        assert(s.subrange(0, j - 1) =~= items.subrange(0, j - 1));
        assert(sum_items(s) == sum_items(s.subrange(0, j - 1)).plus(s[j - 1].summary_spec()));
    }
}

/// Scanning from index `q`, a right-biased seek by item count lands
/// on the named index, or at the end when the sequence is shorter.
pub proof fn lemma_count_seek_from(items: Seq<u16>, i: usize, q: int)
    requires
        0 <= q <= items.len(),
        items.len() <= usize::MAX,
    ensures
        seek_target(items, Count(i as usize), SeekBias::Right, q) == (if q <= i as int {
            (if (i as int) <= items.len() {
                i as int
            } else {
                items.len() as int
            })
        } else {
            q
        }),
    decreases items.len() - q,
{
    if q < items.len() {
        lemma_prefix_count(items, q + 1);
        if q + 1 <= i as int {
            lemma_count_seek_from(items, i, q + 1);
        }
    }
}

/// A right-biased seek to `Count(i)` from the start lands on index
/// `i`, or at the end when the tree holds fewer items.
pub proof fn lemma_count_seek(items: Seq<u16>, i: usize)
    requires
        items.len() <= usize::MAX,
    ensures
        seek_target(items, Count(i as usize), SeekBias::Right, 0) == (if (i as int)
            <= items.len() {
            i as int
        } else {
            items.len() as int
        }),
{
    lemma_count_seek_from(items, i, 0);
}

impl Item for u16 {
    type Summary = IntegersSummary;

    open spec fn summary_spec(self) -> IntegersSummary {
        IntegersSummary { count: 1, sum: self as usize }
    }

    fn summarize(&self) -> (r: IntegersSummary)
        ensures
            r == self.summary_spec(),
    {
        IntegersSummary { count: 1, sum: *self as usize }
    }
}

} // verus!
