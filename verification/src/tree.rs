//! The tree itself: a shared handle to a node, the balancing and push
//! protocol, and positional splicing.

use std::sync::Arc;
use vstd::prelude::*;
use vstd::arithmetic::power2::pow2;
use vstd::arithmetic::power2::lemma_pow2_strictly_increases;
use crate::algebra::Dimension;
use crate::algebra::Item;
use crate::algebra::Summary;

verus! {

/// Smallest child count of a non-root internal node.
pub const MIN_CHILDREN: usize = 2;

/// Largest child count of any internal node.
pub const MAX_CHILDREN: usize = 4;

/// A node is a leaf carrying one item, or an internal node carrying a
/// cached summary, its height, its children, and a handle to the leaf
/// reached by always descending through the last child.
#[derive(PartialEq, Eq, Debug)]
pub enum Node<T: Item> {
    Internal {
        rightmost_leaf: Option<Tree<T>>,
        summary: T::Summary,
        children: Vec<Tree<T>>,
        height: u16,
    },
    Leaf {
        summary: T::Summary,
        value: T,
    },
}

/// A shared, immutable handle to a node.  Cloning is cheap; mutating
/// operations replace the handle with one to a freshly built node, so
/// other handles to the old node are unaffected.
#[derive(PartialEq, Eq, Debug)]
pub struct Tree<T: Item>(pub Arc<Node<T>>);

impl<T: Item> Clone for Tree<T> {
    /// A new handle to the same node.
    fn clone(&self) -> (r: Self)
        ensures
            r == *self,
    {
        Tree(self.0.clone())
    }
}

/// The items of `items` kept by a positional range, given that `pre`
/// stands before them: an item is kept when its starting coordinate
/// `p` (the projection of the summaries of everything before it)
/// satisfies `lo <= p < hi`.
pub open spec fn chosen<T: Item, D: Dimension<Summary = T::Summary>>(
    pre: Seq<T>,
    items: Seq<T>,
    lo: D,
    hi: D,
) -> Seq<T>
    decreases items.len(),
{
    if items.len() == 0 {
        Seq::empty()
    } else {
        let front = items.subrange(0, items.len() - 1);
        let p = D::from_summary_spec(sum_items(pre + front));
        chosen(pre, front, lo, hi) + if lo.lte(p) && !hi.lte(p) {
            seq![items[items.len() - 1]]
        } else {
            Seq::empty()
        }
    }
}

/// The items whose starting coordinate lies in `lo <= p < hi`.
pub open spec fn selected<T: Item, D: Dimension<Summary = T::Summary>>(
    items: Seq<T>,
    lo: D,
    hi: D,
) -> Seq<T> {
    chosen(Seq::empty(), items, lo, hi)
}

/// The fold, from the left, of the summaries of a sequence of items.
pub open spec fn sum_items<T: Item>(s: Seq<T>) -> T::Summary
    decreases s.len(),
{
    if s.len() == 0 {
        T::Summary::zero()
    } else {
        sum_items(s.subrange(0, s.len() - 1)).plus(s[s.len() - 1].summary_spec())
    }
}

impl<T: Item> Tree<T> {
    /// The node this handle designates.
    pub open spec fn node(self) -> Node<T> {
        *self.0
    }

    /// Whether the handle designates a leaf.
    pub open spec fn is_leaf(self) -> bool {
        self.node() is Leaf
    }

    /// Height: 0 for a leaf, the stored height for an internal node.
    pub open spec fn height_spec(self) -> int {
        match self.node() {
            Node::Internal { height, .. } => height as int,
            Node::Leaf { .. } => 0,
        }
    }

    /// The cached summary of the subtree.
    pub open spec fn summary_spec(self) -> T::Summary {
        match self.node() {
            Node::Internal { summary, .. } => summary,
            Node::Leaf { summary, .. } => summary,
        }
    }

    /// The children of an internal node.
    pub open spec fn children_spec(self) -> Seq<Tree<T>> {
        match self.node() {
            Node::Internal { children, .. } => children@,
            Node::Leaf { .. } => Seq::empty(),
        }
    }

    /// The item carried by a leaf.
    pub open spec fn leaf_value(self) -> T
        recommends
            self.is_leaf(),
    {
        match self.node() {
            Node::Internal { .. } => arbitrary(),
            Node::Leaf { value, .. } => value,
        }
    }

    /// The items of the subtree, in left-to-right order.
    pub open spec fn items(self) -> Seq<T>
        decreases self.node(), 1int,
    {
        match self.node() {
            Node::Leaf { value, .. } => seq![value],
            Node::Internal { children, .. } => Self::items_of(children@),
        }
    }

    /// The items of a sequence of subtrees, concatenated in order.
    pub open spec fn items_of(ts: Seq<Tree<T>>) -> Seq<T>
        decreases ts, 0int,
    {
        if ts.len() == 0 {
            Seq::empty()
        } else {
            Self::items_of(ts.subrange(0, ts.len() - 1)) + ts[ts.len() - 1].items()
        }
    }

    /// An internal node with fewer children than the underflow
    /// threshold; a leaf never underflows.
    pub open spec fn underflow_spec(self) -> bool {
        match self.node() {
            Node::Leaf { .. } => false,
            Node::Internal { children, .. } => children@.len() < MIN_CHILDREN,
        }
    }

    /// The leaf reached by descending through the last child at every
    /// level, if the subtree has any leaf.
    pub open spec fn last_leaf(self) -> Option<Tree<T>>
        decreases self.node(),
    {
        match self.node() {
            Node::Leaf { .. } => Some(self),
            Node::Internal { children, .. } => {
                if children@.len() == 0 {
                    None
                } else {
                    children@[children@.len() - 1].last_leaf()
                }
            },
        }
    }

    /// Well-formedness of a subtree: cached aggregates are truthful,
    /// children sit one level below their parent, child counts are in
    /// bounds, and every child (of any node below the root) is wide
    /// enough not to underflow.
    pub open spec fn wf(self) -> bool
        decreases self.node(),
    {
        match self.node() {
            Node::Leaf { summary, value } => summary == value.summary_spec(),
            Node::Internal { rightmost_leaf, summary, children, height } => {
                &&& height >= 1
                &&& children@.len() <= MAX_CHILDREN
                &&& (children@.len() == 0 ==> height == 1)
                &&& (forall|i: int|
                    0 <= i < children@.len() ==> (#[trigger] children@[i]).wf())
                &&& (forall|i: int|
                    0 <= i < children@.len() ==> !(#[trigger] children@[i]).underflow_spec())
                &&& (forall|i: int|
                    0 <= i < children@.len() ==> (#[trigger] children@[i]).height_spec()
                        == height - 1)
                &&& summary == sum_items(Self::items_of(children@))
                &&& rightmost_leaf == self.last_leaf()
            },
        }
    }

    /// A tree handed out by the public interface: a well-formed
    /// internal root (possibly with no children, the empty tree).
    pub open spec fn wf_root(self) -> bool {
        self.wf() && !self.is_leaf()
    }
}

impl<T: Item> Tree<T> {
    /// The summary of a single item is the fold of its one-element
    /// sequence.
    pub proof fn lemma_sum_singleton(x: T)
        ensures
            sum_items(seq![x]) == x.summary_spec(),
    {
        let s = seq![x];
        assert(s.subrange(0, 0) =~= Seq::<T>::empty());
        assert(sum_items(s) == sum_items(s.subrange(0, 0)).plus(s[0].summary_spec()));
        T::Summary::zero_plus(x.summary_spec());
    }

    /// Folding summaries distributes over concatenation.
    pub proof fn lemma_sum_concat(a: Seq<T>, b: Seq<T>)
        ensures
            sum_items(a + b) == sum_items(a).plus(sum_items(b)),
        decreases b.len(),
    {
        if b.len() == 0 {
            assert(a + b =~= a);
            T::Summary::plus_zero(sum_items(a));
        } else {
            let b1 = b.subrange(0, b.len() - 1);
            assert((a + b).subrange(0, (a + b).len() - 1) =~= a + b1);
            assert((a + b)[(a + b).len() - 1] == b[b.len() - 1]);
            Self::lemma_sum_concat(a, b1);
            T::Summary::plus_assoc(
                sum_items(a),
                sum_items(b1),
                b[b.len() - 1].summary_spec(),
            );
        }
    }

    /// Subtree items distribute over concatenation of subtree lists.
    pub proof fn lemma_items_of_concat(a: Seq<Tree<T>>, b: Seq<Tree<T>>)
        ensures
            Self::items_of(a + b) == Self::items_of(a) + Self::items_of(b),
        decreases b.len(),
    {
        if b.len() == 0 {
            assert(a + b =~= a);
            assert(Self::items_of(a) + Self::items_of(b) =~= Self::items_of(a));
        } else {
            let b1 = b.subrange(0, b.len() - 1);
            assert((a + b).subrange(0, (a + b).len() - 1) =~= a + b1);
            assert((a + b)[(a + b).len() - 1] == b[b.len() - 1]);
            Self::lemma_items_of_concat(a, b1);
            assert(b.subrange(0, b.len() - 1) =~= b1);
            assert(Self::items_of(a) + Self::items_of(b1) + b[b.len() - 1].items() =~= Self::items_of(
                a,
            ) + (Self::items_of(b1) + b[b.len() - 1].items()));
        }
    }

    /// One step of a prefix of a subtree list.
    pub proof fn lemma_items_of_take_succ(ts: Seq<Tree<T>>, i: int)
        requires
            0 <= i < ts.len(),
        ensures
            Self::items_of(ts.subrange(0, i + 1)) == Self::items_of(ts.subrange(0, i))
                + ts[i].items(),
    {
        let s = ts.subrange(0, i + 1);
        assert(s.subrange(0, s.len() - 1) =~= ts.subrange(0, i));
        assert(s[s.len() - 1] == ts[i]);
    }

    /// The whole list is its own full prefix.
    pub proof fn lemma_items_of_take_all(ts: Seq<Tree<T>>)
        ensures
            Self::items_of(ts.subrange(0, ts.len() as int)) == Self::items_of(ts),
    {
        assert(ts.subrange(0, ts.len() as int) =~= ts);
    }

    /// A well-formed subtree that does not underflow holds at least
    /// two-to-the-height items.
    pub proof fn lemma_wf_items_min(t: Tree<T>)
        requires
            t.wf(),
            !t.underflow_spec(),
        ensures
            t.items().len() >= pow2(t.height_spec() as nat),
        decreases t.node(), 1int,
    {
        vstd::arithmetic::power2::lemma2_to64();
        match t.node() {
            Node::Leaf { .. } => {
            },
            Node::Internal { children, height, .. } => {
                Self::lemma_children_items_min(children@, height - 1);
                vstd::arithmetic::power2::lemma_pow2_adds((height - 1) as nat, 1);
                assert(children@.len() * pow2((height - 1) as nat) >= 2 * pow2(
                    (height - 1) as nat,
                )) by (nonlinear_arith)
                    requires
                        children@.len() >= 2,
                        pow2((height - 1) as nat) >= 0,
                ;
            },
        }
    }

    /// A list of well-formed, non-underflowing subtrees of a common
    /// height holds at least that many times two-to-the-height items.
    pub proof fn lemma_children_items_min(ts: Seq<Tree<T>>, h: int)
        requires
            h >= 0,
            forall|i: int| 0 <= i < ts.len() ==> (#[trigger] ts[i]).wf(),
            forall|i: int| 0 <= i < ts.len() ==> !(#[trigger] ts[i]).underflow_spec(),
            forall|i: int| 0 <= i < ts.len() ==> (#[trigger] ts[i]).height_spec() == h,
        ensures
            Self::items_of(ts).len() >= ts.len() * pow2(h as nat),
        decreases ts, 0int,
    {
        if ts.len() == 0 {
        } else {
            let front = ts.subrange(0, ts.len() - 1);
            Self::lemma_children_items_min(front, h);
            Self::lemma_wf_items_min(ts[ts.len() - 1]);
            assert((ts.len() - 1) * pow2(h as nat) + pow2(h as nat) == ts.len() * pow2(
                h as nat,
            )) by (nonlinear_arith);
        }
    }

    /// In a well-formed tree the cached summary is the fold of the
    /// item summaries.
    pub proof fn lemma_wf_summary(t: Tree<T>)
        requires
            t.wf(),
        ensures
            t.summary_spec() == sum_items(t.items()),
    {
        match t.node() {
            Node::Leaf { value, .. } => {
                Self::lemma_sum_singleton(value);
            },
            Node::Internal { .. } => {
            },
        }
    }

    /// A well-formed root is empty exactly when it has no children,
    /// and its height is then 1.
    pub proof fn lemma_root_empty(t: Tree<T>)
        requires
            t.wf(),
            !t.is_leaf(),
        ensures
            (t.children_spec().len() == 0 <==> t.items().len() == 0),
            t.children_spec().len() == 0 ==> t.height_spec() == 1,
    {
        let children = t.children_spec();
        if children.len() > 0 {
            Self::lemma_children_items_min(children, t.height_spec() - 1);
            vstd::arithmetic::power2::lemma_pow2_pos((t.height_spec() - 1) as nat);
            assert(children.len() * pow2((t.height_spec() - 1) as nat) >= 1 * pow2(
                (t.height_spec() - 1) as nat,
            )) by (nonlinear_arith)
                requires
                    children.len() >= 1,
                    pow2((t.height_spec() - 1) as nat) >= 1,
            ;
        }
    }

    /// A well-formed root whose items fit in a machine word is short.
    pub proof fn lemma_root_height_small(t: Tree<T>)
        requires
            t.wf(),
            !t.is_leaf(),
            t.items().len() <= usize::MAX,
        ensures
            t.height_spec() <= 64,
    {
        let h = t.height_spec();
        let children = t.children_spec();
        if children.len() == 0 {
            Self::lemma_root_empty(t);
        } else if h > 64 {
            Self::lemma_children_items_min(children, h - 1);
            vstd::arithmetic::power2::lemma_pow2_pos((h - 1) as nat);
            assert(children.len() * pow2((h - 1) as nat) >= 1 * pow2((h - 1) as nat))
                by (nonlinear_arith)
                requires
                    children.len() >= 1,
                    pow2((h - 1) as nat) >= 1,
            ;
            if h - 1 > 64 {
                lemma_pow2_strictly_increases(64, (h - 1) as nat);
            }
            vstd::arithmetic::power2::lemma2_to64();
            assert(usize::MAX <= 0xFFFF_FFFF_FFFF_FFFFu64);
            assert(false);
        }
    }
}

impl<T: Item> Tree<T> {
    /// The cached summary of this subtree: in a well-formed tree it
    /// is the fold of the summaries of every item.
    pub fn summary(&self) -> (r: &T::Summary)
        ensures
            *r == self.summary_spec(),
            self.wf() ==> *r == sum_items(self.items()),
    {
        proof {
            if self.wf() {
                Self::lemma_wf_summary(*self);
            }
        }
        match &*self.0 {
            Node::Internal { summary, .. } => summary,
            Node::Leaf { summary, .. } => summary,
        }
    }

    /// Height of this subtree; 0 for a leaf.
    pub(crate) fn height(&self) -> (r: u16)
        ensures
            r as int == self.height_spec(),
    {
        match &*self.0 {
            Node::Internal { height, .. } => *height,
            Node::Leaf { .. } => 0,
        }
    }

    /// The children of an internal node.
    pub(crate) fn children(&self) -> (r: &Vec<Tree<T>>)
        requires
            !self.is_leaf(),
        ensures
            r@ == self.children_spec(),
    {
        match &*self.0 {
            Node::Internal { children, .. } => children,
            Node::Leaf { .. } => vstd::pervasive::unreached(),
        }
    }

    /// The item carried by a leaf.
    pub(crate) fn value(&self) -> (r: &T)
        requires
            self.is_leaf(),
        ensures
            *r == self.leaf_value(),
    {
        match &*self.0 {
            Node::Internal { .. } => vstd::pervasive::unreached(),
            Node::Leaf { value, .. } => value,
        }
    }

    /// Whether an internal node is narrower than the underflow
    /// threshold.
    pub(crate) fn underflowing(&self) -> (r: bool)
        ensures
            r == self.underflow_spec(),
    {
        match &*self.0 {
            Node::Internal { children, .. } => children.len() < MIN_CHILDREN,
            Node::Leaf { .. } => false,
        }
    }

    /// Whether the tree holds no items.
    pub(crate) fn is_empty(&self) -> (r: bool)
        requires
            self.wf(),
        ensures
            r == (self.items().len() == 0),
    {
        proof {
            if !self.is_leaf() {
                Self::lemma_root_empty(*self);
            }
        }
        match &*self.0 {
            Node::Internal { children, .. } => children.len() == 0,
            Node::Leaf { .. } => false,
        }
    }

    /// The leaf reached through the last child at every level.
    /// The items of a one-subtree list are the subtree's items.
    pub proof fn lemma_items_of_singleton(t: Tree<T>)
        ensures
            Self::items_of(seq![t]) == t.items(),
    {
        let s = seq![t];
        assert(s.subrange(0, 0) =~= Seq::<Tree<T>>::empty());
        assert(Self::items_of(s) == Self::items_of(s.subrange(0, 0)) + s[0].items());
        assert(Seq::empty() + t.items() =~= t.items());
    }

    /// The last leaf of a well-formed tree carries its last item.
    pub proof fn lemma_last_leaf(t: Tree<T>)
        requires
            t.wf(),
        ensures
            match t.last_leaf() {
                Some(l) => t.items().len() > 0 && l.wf() && l.is_leaf() && l.leaf_value()
                    == t.items().last(),
                None => t.items().len() == 0,
            },
        decreases t.node(),
    {
        match t.node() {
            Node::Leaf { .. } => {
            },
            Node::Internal { children, height, .. } => {
                if children@.len() > 0 {
                    let last = children@[children@.len() - 1];
                    Self::lemma_last_leaf(last);
                    Self::lemma_wf_items_min(last);
                    vstd::arithmetic::power2::lemma_pow2_pos((height - 1) as nat);
                    let front = children@.subrange(0, children@.len() - 1);
                    assert(t.items() == Self::items_of(front) + last.items());
                    assert(t.items().last() == last.items().last());
                }
            },
        }
    }

    pub(crate) fn rightmost_leaf(&self) -> (r: Option<&Tree<T>>)
        requires
            self.wf(),
        ensures
            match r {
                Some(l) => self.last_leaf() == Some(*l),
                None => self.last_leaf() is None,
            },
    {
        match &*self.0 {
            Node::Internal { rightmost_leaf, .. } => rightmost_leaf.as_ref(),
            Node::Leaf { .. } => Some(self),
        }
    }

    /// A fresh vector of handles to the same subtrees.
    fn clone_trees(ts: &Vec<Tree<T>>) -> (r: Vec<Tree<T>>)
        ensures
            r@ == ts@,
    {
        let mut r: Vec<Tree<T>> = Vec::new();
        let mut i: usize = 0;
        while i < ts.len()
            invariant
                0 <= i <= ts@.len(),
                r@ == ts@.subrange(0, i as int),
            decreases ts@.len() - i,
        {
            r.push(ts[i].clone());
            proof {
                assert(ts@.subrange(0, i + 1) =~= ts@.subrange(0, i as int).push(ts@[i as int]));
            }
            i += 1;
        }
        proof {
            assert(ts@.subrange(0, i as int) =~= ts@);
        }
        r
    }

    /// The fold of the summaries of a list of well-formed subtrees.
    fn summarize_children(children: &Vec<Tree<T>>) -> (r: T::Summary)
        requires
            forall|i: int| 0 <= i < children@.len() ==> (#[trigger] children@[i]).wf(),
        ensures
            r == sum_items(Self::items_of(children@)),
    {
        let mut summary = T::Summary::empty();
        let mut i: usize = 0;
        proof {
            assert(children@.subrange(0, 0) =~= Seq::<Tree<T>>::empty());
        }
        while i < children.len()
            invariant
                0 <= i <= children@.len(),
                forall|j: int| 0 <= j < children@.len() ==> (#[trigger] children@[j]).wf(),
                summary == sum_items(Self::items_of(children@.subrange(0, i as int))),
            decreases children@.len() - i,
        {
            summary.accumulate(children[i].summary());
            proof {
                Self::lemma_items_of_take_succ(children@, i as int);
                Self::lemma_sum_concat(
                    Self::items_of(children@.subrange(0, i as int)),
                    children@[i as int].items(),
                );
                Self::lemma_wf_summary(children@[i as int]);
            }
            i += 1;
        }
        proof {
            Self::lemma_items_of_take_all(children@);
        }
        summary
    }

    /// Build a fresh internal node over the given children, computing
    /// its summary, rightmost leaf and height.
    fn from_children(children: Vec<Self>) -> (r: Self)
        requires
            children@.len() <= MAX_CHILDREN,
            forall|i: int| 0 <= i < children@.len() ==> (#[trigger] children@[i]).wf(),
            forall|i: int| 0 <= i < children@.len() ==> !(#[trigger] children@[i]).underflow_spec(),
            forall|i: int|
                0 <= i < children@.len() ==> (#[trigger] children@[i]).height_spec()
                    == children@[0].height_spec(),
            children@.len() > 0 ==> children@[0].height_spec() + 1 <= u16::MAX,
        ensures
            r.wf_root(),
            r.items() == Self::items_of(children@),
            r.children_spec() == children@,
            r.height_spec() == if children@.len() == 0 {
                1int
            } else {
                children@[0].height_spec() + 1
            },
    {
        let summary = Self::summarize_children(&children);
        let rightmost_leaf: Option<Tree<T>> = if children.len() == 0 {
            None
        } else {
            match children[children.len() - 1].rightmost_leaf() {
                Some(l) => Some(l.clone()),
                None => None,
            }
        };
        let height: u16 = if children.len() == 0 {
            1
        } else {
            children[0].height() + 1
        };
        let r = Tree(Arc::new(Node::Internal { rightmost_leaf, summary, children, height }));
        r
    }

    /// The empty tree.
    pub fn new() -> (r: Self)
        ensures
            r.wf_root(),
            r.items() == Seq::<T>::empty(),
    {
        Self::from_children(Vec::new())
    }

    /// A tree holding exactly one item.
    pub fn from_item(item: T) -> (r: Self)
        ensures
            r.wf_root(),
            r.items() == seq![item],
    {
        let mut tree = Self::new();
        tree.push(item);
        proof {
            assert(Seq::<T>::empty().push(item) =~= seq![item]);
        }
        tree
    }

    /// Append one item at the right-hand end.
    pub fn push(&mut self, item: T)
        requires
            old(self).wf_root(),
            old(self).items().len() + 1 <= usize::MAX,
        ensures
            final(self).wf_root(),
            final(self).items() == old(self).items().push(item),
    {
        let summary = item.summarize();
        let ghost it = item;
        let leaf = Tree(Arc::new(Node::Leaf { summary, value: item }));
        self.push_tree(leaf);
        proof {
            assert(old(self).items() + seq![it] =~= old(self).items().push(it));
        }
    }

    /// Append each item of a vector in order.
    pub fn extend(&mut self, items: Vec<T>)
        requires
            old(self).wf_root(),
            old(self).items().len() + items@.len() <= usize::MAX,
        ensures
            final(self).wf_root(),
            final(self).items() == old(self).items() + items@,
    {
        let ghost all = items@;
        let mut rest = items;
        proof {
            assert(old(self).items() + all.subrange(0, 0) =~= old(self).items());
        }
        while rest.len() > 0
            invariant
                self.wf_root(),
                rest@.len() <= all.len(),
                rest@ == all.subrange(all.len() - rest@.len(), all.len() as int),
                self.items() == old(self).items() + all.subrange(0, all.len() - rest@.len()),
                old(self).items().len() + all.len() <= usize::MAX,
            decreases rest@.len(),
        {
            let ghost done = all.len() - rest@.len();
            let x = rest.remove(0);
            proof {
                assert(x == all[done]);
            }
            self.push(x);
            proof {
                assert(rest@ =~= all.subrange(all.len() - rest@.len(), all.len() as int));
                assert(all.subrange(0, done + 1) =~= all.subrange(0, done).push(all[done]));
            }
        }
        proof {
            assert(all.subrange(0, all.len() as int) =~= all);
        }
    }

    /// Append a whole tree at the right-hand end, reusing its nodes.
    pub fn push_tree(&mut self, other: Self)
        requires
            old(self).wf_root(),
            other.wf(),
            old(self).items().len() + other.items().len() <= usize::MAX,
        ensures
            final(self).wf_root(),
            final(self).items() == old(self).items() + other.items(),
        decreases other.height_spec(),
    {
        if other.is_empty() {
            proof {
                assert(old(self).items() + other.items() =~= old(self).items());
            }
            return;
        }
        let self_height = self.height();
        let other_height = other.height();
        if self_height < other_height {
            let ghost oc = other.children_spec();
            let ghost start = self.items();
            let n = other.children().len();
            let mut i: usize = 0;
            proof {
                assert(Self::items_of(oc.subrange(0, 0)) =~= Seq::<T>::empty());
                assert(start + Self::items_of(oc.subrange(0, 0)) =~= start);
                Self::lemma_items_of_take_all(oc);
            }
            while i < n
                invariant
                    self.wf_root(),
                    other.wf(),
                    !other.is_leaf(),
                    0 <= i <= n,
                    n == oc.len(),
                    oc == other.children_spec(),
                    other.items() == Self::items_of(oc),
                    self.items() == start + Self::items_of(oc.subrange(0, i as int)),
                    start.len() + other.items().len() <= usize::MAX,
                decreases n - i,
            {
                let child = other.children()[i].clone();
                proof {
                    Self::lemma_items_of_take_succ(oc, i as int);
                    Self::lemma_items_of_concat(
                        oc.subrange(0, i as int + 1),
                        oc.subrange(i as int + 1, n as int),
                    );
                    assert(oc =~= oc.subrange(0, i as int + 1) + oc.subrange(
                        i as int + 1,
                        n as int,
                    ));
                    assert(self.items() + child.items() =~= start + Self::items_of(
                        oc.subrange(0, i as int + 1),
                    ));
                }
                self.push_tree(child);
                i += 1;
            }
            proof {
                Self::lemma_items_of_take_all(oc);
            }
        } else {
            let ghost start = self.items();
            match self.push_recursive(other) {
                None => {
                },
                Some(sibling) => {
                    let left = self.clone();
                    proof {
                        assert(left.items() + sibling.items() == start + other.items());
                        assert((left.items() + sibling.items()).len() == left.items().len()
                            + sibling.items().len());
                        assert(left.items().len() <= start.len() + other.items().len());
                        Self::lemma_root_height_small(left);
                        assert(seq![left, sibling] =~= seq![left] + seq![sibling]);
                        Self::lemma_items_of_concat(seq![left], seq![sibling]);
                        Self::lemma_items_of_singleton(left);
                        Self::lemma_items_of_singleton(sibling);
                    }
                    let mut two: Vec<Tree<T>> = Vec::new();
                    two.push(left);
                    two.push(sibling);
                    proof {
                        assert(two@ =~= seq![left, sibling]);
                    }
                    *self = Self::from_children(two);
                },
            }
        }
    }

    /// Absorb `other` into this node, which must be at least as tall;
    /// a sibling node is returned when the node had to split.
    fn push_recursive(&mut self, other: Tree<T>) -> (split: Option<Tree<T>>)
        requires
            old(self).wf(),
            !old(self).is_leaf(),
            other.wf(),
            other.items().len() > 0,
            other.height_spec() <= old(self).height_spec(),
        ensures
            final(self).wf(),
            !final(self).is_leaf(),
            final(self).height_spec() == old(self).height_spec(),
            !old(self).underflow_spec() ==> !final(self).underflow_spec(),
            match split {
                None => final(self).items() == old(self).items() + other.items(),
                Some(s) => {
                    &&& s.wf()
                    &&& !s.is_leaf()
                    &&& !s.underflow_spec()
                    &&& !final(self).underflow_spec()
                    &&& s.height_spec() == old(self).height_spec()
                    &&& final(self).items() + s.items() == old(self).items() + other.items()
                },
            },
        decreases old(self).height_spec(),
    {
        let self_height = self.height();
        let other_height = other.height();
        if other_height == self_height {
            proof {
                Self::lemma_root_empty(other);
            }
            let new_children = Self::clone_trees(other.children());
            self.append_children(new_children)
        } else if other_height + 1 == self_height && !other.underflowing() {
            let mut v: Vec<Tree<T>> = Vec::new();
            v.push(other);
            proof {
                assert(v@ =~= seq![other]);
                Self::lemma_items_of_singleton(other);
            }
            self.append_children(v)
        } else {
            proof {
                Self::lemma_root_empty(*self);
                if self.children_spec().len() == 0 {
                    assert(self.height_spec() == 1);
                    assert(other.height_spec() <= 1);
                    if other.height_spec() == 0 {
                        assert(false);
                    } else {
                        assert(false);
                    }
                }
            }
            let ghost oldc = self.children_spec();
            let ghost start = self.items();
            let mut children = Self::clone_trees(self.children());
            let mut last = children.pop().unwrap();
            let ghost old_last = last;
            proof {
                assert(oldc[oldc.len() - 1].height_spec() == self.height_spec() - 1);
                if self.height_spec() == 1 {
                    assert(other.height_spec() == 0 || other.height_spec() == 1);
                    assert(false);
                }
            }
            let split_below = last.push_recursive(other);
            children.push(last);
            let ghost front = oldc.subrange(0, oldc.len() - 1);
            proof {
                assert(children@ =~= front.push(last));
                assert(front.push(last) =~= front + seq![last]);
                Self::lemma_items_of_concat(front, seq![last]);
                Self::lemma_items_of_singleton(last);
                Self::lemma_items_of_take_succ(oldc, oldc.len() - 1);
                assert(oldc.subrange(0, oldc.len() as int) =~= oldc);
                assert(start == Self::items_of(front) + old_last.items());
            }
            let new_self = Self::from_children(children);
            *self = new_self;
            match split_below {
                None => {
                    proof {
                        assert(Self::items_of(front) + (old_last.items() + other.items())
                            =~= (Self::items_of(front) + old_last.items()) + other.items());
                    }
                    None
                },
                Some(s) => {
                    proof {
                        assert(Self::items_of(front) + (old_last.items() + other.items())
                            =~= (Self::items_of(front) + old_last.items()) + other.items());
                    }
                    let ghost mid = self.items();
                    let mut v: Vec<Tree<T>> = Vec::new();
                    v.push(s);
                    proof {
                        assert(v@ =~= seq![s]);
                        Self::lemma_items_of_singleton(s);
                    }
                    let ghost s_items = Self::items_of(v@);
                    let r = self.append_children(v);
                    proof {
                        match r {
                            None => {
                                assert(self.items() == mid + s_items);
                                assert(mid + s_items =~= start + other.items()) by {
                                    assert(mid + s_items =~= (mid + s_items));
                                };
                            },
                            Some(_) => {
                            },
                        }
                    }
                    r
                },
            }
        }
    }

    /// Add children at the right-hand end, splitting when the node
    /// would exceed the largest allowed child count.
    fn append_children(&mut self, new_children: Vec<Tree<T>>) -> (split: Option<Tree<T>>)
        requires
            old(self).wf(),
            !old(self).is_leaf(),
            1 <= new_children@.len() <= MAX_CHILDREN,
            forall|i: int| 0 <= i < new_children@.len() ==> (#[trigger] new_children@[i]).wf(),
            forall|i: int|
                0 <= i < new_children@.len() ==> !(#[trigger] new_children@[i]).underflow_spec(),
            forall|i: int|
                0 <= i < new_children@.len() ==> (#[trigger] new_children@[i]).height_spec()
                    == old(self).height_spec() - 1,
        ensures
            final(self).wf(),
            !final(self).is_leaf(),
            final(self).height_spec() == old(self).height_spec(),
            !old(self).underflow_spec() ==> !final(self).underflow_spec(),
            match split {
                None => final(self).items() == old(self).items() + Self::items_of(new_children@)
                    && final(self).children_spec().len() == old(self).children_spec().len()
                    + new_children@.len(),
                Some(s) => {
                    &&& s.wf()
                    &&& !s.is_leaf()
                    &&& !s.underflow_spec()
                    &&& !final(self).underflow_spec()
                    &&& s.height_spec() == old(self).height_spec()
                    &&& final(self).items() + s.items() == old(self).items() + Self::items_of(
                        new_children@,
                    )
                },
            },
    {
        let ghost oldc = self.children_spec();
        let ghost start = self.items();
        let ghost h = self.height_spec();
        let mut all = Self::clone_trees(self.children());
        let mut j: usize = 0;
        proof {
            assert(all@ + new_children@.subrange(0, 0) =~= all@);
        }
        while j < new_children.len()
            invariant
                0 <= j <= new_children@.len(),
                all@ == oldc + new_children@.subrange(0, j as int),
            decreases new_children@.len() - j,
        {
            all.push(new_children[j].clone());
            proof {
                assert(oldc + new_children@.subrange(0, j + 1) =~= (oldc + new_children@.subrange(
                    0,
                    j as int,
                )).push(new_children@[j as int]));
            }
            j += 1;
        }
        proof {
            assert(new_children@.subrange(0, new_children@.len() as int) =~= new_children@);
            assert(all@ == oldc + new_children@);
            Self::lemma_items_of_concat(oldc, new_children@);
        }
        let k = all.len();
        if k > MAX_CHILDREN {
            let midpoint = (k + k % 2) / 2;
            let mut left: Vec<Tree<T>> = Vec::new();
            let mut right: Vec<Tree<T>> = Vec::new();
            let mut i: usize = 0;
            while i < midpoint
                invariant
                    0 <= i <= midpoint <= all@.len(),
                    left@ == all@.subrange(0, i as int),
                decreases midpoint - i,
            {
                left.push(all[i].clone());
                proof {
                    assert(all@.subrange(0, i + 1) =~= all@.subrange(0, i as int).push(
                        all@[i as int],
                    ));
                }
                i += 1;
            }
            let mut i2: usize = midpoint;
            while i2 < k
                invariant
                    midpoint <= i2 <= k,
                    k == all@.len(),
                    right@ == all@.subrange(midpoint as int, i2 as int),
                decreases k - i2,
            {
                right.push(all[i2].clone());
                proof {
                    assert(all@.subrange(midpoint as int, i2 + 1) =~= all@.subrange(
                        midpoint as int,
                        i2 as int,
                    ).push(all@[i2 as int]));
                }
                i2 += 1;
            }
            proof {
                assert(all@ =~= left@ + right@);
                Self::lemma_items_of_concat(left@, right@);
            }
            let new_self = Self::from_children(left);
            *self = new_self;
            Some(Self::from_children(right))
        } else {
            let new_self = Self::from_children(all);
            *self = new_self;
            None
        }
    }

    /// Keeping a range distributes over splitting the item sequence,
    /// with the prefix standing before the remainder.
    proof fn lemma_chosen_split<D: Dimension<Summary = T::Summary>>(
        pre: Seq<T>,
        a: Seq<T>,
        b: Seq<T>,
        lo: D,
        hi: D,
    )
        ensures
            chosen::<T, D>(pre, a + b, lo, hi) == chosen::<T, D>(pre, a, lo, hi) + chosen::<T, D>(
                pre + a,
                b,
                lo,
                hi,
            ),
        decreases b.len(),
    {
        if b.len() == 0 {
            assert(a + b =~= a);
            assert(chosen::<T, D>(pre, a, lo, hi) + chosen::<T, D>(pre + a, b, lo, hi)
                =~= chosen::<T, D>(pre, a, lo, hi));
        } else {
            let bf = b.subrange(0, b.len() - 1);
            let ab = a + b;
            assert(ab.subrange(0, ab.len() - 1) =~= a + bf);
            assert(ab[ab.len() - 1] == b[b.len() - 1]);
            Self::lemma_chosen_split(pre, a, bf, lo, hi);
            assert(pre + (a + bf) =~= (pre + a) + bf);
            assert(b.subrange(0, b.len() - 1) =~= bf);
            let p = D::from_summary_spec(sum_items(pre + (a + bf)));
            let tail = if lo.lte(p) && !hi.lte(p) {
                seq![b[b.len() - 1]]
            } else {
                Seq::<T>::empty()
            };
            assert(chosen::<T, D>(pre, ab, lo, hi) == chosen::<T, D>(pre, a + bf, lo, hi) + tail);
            assert(chosen::<T, D>(pre + a, b, lo, hi) == chosen::<T, D>(pre + a, bf, lo, hi)
                + tail);
            assert((chosen::<T, D>(pre, a, lo, hi) + chosen::<T, D>(pre + a, bf, lo, hi)) + tail
                =~= chosen::<T, D>(pre, a, lo, hi) + (chosen::<T, D>(pre + a, bf, lo, hi) + tail));
        }
    }

    /// When a subtree lies wholly inside the range, every item of it
    /// is kept.
    proof fn lemma_chosen_all<D: Dimension<Summary = T::Summary>>(
        pre: Seq<T>,
        items: Seq<T>,
        lo: D,
        hi: D,
    )
        requires
            lo.lte(D::from_summary_spec(sum_items(pre))),
            !hi.lte(D::from_summary_spec(sum_items(pre + items))),
        ensures
            chosen::<T, D>(pre, items, lo, hi) == items,
        decreases items.len(),
    {
        if items.len() == 0 {
            assert(chosen::<T, D>(pre, items, lo, hi) =~= items);
        } else {
            let front = items.subrange(0, items.len() - 1);
            let last = items[items.len() - 1];
            let p = D::from_summary_spec(sum_items(pre + front));
            let pe = D::from_summary_spec(sum_items(pre + items));
            assert((pre + items).subrange(0, (pre + items).len() - 1) =~= pre + front);
            assert((pre + items)[(pre + items).len() - 1] == last);
            assert(sum_items(pre + items) == sum_items(pre + front).plus(last.summary_spec()));
            D::monotonic(sum_items(pre + front), last.summary_spec());
            if hi.lte(p) {
                D::transitive(hi, p, pe);
                assert(false);
            }
            Self::lemma_sum_concat(pre, front);
            D::monotonic(sum_items(pre), sum_items(front));
            D::transitive(lo, D::from_summary_spec(sum_items(pre)), p);
            Self::lemma_chosen_all(pre, front, lo, hi);
            assert(front + seq![last] =~= items);
        }
    }

    /// When the range ends at or before a subtree's start, no item of
    /// it is kept.
    proof fn lemma_chosen_none<D: Dimension<Summary = T::Summary>>(
        pre: Seq<T>,
        items: Seq<T>,
        lo: D,
        hi: D,
    )
        requires
            hi.lte(D::from_summary_spec(sum_items(pre))),
        ensures
            chosen::<T, D>(pre, items, lo, hi) == Seq::<T>::empty(),
        decreases items.len(),
    {
        if items.len() == 0 {
        } else {
            let front = items.subrange(0, items.len() - 1);
            let p = D::from_summary_spec(sum_items(pre + front));
            Self::lemma_sum_concat(pre, front);
            D::monotonic(sum_items(pre), sum_items(front));
            D::transitive(hi, D::from_summary_spec(sum_items(pre)), p);
            Self::lemma_chosen_none(pre, front, lo, hi);
            assert(chosen::<T, D>(pre, items, lo, hi) =~= Seq::<T>::empty());
        }
    }

    /// A range never keeps more items than there are.
    proof fn lemma_chosen_len<D: Dimension<Summary = T::Summary>>(
        pre: Seq<T>,
        items: Seq<T>,
        lo: D,
        hi: D,
    )
        ensures
            chosen::<T, D>(pre, items, lo, hi).len() <= items.len(),
        decreases items.len(),
    {
        if items.len() == 0 {
        } else {
            Self::lemma_chosen_len(pre, items.subrange(0, items.len() - 1), lo, hi);
        }
    }

    /// Append to `result` the items of this subtree whose coordinates
    /// lie in `[start, end)`, pushing whole subtrees where the range
    /// cleanly contains them.  `pre` is everything to the left of this
    /// subtree and `node_start` its starting coordinate.
    fn append_subsequence_recursive<D: Dimension<Summary = T::Summary>>(
        &self,
        result: &mut Self,
        node_start: D,
        start: &D,
        end: &D,
        Ghost(pre): Ghost<Seq<T>>,
    )
        requires
            self.wf(),
            old(result).wf_root(),
            node_start == D::from_summary_spec(sum_items(pre)),
            old(result).items().len() + chosen::<T, D>(pre, self.items(), *start, *end).len()
                <= usize::MAX,
        ensures
            final(result).wf_root(),
            final(result).items() == old(result).items() + chosen::<T, D>(
                pre,
                self.items(),
                *start,
                *end,
            ),
        decreases self.height_spec(),
    {
        match &*self.0 {
            Node::Internal { summary, children, .. } => {
                let node_end = node_start.duplicate().plus_ref(&D::from_summary(summary));
                proof {
                    Self::lemma_wf_summary(*self);
                    Self::lemma_sum_concat(pre, self.items());
                    D::homomorphism(sum_items(pre), sum_items(self.items()));
                    assert(node_end == D::from_summary_spec(sum_items(pre + self.items())));
                }
                if start.le(&node_start) && !end.le(&node_end) {
                    proof {
                        Self::lemma_chosen_all(pre, self.items(), *start, *end);
                    }
                    result.push_tree(self.clone());
                } else if !end.le(&node_start) || !node_end.le(start) {
                    let ghost cs = children@;
                    let ghost all_chosen = chosen::<T, D>(pre, self.items(), *start, *end);
                    let n = children.len();
                    let mut child_start = node_start;
                    let mut i: usize = 0;
                    proof {
                        assert(cs.subrange(0, 0) =~= Seq::<Tree<T>>::empty());
                        assert(pre + Self::items_of(cs.subrange(0, 0)) =~= pre);
                        assert(old(result).items() + chosen::<T, D>(
                            pre,
                            Self::items_of(cs.subrange(0, 0)),
                            *start,
                            *end,
                        ) =~= old(result).items());
                        Self::lemma_items_of_take_all(cs);
                    }
                    while i < n
                        invariant
                            0 <= i <= n,
                            n == cs.len(),
                            children@ == cs,
                            self.wf(),
                            !self.is_leaf(),
                            cs == self.children_spec(),
                            self.items() == Self::items_of(cs),
                            result.wf_root(),
                            child_start == D::from_summary_spec(
                                sum_items(pre + Self::items_of(cs.subrange(0, i as int))),
                            ),
                            result.items() == old(result).items() + chosen::<T, D>(
                                pre,
                                Self::items_of(cs.subrange(0, i as int)),
                                *start,
                                *end,
                            ),
                            old(result).items().len() + chosen::<T, D>(
                                pre,
                                self.items(),
                                *start,
                                *end,
                            ).len() <= usize::MAX,
                            all_chosen == chosen::<T, D>(pre, self.items(), *start, *end),
                        decreases n - i,
                    {
                        let child = &children[i];
                        let ghost taken = Self::items_of(cs.subrange(0, i as int));
                        proof {
                            Self::lemma_items_of_take_succ(cs, i as int);
                            Self::lemma_chosen_split(pre, taken, child.items(), *start, *end);
                            assert(cs =~= cs.subrange(0, i as int + 1) + cs.subrange(
                                i as int + 1,
                                n as int,
                            ));
                            Self::lemma_items_of_concat(
                                cs.subrange(0, i as int + 1),
                                cs.subrange(i as int + 1, n as int),
                            );
                            Self::lemma_chosen_split(
                                pre,
                                Self::items_of(cs.subrange(0, i as int + 1)),
                                Self::items_of(cs.subrange(i as int + 1, n as int)),
                                *start,
                                *end,
                            );
                            assert(pre + (taken + child.items()) =~= (pre + taken)
                                + child.items());
                        }
                        child.append_subsequence_recursive(
                            result,
                            child_start.duplicate(),
                            start,
                            end,
                            Ghost(pre + taken),
                        );
                        child_start = child_start.plus_ref(&D::from_summary(child.summary()));
                        proof {
                            Self::lemma_wf_summary(cs[i as int]);
                            Self::lemma_sum_concat(pre + taken, child.items());
                            D::homomorphism(sum_items(pre + taken), sum_items(child.items()));
                            assert((pre + taken) + child.items() =~= pre + (taken
                                + child.items()));
                            assert(old(result).items() + (chosen::<T, D>(pre, taken, *start, *end)
                                + chosen::<T, D>(pre + taken, child.items(), *start, *end))
                                =~= (old(result).items() + chosen::<T, D>(
                                pre,
                                taken,
                                *start,
                                *end,
                            )) + chosen::<T, D>(pre + taken, child.items(), *start, *end));
                        }
                        i += 1;
                    }
                    proof {
                        assert(cs.subrange(0, n as int) =~= cs);
                    }
                } else {
                    proof {
                        Self::lemma_chosen_none(pre, self.items(), *start, *end);
                        assert(old(result).items() + chosen::<T, D>(
                            pre,
                            self.items(),
                            *start,
                            *end,
                        ) =~= old(result).items());
                    }
                }
            },
            Node::Leaf { .. } => {
                let sel = start.le(&node_start) && !end.le(&node_start);
                proof {
                    let its = self.items();
                    let front = its.subrange(0, 0);
                    assert(front =~= Seq::<T>::empty());
                    assert(pre + front =~= pre);
                    let p = D::from_summary_spec(sum_items(pre + front));
                    assert(p == node_start);
                    assert(chosen::<T, D>(pre, front, *start, *end) == Seq::<T>::empty());
                    if sel {
                        assert(chosen::<T, D>(pre, its, *start, *end) =~= seq![its[0]]);
                        assert(its =~= seq![self.leaf_value()]);
                        assert(chosen::<T, D>(pre, its, *start, *end) =~= its);
                    } else {
                        assert(chosen::<T, D>(pre, its, *start, *end) =~= Seq::<T>::empty());
                        assert(old(result).items() + chosen::<T, D>(pre, its, *start, *end)
                            =~= old(result).items());
                    }
                }
                if sel {
                    result.push_tree(self.clone());
                }
            },
        }
    }

    /// Append to `result` the items of this tree whose coordinates lie
    /// in `[start, end)`.
    fn append_subsequence<D: Dimension<Summary = T::Summary>>(
        &self,
        result: &mut Self,
        start: &D,
        end: &D,
    )
        requires
            self.wf(),
            old(result).wf_root(),
            old(result).items().len() + self.items().len() <= usize::MAX,
        ensures
            final(result).wf_root(),
            final(result).items() == old(result).items() + selected::<T, D>(
                self.items(),
                *start,
                *end,
            ),
    {
        let d0 = D::default();
        proof {
            assert(Seq::<T>::empty() + self.items() =~= self.items());
            Self::lemma_chosen_len::<D>(Seq::empty(), self.items(), *start, *end);
        }
        self.append_subsequence_recursive(result, d0, start, end, Ghost(Seq::empty()));
    }

    /// Replace the items whose coordinates lie in the given range with
    /// the given new items, sharing the untouched subtrees.
    pub fn splice<D: Dimension<Summary = T::Summary>>(
        &mut self,
        old_range: core::ops::Range<&D>,
        new_items: Vec<T>,
    )
        requires
            old(self).wf_root(),
            2 * old(self).items().len() + new_items@.len() <= usize::MAX,
        ensures
            final(self).wf_root(),
            final(self).items() == selected::<T, D>(
                old(self).items(),
                D::from_summary_spec(<T::Summary as Summary>::zero()),
                *old_range.start,
            ) + new_items@ + selected::<T, D>(
                old(self).items(),
                *old_range.end,
                D::from_summary_spec(sum_items(old(self).items())),
            ),
    {
        let mut result = Self::new();
        proof {
            assert(Seq::<T>::empty() + selected::<T, D>(
                self.items(),
                D::from_summary_spec(<T::Summary as Summary>::zero()),
                *old_range.start,
            ) =~= selected::<T, D>(
                self.items(),
                D::from_summary_spec(<T::Summary as Summary>::zero()),
                *old_range.start,
            ));
        }
        let d0 = D::default();
        self.append_subsequence(&mut result, &d0, old_range.start);
        proof {
            Self::lemma_chosen_len::<D>(
                Seq::empty(),
                self.items(),
                D::from_summary_spec(<T::Summary as Summary>::zero()),
                *old_range.start,
            );
        }
        result.extend(new_items);
        let total = D::from_summary(self.summary());
        proof {
            Self::lemma_wf_summary(*self);
            Self::lemma_chosen_len::<D>(
                Seq::empty(),
                self.items(),
                *old_range.end,
                D::from_summary_spec(sum_items(self.items())),
            );
        }
        self.append_subsequence(&mut result, old_range.end, &total);
        *self = result;
    }

    /// Whether this handle designates a leaf.
    pub(crate) fn is_leaf_node(&self) -> (r: bool)
        ensures
            r == self.is_leaf(),
    {
        match &*self.0 {
            Node::Internal { .. } => false,
            Node::Leaf { .. } => true,
        }
    }

    /// How many items lie in the first `i` children of `t`.
    pub open spec fn left_count(t: Tree<T>, i: int) -> int {
        Self::items_of(t.children_spec().subrange(0, i)).len() as int
    }

    /// A descent path: each frame holds a subtree and the index of the
    /// child the path continues through.
    pub open spec fn frames_linked(root: Tree<T>, fs: Seq<(Tree<T>, usize)>) -> bool {
        &&& (fs.len() > 0 ==> fs[0].0 == root)
        &&& (forall|k: int| 0 <= k < fs.len() ==> !(#[trigger] fs[k]).0.is_leaf())
        &&& (forall|k: int|
            0 <= k < fs.len() ==> (#[trigger] fs[k]).1 < fs[k].0.children_spec().len())
        &&& (forall|k: int|
            0 <= k && k + 1 < fs.len() ==> (#[trigger] fs[k + 1]).0
                == fs[k].0.children_spec()[fs[k].1 as int])
    }

    /// The subtree a descent path leads to.
    pub open spec fn frames_target(root: Tree<T>, fs: Seq<(Tree<T>, usize)>) -> Tree<T> {
        if fs.len() == 0 {
            root
        } else {
            fs.last().0.children_spec()[fs.last().1 as int]
        }
    }

    /// How many items lie strictly to the left of the subtree a
    /// descent path leads to.
    pub open spec fn frames_pos(fs: Seq<(Tree<T>, usize)>) -> int
        decreases fs.len(),
    {
        if fs.len() == 0 {
            0
        } else {
            Self::frames_pos(fs.drop_last()) + Self::left_count(fs.last().0, fs.last().1 as int)
        }
    }

    /// A prefix of a descent path is a descent path.
    pub proof fn lemma_frames_prefix(root: Tree<T>, fs: Seq<(Tree<T>, usize)>, n: int)
        requires
            Self::frames_linked(root, fs),
            0 <= n <= fs.len(),
        ensures
            Self::frames_linked(root, fs.subrange(0, n)),
    {
        let pre = fs.subrange(0, n);
        assert forall|k: int| 0 <= k < pre.len() implies !(#[trigger] pre[k]).0.is_leaf()
            && pre[k].1 < pre[k].0.children_spec().len() by {
            assert(pre[k] == fs[k]);
        }
        assert forall|k: int| 0 <= k && k + 1 < pre.len() implies (#[trigger] pre[k + 1]).0
            == pre[k].0.children_spec()[pre[k].1 as int] by {
            assert(pre[k] == fs[k] && pre[k + 1] == fs[k + 1]);
        }
    }

    /// The items of one child are a window of the items of its parent.
    pub proof fn lemma_child_window(t: Tree<T>, i: int)
        requires
            t.wf(),
            !t.is_leaf(),
            0 <= i < t.children_spec().len(),
        ensures
            0 <= Self::left_count(t, i),
            Self::left_count(t, i) + t.children_spec()[i].items().len() <= t.items().len(),
            t.items().subrange(
                Self::left_count(t, i),
                Self::left_count(t, i) + t.children_spec()[i].items().len(),
            ) == t.children_spec()[i].items(),
            Self::left_count(t, i + 1) == Self::left_count(t, i)
                + t.children_spec()[i].items().len(),
    {
        let cs = t.children_spec();
        let child = cs[i];
        Self::lemma_items_of_take_succ(cs, i);
        assert(cs =~= cs.subrange(0, i + 1) + cs.subrange(i + 1, cs.len() as int));
        Self::lemma_items_of_concat(cs.subrange(0, i + 1), cs.subrange(i + 1, cs.len() as int));
        assert(t.items() == Self::items_of(cs));
        assert(Self::items_of(cs) == (Self::items_of(cs.subrange(0, i)) + child.items())
            + Self::items_of(cs.subrange(i + 1, cs.len() as int)));
        assert(t.items().subrange(
            Self::left_count(t, i),
            Self::left_count(t, i) + child.items().len(),
        ) =~= child.items());
    }

    /// The items of all children are all the items.
    pub proof fn lemma_left_count_all(t: Tree<T>)
        requires
            t.wf(),
            !t.is_leaf(),
        ensures
            Self::left_count(t, t.children_spec().len() as int) == t.items().len(),
    {
        assert(t.children_spec().subrange(0, t.children_spec().len() as int)
            =~= t.children_spec());
    }

    /// Summing a longer prefix splits at any midpoint.
    pub proof fn lemma_sum_take_split(items: Seq<T>, a: int, b: int)
        requires
            0 <= a <= b <= items.len(),
        ensures
            sum_items(items.subrange(0, b)) == sum_items(items.subrange(0, a)).plus(
                sum_items(items.subrange(a, b)),
            ),
    {
        assert(items.subrange(0, b) =~= items.subrange(0, a) + items.subrange(a, b));
        Self::lemma_sum_concat(items.subrange(0, a), items.subrange(a, b));
    }

    /// Along a descent path in a well-formed tree, the subtree the
    /// path leads to is well-formed and covers a contiguous run of the
    /// root's items, starting at the path's position.
    pub proof fn lemma_frames(root: Tree<T>, fs: Seq<(Tree<T>, usize)>)
        requires
            root.wf(),
            Self::frames_linked(root, fs),
        ensures
            ({
                let t = Self::frames_target(root, fs);
                let p = Self::frames_pos(fs);
                &&& t.wf()
                &&& 0 <= p
                &&& p + t.items().len() <= root.items().len()
                &&& root.items().subrange(p, p + t.items().len()) == t.items()
                &&& (fs.len() > 0 ==> !t.underflow_spec() && t.height_spec() == fs.last(
                ).0.height_spec() - 1)
            }),
        decreases fs.len(),
    {
        if fs.len() == 0 {
            assert(root.items().subrange(0, root.items().len() as int) =~= root.items());
        } else {
            let fs0 = fs.drop_last();
            Self::lemma_frames_prefix(root, fs, fs.len() - 1);
            assert(fs.subrange(0, fs.len() - 1) =~= fs0);
            Self::lemma_frames(root, fs0);
            let t = Self::frames_target(root, fs0);
            assert(fs.last() == fs[fs.len() - 1]);
            if fs0.len() == 0 {
                assert(fs.last().0 == root);
            } else {
                let k = fs.len() - 2;
                assert(fs0[fs0.len() - 1] == fs[k]);
                assert(fs[k + 1].0 == fs[k].0.children_spec()[fs[k].1 as int]);
                assert(fs[k + 1] == fs.last());
            }
            assert(fs.last().0 == t);
            let i = fs.last().1 as int;
            let p0 = Self::frames_pos(fs0);
            Self::lemma_child_window(t, i);
            let child = t.children_spec()[i];
            let lc = Self::left_count(t, i);
            assert(root.items().subrange(p0, p0 + t.items().len()) == t.items());
            assert(root.items().subrange(p0 + lc, p0 + lc + child.items().len())
                =~= t.items().subrange(lc, lc + child.items().len()));
        }
    }

    /// The length of the tree, projected onto a dimension.
    pub fn len<D: Dimension<Summary = T::Summary>>(&self) -> (r: D)
        requires
            self.wf(),
        ensures
            r == D::from_summary_spec(sum_items(self.items())),
    {
        proof {
            Self::lemma_wf_summary(*self);
        }
        D::from_summary(self.summary())
    }

    /// The last item, if any.
    pub fn last(&self) -> (r: Option<&T>)
        requires
            self.wf(),
        ensures
            match r {
                Some(x) => self.items().len() > 0 && *x == self.items().last(),
                None => self.items().len() == 0,
            },
    {
        proof {
            Self::lemma_last_leaf(*self);
        }
        match self.rightmost_leaf() {
            Some(leaf) => Some(leaf.value()),
            None => None,
        }
    }
}

} // verus!
