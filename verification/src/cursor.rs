//! A stateful position inside a tree: it can seek by any dimension,
//! slice out the subtree between two positions, and step forward or
//! backward while keeping the running summary of everything to its
//! left.

use vstd::prelude::*;
use crate::algebra::Dimension;
use crate::algebra::Item;
use crate::algebra::Summary;
use crate::tree::Tree;
use crate::tree::sum_items;

verus! {

/// The tiebreak at a coordinate equal to a boundary: `Right` lands
/// just after the items that end there, `Left` just before.
#[derive(Clone, Copy, PartialEq, Eq, Structural, Debug)]
pub enum SeekBias {
    Left,
    Right,
}

/// Whether an extent ending at coordinate `e` is consumed when
/// seeking to `d` under the given bias.
pub open spec fn consumed_dim<D: Dimension>(e: D, d: D, bias: SeekBias) -> bool {
    match bias {
        SeekBias::Right => e.lte(d),
        SeekBias::Left => !d.lte(e),
    }
}

/// Whether the item at index `i` is consumed when seeking to `d`.
pub open spec fn consume_leaf<T: Item, D: Dimension<Summary = T::Summary>>(
    items: Seq<T>,
    d: D,
    bias: SeekBias,
    i: int,
) -> bool {
    consumed_dim(D::from_summary_spec(sum_items(items.subrange(0, i + 1))), d, bias)
}

/// Where a seek to `d` lands when scanning forward from index `q`:
/// the first index whose item is not consumed, or the end.
pub open spec fn seek_target<T: Item, D: Dimension<Summary = T::Summary>>(
    items: Seq<T>,
    d: D,
    bias: SeekBias,
    q: int,
) -> int
    decreases items.len() - q,
{
    if q < 0 || q >= items.len() {
        items.len() as int
    } else if consume_leaf(items, d, bias, q) {
        seek_target(items, d, bias, q + 1)
    } else {
        q
    }
}

/// The coordinate of a longer prefix is never smaller.
proof fn lemma_coord_mono<T: Item, D: Dimension<Summary = T::Summary>>(
    items: Seq<T>,
    i: int,
    j: int,
)
    requires
        0 <= i <= j <= items.len(),
    ensures
        D::from_summary_spec(sum_items(items.subrange(0, i))).lte(
            D::from_summary_spec(sum_items(items.subrange(0, j))),
        ),
{
    Tree::<T>::lemma_sum_take_split(items, i, j);
    D::monotonic(sum_items(items.subrange(0, i)), sum_items(items.subrange(i, j)));
}

/// When an extent ending at index `r` is consumed, so is every item
/// inside it.
proof fn lemma_consumed_range<T: Item, D: Dimension<Summary = T::Summary>>(
    items: Seq<T>,
    d: D,
    bias: SeekBias,
    q: int,
    r: int,
)
    requires
        0 <= q <= r <= items.len(),
        consumed_dim(D::from_summary_spec(sum_items(items.subrange(0, r))), d, bias),
    ensures
        forall|j: int| q <= j < r ==> consume_leaf(items, d, bias, j),
{
    assert forall|j: int| q <= j < r implies consume_leaf(items, d, bias, j) by {
        lemma_coord_mono::<T, D>(items, j + 1, r);
        let ej = D::from_summary_spec(sum_items(items.subrange(0, j + 1)));
        let er = D::from_summary_spec(sum_items(items.subrange(0, r)));
        match bias {
            SeekBias::Right => {
                D::transitive(ej, er, d);
            },
            SeekBias::Left => {
                if d.lte(ej) {
                    D::transitive(d, ej, er);
                }
            },
        }
    }
}

/// Scanning over consumed items does not move the landing point.
proof fn lemma_target_skip<T: Item, D: Dimension<Summary = T::Summary>>(
    items: Seq<T>,
    d: D,
    bias: SeekBias,
    q: int,
    r: int,
)
    requires
        0 <= q <= r <= items.len(),
        forall|j: int| q <= j < r ==> consume_leaf(items, d, bias, j),
    ensures
        seek_target(items, d, bias, q) == seek_target(items, d, bias, r),
    decreases r - q,
{
    if q < r {
        assert(consume_leaf(items, d, bias, q));
        lemma_target_skip::<T, D>(items, d, bias, q + 1, r);
    }
}

/// The landing point lies between the scan start and the end.
proof fn lemma_target_bounds<T: Item, D: Dimension<Summary = T::Summary>>(
    items: Seq<T>,
    d: D,
    bias: SeekBias,
    q: int,
)
    requires
        0 <= q <= items.len(),
    ensures
        q <= seek_target(items, d, bias, q) <= items.len(),
    decreases items.len() - q,
{
    if q < items.len() && consume_leaf(items, d, bias, q) {
        lemma_target_bounds::<T, D>(items, d, bias, q + 1);
    }
}

/// Seeking with the left bias never lands beyond a seek to the same
/// coordinate with the right bias.
pub proof fn lemma_bias_order<T: Item, D: Dimension<Summary = T::Summary>>(
    items: Seq<T>,
    d: D,
    q: int,
)
    requires
        0 <= q <= items.len(),
    ensures
        seek_target(items, d, SeekBias::Left, q) <= seek_target(items, d, SeekBias::Right, q),
    decreases items.len() - q,
{
    if q < items.len() {
        let e = D::from_summary_spec(sum_items(items.subrange(0, q + 1)));
        if consume_leaf(items, d, SeekBias::Left, q) {
            D::total(e, d);
            assert(consume_leaf(items, d, SeekBias::Right, q));
            lemma_bias_order::<T, D>(items, d, q + 1);
        } else {
            lemma_target_bounds::<T, D>(items, d, SeekBias::Right, q);
        }
    }
}

/// Seeking to the coordinate of the whole tree with the right bias
/// consumes everything, from any starting position: the slice taken
/// up to the total length holds exactly the items after the cursor.
pub proof fn lemma_seek_to_end<T: Item, D: Dimension<Summary = T::Summary>>(
    items: Seq<T>,
    q: int,
)
    requires
        0 <= q <= items.len(),
    ensures
        seek_target(
            items,
            D::from_summary_spec(sum_items(items)),
            SeekBias::Right,
            q,
        ) == items.len(),
{
    let total = D::from_summary_spec(sum_items(items));
    let n = items.len() as int;
    assert(items.subrange(0, n) =~= items);
    assert forall|j: int| q <= j < n implies consume_leaf(items, total, SeekBias::Right, j) by {
        lemma_coord_mono::<T, D>(items, j + 1, n);
    }
    lemma_target_skip::<T, D>(items, total, SeekBias::Right, q, n);
}

/// Splitting round trip: the items sliced out up to a position,
/// followed by the items from that position to any later one, are
/// exactly the items of the whole stretch.  Together with the
/// contracts of `slice` and `next` this says that a slice and the
/// walk that follows it cover the tree once, in order.
pub proof fn lemma_slice_round_trip<T: Item>(items: Seq<T>, a: int, b: int, c: int)
    requires
        0 <= a <= b <= c <= items.len(),
    ensures
        items.subrange(a, b) + items.subrange(b, c) == items.subrange(a, c),
{
    assert(items.subrange(a, b) + items.subrange(b, c) =~= items.subrange(a, c));
}

/// A cursor: the tree being traversed, the descent path to the
/// current leaf (each frame carrying the summary of everything to the
/// left of its subtree), the leaf just before the position, and the
/// summary of everything to the left of the position.
pub struct Cursor<'a, T: Item> {
    tree: &'a Tree<T>,
    did_seek: bool,
    stack: Vec<(&'a Tree<T>, usize, T::Summary)>,
    prev_leaf: Option<&'a Tree<T>>,
    summary: T::Summary,
    pos: Ghost<int>,
}

impl<'a, T: Item> Cursor<'a, T> {
    /// The descent path, with the borrowed handles read as values.
    pub closed spec fn frames(self) -> Seq<(Tree<T>, usize)> {
        self.stack@.map(|k: int, f: (&Tree<T>, usize, T::Summary)| (*f.0, f.1))
    }

    /// The items of the tree being traversed.
    pub closed spec fn all_items(self) -> Seq<T> {
        (*self.tree).items()
    }

    /// The number of items to the left of the cursor.
    pub closed spec fn pos_spec(self) -> int {
        self.pos@
    }

    /// Whether the cursor rests on an item (rather than past the end,
    /// before the start, or unseeked).
    pub closed spec fn at_item(self) -> bool {
        self.stack@.len() > 0
    }

    /// Whether any seek has run since the cursor was made or reset.
    pub closed spec fn seeked(self) -> bool {
        self.did_seek
    }

    /// The tree this cursor walks.
    pub closed spec fn host(self) -> Tree<T> {
        *self.tree
    }

    /// Every frame's stored summary covers exactly the items to the
    /// left of that frame's subtree.
    pub closed spec fn snaps_ok(self) -> bool {
        forall|k: int|
            0 <= k < self.stack@.len() ==> (#[trigger] self.stack@[k]).2 == sum_items(
                (*self.tree).items().subrange(
                    0,
                    Tree::frames_pos(self.frames().subrange(0, k)),
                ),
            )
    }

    /// The cursor's invariant.
    pub closed spec fn wf(self) -> bool {
        let root = *self.tree;
        let n = root.items().len();
        let fs = self.frames();
        let p = self.pos@;
        &&& root.wf_root()
        &&& Tree::frames_linked(root, fs)
        &&& self.snaps_ok()
        &&& 0 <= p <= n
        &&& self.summary == sum_items(root.items().subrange(0, p))
        &&& (!self.did_seek ==> p == 0 && fs.len() == 0 && self.prev_leaf is None)
        &&& (fs.len() > 0 ==> Tree::frames_target(root, fs).is_leaf() && p == Tree::frames_pos(
            fs,
        ) && p < n)
        &&& (self.did_seek && fs.len() == 0 ==> p == n || p == 0)
        &&& (match self.prev_leaf {
            None => p == 0,
            Some(l) => p > 0 && (*l).is_leaf() && (*l).wf()
                && (*l).leaf_value() == root.items()[p - 1],
        })
    }

    /// Pushing one frame onto a valid descent path keeps it valid
    /// and moves the target to the named child.
    proof fn lemma_push_frame(pre: Self, post: Self, t: &'a Tree<T>, i: usize, s: T::Summary)
        requires
            post.tree == pre.tree,
            post.stack@ == pre.stack@.push((t, i, s)),
            (*pre.tree).wf_root(),
            Tree::frames_linked(*pre.tree, pre.frames()),
            pre.snaps_ok(),
            Tree::frames_target(*pre.tree, pre.frames()) == *t,
            !(*t).is_leaf(),
            (i as int) < (*t).children_spec().len(),
            s == sum_items(
                (*pre.tree).items().subrange(0, Tree::frames_pos(pre.frames())),
            ),
        ensures
            post.frames() == pre.frames().push((*t, i)),
            Tree::frames_linked(*post.tree, post.frames()),
            post.snaps_ok(),
            Tree::frames_target(*post.tree, post.frames()) == (*t).children_spec()[i as int],
            Tree::frames_pos(post.frames()) == Tree::frames_pos(pre.frames()) + Tree::left_count(
                *t,
                i as int,
            ),
    {
        let root = *pre.tree;
        let fs = pre.frames();
        let fs2 = post.frames();
        assert(fs2 =~= fs.push((*t, i)));
        assert(fs2.drop_last() =~= fs);
        assert forall|k: int| 0 <= k < fs2.len() implies !(#[trigger] fs2[k]).0.is_leaf()
            && fs2[k].1 < fs2[k].0.children_spec().len() by {
            if k < fs.len() {
                assert(fs2[k] == fs[k]);
            }
        }
        assert forall|k: int| 0 <= k && k + 1 < fs2.len() implies (#[trigger] fs2[k + 1]).0
            == fs2[k].0.children_spec()[fs2[k].1 as int] by {
            if k + 1 < fs.len() {
                assert(fs2[k] == fs[k] && fs2[k + 1] == fs[k + 1]);
            } else {
                assert(fs2[k + 1] == (*t, i));
                if fs.len() > 0 {
                    assert(fs2[k] == fs[fs.len() - 1]);
                }
            }
        }
        assert forall|k: int| 0 <= k < post.stack@.len() implies (#[trigger] post.stack@[k]).2
            == sum_items(
            (*post.tree).items().subrange(0, Tree::frames_pos(post.frames().subrange(0, k))),
        ) by {
            if k < pre.stack@.len() {
                assert(post.stack@[k] == pre.stack@[k]);
                assert(fs2.subrange(0, k) =~= fs.subrange(0, k));
            } else {
                assert(post.stack@[k] == (t, i, s));
                assert(fs2.subrange(0, k) =~= fs);
            }
        }
        assert(fs2.last() == (*t, i));
    }

    /// Popping one frame off a valid descent path keeps it valid and
    /// moves the target back to the popped frame's node.
    proof fn lemma_pop_frame(pre: Self, post: Self)
        requires
            post.tree == pre.tree,
            pre.stack@.len() > 0,
            post.stack@ == pre.stack@.drop_last(),
            (*pre.tree).wf_root(),
            Tree::frames_linked(*pre.tree, pre.frames()),
            pre.snaps_ok(),
        ensures
            post.frames() == pre.frames().drop_last(),
            Tree::frames_linked(*post.tree, post.frames()),
            post.snaps_ok(),
            Tree::frames_target(*post.tree, post.frames()) == pre.frames().last().0,
            Tree::frames_pos(pre.frames()) == Tree::frames_pos(post.frames()) + Tree::left_count(
                pre.frames().last().0,
                pre.frames().last().1 as int,
            ),
            pre.stack@.last().2 == sum_items(
                (*pre.tree).items().subrange(0, Tree::frames_pos(post.frames())),
            ),
    {
        let root = *pre.tree;
        let fs = pre.frames();
        let fs0 = post.frames();
        assert(fs0 =~= fs.drop_last());
        assert(fs.subrange(0, fs.len() - 1) =~= fs0);
        Tree::lemma_frames_prefix(root, fs, fs.len() - 1);
        assert forall|k: int| 0 <= k < post.stack@.len() implies (#[trigger] post.stack@[k]).2
            == sum_items(
            (*post.tree).items().subrange(0, Tree::frames_pos(post.frames().subrange(0, k))),
        ) by {
            assert(post.stack@[k] == pre.stack@[k]);
            assert(fs0.subrange(0, k) =~= fs.subrange(0, k));
        }
        if fs0.len() == 0 {
            assert(fs.last() == fs[0]);
        } else {
            let k = fs.len() - 2;
            assert(fs0[fs0.len() - 1] == fs[k]);
            assert(fs[k + 1].0 == fs[k].0.children_spec()[fs[k].1 as int]);
            assert(fs[k + 1] == fs.last());
        }
        assert(pre.stack@.last().2 == pre.stack@[pre.stack@.len() - 1].2);
        assert(fs.subrange(0, fs.len() - 1) =~= fs0);
    }

    /// The dimension coordinate of the cursor's position.
    pub fn start<D: Dimension<Summary = T::Summary>>(&self) -> (r: D)
        requires
            self.wf(),
        ensures
            r == D::from_summary_spec(sum_items(self.all_items().subrange(0, self.pos_spec()))),
    {
        D::from_summary(&self.summary)
    }

    /// The item the cursor rests on, or nothing when it is past the
    /// end or before the start.
    pub fn item(&self) -> (r: Option<&'a T>)
        requires
            self.wf(),
            self.seeked(),
        ensures
            match r {
                Some(x) => self.at_item() && self.pos_spec() < self.all_items().len() && *x
                    == self.all_items()[self.pos_spec()],
                None => !self.at_item(),
            },
    {
        let len = self.stack.len();
        if len == 0 {
            None
        } else {
            let t = self.stack[len - 1].0;
            let i = self.stack[len - 1].1;
            proof {
                let root = *self.tree;
                let fs = self.frames();
                Tree::lemma_frames(root, fs);
                assert(fs[fs.len() - 1] == (*t, i));
                let target = Tree::frames_target(root, fs);
                assert(target == (*t).children_spec()[i as int]);
                assert(target.items() =~= seq![target.leaf_value()]);
                let p = self.pos@;
                assert(root.items().subrange(p, p + 1)[0] == root.items()[p]);
                assert(target.leaf_value() == root.items()[p]);
            }
            let leaf = &t.children()[i];
            Some(leaf.value())
        }
    }

    /// The item just before the cursor, or nothing at the start.
    pub fn prev_item(&self) -> (r: Option<&'a T>)
        requires
            self.wf(),
        ensures
            match r {
                Some(x) => self.pos_spec() > 0 && *x == self.all_items()[self.pos_spec() - 1],
                None => self.pos_spec() == 0,
            },
    {
        match self.prev_leaf {
            Some(l) => Some(l.value()),
            None => None,
        }
    }

    /// Forget the position: the cursor must seek again before reading.
    pub fn reset(&mut self)
        requires
            old(self).wf(),
        ensures
            final(self).wf(),
            !final(self).seeked(),
            final(self).pos_spec() == 0,
            final(self).all_items() == old(self).all_items(),
            final(self).host() == old(self).host(),
    {
        self.did_seek = false;
        self.stack = Vec::new();
        self.prev_leaf = None;
        self.summary = T::Summary::empty();
        self.pos = Ghost(0);
        proof {
            assert((*self.tree).items().subrange(0, 0) =~= Seq::<T>::empty());
        }
    }
    /// Extend the path from its target down to that subtree's first
    /// leaf, leaving the position unchanged.
    fn seek_to_first_item(&mut self, tree: &'a Tree<T>)
        requires
            (*old(self).tree).wf_root(),
            Tree::frames_linked(*old(self).tree, old(self).frames()),
            old(self).snaps_ok(),
            Tree::frames_target(*old(self).tree, old(self).frames()) == *tree,
            (*tree).items().len() > 0,
            old(self).summary == sum_items(
                (*old(self).tree).items().subrange(
                    0,
                    Tree::frames_pos(old(self).frames()),
                ),
            ),
        ensures
            final(self).tree == old(self).tree,
            final(self).did_seek,
            final(self).prev_leaf == old(self).prev_leaf,
            final(self).summary == old(self).summary,
            final(self).pos == old(self).pos,
            Tree::frames_linked(*old(self).tree, final(self).frames()),
            final(self).snaps_ok(),
            final(self).frames().len() > 0,
            Tree::frames_target(*old(self).tree, final(self).frames()).is_leaf(),
            Tree::frames_pos(final(self).frames()) == Tree::frames_pos(old(self).frames()),
    {
        let ghost root = *self.tree;
        self.did_seek = true;
        let mut t = tree;
        proof {
            Tree::lemma_frames(root, self.frames());
        }
        while !t.is_leaf_node()
            invariant
                self.tree == old(self).tree,
                self.did_seek,
                self.prev_leaf == old(self).prev_leaf,
                self.summary == old(self).summary,
                self.pos == old(self).pos,
                root == *self.tree,
                root.wf_root(),
                (*t).wf(),
                (*t).items().len() > 0,
                Tree::frames_linked(root, self.frames()),
                self.snaps_ok(),
                Tree::frames_target(root, self.frames()) == *t,
                Tree::frames_pos(self.frames()) == Tree::frames_pos(old(self).frames()),
                self.frames().len() >= old(self).frames().len(),
                self.summary == sum_items(
                    root.items().subrange(0, Tree::frames_pos(self.frames())),
                ),
            decreases (*t).height_spec(),
        {
            proof {
                Tree::lemma_root_empty(*t);
            }
            let ghost pre = *self;
            let snap = self.summary.duplicate();
            self.stack.push((t, 0, snap));
            proof {
                Self::lemma_push_frame(pre, *self, t, 0, pre.summary);
                assert((*t).children_spec().subrange(0, 0) =~= Seq::<Tree<T>>::empty());
                assert(Tree::left_count(*t, 0) == 0);
                Tree::lemma_child_window(*t, 0);
            }
            let next_t = &t.children()[0];
            proof {
                let child = (*t).children_spec()[0];
                Tree::lemma_wf_items_min(child);
                vstd::arithmetic::power2::lemma_pow2_pos(child.height_spec() as nat);
            }
            t = next_t;
        }
        proof {
            if self.frames().len() == 0 {
                assert(*t == root);
                assert(false);
            }
        }
    }

    /// Extend the path from its target down to that subtree's last
    /// leaf, accumulating the summaries of everything passed over and
    /// moving the position to the subtree's last item.
    fn seek_to_last_item(&mut self, tree: &'a Tree<T>)
        requires
            (*old(self).tree).wf_root(),
            Tree::frames_linked(*old(self).tree, old(self).frames()),
            old(self).snaps_ok(),
            Tree::frames_target(*old(self).tree, old(self).frames()) == *tree,
            (*tree).items().len() > 0,
            old(self).summary == sum_items(
                (*old(self).tree).items().subrange(
                    0,
                    Tree::frames_pos(old(self).frames()),
                ),
            ),
        ensures
            final(self).tree == old(self).tree,
            final(self).did_seek,
            final(self).prev_leaf == old(self).prev_leaf,
            Tree::frames_linked(*old(self).tree, final(self).frames()),
            final(self).snaps_ok(),
            final(self).frames().len() > 0,
            Tree::frames_target(*old(self).tree, final(self).frames()).is_leaf(),
            final(self).pos_spec() == Tree::frames_pos(old(self).frames()) + (*tree).items().len()
                - 1,
            final(self).pos_spec() == Tree::frames_pos(final(self).frames()),
            final(self).summary == sum_items(
                (*old(self).tree).items().subrange(0, final(self).pos_spec()),
            ),
    {
        let ghost root = *self.tree;
        let ghost goal = Tree::frames_pos(old(self).frames()) + (*tree).items().len() - 1;
        self.did_seek = true;
        let mut t = tree;
        proof {
            Tree::lemma_frames(root, self.frames());
        }
        while !t.is_leaf_node()
            invariant
                self.tree == old(self).tree,
                self.did_seek,
                self.prev_leaf == old(self).prev_leaf,
                root == *self.tree,
                root.wf_root(),
                goal == Tree::frames_pos(old(self).frames()) + (*tree).items().len() - 1,
                (*t).wf(),
                (*t).items().len() > 0,
                Tree::frames_linked(root, self.frames()),
                self.snaps_ok(),
                Tree::frames_target(root, self.frames()) == *t,
                Tree::frames_pos(self.frames()) + (*t).items().len() - 1 == goal,
                self.summary == sum_items(
                    root.items().subrange(0, Tree::frames_pos(self.frames())),
                ),
            decreases (*t).height_spec(),
        {
            proof {
                Tree::lemma_root_empty(*t);
                Tree::lemma_frames(root, self.frames());
            }
            let nc = t.children().len();
            let ghost entry = Tree::frames_pos(self.frames());
            let ghost pre = *self;
            let snap = self.summary.duplicate();
            self.stack.push((t, nc - 1, snap));
            proof {
                Self::lemma_push_frame(pre, *self, t, (nc - 1) as usize, pre.summary);
                assert((*t).children_spec().subrange(0, 0) =~= Seq::<Tree<T>>::empty());
                assert(Tree::left_count(*t, 0) == 0);
                assert(root.items().subrange(0, entry + 0) =~= root.items().subrange(0, entry));
            }
            let ghost fsx = self.frames();
            let mut j: usize = 0;
            while j < nc - 1
                invariant
                    0 <= j <= nc - 1,
                    nc == (*t).children_spec().len(),
                    nc >= 1,
                    0 <= entry,
                    (*t).wf(),
                    !(*t).is_leaf(),
                    root.wf_root(),
                    root == *self.tree,
                    entry + (*t).items().len() <= root.items().len(),
                    root.items().subrange(entry, entry + (*t).items().len()) == (*t).items(),
                    self.summary == sum_items(
                        root.items().subrange(0, entry + Tree::left_count(*t, j as int)),
                    ),
                    self.tree == old(self).tree,
                    self.did_seek,
                    self.prev_leaf == old(self).prev_leaf,
                    self.pos == pre.pos,
                    self.stack@.len() > 0,
                    self.frames() == fsx,
                    self.stack@ =~= pre.stack@.push((t, (nc - 1) as usize, pre.summary)),
                    Tree::frames_linked(root, self.frames()),
                    self.snaps_ok(),
                    Tree::frames_target(root, self.frames()) == (*t).children_spec()[nc - 1],
                    Tree::frames_pos(self.frames()) == entry + Tree::left_count(*t, nc - 1),
                decreases nc - 1 - j,
            {
                proof {
                    Tree::lemma_child_window(*t, j as int);
                    let child = (*t).children_spec()[j as int];
                    Tree::lemma_wf_summary(child);
                    let lc = Tree::left_count(*t, j as int);
                    assert(root.items().subrange(entry + lc, entry + lc + child.items().len())
                        =~= (*t).items().subrange(lc, lc + child.items().len()));
                    assert((*t).items().subrange(lc, lc + child.items().len()) == child.items());
                    Tree::lemma_sum_take_split(
                        root.items(),
                        entry + lc,
                        entry + lc + child.items().len(),
                    );
                }
                self.summary.accumulate(t.children()[j].summary());
                j += 1;
            }
            let next_t = &t.children()[nc - 1];
            proof {
                Tree::lemma_child_window(*t, nc - 1);
                let child = (*t).children_spec()[nc - 1];
                Tree::lemma_wf_items_min(child);
                vstd::arithmetic::power2::lemma_pow2_pos(child.height_spec() as nat);
                Tree::lemma_left_count_all(*t);
            }
            t = next_t;
        }
        proof {
            if self.frames().len() == 0 {
                assert(*t == root);
                assert(false);
            }
            Tree::lemma_frames(root, self.frames());
        }
        self.pos = Ghost(Tree::frames_pos(self.frames()));
        proof {
            assert((*t).items() =~= seq![(*t).leaf_value()]);
        }
    }

    /// Step forward one item; past the end or before the start the
    /// cursor stays where it is.
    pub fn next(&mut self)
        requires
            old(self).wf(),
            old(self).seeked(),
        ensures
            final(self).wf(),
            final(self).seeked(),
            final(self).all_items() == old(self).all_items(),
            final(self).pos_spec() == if old(self).at_item() {
                old(self).pos_spec() + 1
            } else {
                old(self).pos_spec()
            },
            final(self).at_item() == (old(self).at_item() && old(self).pos_spec() + 1 < old(
                self,
            ).all_items().len()),
    {
        let ghost root = *self.tree;
        let ghost items = root.items();
        let ghost p = self.pos@;
        let len = self.stack.len();
        if len == 0 {
            return ;
        }
        let t0 = self.stack[len - 1].0;
        let i0 = self.stack[len - 1].1;
        proof {
            Tree::lemma_frames(root, self.frames());
            assert(self.frames()[self.frames().len() - 1] == (*t0, i0));
            let target = Tree::frames_target(root, self.frames());
            assert(target == (*t0).children_spec()[i0 as int]);
            assert(target.items() =~= seq![target.leaf_value()]);
            assert(items.subrange(p, p + 1)[0] == items[p]);
        }
        let leaf = &t0.children()[i0];
        self.prev_leaf = Some(leaf);
        self.summary.accumulate(leaf.summary());
        proof {
            Tree::lemma_sum_take_split(items, p, p + 1);
            assert(items.subrange(p, p + 1) =~= seq![items[p]]);
            Tree::lemma_sum_singleton(items[p]);
        }
        self.pos = Ghost(p + 1);
        let mut found = false;
        while !found && self.stack.len() > 0
            invariant
                self.tree == old(self).tree,
                self.did_seek,
                root == *self.tree,
                items == root.items(),
                root.wf_root(),
                self.pos@ == p + 1,
                Tree::frames_linked(root, self.frames()),
                self.snaps_ok(),
                self.summary == sum_items(items.subrange(0, p + 1)),
                (match self.prev_leaf {
                    None => false,
                    Some(l) => (*l).is_leaf() && (*l).wf() && (*l).leaf_value() == items[p],
                }),
                0 <= p,
                p + 1 <= items.len(),
                !found ==> (if self.frames().len() == 0 {
                    p + 1 == items.len()
                } else {
                    p + 1 == Tree::frames_pos(self.frames()) + Tree::frames_target(
                        root,
                        self.frames(),
                    ).items().len()
                }),
                found ==> (self.frames().len() > 0 && Tree::frames_target(
                    root,
                    self.frames(),
                ).is_leaf() && Tree::frames_pos(self.frames()) == p + 1 && p + 1 < items.len()),
            decreases (if found {
                0int
            } else {
                self.stack@.len() as int + 1
            }),
        {
            let ghost pre = *self;
            let (t, i, s) = self.stack.pop().unwrap();
            let ghost sg = s;
            proof {
                Self::lemma_pop_frame(pre, *self);
                Tree::lemma_frames(root, self.frames());
                assert(pre.frames()[pre.frames().len() - 1] == (*t, i));
                assert((i as int) < (*t).children_spec().len());
            }
            let i2 = i + 1;
            if i2 < t.children().len() {
                let ghost pre2 = *self;
                self.stack.push((t, i2, s));
                proof {
                    Self::lemma_push_frame(pre2, *self, t, i2, sg);
                    Tree::lemma_child_window(*t, i as int);
                    Tree::lemma_frames(root, self.frames());
                    let child = (*t).children_spec()[i2 as int];
                    Tree::lemma_wf_items_min(child);
                    vstd::arithmetic::power2::lemma_pow2_pos(child.height_spec() as nat);
                    assert(Tree::frames_pos(self.frames()) == p + 1);
                }
                let c = &t.children()[i2];
                self.seek_to_first_item(c);
                found = true;
            } else {
                proof {
                    Tree::lemma_frames(root, self.frames());
                    Tree::lemma_child_window(*t, i as int);
                    Tree::lemma_left_count_all(*t);
                }
            }
        }
    }

    /// Step backward one item: from past the end to the last item,
    /// from an item to the one before it, and from the first item to
    /// a state before the start where no item is current.
    #[verifier::rlimit(60)]
    pub fn prev(&mut self)
        requires
            old(self).wf(),
            old(self).seeked(),
        ensures
            final(self).wf(),
            final(self).seeked(),
            final(self).all_items() == old(self).all_items(),
            old(self).pos_spec() > 0 ==> final(self).pos_spec() == old(self).pos_spec() - 1
                && final(self).at_item(),
            old(self).pos_spec() == 0 ==> final(self).pos_spec() == 0 && !final(self).at_item(),
    {
        let ghost root = *self.tree;
        let ghost items = root.items();
        let ghost n = items.len() as int;
        let ghost p = self.pos@;
        if self.stack.len() == 0 && self.prev_leaf.is_some() {
            self.summary = T::Summary::empty();
            self.pos = Ghost(0);
            proof {
                assert(items.subrange(0, 0) =~= Seq::<T>::empty());
            }
            let t = self.tree;
            self.seek_to_last_item(t);
        } else if self.stack.len() > 0 {
            let mut done = false;
            while !done && self.stack.len() > 0
                invariant
                    self.tree == old(self).tree,
                    self.did_seek,
                    root == *self.tree,
                    items == root.items(),
                    n == items.len(),
                    root.wf_root(),
                    0 <= p <= n,
                    Tree::frames_linked(root, self.frames()),
                    self.snaps_ok(),
                    self.prev_leaf == old(self).prev_leaf,
                    !done ==> self.pos@ == p && Tree::frames_pos(self.frames()) == p
                        && self.summary == sum_items(items.subrange(0, p)),
                    done ==> (self.frames().len() > 0 && Tree::frames_target(
                        root,
                        self.frames(),
                    ).is_leaf() && self.pos@ == p - 1 && Tree::frames_pos(self.frames()) == p - 1
                        && self.summary == sum_items(items.subrange(0, p - 1)) && p >= 1 && p - 1
                        < n),
                decreases (if done {
                    0int
                } else {
                    self.stack@.len() as int + 1
                }),
            {
                let ghost pre = *self;
                let (t, i, s) = self.stack.pop().unwrap();
                proof {
                    Self::lemma_pop_frame(pre, *self);
                    Tree::lemma_frames(root, self.frames());
                    assert(pre.frames()[pre.frames().len() - 1] == (*t, i));
                    assert((i as int) < (*t).children_spec().len());
                }
                if i == 0 {
                    proof {
                        assert((*t).children_spec().subrange(0, 0) =~= Seq::<Tree<T>>::empty());
                        assert(Tree::left_count(*t, 0) == 0);
                    }
                } else {
                    let i2 = i - 1;
                    let ghost entry = Tree::frames_pos(self.frames());
                    let ghost stk0 = self.stack@;
                    proof {
                        Tree::lemma_frames(root, self.frames());
                    }
                    let snap2 = s.duplicate();
                    self.summary = s;
                    let mut j: usize = 0;
                    proof {
                        assert((*t).children_spec().subrange(0, 0) =~= Seq::<Tree<T>>::empty());
                        assert(Tree::left_count(*t, 0) == 0);
                        assert(items.subrange(0, entry + 0) =~= items.subrange(0, entry));
                    }
                    while j < i2
                        invariant
                            0 <= j <= i2,
                            i2 < (*t).children_spec().len(),
                            (*t).wf(),
                            !(*t).is_leaf(),
                            root.wf_root(),
                            root == *self.tree,
                            items == root.items(),
                            0 <= entry,
                            entry + (*t).items().len() <= items.len(),
                            items.subrange(entry, entry + (*t).items().len()) == (*t).items(),
                            self.summary == sum_items(
                                items.subrange(0, entry + Tree::left_count(*t, j as int)),
                            ),
                            self.tree == old(self).tree,
                            self.did_seek,
                            self.prev_leaf == old(self).prev_leaf,
                            self.stack@ == stk0,
                            Tree::frames_linked(root, self.frames()),
                            self.snaps_ok(),
                            Tree::frames_target(root, self.frames()) == *t,
                            Tree::frames_pos(self.frames()) == entry,
                        decreases i2 - j,
                    {
                        proof {
                            Tree::lemma_child_window(*t, j as int);
                            let child = (*t).children_spec()[j as int];
                            Tree::lemma_wf_summary(child);
                            let lc = Tree::left_count(*t, j as int);
                            assert(items.subrange(entry + lc, entry + lc + child.items().len())
                                =~= (*t).items().subrange(lc, lc + child.items().len()));
                            assert((*t).items().subrange(lc, lc + child.items().len())
                                == child.items());
                            Tree::lemma_sum_take_split(
                                items,
                                entry + lc,
                                entry + lc + child.items().len(),
                            );
                        }
                        self.summary.accumulate(t.children()[j].summary());
                        j += 1;
                    }
                    let ghost pre2 = *self;
                    let ghost snapg = snap2;
                    self.stack.push((t, i2, snap2));
                    proof {
                        Self::lemma_push_frame(pre2, *self, t, i2, snapg);
                        Tree::lemma_child_window(*t, i2 as int);
                        Tree::lemma_child_window(*t, i as int);
                        Tree::lemma_frames(root, self.frames());
                        let child = (*t).children_spec()[i2 as int];
                        Tree::lemma_wf_items_min(child);
                        vstd::arithmetic::power2::lemma_pow2_pos(child.height_spec() as nat);
                        assert(Tree::frames_pos(self.frames()) + child.items().len() == p);
                    }
                    let c = &t.children()[i2];
                    self.seek_to_last_item(c);
                    done = true;
                }
            }
            proof {
                if !done {
                    assert(p == 0);
                }
            }
        }
        let ghost pfin = self.pos@;
        let ghost fs = self.frames();
        proof {
            if self.stack@.len() > 0 {
                assert(Tree::frames_pos(fs) == pfin);
            } else {
                assert(pfin == 0);
            }
            assert(fs.subrange(0, fs.len() as int) =~= fs);
        }
        let mut k = self.stack.len();
        let mut newprev: Option<&'a Tree<T>> = None;
        let mut stop = false;
        while !stop && k > 0
            invariant
                0 <= k <= self.stack@.len(),
                fs == self.frames(),
                root == *self.tree,
                items == root.items(),
                root.wf_root(),
                Tree::frames_linked(root, fs),
                self.stack@.len() > 0 ==> Tree::frames_pos(fs) == pfin,
                self.stack@.len() == 0 ==> pfin == 0,
                !stop ==> newprev is None,
                !stop ==> Tree::frames_pos(fs) == Tree::frames_pos(fs.subrange(0, k as int)),
                stop ==> (match newprev {
                    Some(l) => pfin > 0 && (*l).is_leaf() && (*l).wf() && (*l).leaf_value()
                        == items[pfin - 1],
                    None => false,
                }),
            decreases (if stop {
                0int
            } else {
                k as int
            }),
        {
            k -= 1;
            let t = self.stack[k].0;
            let i = self.stack[k].1;
            proof {
                assert(fs[k as int] == (*t, i));
                Tree::lemma_frames_prefix(root, fs, k as int + 1);
                Tree::lemma_frames_prefix(root, fs, k as int);
                Tree::lemma_frames(root, fs.subrange(0, k as int));
                Tree::lemma_frames(root, fs.subrange(0, k as int + 1));
                assert(fs.subrange(0, k as int + 1).drop_last() =~= fs.subrange(0, k as int));
                assert(fs.subrange(0, k as int + 1).last() == fs[k as int]);
                if k as int == 0 {
                    assert(Tree::frames_target(root, fs.subrange(0, 0)) == root);
                    assert(fs[0].0 == root);
                } else {
                    let m = k as int - 1;
                    assert(fs.subrange(0, k as int)[k as int - 1] == fs[m]);
                    assert(fs[m + 1].0 == fs[m].0.children_spec()[fs[m].1 as int]);
                }
                assert(Tree::frames_target(root, fs.subrange(0, k as int)) == *t);
            }
            if i > 0 {
                proof {
                    Tree::lemma_child_window(*t, i as int - 1);
                    Tree::lemma_child_window(*t, i as int);
                    let entry_k = Tree::frames_pos(fs.subrange(0, k as int));
                    let sib = (*t).children_spec()[i as int - 1];
                    Tree::lemma_last_leaf(sib);
                    Tree::lemma_wf_items_min(sib);
                    vstd::arithmetic::power2::lemma_pow2_pos(sib.height_spec() as nat);
                    let lc = Tree::left_count(*t, i as int - 1);
                    assert(items.subrange(entry_k + lc, entry_k + lc + sib.items().len())
                        =~= (*t).items().subrange(lc, lc + sib.items().len()));
                    assert((*t).items().subrange(lc, lc + sib.items().len()) == sib.items());
                    assert(Tree::frames_pos(fs.subrange(0, k as int + 1)) == entry_k
                        + Tree::left_count(*t, i as int));
                    assert(entry_k + lc + sib.items().len() == pfin);
                    assert(sib.items().last() == items[pfin - 1]);
                }
                let sib = &t.children()[i - 1];
                match sib.rightmost_leaf() {
                    Some(l) => {
                        newprev = Some(l);
                    },
                    None => {
                        proof {
                            assert(false);
                        }
                    },
                }
                stop = true;
            } else {
                proof {
                    assert((*t).children_spec().subrange(0, 0) =~= Seq::<Tree<T>>::empty());
                    assert(Tree::left_count(*t, 0) == 0);
                }
            }
        }
        proof {
            if !stop {
                assert(fs.subrange(0, 0) =~= Seq::<(Tree<T>, usize)>::empty());
                if self.stack@.len() > 0 {
                    assert(pfin == 0);
                }
            }
        }
        self.prev_leaf = newprev;
    }

    /// Scan the children of `t` from `from` rightward: consume every
    /// child the seek passes over (accumulating its summary, noting
    /// its last leaf and pushing it whole onto the slice), and stop at
    /// the first child holding the target, pushing a frame for it.
    #[verifier::rlimit(80)]
    fn scan_children<D: Dimension<Summary = T::Summary>>(
        &mut self,
        t: &'a Tree<T>,
        from: usize,
        snap: T::Summary,
        d: &D,
        bias: SeekBias,
        slice: &mut Tree<T>,
    ) -> (r: Option<&'a Tree<T>>)
        requires
            (*old(self).tree).wf_root(),
            Tree::frames_linked(*old(self).tree, old(self).frames()),
            old(self).snaps_ok(),
            Tree::frames_target(*old(self).tree, old(self).frames()) == *t,
            !(*t).is_leaf(),
            (*t).wf(),
            from as int <= (*t).children_spec().len(),
            snap == sum_items(
                (*old(self).tree).items().subrange(0, Tree::frames_pos(old(self).frames())),
            ),
            old(self).pos_spec() == Tree::frames_pos(old(self).frames()) + Tree::left_count(
                *t,
                from as int,
            ),
            old(self).summary == sum_items(
                (*old(self).tree).items().subrange(0, old(self).pos_spec()),
            ),
            old(slice).wf_root(),
            old(slice).items().len() + ((*old(self).tree).items().len() - old(self).pos_spec())
                <= usize::MAX,
            (match old(self).prev_leaf {
                None => old(self).pos_spec() == 0,
                Some(l) => old(self).pos_spec() > 0 && (*l).is_leaf() && (*l).wf()
                    && (*l).leaf_value() == (*old(self).tree).items()[old(self).pos_spec() - 1],
            }),
        ensures
            final(self).tree == old(self).tree,
            final(self).did_seek == old(self).did_seek,
            final(slice).wf_root(),
            final(self).pos_spec() >= old(self).pos_spec(),
            final(self).pos_spec() <= (*old(self).tree).items().len(),
            final(self).summary == sum_items(
                (*old(self).tree).items().subrange(0, final(self).pos_spec()),
            ),
            seek_target((*old(self).tree).items(), *d, bias, old(self).pos_spec()) == seek_target(
                (*old(self).tree).items(),
                *d,
                bias,
                final(self).pos_spec(),
            ),
            final(slice).items() == old(slice).items() + (*old(self).tree).items().subrange(
                old(self).pos_spec(),
                final(self).pos_spec(),
            ),
            (match final(self).prev_leaf {
                None => final(self).pos_spec() == 0,
                Some(l) => final(self).pos_spec() > 0 && (*l).is_leaf() && (*l).wf()
                    && (*l).leaf_value() == (*old(self).tree).items()[final(self).pos_spec() - 1],
            }),
            Tree::frames_linked(*old(self).tree, final(self).frames()),
            final(self).snaps_ok(),
            match r {
                Some(c) => {
                    &&& final(self).frames().len() == old(self).frames().len() + 1
                    &&& final(self).frames().drop_last() == old(self).frames()
                    &&& Tree::frames_target(*old(self).tree, final(self).frames()) == *c
                    &&& final(self).pos_spec() == Tree::frames_pos(final(self).frames())
                    &&& (*c).wf()
                    &&& !(*c).underflow_spec()
                    &&& (*c).height_spec() == (*t).height_spec() - 1
                    &&& (*c).items().len() > 0
                    &&& final(self).pos_spec() + (*c).items().len() <= (*old(
                        self,
                    ).tree).items().len()
                    &&& !consumed_dim(
                        D::from_summary_spec(
                            sum_items(
                                (*old(self).tree).items().subrange(
                                    0,
                                    final(self).pos_spec() + (*c).items().len(),
                                ),
                            ),
                        ),
                        *d,
                        bias,
                    )
                },
                None => {
                    &&& final(self).frames() == old(self).frames()
                    &&& final(self).pos_spec() == Tree::frames_pos(old(self).frames())
                        + (*t).items().len()
                    &&& ((*t).items().len() > 0 && (from as int) < (*t).children_spec().len()
                        ==> consumed_dim(
                        D::from_summary_spec(
                            sum_items(
                                (*old(self).tree).items().subrange(0, final(self).pos_spec()),
                            ),
                        ),
                        *d,
                        bias,
                    ))
                },
            },
    {
        let ghost root = *self.tree;
        let ghost items = root.items();
        let ghost n = items.len() as int;
        let ghost q0 = self.pos@;
        let ghost fs0 = self.frames();
        let ghost entry = Tree::frames_pos(fs0);
        let ghost slice0 = *slice;
        proof {
            Tree::lemma_frames(root, fs0);
        }
        let nc = t.children().len();
        proof {
            if (from as int) < nc as int {
                Tree::lemma_child_window(*t, from as int);
            } else {
                Tree::lemma_left_count_all(*t);
            }
            assert(items.subrange(q0, q0) =~= Seq::<T>::empty());
            assert(slice0.items() + items.subrange(q0, q0) =~= slice0.items());
        }
        let mut j = from;
        let mut result: Option<&'a Tree<T>> = None;
        let mut found = false;
        while !found && j < nc
            invariant
                from <= j <= nc,
                nc == (*t).children_spec().len(),
                (*t).wf(),
                !(*t).is_leaf(),
                root == *self.tree,
                root.wf_root(),
                items == root.items(),
                n == items.len(),
                self.tree == old(self).tree,
                self.did_seek == old(self).did_seek,
                0 <= entry,
                entry == Tree::frames_pos(fs0),
                Tree::frames_target(root, fs0) == *t,
                snap == sum_items(items.subrange(0, entry)),
                entry + (*t).items().len() <= n,
                items.subrange(entry, entry + (*t).items().len()) == (*t).items(),
                slice.wf_root(),
                slice0.items().len() + (n - q0) <= usize::MAX,
                !found ==> {
                    &&& self.frames() == fs0
                    &&& self.stack@ == old(self).stack@
                    &&& self.pos@ == entry + Tree::left_count(*t, j as int)
                },
                Tree::frames_linked(root, self.frames()),
                self.snaps_ok(),
                0 <= q0 <= self.pos@ <= n,
                self.summary == sum_items(items.subrange(0, self.pos@)),
                seek_target(items, *d, bias, q0) == seek_target(items, *d, bias, self.pos@),
                slice.items() == slice0.items() + items.subrange(q0, self.pos@),
                (match self.prev_leaf {
                    None => self.pos@ == 0,
                    Some(l) => self.pos@ > 0 && (*l).is_leaf() && (*l).wf() && (*l).leaf_value()
                        == items[self.pos@ - 1],
                }),
                found ==> (match result {
                    Some(c) => {
                        &&& self.frames().len() == fs0.len() + 1
                        &&& self.frames().drop_last() == fs0
                        &&& Tree::frames_target(root, self.frames()) == *c
                        &&& self.pos@ == Tree::frames_pos(self.frames())
                        &&& (*c).wf()
                        &&& !(*c).underflow_spec()
                        &&& (*c).height_spec() == (*t).height_spec() - 1
                        &&& (*c).items().len() > 0
                        &&& self.pos@ + (*c).items().len() <= n
                        &&& !consumed_dim(
                            D::from_summary_spec(
                                sum_items(items.subrange(0, self.pos@ + (*c).items().len())),
                            ),
                            *d,
                            bias,
                        )
                    },
                    None => false,
                }),
                !found ==> result is None,
                !found && (j as int) > from ==> consumed_dim(
                    D::from_summary_spec(sum_items(items.subrange(0, self.pos@))),
                    *d,
                    bias,
                ),
            decreases (if found {
                0int
            } else {
                nc - j + 1
            }),
        {
            let ghost q = self.pos@;
            proof {
                Tree::lemma_child_window(*t, j as int);
            }
            let child = &t.children()[j];
            let ghost m = (*child).items().len() as int;
            proof {
                let lc = Tree::left_count(*t, j as int);
                assert(items.subrange(entry + lc, entry + lc + m) =~= (*t).items().subrange(
                    lc,
                    lc + m,
                ));
                assert((*t).items().subrange(lc, lc + m) == (*child).items());
                Tree::lemma_sum_take_split(items, q, q + m);
                Tree::lemma_wf_summary(*child);
                D::homomorphism(
                    sum_items(items.subrange(0, q)),
                    sum_items(items.subrange(q, q + m)),
                );
            }
            let child_end = D::from_summary(&self.summary).plus_ref(&D::from_summary(
                child.summary(),
            ));
            proof {
                assert(child_end == D::from_summary_spec(sum_items(items.subrange(0, q + m))));
            }
            proof {
                assert((*child).items() == items.subrange(q, q + m));
                assert(q + m <= n);
                assert(slice.items() == slice0.items() + items.subrange(q0, q));
                assert((slice0.items() + items.subrange(q0, q)).len() == slice0.items().len()
                    + items.subrange(q0, q).len());
                assert(slice.items().len() + (*child).items().len() <= slice0.items().len() + (n
                    - q0));
                assert(items.subrange(q0, q + m) =~= items.subrange(q0, q) + items.subrange(
                    q,
                    q + m,
                ));
            }
            let consume = match bias {
                SeekBias::Right => child_end.le(d),
                SeekBias::Left => !d.le(&child_end),
            };
            if consume {
                proof {
                    Tree::lemma_wf_items_min(*child);
                    vstd::arithmetic::power2::lemma_pow2_pos((*child).height_spec() as nat);
                    lemma_consumed_range::<T, D>(items, *d, bias, q, q + m);
                    lemma_target_skip::<T, D>(items, *d, bias, q, q + m);
                    Tree::lemma_last_leaf(*child);
                }
                self.summary.accumulate(child.summary());
                match child.rightmost_leaf() {
                    Some(l) => {
                        self.prev_leaf = Some(l);
                        proof {
                            assert((*child).items().last() == items[q + m - 1]);
                        }
                    },
                    None => {
                        proof {
                            assert(false);
                        }
                    },
                }
                slice.push_tree(child.clone());
                proof {
                    assert(slice0.items() + items.subrange(q0, q) + (*child).items()
                        =~= slice0.items() + (items.subrange(q0, q) + (*child).items()));
                    assert(items.subrange(q0, q) + (*child).items() == items.subrange(q0, q)
                        + items.subrange(q, q + m));
                    assert(items.subrange(q0, q) + items.subrange(q, q + m) == items.subrange(
                        q0,
                        q + m,
                    ));
                }
                self.pos = Ghost(q + m);
                j += 1;
            } else {
                let ghost pre2 = *self;
                let ghost snapg = snap;
                let snap2 = snap.duplicate();
                self.stack.push((t, j, snap2));
                proof {
                    assert(pre2.frames() == fs0);
                    assert(Tree::frames_target(root, pre2.frames()) == *t);
                    Self::lemma_push_frame(pre2, *self, t, j, snapg);
                    Tree::lemma_wf_items_min(*child);
                    vstd::arithmetic::power2::lemma_pow2_pos((*child).height_spec() as nat);
                }
                result = Some(child);
                found = true;
            }
        }
        proof {
            if !found {
                Tree::lemma_left_count_all(*t);
            }
        }
        result
    }

    /// Move to the position named by `d` under the given bias,
    /// starting from the cursor's current position, and append every
    /// subtree passed over to `slice`.
    #[verifier::rlimit(80)]
    fn seek_and_slice<D: Dimension<Summary = T::Summary>>(
        &mut self,
        d: &D,
        bias: SeekBias,
        slice: &mut Tree<T>,
    )
        requires
            old(self).wf(),
            old(slice).wf_root(),
            old(slice).items().len() + old(self).all_items().len() <= usize::MAX,
            old(self).seeked() ==> D::from_summary_spec(
                sum_items(old(self).all_items().subrange(0, old(self).pos_spec())),
            ).lte(*d),
        ensures
            final(self).wf(),
            final(self).seeked(),
            final(self).tree == old(self).tree,
            final(self).all_items() == old(self).all_items(),
            final(slice).wf_root(),
            ({
                let items = old(self).all_items();
                let p0 = if old(self).seeked() {
                    old(self).pos_spec()
                } else {
                    0
                };
                let stuck = old(self).seeked() && !old(self).at_item() && old(self).pos_spec()
                    == 0;
                &&& final(self).pos_spec() == (if stuck {
                    0int
                } else {
                    seek_target(items, *d, bias, p0)
                })
                &&& final(self).at_item() == (!stuck && final(self).pos_spec() < items.len())
                &&& final(slice).items() == old(slice).items() + items.subrange(
                    p0,
                    final(self).pos_spec(),
                )
            }),
    {
        let ghost root = *self.tree;
        let ghost items = root.items();
        let ghost n = items.len() as int;
        let ghost p0: int = if old(self).seeked() {
            old(self).pos_spec()
        } else {
            0
        };
        let ghost stuck = old(self).seeked() && !old(self).at_item() && old(self).pos_spec()
            == 0;
        let ghost slice_in = *old(slice);
        let mut cur: Option<&'a Tree<T>> = None;
        if self.did_seek {
            proof {
                assert(items.subrange(p0, p0) =~= Seq::<T>::empty());
                assert(slice_in.items() + items.subrange(p0, p0) =~= slice_in.items());
            }
            if self.stack.len() > 0 {
                let ghost pre = *self;
                let (t, i, s) = self.stack.pop().unwrap();
                proof {
                    Self::lemma_pop_frame(pre, *self);
                    assert(pre.frames()[pre.frames().len() - 1] == (*t, i));
                    assert((i as int) < (*t).children_spec().len());
                    Tree::lemma_frames(root, self.frames());
                }
                cur = self.scan_children(t, i, s, d, bias, slice);
                proof {
                    lemma_target_bounds::<T, D>(items, *d, bias, p0);
                }
            }
            while cur.is_none() && self.stack.len() > 0
                invariant
                    self.tree == old(self).tree,
                    self.did_seek,
                    root == *self.tree,
                    items == root.items(),
                    n == items.len(),
                    root.wf_root(),
                    Tree::frames_linked(root, self.frames()),
                    self.snaps_ok(),
                    0 <= p0 <= self.pos@ <= n,
                    self.summary == sum_items(items.subrange(0, self.pos@)),
                    slice.wf_root(),
                    slice_in.items().len() + n <= usize::MAX,
                    slice.items() == slice_in.items() + items.subrange(p0, self.pos@),
                    seek_target(items, *d, bias, p0) == seek_target(
                        items,
                        *d,
                        bias,
                        self.pos@,
                    ),
                    (match self.prev_leaf {
                        None => self.pos@ == 0,
                        Some(l) => self.pos@ > 0 && (*l).is_leaf() && (*l).wf()
                            && (*l).leaf_value() == items[self.pos@ - 1],
                    }),
                    stuck ==> self.pos@ == 0 && self.frames().len() == 0 && cur is None,
                    cur is None ==> (if self.frames().len() == 0 {
                        self.pos@ == n || (stuck && self.pos@ == 0)
                    } else {
                        self.pos@ == Tree::frames_pos(self.frames()) + Tree::frames_target(
                            root,
                            self.frames(),
                        ).items().len()
                    }),
                    (match cur {
                        None => true,
                        Some(c) => {
                            &&& self.frames().len() > 0
                            &&& Tree::frames_target(root, self.frames()) == *c
                            &&& self.pos@ == Tree::frames_pos(self.frames())
                            &&& (*c).wf()
                            &&& !(*c).underflow_spec()
                            &&& (*c).items().len() > 0
                            &&& self.pos@ + (*c).items().len() <= n
                            &&& !consumed_dim(
                                D::from_summary_spec(
                                    sum_items(
                                        items.subrange(0, self.pos@ + (*c).items().len()),
                                    ),
                                ),
                                *d,
                                bias,
                            )
                        },
                    }),
                decreases (if cur is Some {
                    0int
                } else {
                    self.stack@.len() as int + 1
                }),
            {
                let ghost pre = *self;
                let (t, i, s) = self.stack.pop().unwrap();
                proof {
                    Self::lemma_pop_frame(pre, *self);
                    assert(pre.frames()[pre.frames().len() - 1] == (*t, i));
                    assert((i as int) < (*t).children_spec().len());
                    Tree::lemma_frames(root, self.frames());
                    Tree::lemma_child_window(*t, i as int);
                }
                cur = self.scan_children(t, i + 1, s, d, bias, slice);
            }
        } else {
            self.reset();
            self.did_seek = true;
            cur = Some(self.tree);
            proof {
                assert(items.subrange(0, 0) =~= Seq::<T>::empty());
                assert(items.subrange(p0, p0) =~= Seq::<T>::empty());
                assert(slice_in.items() + items.subrange(p0, p0) =~= slice_in.items());
            }
        }
        while cur.is_some()
            invariant
                self.tree == old(self).tree,
                self.did_seek,
                root == *self.tree,
                items == root.items(),
                n == items.len(),
                root.wf_root(),
                Tree::frames_linked(root, self.frames()),
                self.snaps_ok(),
                0 <= p0 <= self.pos@ <= n,
                self.summary == sum_items(items.subrange(0, self.pos@)),
                slice.wf_root(),
                slice_in.items().len() + n <= usize::MAX,
                slice.items() == slice_in.items() + items.subrange(p0, self.pos@),
                seek_target(items, *d, bias, p0) == seek_target(items, *d, bias, self.pos@),
                (match self.prev_leaf {
                    None => self.pos@ == 0,
                    Some(l) => self.pos@ > 0 && (*l).is_leaf() && (*l).wf() && (*l).leaf_value()
                        == items[self.pos@ - 1],
                }),
                stuck ==> self.pos@ == 0 && self.frames().len() == 0 && cur is None,
                (match cur {
                    None => (self.frames().len() == 0 && (self.pos@ == n || (stuck && self.pos@
                        == 0))) || (self.frames().len() > 0 && Tree::frames_target(
                        root,
                        self.frames(),
                    ).is_leaf() && self.pos@ == Tree::frames_pos(self.frames()) && self.pos@ < n
                        && !consume_leaf(items, *d, bias, self.pos@)),
                    Some(c) => (if self.frames().len() == 0 {
                        *c == root && self.pos@ == 0
                    } else {
                        &&& Tree::frames_target(root, self.frames()) == *c
                        &&& self.pos@ == Tree::frames_pos(self.frames())
                        &&& (*c).wf()
                        &&& !(*c).underflow_spec()
                        &&& (*c).items().len() > 0
                        &&& self.pos@ + (*c).items().len() <= n
                        &&& !consumed_dim(
                            D::from_summary_spec(
                                sum_items(items.subrange(0, self.pos@ + (*c).items().len())),
                            ),
                            *d,
                            bias,
                        )
                    }),
                }),
            decreases (match cur {
                Some(c) => (*c).height_spec() + 1,
                None => 0int,
            }),
        {
            let sub = match cur {
                Some(s) => s,
                None => vstd::pervasive::unreached(),
            };
            cur = None;
            let ghost q = self.pos@;
            if sub.is_leaf_node() {
                proof {
                    assert((*sub).items() =~= seq![(*sub).leaf_value()]);
                    if self.frames().len() == 0 {
                        assert(*sub == root);
                        assert(false);
                    }
                }
            } else {
                if self.stack.len() == 0 {
                    proof {
                        assert(*sub == root && q == 0);
                        Tree::lemma_wf_summary(root);
                        assert(items.subrange(0, 0) =~= Seq::<T>::empty());
                        Tree::lemma_sum_take_split(items, 0, n);
                        assert(items.subrange(0, n) =~= items);
                        D::homomorphism(
                            sum_items(items.subrange(0, 0)),
                            sum_items(items.subrange(0, n)),
                        );
                        T::Summary::zero_plus(sum_items(items));
                    }
                    let sub_end = D::from_summary(&self.summary).plus_ref(&D::from_summary(
                        sub.summary(),
                    ));
                    proof {
                        assert(sub_end == D::from_summary_spec(sum_items(items.subrange(0, n))));
                    }
                    let consume = match bias {
                        SeekBias::Right => sub_end.le(d),
                        SeekBias::Left => !d.le(&sub_end),
                    };
                    if consume {
                        proof {
                            lemma_consumed_range::<T, D>(items, *d, bias, 0, n);
                            lemma_target_skip::<T, D>(items, *d, bias, 0, n);
                            Tree::lemma_last_leaf(root);
                        }
                        self.summary.accumulate(sub.summary());
                        match sub.rightmost_leaf() {
                            Some(l) => {
                                self.prev_leaf = Some(l);
                            },
                            None => {
                                self.prev_leaf = None;
                            },
                        }
                        slice.push_tree(sub.clone());
                        self.pos = Ghost(n);
                        proof {
                            assert(slice_in.items() + items.subrange(p0, 0) + root.items()
                                =~= slice_in.items() + items.subrange(0, n));
                            if n > 0 {
                                assert((match self.prev_leaf {
                                    None => false,
                                    Some(l) => (*l).is_leaf() && (*l).wf() && (*l).leaf_value()
                                        == items[n - 1],
                                }));
                            }
                        }
                    } else {
                        let snap2 = self.summary.duplicate();
                        cur = self.scan_children(sub, 0, snap2, d, bias, slice);
                        proof {
                            assert((*sub).children_spec().subrange(0, 0)
                                =~= Seq::<Tree<T>>::empty());
                            if cur is None {
                                Tree::lemma_root_empty(root);
                                if n > 0 {
                                    assert(false);
                                }
                            }
                        }
                    }
                } else {
                    let snap2 = self.summary.duplicate();
                    proof {
                        assert((*sub).children_spec().subrange(0, 0) =~= Seq::<Tree<T>>::empty());
                        assert(Tree::left_count(*sub, 0) == 0);
                    }
                    cur = self.scan_children(sub, 0, snap2, d, bias, slice);
                    proof {
                        if cur is None {
                            Tree::lemma_root_empty(*sub);
                            assert(false);
                        }
                    }
                }
            }
        }
        proof {
            lemma_target_bounds::<T, D>(items, *d, bias, p0);
            if self.frames().len() > 0 {
                Tree::lemma_frames(root, self.frames());
            }
        }
    }

    /// Move to the position named by `d` under the given bias,
    /// forgetting the previous position first.
    pub fn seek<D: Dimension<Summary = T::Summary>>(&mut self, d: &D, bias: SeekBias)
        requires
            old(self).wf(),
            old(self).all_items().len() <= usize::MAX,
        ensures
            final(self).wf(),
            final(self).seeked(),
            final(self).all_items() == old(self).all_items(),
            final(self).pos_spec() == seek_target(old(self).all_items(), *d, bias, 0),
            final(self).at_item() == (final(self).pos_spec() < old(self).all_items().len()),
    {
        self.reset();
        let mut scratch = Tree::new();
        self.seek_and_slice(d, bias, &mut scratch);
    }

    /// Advance to the position named by `d` under the given bias and
    /// return a tree holding everything between the cursor's previous
    /// position and the new one.
    pub fn slice<D: Dimension<Summary = T::Summary>>(&mut self, d: &D, bias: SeekBias) -> (r:
        Tree<T>)
        requires
            old(self).wf(),
            old(self).all_items().len() <= usize::MAX,
            old(self).seeked() ==> D::from_summary_spec(
                sum_items(old(self).all_items().subrange(0, old(self).pos_spec())),
            ).lte(*d),
        ensures
            final(self).wf(),
            final(self).seeked(),
            final(self).all_items() == old(self).all_items(),
            r.wf_root(),
            ({
                let items = old(self).all_items();
                let p0 = if old(self).seeked() {
                    old(self).pos_spec()
                } else {
                    0
                };
                let stuck = old(self).seeked() && !old(self).at_item() && old(self).pos_spec()
                    == 0;
                &&& final(self).pos_spec() == (if stuck {
                    0int
                } else {
                    seek_target(items, *d, bias, p0)
                })
                &&& final(self).at_item() == (!stuck && final(self).pos_spec() < items.len())
                &&& r.items() == items.subrange(p0, final(self).pos_spec())
            }),
    {
        let mut prefix = Tree::new();
        self.seek_and_slice(d, bias, &mut prefix);
        proof {
            assert(Seq::<T>::empty() + old(self).all_items().subrange(
                (if old(self).seeked() {
                    old(self).pos_spec()
                } else {
                    0int
                }),
                self.pos@,
            ) =~= old(self).all_items().subrange(
                (if old(self).seeked() {
                    old(self).pos_spec()
                } else {
                    0int
                }),
                self.pos@,
            ));
        }
        prefix
    }
}

impl<T: Item> Tree<T> {
    /// A fresh cursor anchored at this tree, before any seek.
    pub fn cursor(&self) -> (r: Cursor<T>)
        requires
            self.wf_root(),
        ensures
            r.wf(),
            !r.seeked(),
            r.pos_spec() == 0,
            r.all_items() == self.items(),
    {
        let r = Cursor {
            tree: self,
            did_seek: false,
            stack: Vec::new(),
            prev_leaf: None,
            summary: T::Summary::empty(),
            pos: Ghost(0),
        };
        proof {
            assert(self.items().subrange(0, 0) =~= Seq::<T>::empty());
        }
        r
    }
}

} // verus!
