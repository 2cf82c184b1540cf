//! Forward-only traversal of a tree, yielding each item once in
//! left-to-right order.

use vstd::prelude::*;
use crate::algebra::Item;
use crate::tree::Tree;

verus! {

/// A forward iterator: the tree being walked, whether the walk has
/// begun, and the path from the root to the current leaf's parents.
pub struct Iter<'a, T: Item> {
    tree: &'a Tree<T>,
    did_start: bool,
    stack: Vec<(&'a Tree<T>, usize)>,
    pos: Ghost<int>,
}

impl<'a, T: Item> Iter<'a, T> {
    /// The descent path, with the borrowed handles read as values.
    pub closed spec fn frames(self) -> Seq<(Tree<T>, usize)> {
        self.stack@.map(|k: int, f: (&Tree<T>, usize)| (*f.0, f.1))
    }

    /// The items of the tree being walked.
    pub closed spec fn all_items(self) -> Seq<T> {
        (*self.tree).items()
    }

    /// How many items have been yielded so far.
    pub closed spec fn pos_spec(self) -> int {
        self.pos@
    }

    /// The iterator's invariant: the stack is a descent path ending at
    /// the leaf last yielded, or is empty when the walk has not begun
    /// or is over.
    pub closed spec fn wf(self) -> bool {
        let root = *self.tree;
        let n = root.items().len();
        &&& root.wf_root()
        &&& Tree::frames_linked(root, self.frames())
        &&& 0 <= self.pos@ <= n
        &&& (!self.did_start ==> self.pos@ == 0 && self.frames().len() == 0)
        &&& (self.did_start ==> (if self.frames().len() == 0 {
            self.pos@ == n
        } else {
            &&& Tree::frames_target(root, self.frames()).is_leaf()
            &&& self.pos@ == Tree::frames_pos(self.frames()) + 1
        }))
    }

    /// Descend to the leftmost leaf of `tree`, which the current path
    /// leads to, and yield its item.
    fn seek_to_first_item(&mut self, tree: &'a Tree<T>) -> (r: Option<&'a T>)
        requires
            (*old(self).tree).wf_root(),
            old(self).did_start,
            Tree::frames_linked(*old(self).tree, old(self).frames()),
            Tree::frames_target(*old(self).tree, old(self).frames()) == *tree,
        ensures
            final(self).tree == old(self).tree,
            final(self).did_start,
            final(self).pos_spec() == old(self).pos_spec(),
            match r {
                None => (*tree).items().len() == 0 && final(self).frames() == old(self).frames(),
                Some(x) => {
                    &&& (*tree).items().len() > 0
                    &&& *x == (*tree).items()[0]
                    &&& Tree::frames_linked(*old(self).tree, final(self).frames())
                    &&& final(self).frames().len() > 0
                    &&& Tree::frames_target(*old(self).tree, final(self).frames()).is_leaf()
                    &&& Tree::frames_pos(final(self).frames()) == Tree::frames_pos(
                        old(self).frames(),
                    )
                },
            },
    {
        let ghost root = *self.tree;
        let mut t = tree;
        proof {
            Tree::lemma_frames(root, self.frames());
        }
        if t.is_empty() {
            return None;
        }
        proof {
            if !(*t).is_leaf() {
                Tree::lemma_root_empty(*t);
            }
        }
        while !t.is_leaf_node()
            invariant
                self.tree == old(self).tree,
                self.did_start,
                self.pos == old(self).pos,
                root == *self.tree,
                root.wf_root(),
                (*t).wf(),
                (*t).items().len() > 0,
                (*t).items()[0] == (*tree).items()[0],
                Tree::frames_linked(root, self.frames()),
                Tree::frames_target(root, self.frames()) == *t,
                Tree::frames_pos(self.frames()) == Tree::frames_pos(old(self).frames()),
                self.frames().len() >= old(self).frames().len(),
            decreases (*t).height_spec(),
        {
            proof {
                Tree::lemma_root_empty(*t);
            }
            let ghost fs = self.frames();
            self.stack.push((t, 0));
            proof {
                assert(self.frames() =~= fs.push((*t, 0)));
                let fs2 = self.frames();
                assert(fs2.drop_last() =~= fs);
                assert((*t).children_spec().subrange(0, 0) =~= Seq::<Tree<T>>::empty());
                assert(Tree::left_count(*t, 0) == 0);
                assert forall|k: int| 0 <= k < fs2.len() implies !(#[trigger] fs2[k]).0.is_leaf()
                    && fs2[k].1 < fs2[k].0.children_spec().len() by {
                    if k < fs.len() {
                        assert(fs2[k] == fs[k]);
                    }
                }
                assert forall|k: int| 0 <= k && k + 1 < fs2.len() implies (#[trigger] fs2[k
                    + 1]).0 == fs2[k].0.children_spec()[fs2[k].1 as int] by {
                    if k + 1 < fs.len() {
                        assert(fs2[k] == fs[k] && fs2[k + 1] == fs[k + 1]);
                    } else {
                        assert(fs2[k + 1] == (*t, 0usize));
                        if fs.len() == 0 {
                        } else {
                            assert(fs2[k] == fs[fs.len() - 1]);
                        }
                    }
                }
                Tree::lemma_child_window(*t, 0);
            }
            let next_t = &t.children()[0];
            proof {
                let child = (*t).children_spec()[0];
                Tree::lemma_wf_items_min(child);
                vstd::arithmetic::power2::lemma_pow2_pos(child.height_spec() as nat);
                assert(child.items() == (*t).items().subrange(0, child.items().len() as int));
                assert(child.items()[0] == (*t).items()[0]);
            }
            t = next_t;
        }
        proof {
            assert((*t).items() =~= seq![(*t).leaf_value()]);
            if self.frames().len() == 0 {
                assert(*t == root);
                assert(false);
            }
        }
        Some(t.value())
    }

    /// Yield the next item, or nothing when the walk is over.
    pub fn next(&mut self) -> (r: Option<&'a T>)
        requires
            old(self).wf(),
        ensures
            final(self).wf(),
            final(self).all_items() == old(self).all_items(),
            match r {
                Some(x) => old(self).pos_spec() < old(self).all_items().len()
                    && *x == old(self).all_items()[old(self).pos_spec()]
                    && final(self).pos_spec() == old(self).pos_spec() + 1,
                None => old(self).pos_spec() == old(self).all_items().len()
                    && final(self).pos_spec() == old(self).pos_spec(),
            },
    {
        let ghost root = *self.tree;
        let ghost items = root.items();
        let ghost p = self.pos@;
        if !self.did_start {
            self.did_start = true;
            let t = self.tree;
            let r = self.seek_to_first_item(t);
            match r {
                Some(x) => {
                    self.pos = Ghost(1);
                    proof {
                        Tree::lemma_frames(root, self.frames());
                        let target = Tree::frames_target(root, self.frames());
                        assert(target.items() =~= seq![target.leaf_value()]);
                    }
                    Some(x)
                },
                None => {
                    None
                },
            }
        } else {
            let mut result: Option<&'a T> = None;
            let mut found = false;
            while !found && self.stack.len() > 0
                invariant
                    self.tree == old(self).tree,
                    self.did_start,
                    self.pos@ == p,
                    root == *self.tree,
                    items == root.items(),
                    root.wf_root(),
                    Tree::frames_linked(root, self.frames()),
                    !found ==> result is None,
                    !found ==> (if self.frames().len() == 0 {
                        p == items.len()
                    } else {
                        p == Tree::frames_pos(self.frames()) + Tree::frames_target(
                            root,
                            self.frames(),
                        ).items().len()
                    }),
                    found ==> {
                        &&& self.frames().len() > 0
                        &&& Tree::frames_target(root, self.frames()).is_leaf()
                        &&& Tree::frames_pos(self.frames()) == p
                        &&& p < items.len()
                        &&& (match result {
                            Some(x) => *x == items[p],
                            None => false,
                        })
                    },
                decreases (if found {
                    0int
                } else {
                    self.stack@.len() as int + 1
                }),
            {
                let ghost fs = self.frames();
                let (t, i) = self.stack.pop().unwrap();
                proof {
                    assert(self.frames() =~= fs.drop_last());
                    assert(fs.subrange(0, fs.len() - 1) =~= fs.drop_last());
                    Tree::lemma_frames_prefix(root, fs, fs.len() - 1);
                    Tree::lemma_frames(root, self.frames());
                    assert((*t, i) == fs.last());
                    if self.frames().len() == 0 {
                        assert(*t == root);
                    } else {
                        let k = fs.len() - 2;
                        assert(self.frames()[self.frames().len() - 1] == fs[k]);
                        assert(fs[k + 1].0 == fs[k].0.children_spec()[fs[k].1 as int]);
                        assert(fs[k + 1] == fs.last());
                    }
                    assert(Tree::frames_target(root, self.frames()) == *t);
                }
                let i2 = i + 1;
                if i2 < t.children().len() {
                    let ghost fs0 = self.frames();
                    self.stack.push((t, i2));
                    proof {
                        let fs2 = self.frames();
                        assert(fs2 =~= fs0.push((*t, i2)));
                        assert(fs2.drop_last() =~= fs0);
                        assert forall|k: int| 0 <= k < fs2.len() implies !(#[trigger] fs2[k]).0.is_leaf()
                            && fs2[k].1 < fs2[k].0.children_spec().len() by {
                            if k < fs0.len() {
                                assert(fs2[k] == fs0[k]);
                                assert(fs0[k] == fs[k]);
                            }
                        }
                        assert forall|k: int| 0 <= k && k + 1 < fs2.len() implies (
                        #[trigger] fs2[k + 1]).0 == fs2[k].0.children_spec()[fs2[k].1 as int] by {
                            if k + 1 < fs0.len() {
                                assert(fs2[k] == fs0[k] && fs2[k + 1] == fs0[k + 1]);
                                assert(fs0[k] == fs[k] && fs0[k + 1] == fs[k + 1]);
                            } else {
                                assert(fs2[k + 1] == (*t, i2));
                                if fs0.len() > 0 {
                                    assert(fs2[k] == fs0[fs0.len() - 1]);
                                }
                            }
                        }
                        Tree::lemma_child_window(*t, i as int);
                        assert(Tree::frames_pos(fs2) == Tree::frames_pos(fs0)
                            + Tree::left_count(*t, i2 as int));
                        assert(Tree::frames_pos(fs) == Tree::frames_pos(fs0)
                            + Tree::left_count(*t, i as int));
                        assert(Tree::frames_pos(fs2) == p);
                        Tree::lemma_frames(root, fs2);
                        let child = (*t).children_spec()[i2 as int];
                        Tree::lemma_wf_items_min(child);
                        vstd::arithmetic::power2::lemma_pow2_pos(child.height_spec() as nat);
                        assert(root.items().subrange(p, p + child.items().len())
                            == child.items());
                        assert(child.items()[0] == items[p]);
                    }
                    let c = &t.children()[i2];
                    result = self.seek_to_first_item(c);
                    proof {
                        match result {
                            Some(_) => {
                            },
                            None => {
                                assert(false);
                            },
                        }
                    }
                    found = true;
                } else {
                    proof {
                        let fs0 = self.frames();
                        Tree::lemma_frames(root, fs0);
                        let tt = Tree::frames_target(root, fs0);
                        assert(tt == *t);
                        Tree::lemma_child_window(*t, i as int);
                        Tree::lemma_left_count_all(*t);
                        assert(i2 == (*t).children_spec().len());
                        assert(Tree::frames_pos(fs) == Tree::frames_pos(fs0)
                            + Tree::left_count(*t, i as int));
                        assert(p == Tree::frames_pos(fs0) + (*t).items().len());
                        if fs0.len() == 0 {
                            assert(p == items.len());
                        }
                    }
                }
            }
            if found {
                self.pos = Ghost(p + 1);
                proof {
                    let target = Tree::frames_target(root, self.frames());
                    Tree::lemma_frames(root, self.frames());
                    assert(target.items() =~= seq![target.leaf_value()]);
                }
            }
            result
        }
    }
}

impl<T: Item> Tree<T> {
    /// A fresh iterator over this tree's items.
    pub fn iter(&self) -> (r: Iter<T>)
        requires
            self.wf_root(),
        ensures
            r.wf(),
            r.all_items() == self.items(),
            r.pos_spec() == 0,
    {
        Iter { tree: self, did_start: false, stack: Vec::new(), pos: Ghost(0) }
    }
}

} // verus!
