//! The tree list: a forest flattened into one ordered sequence.

use crate::shape::{
    cut_ok, cut_seq, flag_shift_at, lemma_measures_shift, lemma_splice_suffix_measures,
    lemma_vis_from_shift, desc_count, exp_height, is_ancestor, lemma_ancestor_iff, lemma_ancestor_room,
    lemma_cut_ancestor_measures, lemma_cut_index, lemma_cut_prefix_measures,
    lemma_cut_suffix_measures, lemma_cut_total, lemma_height_bounds, lemma_height_unfold,
    drop_level, index_of_row, lemma_level_le, lemma_promote_index, lemma_promote_pt,
    lemma_promote_splice, lemma_promote_valid, lemma_pt_vis_skip, lemma_pt_vis_step,
    lemma_removed_count, lemma_row_index_round_trip, lemma_run_end,
    lemma_subtree_cut_ok, lemma_subtree_end_shift, lemma_subtree_nested, lemma_vis_step,
    lemma_toggle_ancestor, lemma_toggle_count, lemma_toggle_frame, lemma_toggle_node,
    lemma_vis_count_le, lemma_vis_count_split, lemma_vis_from_skip, lemma_vis_from_step,
    lemma_splice_block_measures, lemma_splice_index, lemma_splice_new_measures,
    lemma_splice_nonpt_measures, lemma_splice_pt_measures, lemma_splice_total, lemma_splice_vis,
    level_shift_at, node_height, promote_seq, pt_anc, pt_vis, splice_ok, splice_one, subtree_end,
    total_height, valid_levels, vis_count, vis_from, with_collapsed, NodeShape,
};
use vstd::prelude::*;

verus! {


/// One entry of the tree list: the caller's value plus the structural
/// metadata the list maintains for it.
///
/// `level` is the depth below the implicit root (root-level siblings have
/// level 0).  `children` counts all descendants, visible or not.  `height`
/// is the number of visible rows this node's subtree occupies.  While the
/// node is collapsed, `collapsed_height` caches the height the node would
/// have if expanded, so expansion restores the exact count.
pub struct TreeNode<T> {
    pub(crate) value: T,
    pub(crate) level: usize,
    pub(crate) is_collapsed: bool,
    pub(crate) children: usize,
    pub(crate) height: usize,
    pub(crate) is_container: bool,
    pub(crate) collapsed_height: Option<usize>,
}

/// The glyph shown beside a node: a triangle for containers (pointing right
/// when collapsed, down when expanded) and a small circle for plain leaves.
pub open spec fn spec_symbol(container: bool, collapsed: bool) -> Seq<char> {
    if container {
        if collapsed {
            "\u{25b8}"@
        } else {
            "\u{25be}"@
        }
    } else {
        "\u{25e6}"@
    }
}

impl<T> TreeNode<T> {
    /// The structural part of this node, as the model sees it.
    pub closed spec fn shape(&self) -> NodeShape {
        NodeShape {
            level: self.level as nat,
            collapsed: self.is_collapsed,
            container: self.is_container,
        }
    }

    /// The caller's value stored in this node.
    pub closed spec fn spec_value(&self) -> T {
        self.value
    }

    /// The stored descendant count.
    pub closed spec fn spec_children(&self) -> nat {
        self.children as nat
    }

    /// The stored visible height of this node's subtree.
    pub closed spec fn spec_height(&self) -> nat {
        self.height as nat
    }

    /// A shared reference to the caller's value.
    pub fn value(&self) -> (r: &T)
        ensures
            *r == self.spec_value(),
    {
        &self.value
    }

    /// The node's depth below the implicit root.
    pub fn level(&self) -> (r: usize)
        ensures
            r as nat == self.shape().level,
    {
        self.level
    }

    /// The number of storage slots a renderer must skip past when drawing
    /// this node: the whole hidden subtree if collapsed, otherwise one.
    pub fn len(&self) -> (r: usize)
        requires
            self.spec_children() < usize::MAX,
        ensures
            r as nat == if self.shape().collapsed {
                self.spec_children() + 1
            } else {
                1nat
            },
    {
        if self.is_collapsed {
            self.children + 1
        } else {
            1
        }
    }

    /// The number of visible rows this node's subtree currently occupies.
    pub fn height(&self) -> (r: usize)
        ensures
            r == self.spec_height(),
    {
        self.height
    }

    /// The glyph shown beside this node.
    pub fn symbol(&self) -> (r: &str)
        ensures
            r@ == spec_symbol(self.shape().container, self.shape().collapsed),
    {
        if self.is_container {
            if self.is_collapsed {
                "\u{25b8}"
            } else {
                "\u{25be}"
            }
        } else {
            "\u{25e6}"
        }
    }
}

/// Determines where a new item is attached relative to an existing
/// storage index.
#[derive(Eq, PartialEq, Copy, Clone, Debug)]
pub enum Placement {
    /// The item is inserted as a sibling after the specified index.
    After,
    /// The item is inserted as a sibling before the specified index.
    Before,
    /// The item is inserted as a new child of the specified index, placed
    /// before all other existing children.
    FirstChild,
    /// The item is inserted as a new child of the specified index, placed
    /// after all other existing children.
    LastChild,
    /// The item is inserted as the new immediate parent of the specified
    /// index.
    Parent,
}


/// The state of one storage slot after (or during) an ancestor walk for a
/// structural change at `i` whose visible extent moves by `dh` rows and
/// whose descendant count moves by `dch`.  Every ancestor of `i` at or
/// after `j` has its descendant count moved; its height moves by `dh` if it
/// currently shows `i`, unless it is itself collapsed (it is then the
/// nearest collapsed ancestor, and its cached expansion height moves
/// instead).  Ancestors above the nearest collapsed one, and all
/// non-ancestors, are untouched.
pub(crate) open spec fn prop_slot<T>(
    orig: Seq<TreeNode<T>>,
    now: Seq<TreeNode<T>>,
    s0: Seq<NodeShape>,
    i: int,
    dh: int,
    dch: int,
    j: int,
    m: int,
) -> bool {
    if is_ancestor(s0, m, i) && m >= j {
        &&& now[m].value == orig[m].value
        &&& now[m].level == orig[m].level
        &&& now[m].is_collapsed == orig[m].is_collapsed
        &&& now[m].is_container == orig[m].is_container
        &&& now[m].children as int == orig[m].children + dch
        &&& if vis_from(s0, m + 1, i) {
            if s0[m].collapsed {
                &&& now[m].height == orig[m].height
                &&& orig[m].collapsed_height is Some
                &&& now[m].collapsed_height is Some
                &&& now[m].collapsed_height->Some_0 as int == orig[m].collapsed_height->Some_0
                    + dh
            } else {
                &&& now[m].height as int == orig[m].height + dh
                &&& now[m].collapsed_height == orig[m].collapsed_height
            }
        } else {
            &&& now[m].height == orig[m].height
            &&& now[m].collapsed_height == orig[m].collapsed_height
        }
    } else {
        now[m] == orig[m]
    }
}


/// The state of one storage slot after (or during) the ancestor walk for an
/// insertion at point `p`, level `lv`: every ancestor of the point at or
/// after `j` becomes a container and gains one descendant; its height grows
/// by one if it shows the point, the nearest collapsed ancestor grows its
/// cached expansion height instead, and everything above or unrelated is
/// untouched.
pub(crate) open spec fn ins_slot<T>(
    orig: Seq<TreeNode<T>>,
    now: Seq<TreeNode<T>>,
    s0: Seq<NodeShape>,
    p: int,
    lv: nat,
    j: int,
    m: int,
) -> bool {
    if pt_anc(s0, p, lv, m) && m >= j {
        &&& now[m].value == orig[m].value
        &&& now[m].level == orig[m].level
        &&& now[m].is_collapsed == orig[m].is_collapsed
        &&& now[m].is_container == true
        &&& now[m].children as int == orig[m].children + 1
        &&& if pt_vis(s0, p, lv, m + 1) {
            if s0[m].collapsed {
                &&& now[m].height == orig[m].height
                &&& orig[m].collapsed_height is Some
                &&& now[m].collapsed_height is Some
                &&& now[m].collapsed_height->Some_0 as int == orig[m].collapsed_height->Some_0 + 1
            } else {
                &&& now[m].height as int == orig[m].height + 1
                &&& now[m].collapsed_height == orig[m].collapsed_height
            }
        } else {
            &&& now[m].height == orig[m].height
            &&& now[m].collapsed_height == orig[m].collapsed_height
        }
    } else {
        now[m] == orig[m]
    }
}

/// The index an insertion target is clamped to: the last valid index, or 0
/// for an empty list.
pub open spec fn clamp_index(s: Seq<NodeShape>, index: int) -> int {
    if s.len() == 0 {
        0
    } else if index >= s.len() {
        s.len() - 1
    } else {
        index
    }
}

/// The storage position where a placement inserts, relative to the clamped
/// index `i`.
pub open spec fn ins_pos(s: Seq<NodeShape>, placement: Placement, i: int) -> int {
    if s.len() == 0 {
        0
    } else {
        match placement {
            Placement::After => subtree_end(s, i),
            Placement::Before => i,
            Placement::FirstChild => i + 1,
            Placement::LastChild => subtree_end(s, i),
            Placement::Parent => i,
        }
    }
}

/// The level a placement inserts at: the sibling level for `After`,
/// `Before` and `Parent`, one deeper for the two child placements.
pub open spec fn ins_level(s: Seq<NodeShape>, placement: Placement, i: int) -> nat {
    if s.len() == 0 {
        0
    } else {
        match placement {
            Placement::After => s[i].level,
            Placement::Before => s[i].level,
            Placement::FirstChild => s[i].level + 1,
            Placement::LastChild => s[i].level + 1,
            Placement::Parent => s[i].level,
        }
    }
}

/// The end of the block the new node adopts as its subtree: the former
/// subtree of `i` for `Parent`, nothing otherwise.
pub open spec fn ins_block_end(s: Seq<NodeShape>, placement: Placement, i: int) -> int {
    if s.len() == 0 {
        0
    } else {
        match placement {
            Placement::Parent => subtree_end(s, i),
            _ => ins_pos(s, placement, i),
        }
    }
}

/// The structural record of a freshly inserted node: a container with no
/// children starts collapsed.
pub open spec fn ins_shape(
    s: Seq<NodeShape>,
    placement: Placement,
    i: int,
    is_container: bool,
) -> NodeShape {
    NodeShape {
        level: ins_level(s, placement, i),
        collapsed: is_container && ins_pos(s, placement, i) == ins_block_end(s, placement, i),
        container: is_container,
    }
}

/// The shapes with every ancestor of the point `p` at or after `j` turned
/// into a container, as an insertion's ancestor walk leaves them.
pub open spec fn containers_from(s: Seq<NodeShape>, p: int, lv: nat, j: int) -> Seq<NodeShape> {
    Seq::new(
        s.len(),
        |m: int|
            if pt_anc(s, p, lv, m) && m >= j {
                NodeShape { container: true, ..s[m] }
            } else {
                s[m]
            },
    )
}

/// The shapes with every ancestor of the point `p` turned into a container,
/// as an insertion's ancestor walk leaves them.
pub open spec fn set_containers(s: Seq<NodeShape>, p: int, lv: nat) -> Seq<NodeShape> {
    containers_from(s, p, lv, 0)
}


/// Every placement yields a structurally sound splice: the insertion point
/// sits on a subtree boundary of the right depth, the adopted block (for a
/// new parent) is exactly the old subtree, and the seams respect the level
/// staircase.
#[verifier::rlimit(100)]
pub proof fn lemma_placement_ok(s: Seq<NodeShape>, placement: Placement, i: int, cont: bool)
    requires
        valid_levels(s),
        s.len() > 0,
        0 <= i < s.len(),
    ensures
        ({
            let p = ins_pos(s, placement, i);
            let lv = ins_level(s, placement, i);
            let e0 = ins_block_end(s, placement, i);
            let n = ins_shape(s, placement, i, cont);
            &&& 0 <= p <= e0 <= s.len()
            &&& n.level == lv
            &&& splice_ok(s, p, n, e0)
            &&& (p < e0 ==> subtree_end(s, p) == e0 && (forall|m: int|
                p < m < e0 ==> (#[trigger] s[m].level) > lv))
            &&& (p > 0 ==> lv <= s[p - 1].level + 1)
            &&& (p == 0 ==> lv == 0)
        }),
{
    let p = ins_pos(s, placement, i);
    let lv = ins_level(s, placement, i);
    let e0 = ins_block_end(s, placement, i);
    let n = ins_shape(s, placement, i, cont);
    lemma_run_end(s, s[i].level, i + 1);
    lemma_height_bounds(s, i);
    // No earlier subtree is torn: a run reaching past the point contains
    // the reference node, so its owner is an ancestor of the reference and
    // shallower than the new level.
    assert forall|j: int| 0 <= j < p && p < #[trigger] subtree_end(s, j) implies n.level > s[j].level by {
        lemma_run_end(s, s[j].level, j + 1);
        if j < i {
            assert(i < subtree_end(s, j));
            lemma_ancestor_iff(s, j, i);
            assert(is_ancestor(s, j, i));
            assert(s[i].level > s[j].level);
        } else if j == i {
            assert(p == i + 1 || p == subtree_end(s, i) || p == i);
            assert(p == i + 1);
            assert(lv == s[i].level + 1);
        } else {
            lemma_ancestor_iff(s, i, j);
            assert(is_ancestor(s, i, j));
            lemma_subtree_nested(s, i, j);
            assert(false);
        }
    }
    // Seams.
    if p > 0 {
        if p == i {
        } else if p == i + 1 {
        } else {
            assert(p == subtree_end(s, i));
            assert(s[p - 1].level >= s[i].level) by {
                if p - 1 > i {
                    assert(s[p - 1].level > s[i].level);
                }
            }
        }
    }
    if p == 0 {
        assert(i == 0);
    }
    if e0 < s.len() {
        assert(s[e0].level <= n.level) by {
            if e0 == subtree_end(s, i) {
                assert(s[e0].level <= s[i].level);
            } else if e0 == i {
            } else if e0 == i + 1 {
                assert(s[i + 1].level <= s[i].level + 1);
            }
        }
    }
}

/// An arbitrarily nested forest stored as a single pre-order sequence of
/// nodes, plus the number of currently visible rows.
///
/// A node's descendants occupy the contiguous range immediately following
/// it; hierarchy is carried entirely by each node's `level`.  Collapsing a
/// node hides its descendants without removing them; all bookkeeping
/// (descendant counts, visible heights) is kept incrementally up to date.
pub struct TreeList<T> {
    pub(crate) items: Vec<TreeNode<T>>,
    pub(crate) height: usize,
}

impl<T> TreeList<T> {
    /// The structural model: one [`NodeShape`] per stored node, in order.
    pub closed spec fn shapes(&self) -> Seq<NodeShape> {
        self.items@.map_values(|n: TreeNode<T>| n.shape())
    }

    /// The stored values, in storage (pre-order) order.
    pub closed spec fn values(&self) -> Seq<T> {
        self.items@.map_values(|n: TreeNode<T>| n.spec_value())
    }

    /// The stored total of visible rows.
    pub closed spec fn spec_height(&self) -> nat {
        self.height as nat
    }

    /// The cached fields of the node at `i` agree with the model: its
    /// descendant count, its visible height, and (while collapsed) the
    /// height it would regain on expansion.
    pub(crate) closed spec fn node_ok(&self, i: int) -> bool {
        let s = self.shapes();
        &&& self.items@[i].children as nat == desc_count(s, i)
        &&& self.items@[i].height as nat == node_height(s, i)
        &&& self.items@[i].collapsed_height == (if s[i].collapsed {
            Some(exp_height(s, i) as usize)
        } else {
            None::<usize>
        })
    }

    /// Well-formedness: the levels encode a forest, every cached counter
    /// agrees with the model, and the stored height counts exactly the
    /// visible positions.
    pub closed spec fn wf(&self) -> bool {
        &&& valid_levels(self.shapes())
        &&& forall|i: int| 0 <= i < self.shapes().len() ==> #[trigger] self.node_ok(i)
        &&& self.height as nat == total_height(self.shapes())
    }

    /// Creates an empty tree list.
    pub fn new() -> (r: Self)
        ensures
            r.wf(),
            r.shapes() == Seq::<NodeShape>::empty(),
            r.values() == Seq::<T>::empty(),
            r.spec_height() == 0,
    {
        let r = Self { items: Vec::new(), height: 0 };
        proof {
            assert(r.shapes() =~= Seq::<NodeShape>::empty());
            assert(r.values() =~= Seq::<T>::empty());
        }
        r
    }

    /// The number of stored nodes, hidden ones included.
    pub fn len(&self) -> (r: usize)
        ensures
            r == self.shapes().len(),
    {
        self.items.len()
    }

    /// Whether the list stores no nodes at all.
    pub fn is_empty(&self) -> (r: bool)
        ensures
            r <==> self.shapes().len() == 0,
    {
        self.items.is_empty()
    }

    /// The total number of visible rows: exactly the number of storage
    /// positions none of whose ancestors is collapsed.
    pub fn height(&self) -> (r: usize)
        requires
            self.wf(),
        ensures
            r == total_height(self.shapes()),
    {
        self.height
    }

    /// A view of the stored nodes, in storage order.
    pub fn items(&self) -> (r: &[TreeNode<T>])
        ensures
            r@.len() == self.shapes().len(),
            forall|i: int|
                0 <= i < r@.len() ==> (#[trigger] r@[i].shape()) == self.shapes()[i]
                    && r@[i].spec_value() == self.values()[i],
            self.wf() ==> forall|i: int|
                0 <= i < r@.len() ==> (#[trigger] r@[i].spec_children()) == desc_count(
                    self.shapes(),
                    i,
                ) && r@[i].spec_height() == node_height(self.shapes(), i),
    {
        proof {
            if self.wf() {
                assert forall|i: int| 0 <= i < self.items@.len() implies (
                #[trigger] self.items@[i].spec_children()) == desc_count(self.shapes(), i)
                    && self.items@[i].spec_height() == node_height(self.shapes(), i) by {
                    assert(self.node_ok(i));
                }
            }
        }
        self.items.as_slice()
    }

    /// A shared reference to the value at a storage index, or `None` when
    /// the index is out of range.
    pub fn get(&self, index: usize) -> (r: Option<&T>)
        ensures
            index < self.shapes().len() <==> r is Some,
            r matches Some(v) ==> *v == self.values()[index as int],
    {
        if index < self.items.len() {
            Some(&self.items[index].value)
        } else {
            None
        }
    }

    /// Whether the node at `index` is currently collapsed; `false` when the
    /// index is out of range.
    pub fn get_collapsed(&self, index: usize) -> (r: bool)
        ensures
            r == if index < self.shapes().len() {
                self.shapes()[index as int].collapsed
            } else {
                false
            },
    {
        if index < self.items.len() {
            self.items[index].is_collapsed
        } else {
            false
        }
    }

    /// Whether the node at `index` is a container (shows a collapse
    /// affordance even with no children); `false` when out of range.
    pub fn is_container_item(&self, index: usize) -> (r: bool)
        ensures
            r == if index < self.shapes().len() {
                self.shapes()[index as int].container
            } else {
                false
            },
    {
        if index < self.items.len() {
            self.items[index].is_container
        } else {
            false
        }
    }

    /// The number of descendants (not just direct children) of the node at
    /// `index`, hidden ones included; 0 when the index is out of range.
    pub fn get_children(&self, index: usize) -> (r: usize)
        requires
            self.wf(),
        ensures
            r == if index < self.shapes().len() {
                desc_count(self.shapes(), index as int)
            } else {
                0nat
            },
    {
        if index < self.items.len() {
            proof {
                assert(self.node_ok(index as int));
            }
            self.items[index].children
        } else {
            0
        }
    }



    /// A value differs only at one slot's payload: well-formedness carries
    /// over, since no structural field is touched.
    proof fn lemma_value_update_wf(pre: Self, post: Self, i: int)
        requires
            pre.wf(),
            0 <= i < pre.items@.len(),
            post.height == pre.height,
            post.items@.len() == pre.items@.len(),
            forall|m: int|
                0 <= m < pre.items@.len() && m != i ==> #[trigger] post.items@[m] == pre.items@[m],
            post.items@[i].level == pre.items@[i].level,
            post.items@[i].is_collapsed == pre.items@[i].is_collapsed,
            post.items@[i].is_container == pre.items@[i].is_container,
            post.items@[i].children == pre.items@[i].children,
            post.items@[i].height == pre.items@[i].height,
            post.items@[i].collapsed_height == pre.items@[i].collapsed_height,
        ensures
            post.wf(),
            post.shapes() == pre.shapes(),
            post.values() == pre.values().update(i, post.items@[i].spec_value()),
    {
        pre.lemma_views();
        post.lemma_views();
        assert(post.shapes() =~= pre.shapes());
        assert(post.values() =~= pre.values().update(i, post.items@[i].spec_value()));
        assert forall|m: int| 0 <= m < post.shapes().len() implies #[trigger] post.node_ok(m) by {
            assert(pre.node_ok(m));
        }
    }

    /// Replaces the value at a storage index, returning the previous one.
    /// When the index is out of range nothing changes and the offered value
    /// comes back unused.  The structure, the bookkeeping and the visible
    /// height are untouched either way.
    pub fn set_value(&mut self, index: usize, value: T) -> (r: Result<T, T>)
        requires
            old(self).wf(),
        ensures
            final(self).wf(),
            index >= old(self).shapes().len() ==> r == Err::<T, T>(value) && *final(self) == *old(
                self,
            ),
            index < old(self).shapes().len() ==> r == Ok::<T, T>(
                old(self).values()[index as int],
            ) && final(self).shapes() == old(self).shapes() && final(self).values() == old(
                self,
            ).values().update(index as int, value) && final(self).spec_height() == old(
                self,
            ).spec_height(),
    {
        if index >= self.items.len() {
            return Err(value);
        }
        proof {
            self.lemma_views();
        }
        let mut v = value;
        core::mem::swap(&mut self.items[index].value, &mut v);
        proof {
            Self::lemma_value_update_wf(*old(self), *self, index as int);
        }
        Ok(v)
    }

    /// Removes every node and resets the visible height to zero.
    pub fn clear(&mut self)
        ensures
            final(self).wf(),
            final(self).shapes() == Seq::<NodeShape>::empty(),
            final(self).values() == Seq::<T>::empty(),
            final(self).spec_height() == 0,
    {
        self.items.clear();
        self.height = 0;
        proof {
            assert(self.shapes() =~= Seq::<NodeShape>::empty());
            assert(self.values() =~= Seq::<T>::empty());
        }
    }

    /// Removes every node, returning their values in storage order, and
    /// resets the visible height to zero.
    pub fn take_items(&mut self) -> (r: Vec<T>)
        ensures
            final(self).wf(),
            final(self).shapes() == Seq::<NodeShape>::empty(),
            final(self).values() == Seq::<T>::empty(),
            final(self).spec_height() == 0,
            r@ == old(self).values(),
    {
        let ghost orig = self.values();
        let mut r: Vec<T> = Vec::new();
        while self.items.len() > 0
            invariant
                r@.len() + self.items@.len() == orig.len(),
                self.values() =~= orig.subrange(r@.len() as int, orig.len() as int),
                r@ =~= orig.subrange(0, r@.len() as int),
            decreases self.items@.len(),
        {
            let ghost prev = self.items@;
            let node = self.items.remove(0);
            proof {
                prev.remove_ensures(0);
                let k = r@.len() as int;
                assert(prev.map_values(|nd: TreeNode<T>| nd.spec_value()) =~= orig.subrange(
                    k,
                    orig.len() as int,
                ));
                assert(node == prev[0]);
                assert(prev.map_values(|nd: TreeNode<T>| nd.spec_value())[0] == prev[0].spec_value());
                assert(orig.subrange(k, orig.len() as int)[0] == orig[k]);
                assert(node.spec_value() == orig[k]);
                assert forall|m: int| 0 <= m < self.items@.len() implies self.values()[m] == orig[k
                    + 1 + m] by {
                    assert(self.items@[m] == prev[m + 1]);
                    assert(prev.map_values(|nd: TreeNode<T>| nd.spec_value())[m + 1] == prev[m
                        + 1].spec_value());
                    assert(orig.subrange(k, orig.len() as int)[m + 1] == orig[k + 1 + m]);
                }
                assert(self.values() =~= orig.subrange(k + 1, orig.len() as int));
            }
            r.push(node.value);
            proof {
                assert(r@ =~= orig.subrange(0, r@.len() as int));
            }
        }
        self.height = 0;
        proof {
            assert(r@ =~= orig);
            assert(self.shapes() =~= Seq::<NodeShape>::empty());
            assert(self.values() =~= Seq::<T>::empty());
        }
        r
    }

    /// Pointwise access from the stored nodes to the two views.
    pub(crate) proof fn lemma_views(&self)
        ensures
            self.shapes().len() == self.items@.len(),
            self.values().len() == self.items@.len(),
            forall|i: int|
                0 <= i < self.items@.len() ==> (#[trigger] self.shapes()[i]) == self.items@[
                    i].shape(),
            forall|i: int|
                0 <= i < self.items@.len() ==> (#[trigger] self.values()[i]) == self.items@[
                    i].spec_value(),
    {
    }

    /// One walk step that updated exactly slot `j` (an ancestor of `i`) to
    /// its target state extends the walk description one position down.
    proof fn lemma_prop_advance(
        orig: Seq<TreeNode<T>>,
        before: Seq<TreeNode<T>>,
        now: Seq<TreeNode<T>>,
        s0: Seq<NodeShape>,
        i: int,
        sdh: int,
        sdc: int,
        j: int,
    )
        requires
            orig.len() == before.len() == now.len(),
            0 <= j < now.len(),
            forall|m: int|
                0 <= m < orig.len() ==> #[trigger] prop_slot(orig, before, s0, i, sdh, sdc, j + 1, m),
            prop_slot(orig, now, s0, i, sdh, sdc, j, j),
            forall|m: int| 0 <= m < orig.len() && m != j ==> now[m] == before[m],
        ensures
            forall|m: int| 0 <= m < orig.len() ==> #[trigger] prop_slot(orig, now, s0, i, sdh, sdc, j, m),
    {
        assert forall|m: int| 0 <= m < orig.len() implies prop_slot(
            orig,
            now,
            s0,
            i,
            sdh,
            sdc,
            j,
            m,
        ) by {
            if m != j {
                assert(prop_slot(orig, before, s0, i, sdh, sdc, j + 1, m));
            }
        }
    }

    /// A walk step that touched nothing (slot `j` is no ancestor of `i`)
    /// extends the walk description one position down.
    proof fn lemma_prop_skip(
        orig: Seq<TreeNode<T>>,
        now: Seq<TreeNode<T>>,
        s0: Seq<NodeShape>,
        i: int,
        sdh: int,
        sdc: int,
        j: int,
    )
        requires
            orig.len() == now.len(),
            0 <= j < now.len(),
            !is_ancestor(s0, j, i),
            forall|m: int|
                0 <= m < orig.len() ==> #[trigger] prop_slot(orig, now, s0, i, sdh, sdc, j + 1, m),
        ensures
            forall|m: int| 0 <= m < orig.len() ==> #[trigger] prop_slot(orig, now, s0, i, sdh, sdc, j, m),
    {
        assert forall|m: int| 0 <= m < orig.len() implies prop_slot(
            orig,
            now,
            s0,
            i,
            sdh,
            sdc,
            j,
            m,
        ) by {
            assert(prop_slot(orig, now, s0, i, sdh, sdc, j + 1, m));
        }
    }

    /// After a collapse toggle at `i` whose walk is done, each slot's
    /// cached counters agree with the new model.
    #[verifier::rlimit(100)]
    proof fn lemma_toggle_slot(
        pre: Self,
        post: Self,
        s2: Seq<NodeShape>,
        i: int,
        collapsed: bool,
        off: int,
        dh: int,
        m: int,
    )
        requires
            pre.wf(),
            pre.items@.len() <= usize::MAX,
            0 <= i < pre.items@.len(),
            0 <= m < pre.items@.len(),
            pre.shapes()[i].collapsed != collapsed,
            off == vis_count(pre.shapes(), i + 1, i + 1, subtree_end(pre.shapes(), i)),
            dh == if collapsed { -off } else { off },
            s2 == pre.shapes().update(i, with_collapsed(pre.shapes()[i], collapsed)),
            post.items@.len() == pre.items@.len(),
            post.shapes() == s2,
            m != i ==> prop_slot(pre.items@, post.items@, pre.shapes(), i, dh, 0, 0, m),
            m == i ==> post.items@[i].children == pre.items@[i].children
                && post.items@[i].height as int == (if collapsed { 1int } else { off + 1 })
                && post.items@[i].collapsed_height == (if collapsed {
                    Some((off + 1) as usize)
                } else {
                    None::<usize>
                }),
            off + 1 <= usize::MAX,
        ensures
            post.node_ok(m),
    {
        let s0 = pre.shapes();
        assert(pre.node_ok(m));
        pre.lemma_views();
        post.lemma_views();
        lemma_height_bounds(s0, m);
        lemma_height_bounds(s2, m);
        lemma_height_bounds(s0, i);
        lemma_height_unfold(s0, i);
        lemma_toggle_node(s0, s2, i);
        if m == i {
        } else if is_ancestor(s0, m, i) {
            lemma_toggle_ancestor(s0, s2, i, m);
        } else {
            lemma_toggle_frame(s0, s2, i, m);
        }
    }

    /// A collapse toggle at `i`, with its ancestor walk done (`prop_slot`
    /// everywhere else), the node's own fields flipped, and the stored
    /// height moved exactly when the node is visible, restores
    /// well-formedness.
    #[verifier::rlimit(100)]
    proof fn lemma_toggle_restores_wf(
        pre: Self,
        post: Self,
        i: int,
        collapsed: bool,
        off: int,
        dh: int,
    )
        requires
            pre.wf(),
            pre.items@.len() <= usize::MAX,
            0 <= i < pre.items@.len(),
            pre.shapes()[i].collapsed != collapsed,
            off == vis_count(pre.shapes(), i + 1, i + 1, subtree_end(pre.shapes(), i)),
            dh == if collapsed { -off } else { off },
            post.items@.len() == pre.items@.len(),
            forall|m: int|
                0 <= m < pre.items@.len() && m != i ==> prop_slot(
                    pre.items@,
                    post.items@,
                    pre.shapes(),
                    i,
                    dh,
                    0,
                    0,
                    m,
                ),
            post.items@[i].value == pre.items@[i].value,
            post.items@[i].level == pre.items@[i].level,
            post.items@[i].is_container == pre.items@[i].is_container,
            post.items@[i].children == pre.items@[i].children,
            post.items@[i].is_collapsed == collapsed,
            post.items@[i].height as int == if collapsed {
                1int
            } else {
                off + 1
            },
            post.items@[i].collapsed_height == (if collapsed {
                Some((off + 1) as usize)
            } else {
                None::<usize>
            }),
            off + 1 <= usize::MAX,
            post.height as int == pre.height + (if vis_from(pre.shapes(), 0, i) {
                if collapsed {
                    -off
                } else {
                    off
                }
            } else {
                0int
            }),
        ensures
            post.wf(),
            post.shapes() == pre.shapes().update(i, with_collapsed(pre.shapes()[i], collapsed)),
            post.values() == pre.values(),
    {
        let s0 = pre.shapes();
        let s2 = s0.update(i, with_collapsed(s0[i], collapsed));
        pre.lemma_views();
        post.lemma_views();
        assert forall|m: int| 0 <= m < pre.items@.len() && m != i implies post.items@[m].shape()
            == pre.items@[m].shape() && post.items@[m].spec_value() == pre.items@[
        m].spec_value() by {
            assert(prop_slot(pre.items@, post.items@, s0, i, dh, 0, 0, m));
        }
        assert(post.shapes() =~= s2);
        assert(post.values() =~= pre.values());
        assert(valid_levels(s2)) by {
            assert(forall|m: int| 0 <= m < s2.len() ==> (#[trigger] s2[m].level) == s0[m].level);
        }
        lemma_toggle_node(s0, s2, i);
        lemma_height_bounds(s0, i);
        lemma_height_unfold(s0, i);
        lemma_toggle_count(s0, s2, i, 0, 0, s0.len() as int);
        lemma_vis_count_le(s2, 0, 0, s2.len() as int);
        assert forall|m: int| 0 <= m < s2.len() implies #[trigger] post.node_ok(m) by {
            Self::lemma_toggle_slot(pre, post, s2, i, collapsed, off, dh, m);
        }
        assert(post.wf());
    }

    /// Walks from the node at `index` towards the root, applying one
    /// structural change's bookkeeping to every ancestor: descendant counts
    /// always move by `dc`, even on ancestors that currently hide the node;
    /// heights move by `dh` on ancestors that show it; the nearest collapsed
    /// ancestor has its cached expansion height moved by `dh` instead; and
    /// ancestors above that one see no height change at all, since their
    /// visible extent cannot be affected.  Returns whether the node is
    /// hidden behind some collapsed ancestor.
    ///
    /// The list is left momentarily inconsistent — the caller completes the
    /// structural change it has started.
    #[verifier::rlimit(100)]
    fn propagate(&mut self, index: usize, dh: usize, grow: bool, dc: usize) -> (hidden: bool)
        requires
            old(self).wf(),
            index < old(self).items@.len(),
            !grow ==> dh <= node_height(old(self).shapes(), index as int),
            grow ==> old(self).shapes()[index as int].collapsed && dh <= vis_count(
                old(self).shapes(),
                index as int + 1,
                index as int + 1,
                subtree_end(old(self).shapes(), index as int),
            ),
            dc <= desc_count(old(self).shapes(), index as int) + 1,
        ensures
            final(self).items@.len() == old(self).items@.len(),
            final(self).shapes() == old(self).shapes(),
            final(self).values() == old(self).values(),
            final(self).height == old(self).height,
            hidden == !vis_from(old(self).shapes(), 0, index as int),
            grow ==> forall|m: int|
                0 <= m < old(self).items@.len() ==> #[trigger] prop_slot(
                    old(self).items@,
                    final(self).items@,
                    old(self).shapes(),
                    index as int,
                    dh as int,
                    -(dc as int),
                    0,
                    m,
                ),
            !grow ==> forall|m: int|
                0 <= m < old(self).items@.len() ==> #[trigger] prop_slot(
                    old(self).items@,
                    final(self).items@,
                    old(self).shapes(),
                    index as int,
                    -(dh as int),
                    -(dc as int),
                    0,
                    m,
                ),
    {
        let ghost s0 = old(self).shapes();
        let ghost v0 = old(self).values();
        let ghost i = index as int;
        let ghost orig = old(self).items@;
        let ghost sdh: int = if grow { dh as int } else { -(dh as int) };
        let ghost sdc: int = -(dc as int);
        let ln = self.items.len();
        proof {
            self.lemma_views();
            lemma_height_bounds(s0, i);
            lemma_height_unfold(s0, i);
        }
        let mut j: usize = index;
        let mut lvl: usize = self.items[index].level;
        let mut hidden: bool = false;
        while j > 0
            invariant
                old(self).wf(),
                s0 == old(self).shapes(),
                orig == old(self).items@,
                v0 == old(self).values(),
                i == index as int,
                0 <= i < ln,
                ln == orig.len(),
                sdh == if grow { dh as int } else { -(dh as int) },
                sdc == -(dc as int),
                !grow ==> dh <= node_height(s0, i),
                grow ==> s0[i].collapsed && dh <= vis_count(s0, i + 1, i + 1, subtree_end(s0, i)),
                dc <= desc_count(s0, i) + 1,
                j <= index,
                self.shapes() == s0,
                self.values() == v0,
                self.items@.len() == ln,
                self.height == old(self).height,
                hidden == !vis_from(s0, j as int, i),
                forall|m: int| j <= m <= i ==> (#[trigger] s0[m].level) >= lvl,
                exists|m: int| j <= m <= i && (#[trigger] s0[m].level) == lvl,
                forall|m: int|
                    0 <= m < ln ==> prop_slot(orig, self.items@, s0, i, sdh, sdc, j as int, m),
            decreases j,
        {
            j = j - 1;
            let node_level = self.items[j].level;
            if node_level < lvl {
                proof {
                    assert forall|m: int| j < m <= i implies s0[m].level > s0[j as int].level by {
                        assert(s0[m].level >= lvl);
                    }
                    assert(is_ancestor(s0, j as int, i));
                    assert(prop_slot(orig, self.items@, s0, i, sdh, sdc, j as int + 1, j as int));
                    assert(self.items@[j as int] == orig[j as int]);
                    assert(old(self).node_ok(j as int));
                    lemma_ancestor_room(s0, i, j as int);
                    lemma_height_bounds(s0, j as int);
                    lemma_height_bounds(s0, i);
                    lemma_height_unfold(s0, j as int);
                    lemma_height_unfold(s0, i);
                    lemma_vis_from_step(s0, j as int, i);
                }
                let ghost before = self.items@;
                let visible_path = !hidden;
                if self.items[j].is_collapsed {
                    if visible_path {
                        let ch = self.items[j].collapsed_height.unwrap();
                        let nh = if grow {
                            ch + dh
                        } else {
                            ch - dh
                        };
                        self.items[j].collapsed_height = Some(nh);
                    }
                    hidden = true;
                } else {
                    if visible_path {
                        let h = self.items[j].height;
                        let nh = if grow {
                            h + dh
                        } else {
                            h - dh
                        };
                        self.items[j].height = nh;
                    }
                }
                let old_children = self.items[j].children;
                self.items[j].children = old_children - dc;
                lvl = node_level;
                proof {
                    self.lemma_views();
                    assert(self.shapes() =~= s0);
                    assert(self.values() =~= v0);
                    assert(prop_slot(orig, self.items@, s0, i, sdh, sdc, j as int, j as int));
                    Self::lemma_prop_advance(
                        orig,
                        before,
                        self.items@,
                        s0,
                        i,
                        sdh,
                        sdc,
                        j as int,
                    );
                }
            } else {
                proof {
                    assert(!is_ancestor(s0, j as int, i)) by {
                        let w = choose|m: int| j + 1 <= m <= i && (#[trigger] s0[m].level) == lvl;
                        assert(s0[w].level <= s0[j as int].level);
                    }
                    lemma_vis_from_skip(s0, j as int, j as int + 1, i);
                    Self::lemma_prop_skip(orig, self.items@, s0, i, sdh, sdc, j as int);
                }
            }
        }
        proof {
            if grow {
                assert forall|m: int| 0 <= m < ln implies #[trigger] prop_slot(
                    orig,
                    self.items@,
                    s0,
                    i,
                    dh as int,
                    -(dc as int),
                    0,
                    m,
                ) by {
                    assert(prop_slot(orig, self.items@, s0, i, sdh, sdc, 0, m));
                }
            } else {
                assert forall|m: int| 0 <= m < ln implies #[trigger] prop_slot(
                    orig,
                    self.items@,
                    s0,
                    i,
                    -(dh as int),
                    -(dc as int),
                    0,
                    m,
                ) by {
                    assert(prop_slot(orig, self.items@, s0, i, sdh, sdc, 0, m));
                }
            }
        }
        hidden
    }


    /// The measure arithmetic for one ancestor of a removed subtree (or
    /// descendant range): what the cut takes away from its counts.
    #[verifier::rlimit(100)]
    #[verifier::spinoff_prover]
    proof fn lemma_cut_slot_anc(s1: Seq<NodeShape>, i: int, a: int, m: int)
        requires
            0 <= i < s1.len(),
            a == i || a == i + 1,
            !s1[i].collapsed,
            cut_ok(s1, a, subtree_end(s1, i)),
            is_ancestor(s1, m, i),
            0 <= m < a,
        ensures
            ({
                let e = subtree_end(s1, i);
                let c = cut_seq(s1, a, e);
                &&& subtree_end(c, m) == subtree_end(s1, m) - (e - a)
                &&& desc_count(c, m) == desc_count(s1, m) - (e - a)
                &&& node_height(s1, m) == node_height(c, m) + vis_count(s1, m, a, e)
                &&& exp_height(s1, m) == exp_height(c, m) + vis_count(s1, m + 1, a, e)
                &&& vis_count(s1, m, a, e) == (if a == i {
                    if vis_from(s1, m, i) {
                        node_height(s1, i)
                    } else {
                        0nat
                    }
                } else {
                    if vis_from(s1, m, i) {
                        (node_height(s1, i) - 1) as nat
                    } else {
                        0nat
                    }
                })
                &&& vis_count(s1, m + 1, a, e) == (if a == i {
                    if vis_from(s1, m + 1, i) {
                        node_height(s1, i)
                    } else {
                        0nat
                    }
                } else {
                    if vis_from(s1, m + 1, i) {
                        (node_height(s1, i) - 1) as nat
                    } else {
                        0nat
                    }
                })
            }),
    {
        let e = subtree_end(s1, i);
        lemma_run_end(s1, s1[i].level, i + 1);
        lemma_height_bounds(s1, i);
        lemma_height_unfold(s1, i);
        lemma_subtree_nested(s1, m, i);
        lemma_cut_ancestor_measures(s1, a, e, m);
        lemma_removed_count(s1, m, i);
        lemma_removed_count(s1, m + 1, i);
        if a == i + 1 {
            lemma_vis_count_split(s1, m, i, i + 1, e);
            lemma_vis_count_split(s1, m + 1, i, i + 1, e);
            lemma_vis_from_step(s1, m, i);
            assert(vis_count(s1, m, i, i + 1) == (if vis_from(s1, m, i) {
                1nat
            } else {
                0nat
            }) + vis_count(s1, m, i + 1, i + 1));
            assert(vis_count(s1, m + 1, i, i + 1) == (if vis_from(s1, m + 1, i) {
                1nat
            } else {
                0nat
            }) + vis_count(s1, m + 1, i + 1, i + 1));
        }
    }

    /// After removing its descendant range, a node keeps exactly its own
    /// row: no descendants, height 1 either way.
    #[verifier::rlimit(100)]
    #[verifier::spinoff_prover]
    proof fn lemma_cut_slot_self(s1: Seq<NodeShape>, i: int)
        requires
            0 <= i < s1.len(),
            !s1[i].collapsed,
            cut_ok(s1, i + 1, subtree_end(s1, i)),
        ensures
            ({
                let e = subtree_end(s1, i);
                let c = cut_seq(s1, i + 1, e);
                &&& subtree_end(c, i) == i + 1
                &&& desc_count(c, i) == 0
                &&& node_height(c, i) == 1
                &&& exp_height(c, i) == 1
                &&& node_height(s1, i) == 1 + vis_count(s1, i, i + 1, e)
                &&& exp_height(s1, i) == 1 + vis_count(s1, i + 1, i + 1, e)
            }),
    {
        let e = subtree_end(s1, i);
        let c = cut_seq(s1, i + 1, e);
        lemma_run_end(s1, s1[i].level, i + 1);
        lemma_height_bounds(s1, i);
        lemma_height_unfold(s1, i);
        lemma_cut_ancestor_measures(s1, i + 1, e, i);
        lemma_height_unfold(c, i);
        lemma_height_bounds(c, i);
        lemma_vis_count_split(s1, i, i, i + 1, e);
    }

    /// One slot's cached counters agree with the model after a clean cut of
    /// `[a, b)` — the subtree of `i` (`a == i`) or only its descendants
    /// (`a == i + 1`) — whose ancestor walk moved heights by `dh` and
    /// descendant counts by `dc`.
    #[verifier::rlimit(100)]
    #[verifier::spinoff_prover]
    proof fn lemma_cut_slot(
        pre: Self,
        mid: Self,
        post: Self,
        i: int,
        a: int,
        dh: int,
        dc: int,
        m: int,
    )
        requires
            pre.wf(),
            pre.items@.len() <= usize::MAX,
            0 <= i < pre.items@.len(),
            a == i || a == i + 1,
            !pre.shapes()[i].collapsed,
            dh == if a == i {
                node_height(pre.shapes(), i) as int
            } else {
                node_height(pre.shapes(), i) - 1
            },
            dc == subtree_end(pre.shapes(), i) - a,
            mid.items@.len() == pre.items@.len(),
            mid.shapes() == pre.shapes(),
            forall|m2: int|
                0 <= m2 < pre.items@.len() && m2 != i ==> #[trigger] prop_slot(
                    pre.items@,
                    mid.items@,
                    pre.shapes(),
                    i,
                    -dh,
                    -dc,
                    0,
                    m2,
                ),
            a == i ==> mid.items@[i] == pre.items@[i],
            a == i + 1 ==> mid.items@[i].value == pre.items@[i].value
                && mid.items@[i].level == pre.items@[i].level && mid.items@[i].is_collapsed
                == pre.items@[i].is_collapsed && mid.items@[i].is_container == pre.items@[
            i].is_container && mid.items@[i].children == 0 && mid.items@[i].height == 1
                && mid.items@[i].collapsed_height == pre.items@[i].collapsed_height,
            post.items@.len() == pre.items@.len() - dc,
            forall|m2: int| 0 <= m2 < a ==> #[trigger] post.items@[m2] == mid.items@[m2],
            forall|m2: int|
                a <= m2 < post.items@.len() ==> #[trigger] post.items@[m2] == mid.items@[m2 + (
                subtree_end(pre.shapes(), i) - a)],
            post.shapes() == cut_seq(pre.shapes(), a, subtree_end(pre.shapes(), i)),
            0 <= m < post.items@.len(),
        ensures
            post.node_ok(m),
    {
        let s1 = pre.shapes();
        let e = subtree_end(s1, i);
        let c = cut_seq(s1, a, e);
        lemma_height_bounds(s1, i);
        lemma_height_unfold(s1, i);
        lemma_subtree_cut_ok(s1, i, a);
        lemma_cut_index(s1, a, e);
        if m < a {
            assert(pre.node_ok(m));
            if m == i {
                // Only when the node keeps its slot: it has lost all its
                // descendants and shows exactly its own row.
                Self::lemma_cut_slot_self(s1, i);
            } else {
                assert(prop_slot(pre.items@, mid.items@, s1, i, -dh, -dc, 0, m));
                lemma_run_end(s1, s1[m].level, m + 1);
                if is_ancestor(s1, m, i) {
                    Self::lemma_cut_slot_anc(pre.shapes(), i, a, m);
                    lemma_vis_from_step(s1, m, i);
                    lemma_height_bounds(s1, m);
                    lemma_height_bounds(c, m);
                    lemma_height_unfold(s1, m);
                    lemma_height_unfold(c, m);
                } else {
                    lemma_ancestor_iff(s1, m, i);
                    assert(subtree_end(s1, m) <= a || subtree_end(s1, m) >= e);
                    if subtree_end(s1, m) >= e {
                        // `m` would contain `i` and thus be its ancestor.
                        assert(i < subtree_end(s1, m));
                        assert(false);
                    }
                    lemma_cut_prefix_measures(s1, a, e, m);
                }
            }
        } else {
            let j = m + (e - a);
            assert(post.items@[m] == mid.items@[j]);
            assert(prop_slot(pre.items@, mid.items@, s1, i, -dh, -dc, 0, j));
            assert(pre.node_ok(j));
            lemma_ancestor_iff(s1, i, j);
            lemma_run_end(s1, s1[i].level, i + 1);
            assert(!is_ancestor(s1, j, i));
            assert(mid.items@[j] == pre.items@[j]);
            lemma_cut_suffix_measures(s1, a, e, j);
        }
    }

    /// After a clean cut with its walk done, the shapes are the cut model
    /// and the levels still encode a forest.
    #[verifier::rlimit(100)]
    proof fn lemma_cut_views(
        pre: Self,
        mid: Self,
        post: Self,
        i: int,
        a: int,
        dh: int,
        dc: int,
    )
        requires
            pre.wf(),
            pre.items@.len() <= usize::MAX,
            0 <= i < pre.items@.len(),
            a == i || a == i + 1,
            !pre.shapes()[i].collapsed,
            dh == if a == i {
                node_height(pre.shapes(), i) as int
            } else {
                node_height(pre.shapes(), i) - 1
            },
            dc == subtree_end(pre.shapes(), i) - a,
            mid.items@.len() == pre.items@.len(),
            mid.shapes() == pre.shapes(),
            forall|m2: int|
                0 <= m2 < pre.items@.len() && m2 != i ==> #[trigger] prop_slot(
                    pre.items@,
                    mid.items@,
                    pre.shapes(),
                    i,
                    -dh,
                    -dc,
                    0,
                    m2,
                ),
            a == i ==> mid.items@[i] == pre.items@[i],
            a == i + 1 ==> mid.items@[i].value == pre.items@[i].value
                && mid.items@[i].level == pre.items@[i].level && mid.items@[i].is_collapsed
                == pre.items@[i].is_collapsed && mid.items@[i].is_container == pre.items@[
            i].is_container && mid.items@[i].children == 0 && mid.items@[i].height == 1
                && mid.items@[i].collapsed_height == pre.items@[i].collapsed_height,
            post.items@.len() == pre.items@.len() - dc,
            forall|m2: int| 0 <= m2 < a ==> #[trigger] post.items@[m2] == mid.items@[m2],
            forall|m2: int|
                a <= m2 < post.items@.len() ==> #[trigger] post.items@[m2] == mid.items@[m2 + (
                subtree_end(pre.shapes(), i) - a)],
            post.height as int == pre.height - (if vis_from(pre.shapes(), 0, i) {
                dh
            } else {
                0int
            }),
        ensures
            post.shapes() == cut_seq(pre.shapes(), a, subtree_end(pre.shapes(), i)),
            valid_levels(cut_seq(pre.shapes(), a, subtree_end(pre.shapes(), i))),
    {
        let s1 = pre.shapes();
        let e = subtree_end(s1, i);
        let c = cut_seq(s1, a, e);
        lemma_height_bounds(s1, i);
        lemma_subtree_cut_ok(s1, i, a);
        lemma_cut_index(s1, a, e);
        pre.lemma_views();
        mid.lemma_views();
        post.lemma_views();
        assert forall|m: int| 0 <= m < post.items@.len() implies (#[trigger] post.items@[m].shape())
            == c[m] by {
            if m < a {
                if m != i {
                    assert(prop_slot(pre.items@, mid.items@, s1, i, -dh, -dc, 0, m));
                }
            } else {
                let j = m + (e - a);
                assert(prop_slot(pre.items@, mid.items@, s1, i, -dh, -dc, 0, j));
                lemma_ancestor_iff(s1, i, j);
                assert(!is_ancestor(s1, j, i));
            }
        }
        assert(post.shapes() =~= c);
        assert(valid_levels(c)) by {
            lemma_run_end(s1, s1[i].level, i + 1);
            assert forall|m: int| 1 <= m < c.len() implies (#[trigger] c[m].level) <= c[m
                - 1].level + 1 by {
                if m == a {
                    assert(c[m] == s1[e]);
                    assert(s1[e].level <= s1[i].level);
                } else if m > a {
                    assert(c[m] == s1[m + (e - a)]);
                    assert(c[m - 1] == s1[m - 1 + (e - a)]);
                }
            }
            if c.len() > 0 && a == 0 {
                assert(c[0] == s1[e]);
                assert(s1[e].level <= s1[i].level);
            }
        }
    }

    /// After a clean cut with its walk done, the values are exactly the
    /// kept values, in order.
    #[verifier::rlimit(100)]
    proof fn lemma_cut_values(
        pre: Self,
        mid: Self,
        post: Self,
        i: int,
        a: int,
        dh: int,
        dc: int,
    )
        requires
            pre.wf(),
            pre.items@.len() <= usize::MAX,
            0 <= i < pre.items@.len(),
            a == i || a == i + 1,
            !pre.shapes()[i].collapsed,
            dh == if a == i {
                node_height(pre.shapes(), i) as int
            } else {
                node_height(pre.shapes(), i) - 1
            },
            dc == subtree_end(pre.shapes(), i) - a,
            mid.items@.len() == pre.items@.len(),
            mid.shapes() == pre.shapes(),
            forall|m2: int|
                0 <= m2 < pre.items@.len() && m2 != i ==> #[trigger] prop_slot(
                    pre.items@,
                    mid.items@,
                    pre.shapes(),
                    i,
                    -dh,
                    -dc,
                    0,
                    m2,
                ),
            a == i ==> mid.items@[i] == pre.items@[i],
            a == i + 1 ==> mid.items@[i].value == pre.items@[i].value
                && mid.items@[i].level == pre.items@[i].level && mid.items@[i].is_collapsed
                == pre.items@[i].is_collapsed && mid.items@[i].is_container == pre.items@[
            i].is_container && mid.items@[i].children == 0 && mid.items@[i].height == 1
                && mid.items@[i].collapsed_height == pre.items@[i].collapsed_height,
            post.items@.len() == pre.items@.len() - dc,
            forall|m2: int| 0 <= m2 < a ==> #[trigger] post.items@[m2] == mid.items@[m2],
            forall|m2: int|
                a <= m2 < post.items@.len() ==> #[trigger] post.items@[m2] == mid.items@[m2 + (
                subtree_end(pre.shapes(), i) - a)],
            post.height as int == pre.height - (if vis_from(pre.shapes(), 0, i) {
                dh
            } else {
                0int
            }),
        ensures
            post.values() == pre.values().subrange(0, a) + pre.values().subrange(
                subtree_end(pre.shapes(), i),
                pre.values().len() as int,
            ),
    {
        let s1 = pre.shapes();
        let e = subtree_end(s1, i);
        lemma_height_bounds(s1, i);
        lemma_subtree_cut_ok(s1, i, a);
        lemma_cut_index(s1, a, e);
        pre.lemma_views();
        mid.lemma_views();
        post.lemma_views();
        assert forall|m: int| 0 <= m < post.items@.len() implies (
        #[trigger] post.items@[m].spec_value()) == (if m < a {
            pre.items@[m].spec_value()
        } else {
            pre.items@[m + (e - a)].spec_value()
        }) by {
            if m < a {
                if m != i {
                    assert(prop_slot(pre.items@, mid.items@, s1, i, -dh, -dc, 0, m));
                }
            } else {
                let j = m + (e - a);
                assert(prop_slot(pre.items@, mid.items@, s1, i, -dh, -dc, 0, j));
                lemma_ancestor_iff(s1, i, j);
                assert(!is_ancestor(s1, j, i));
            }
        }
        assert(post.values() =~= pre.values().subrange(0, a) + pre.values().subrange(
            e,
            pre.values().len() as int,
        ));
    }

    /// A clean cut of the subtree of `i` (or of its descendant range) with
    /// its ancestor walk done restores well-formedness.
    #[verifier::rlimit(100)]
    proof fn lemma_cut_restores_wf(
        pre: Self,
        mid: Self,
        post: Self,
        i: int,
        a: int,
        dh: int,
        dc: int,
    )
        requires
            pre.wf(),
            pre.items@.len() <= usize::MAX,
            0 <= i < pre.items@.len(),
            a == i || a == i + 1,
            !pre.shapes()[i].collapsed,
            dh == if a == i {
                node_height(pre.shapes(), i) as int
            } else {
                node_height(pre.shapes(), i) - 1
            },
            dc == subtree_end(pre.shapes(), i) - a,
            mid.items@.len() == pre.items@.len(),
            mid.shapes() == pre.shapes(),
            forall|m2: int|
                0 <= m2 < pre.items@.len() && m2 != i ==> #[trigger] prop_slot(
                    pre.items@,
                    mid.items@,
                    pre.shapes(),
                    i,
                    -dh,
                    -dc,
                    0,
                    m2,
                ),
            a == i ==> mid.items@[i] == pre.items@[i],
            a == i + 1 ==> mid.items@[i].value == pre.items@[i].value
                && mid.items@[i].level == pre.items@[i].level && mid.items@[i].is_collapsed
                == pre.items@[i].is_collapsed && mid.items@[i].is_container == pre.items@[
            i].is_container && mid.items@[i].children == 0 && mid.items@[i].height == 1
                && mid.items@[i].collapsed_height == pre.items@[i].collapsed_height,
            post.items@.len() == pre.items@.len() - dc,
            forall|m2: int| 0 <= m2 < a ==> #[trigger] post.items@[m2] == mid.items@[m2],
            forall|m2: int|
                a <= m2 < post.items@.len() ==> #[trigger] post.items@[m2] == mid.items@[m2 + (
                subtree_end(pre.shapes(), i) - a)],
            post.height as int == pre.height - (if vis_from(pre.shapes(), 0, i) {
                dh
            } else {
                0int
            }),
        ensures
            post.wf(),
            post.shapes() == cut_seq(pre.shapes(), a, subtree_end(pre.shapes(), i)),
            post.values() == pre.values().subrange(0, a) + pre.values().subrange(
                subtree_end(pre.shapes(), i),
                pre.values().len() as int,
            ),
    {
        let s1 = pre.shapes();
        let e = subtree_end(s1, i);
        let c = cut_seq(s1, a, e);
        lemma_height_bounds(s1, i);
        lemma_height_unfold(s1, i);
        lemma_subtree_cut_ok(s1, i, a);
        lemma_cut_index(s1, a, e);
        Self::lemma_cut_views(pre, mid, post, i, a, dh, dc);
        Self::lemma_cut_values(pre, mid, post, i, a, dh, dc);
        assert forall|m: int| 0 <= m < c.len() implies #[trigger] post.node_ok(m) by {
            Self::lemma_cut_slot(pre, mid, post, i, a, dh, dc, m);
        }
        lemma_cut_total(s1, a, e);
        lemma_removed_count(s1, 0, i);
        if a == i + 1 {
            lemma_vis_count_split(s1, 0, i, i + 1, e);
        }
        assert(post.wf());
    }


    /// Removes the contiguous block `[at, at + count)` of stored nodes,
    /// returning their values in storage order.  Pure storage surgery: the
    /// caller has already done all bookkeeping.
    fn drain_block(&mut self, at: usize, count: usize) -> (r: Vec<T>)
        requires
            at + count <= old(self).items@.len(),
        ensures
            final(self).items@.len() == old(self).items@.len() - count,
            final(self).height == old(self).height,
            forall|m: int| 0 <= m < at ==> #[trigger] final(self).items@[m] == old(self).items@[m],
            forall|m: int|
                at <= m < final(self).items@.len() ==> #[trigger] final(self).items@[m] == old(
                    self,
                ).items@[m + count],
            r@.len() == count,
            forall|u: int| 0 <= u < count ==> #[trigger] r@[u] == old(self).items@[at + u].spec_value(),
    {
        let ghost mid = self.items@;
        let ghost ln = self.items@.len();
        let mut removed: Vec<T> = Vec::new();
        let mut t: usize = 0;
        while t < count
            invariant
                t <= count,
                at + count <= ln,
                ln == mid.len(),
                self.items@.len() == ln - t,
                self.height == old(self).height,
                forall|m: int| 0 <= m < at ==> #[trigger] self.items@[m] == mid[m],
                forall|m: int|
                    at <= m < ln - t ==> #[trigger] self.items@[m] == mid[m + t],
                removed@.len() == t,
                forall|u: int| 0 <= u < t ==> #[trigger] removed@[u] == mid[at + u].spec_value(),
            decreases count - t,
        {
            let ghost prev = self.items@;
            let node = self.items.remove(at);
            proof {
                prev.remove_ensures(at as int);
                assert(node == prev[at as int]);
                assert(node == mid[at + t]);
            }
            removed.push(node.value);
            t = t + 1;
        }
        removed
    }

    /// Removes the node at `index` together with all of its descendants,
    /// returning their values in storage order, the node first.  `None`
    /// when the index is out of range.
    ///
    /// The node is expanded first, so the removal's height impact is its
    /// full expanded extent; every ancestor loses the subtree from its
    /// descendant count and (where it showed the node) from its height, and
    /// the list height drops by the subtree's visible rows.
    #[verifier::rlimit(100)]
    #[verifier::spinoff_prover]
    pub fn remove_with_children(&mut self, index: usize) -> (r: Option<Vec<T>>)
        requires
            old(self).wf(),
        ensures
            final(self).wf(),
            index >= old(self).shapes().len() ==> r is None && *final(self) == *old(self),
            index < old(self).shapes().len() ==> ({
                let s0 = old(self).shapes();
                let i = index as int;
                let e = subtree_end(s0, i);
                let s1 = s0.update(i, with_collapsed(s0[i], false));
                &&& r matches Some(v) && v@ == old(self).values().subrange(i, e)
                &&& final(self).values() == old(self).values().subrange(0, i) + old(
                    self,
                ).values().subrange(e, old(self).values().len() as int)
                &&& final(self).shapes() == cut_seq(s1, i, e)
            }),
    {
        let ln = self.items.len();
        if index >= ln {
            return None;
        }
        proof {
            self.lemma_views();
        }
        let ghost s0 = self.shapes();
        let ghost i = index as int;
        self.set_collapsed(index, false);
        let ghost s1 = self.shapes();
        proof {
            self.lemma_views();
            assert(self.node_ok(i));
            lemma_height_bounds(s1, i);
            assert forall|m: int| 0 <= m < ln implies #[trigger] level_shift_at(
                s0,
                s1,
                0,
                0,
                m,
            ) by {}
            lemma_run_end(s0, s0[i].level, i + 1);
            lemma_run_end(s1, s1[i].level, i + 1);
            lemma_subtree_end_shift(s0, s1, 0, 0, 0, ln as int, i);
        }
        let h = self.items[index].height;
        let c = self.items[index].children;
        let ghost pre = *self;
        let hidden = self.propagate(index, h, false, c + 1);
        let ghost mid = *self;
        let removed = self.drain_block(index, c + 1);
        proof {
            assert(pre.node_ok(i));
            lemma_run_end(s1, s1[i].level, i + 1);
            lemma_vis_count_split(s1, 0, 0, i, ln as int);
            lemma_vis_count_split(s1, 0, i, subtree_end(s1, i), ln as int);
            lemma_removed_count(s1, 0, i);
        }
        if !hidden {
            self.height = self.height - h;
        }
        proof {
            let e = subtree_end(s1, i);
            assert(prop_slot(pre.items@, mid.items@, s1, i, -(h as int), -((c + 1) as int), 0, i));
            Self::lemma_cut_restores_wf(pre, mid, *self, i, i, h as int, (c + 1) as int);
            mid.lemma_views();
            pre.lemma_views();
            assert(removed@ =~= pre.values().subrange(i, e));
        }
        Some(removed)
    }

    /// Removes all descendants of the node at `index`, keeping the node
    /// itself, and returns their values in storage order.  `None` when the
    /// index is out of range.
    ///
    /// The subtree is expanded first and the node's previous collapse state
    /// is restored afterwards: a collapsed node stays collapsed, now with
    /// an empty subtree of height 1.
    #[verifier::rlimit(100)]
    #[verifier::spinoff_prover]
    pub fn remove_children(&mut self, index: usize) -> (r: Option<Vec<T>>)
        requires
            old(self).wf(),
        ensures
            final(self).wf(),
            index >= old(self).shapes().len() ==> r is None && *final(self) == *old(self),
            index < old(self).shapes().len() ==> ({
                let s0 = old(self).shapes();
                let i = index as int;
                let e = subtree_end(s0, i);
                &&& r matches Some(v) && v@ == old(self).values().subrange(i + 1, e)
                &&& final(self).values() == old(self).values().subrange(0, i + 1) + old(
                    self,
                ).values().subrange(e, old(self).values().len() as int)
                &&& final(self).shapes() == cut_seq(s0, i + 1, e)
            }),
    {
        let ln = self.items.len();
        if index >= ln {
            return None;
        }
        proof {
            self.lemma_views();
        }
        let ghost s0 = self.shapes();
        let ghost i = index as int;
        let was_collapsed = self.items[index].is_collapsed;
        self.set_collapsed(index, false);
        let ghost s1 = self.shapes();
        proof {
            self.lemma_views();
            assert(self.node_ok(i));
            lemma_height_bounds(s1, i);
            assert forall|m: int| 0 <= m < ln implies #[trigger] level_shift_at(
                s0,
                s1,
                0,
                0,
                m,
            ) by {}
            lemma_run_end(s0, s0[i].level, i + 1);
            lemma_run_end(s1, s1[i].level, i + 1);
            lemma_subtree_end_shift(s0, s1, 0, 0, 0, ln as int, i);
        }
        let h = self.items[index].height;
        let c = self.items[index].children;
        let ghost pre = *self;
        let hidden = self.propagate(index, h - 1, false, c);
        let ghost aw = *self;
        // The node itself keeps its slot but loses its whole subtree.
        self.items[index].children = 0;
        self.items[index].height = 1;
        let ghost mid = *self;
        proof {
            mid.lemma_views();
            assert(mid.shapes() =~= s1);
        }
        let removed = self.drain_block(index + 1, c);
        proof {
            assert(pre.node_ok(i));
            lemma_run_end(s1, s1[i].level, i + 1);
            lemma_height_unfold(s1, i);
            lemma_vis_count_split(s1, 0, 0, i + 1, ln as int);
            lemma_vis_count_split(s1, 0, i + 1, subtree_end(s1, i), ln as int);
            lemma_vis_count_split(s1, 0, i, i + 1, ln as int);
            lemma_removed_count(s1, 0, i);
        }
        if !hidden {
            self.height = self.height - (h - 1);
        }
        proof {
            let e = subtree_end(s1, i);
            assert forall|m2: int| 0 <= m2 < pre.items@.len() && m2 != i implies #[trigger] prop_slot(
                pre.items@,
                mid.items@,
                s1,
                i,
                -((h - 1) as int),
                -(c as int),
                0,
                m2,
            ) by {
                assert(prop_slot(
                    pre.items@,
                    aw.items@,
                    s1,
                    i,
                    -((h - 1) as int),
                    -(c as int),
                    0,
                    m2,
                ));
                assert(mid.items@[m2] == aw.items@[m2]);
            }
            assert(prop_slot(pre.items@, aw.items@, s1, i, -((h - 1) as int), -(c as int), 0, i));
            assert(aw.items@[i] == pre.items@[i]);
            Self::lemma_cut_restores_wf(pre, mid, *self, i, i + 1, (h - 1) as int, c as int);
            pre.lemma_views();
            assert(removed@ =~= pre.values().subrange(i + 1, e));
        }
        self.set_collapsed(index, was_collapsed);
        proof {
            assert(self.shapes() =~= cut_seq(s0, i + 1, subtree_end(s1, i)));
            assert(self.values() =~= old(self).values().subrange(0, i + 1) + old(
                self,
            ).values().subrange(subtree_end(s1, i), old(self).values().len() as int));
        }
        Some(removed)
    }



    /// After an extraction with its walk done, the shapes are the promoted
    /// model and the values lose exactly the extracted one.
    #[verifier::rlimit(100)]
    #[verifier::spinoff_prover]
    proof fn lemma_extract_views(pre: Self, mid: Self, post: Self, i: int)
        requires
            pre.wf(),
            pre.items@.len() <= usize::MAX,
            0 <= i < pre.items@.len(),
            !pre.shapes()[i].collapsed,
            mid.items@.len() == pre.items@.len(),
            mid.shapes() == pre.shapes(),
            forall|m2: int|
                0 <= m2 < pre.items@.len() ==> #[trigger] prop_slot(
                    pre.items@,
                    mid.items@,
                    pre.shapes(),
                    i,
                    -1,
                    -1,
                    0,
                    m2,
                ),
            post.items@.len() == pre.items@.len() - 1,
            forall|m2: int| 0 <= m2 < i ==> #[trigger] post.items@[m2] == mid.items@[m2],
            forall|m2: int|
                i <= m2 < subtree_end(pre.shapes(), i) - 1 ==> (#[trigger] post.items@[m2].value)
                    == mid.items@[m2 + 1].value && post.items@[m2].level as int == mid.items@[m2
                    + 1].level - 1 && post.items@[m2].is_collapsed == mid.items@[m2
                    + 1].is_collapsed && post.items@[m2].is_container == mid.items@[m2
                    + 1].is_container && post.items@[m2].children == mid.items@[m2 + 1].children
                    && post.items@[m2].height == mid.items@[m2 + 1].height
                    && post.items@[m2].collapsed_height == mid.items@[m2 + 1].collapsed_height,
            forall|m2: int|
                subtree_end(pre.shapes(), i) - 1 <= m2 < post.items@.len()
                    ==> #[trigger] post.items@[m2] == mid.items@[m2 + 1],
        ensures
            post.shapes() == promote_seq(pre.shapes(), i),
            post.values() == pre.values().remove(i),
    {
        let s1 = pre.shapes();
        let e = subtree_end(s1, i);
        let t = promote_seq(s1, i);
        lemma_run_end(s1, s1[i].level, i + 1);
        lemma_height_bounds(s1, i);
        lemma_promote_index(s1, i);
        pre.lemma_views();
        mid.lemma_views();
        post.lemma_views();
        assert forall|m: int| 0 <= m < post.items@.len() implies (#[trigger] post.items@[m].shape())
            == t[m] by {
            if m < i {
                assert(prop_slot(pre.items@, mid.items@, s1, i, -1, -1, 0, m));
                assert(pre.items@[m].shape() == s1[m]);
            } else if m < e - 1 {
                assert(post.items@[m].value == mid.items@[m + 1].value);
                assert(prop_slot(pre.items@, mid.items@, s1, i, -1, -1, 0, m + 1));
                assert(mid.items@[m + 1] == pre.items@[m + 1]);
                assert(pre.items@[m + 1].shape() == s1[m + 1]);
                assert(t[m] == drop_level(s1[m + 1]));
            } else {
                assert(prop_slot(pre.items@, mid.items@, s1, i, -1, -1, 0, m + 1));
                assert(mid.items@[m + 1] == pre.items@[m + 1]);
                assert(pre.items@[m + 1].shape() == s1[m + 1]);
                assert(t[m] == s1[m + 1]);
            }
        }
        assert(post.shapes() =~= t);
        assert forall|m: int| 0 <= m < post.items@.len() implies (
        #[trigger] post.items@[m].spec_value()) == (if m < i {
            pre.items@[m].spec_value()
        } else {
            pre.items@[m + 1].spec_value()
        }) by {
            if m < i {
                assert(prop_slot(pre.items@, mid.items@, s1, i, -1, -1, 0, m));
            } else if m < e - 1 {
                assert(post.items@[m].value == mid.items@[m + 1].value);
                assert(prop_slot(pre.items@, mid.items@, s1, i, -1, -1, 0, m + 1));
            } else {
                assert(prop_slot(pre.items@, mid.items@, s1, i, -1, -1, 0, m + 1));
            }
        }
        pre.values().remove_ensures(i);
        assert(post.values() =~= pre.values().remove(i));
    }

    /// One slot's cached counters agree with the model after an extraction
    /// with its walk done.
    #[verifier::rlimit(100)]
    #[verifier::spinoff_prover]
    proof fn lemma_extract_slot(pre: Self, mid: Self, post: Self, i: int, m: int)
        requires
            pre.wf(),
            pre.items@.len() <= usize::MAX,
            0 <= i < pre.items@.len(),
            !pre.shapes()[i].collapsed,
            mid.items@.len() == pre.items@.len(),
            mid.shapes() == pre.shapes(),
            forall|m2: int|
                0 <= m2 < pre.items@.len() ==> #[trigger] prop_slot(
                    pre.items@,
                    mid.items@,
                    pre.shapes(),
                    i,
                    -1,
                    -1,
                    0,
                    m2,
                ),
            post.items@.len() == pre.items@.len() - 1,
            forall|m2: int| 0 <= m2 < i ==> #[trigger] post.items@[m2] == mid.items@[m2],
            forall|m2: int|
                i <= m2 < subtree_end(pre.shapes(), i) - 1 ==> (#[trigger] post.items@[m2].value)
                    == mid.items@[m2 + 1].value && post.items@[m2].level as int == mid.items@[m2
                    + 1].level - 1 && post.items@[m2].is_collapsed == mid.items@[m2
                    + 1].is_collapsed && post.items@[m2].is_container == mid.items@[m2
                    + 1].is_container && post.items@[m2].children == mid.items@[m2 + 1].children
                    && post.items@[m2].height == mid.items@[m2 + 1].height
                    && post.items@[m2].collapsed_height == mid.items@[m2 + 1].collapsed_height,
            forall|m2: int|
                subtree_end(pre.shapes(), i) - 1 <= m2 < post.items@.len()
                    ==> #[trigger] post.items@[m2] == mid.items@[m2 + 1],
            post.shapes() == promote_seq(pre.shapes(), i),
            0 <= m < post.items@.len(),
        ensures
            post.node_ok(m),
    {
        let s1 = pre.shapes();
        let e = subtree_end(s1, i);
        let t = promote_seq(s1, i);
        let n = s1[i];
        let lv = n.level;
        lemma_run_end(s1, lv, i + 1);
        lemma_height_bounds(s1, i);
        lemma_promote_index(s1, i);
        lemma_promote_splice(s1, i);
        lemma_promote_pt(s1, i);
        if m < i {
            assert(prop_slot(pre.items@, mid.items@, s1, i, -1, -1, 0, m));
            assert(pre.node_ok(m));
            lemma_height_bounds(s1, m);
            lemma_height_bounds(t, m);
            if is_ancestor(s1, m, i) {
                assert(pt_anc(t, i, lv, m));
                lemma_splice_pt_measures(t, i, n, e - 1, m);
                assert(pt_vis(t, i, lv, m) == vis_from(s1, m, i));
                assert(pt_vis(t, i, lv, m + 1) == vis_from(s1, m + 1, i));
                lemma_vis_from_step(s1, m, i);
                lemma_height_unfold(s1, m);
                lemma_height_unfold(t, m);
            } else {
                assert(!pt_anc(t, i, lv, m));
                lemma_splice_nonpt_measures(t, i, n, e - 1, m);
            }
        } else if m < e - 1 {
            assert(post.items@[m].value == mid.items@[m + 1].value);
            assert(prop_slot(pre.items@, mid.items@, s1, i, -1, -1, 0, m + 1));
            assert(mid.items@[m + 1] == pre.items@[m + 1]);
            assert(pre.node_ok(m + 1));
            lemma_height_bounds(s1, m + 1);
            lemma_height_bounds(t, m);
            lemma_splice_block_measures(t, i, n, e - 1, m);
        } else {
            assert(prop_slot(pre.items@, mid.items@, s1, i, -1, -1, 0, m + 1));
            assert(mid.items@[m + 1] == pre.items@[m + 1]);
            assert(pre.node_ok(m + 1));
            lemma_height_bounds(s1, m + 1);
            lemma_height_bounds(t, m);
            lemma_splice_suffix_measures(t, i, n, e - 1, m);
        }
    }


    /// Packaging of an extraction's final step: with the walk done, the node
    /// taken out of storage, and its former subtree promoted one level up,
    /// the list is well-formed and equals the promoted model.
    #[verifier::rlimit(100)]
    #[verifier::spinoff_prover]
    proof fn lemma_extract_finish(
        pre: Self,
        mid: Self,
        post: Self,
        shrunk: Seq<TreeNode<T>>,
        i: int,
    )
        requires
            pre.wf(),
            pre.items@.len() <= usize::MAX,
            0 <= i < pre.items@.len(),
            !pre.shapes()[i].collapsed,
            mid.items@.len() == pre.items@.len(),
            mid.shapes() == pre.shapes(),
            forall|m2: int|
                0 <= m2 < pre.items@.len() ==> #[trigger] prop_slot(
                    pre.items@,
                    mid.items@,
                    pre.shapes(),
                    i,
                    -1,
                    -1,
                    0,
                    m2,
                ),
            shrunk.len() == pre.items@.len() - 1,
            forall|x: int| 0 <= x < i ==> #[trigger] shrunk[x] == mid.items@[x],
            forall|x: int|
                i <= x < pre.items@.len() - 1 ==> #[trigger] shrunk[x] == mid.items@[x + 1],
            post.items@.len() == pre.items@.len() - 1,
            forall|x: int| 0 <= x < i ==> #[trigger] post.items@[x] == shrunk[x],
            forall|x: int|
                i <= x < i + desc_count(pre.shapes(), i) ==> (#[trigger] post.items@[x].value)
                    == shrunk[x].value && post.items@[x].level as int == shrunk[x].level - 1
                    && post.items@[x].is_collapsed == shrunk[x].is_collapsed
                    && post.items@[x].is_container == shrunk[x].is_container
                    && post.items@[x].children == shrunk[x].children && post.items@[x].height
                    == shrunk[x].height
                    && post.items@[x].collapsed_height == shrunk[x].collapsed_height,
            forall|x: int|
                i + desc_count(pre.shapes(), i) <= x < post.items@.len()
                    ==> #[trigger] post.items@[x] == shrunk[x],
            post.height as int == pre.height - (if vis_from(pre.shapes(), 0, i) {
                1int
            } else {
                0int
            }),
        ensures
            post.wf(),
            post.shapes() == promote_seq(pre.shapes(), i),
            post.values() == pre.values().remove(i),
    {
        let s1 = pre.shapes();
        let e = subtree_end(s1, i);
        lemma_run_end(s1, s1[i].level, i + 1);
        assert forall|m2: int| 0 <= m2 < i implies #[trigger] post.items@[m2]
            == mid.items@[m2] by {
            assert(post.items@[m2] == shrunk[m2]);
        }
        assert forall|m2: int| i <= m2 < e - 1 implies (#[trigger] post.items@[m2].value)
            == mid.items@[m2 + 1].value && post.items@[m2].level as int == mid.items@[m2 + 1].level
            - 1 && post.items@[m2].is_collapsed == mid.items@[m2 + 1].is_collapsed
            && post.items@[m2].is_container == mid.items@[m2 + 1].is_container
            && post.items@[m2].children == mid.items@[m2 + 1].children && post.items@[m2].height
            == mid.items@[m2 + 1].height && post.items@[m2].collapsed_height == mid.items@[m2
            + 1].collapsed_height by {
            assert(post.items@[m2].value == shrunk[m2].value);
            assert(shrunk[m2] == mid.items@[m2 + 1]);
        }
        assert forall|m2: int| e - 1 <= m2 < post.items@.len() implies (#[trigger] post.items@[m2])
            == mid.items@[m2 + 1] by {
            assert(post.items@[m2] == shrunk[m2]);
        }
        Self::lemma_extract_restores_wf(pre, mid, post, i);
    }

    /// An extraction with its walk done restores well-formedness: the result
    /// is the promoted model.
    #[verifier::rlimit(100)]
    #[verifier::spinoff_prover]
    proof fn lemma_extract_restores_wf(pre: Self, mid: Self, post: Self, i: int)
        requires
            pre.wf(),
            pre.items@.len() <= usize::MAX,
            0 <= i < pre.items@.len(),
            !pre.shapes()[i].collapsed,
            mid.items@.len() == pre.items@.len(),
            mid.shapes() == pre.shapes(),
            forall|m2: int|
                0 <= m2 < pre.items@.len() ==> #[trigger] prop_slot(
                    pre.items@,
                    mid.items@,
                    pre.shapes(),
                    i,
                    -1,
                    -1,
                    0,
                    m2,
                ),
            post.items@.len() == pre.items@.len() - 1,
            forall|m2: int| 0 <= m2 < i ==> #[trigger] post.items@[m2] == mid.items@[m2],
            forall|m2: int|
                i <= m2 < subtree_end(pre.shapes(), i) - 1 ==> (#[trigger] post.items@[m2].value)
                    == mid.items@[m2 + 1].value && post.items@[m2].level as int == mid.items@[m2
                    + 1].level - 1 && post.items@[m2].is_collapsed == mid.items@[m2
                    + 1].is_collapsed && post.items@[m2].is_container == mid.items@[m2
                    + 1].is_container && post.items@[m2].children == mid.items@[m2 + 1].children
                    && post.items@[m2].height == mid.items@[m2 + 1].height
                    && post.items@[m2].collapsed_height == mid.items@[m2 + 1].collapsed_height,
            forall|m2: int|
                subtree_end(pre.shapes(), i) - 1 <= m2 < post.items@.len()
                    ==> #[trigger] post.items@[m2] == mid.items@[m2 + 1],
            post.height as int == pre.height - (if vis_from(pre.shapes(), 0, i) {
                1int
            } else {
                0int
            }),
        ensures
            post.wf(),
            post.shapes() == promote_seq(pre.shapes(), i),
            post.values() == pre.values().remove(i),
    {
        let s1 = pre.shapes();
        let e = subtree_end(s1, i);
        let t = promote_seq(s1, i);
        let n = s1[i];
        lemma_run_end(s1, n.level, i + 1);
        lemma_promote_splice(s1, i);
        lemma_promote_valid(s1, i);
        lemma_promote_pt(s1, i);
        Self::lemma_extract_views(pre, mid, post, i);
        assert forall|m: int| 0 <= m < t.len() implies #[trigger] post.node_ok(m) by {
            Self::lemma_extract_slot(pre, mid, post, i, m);
        }
        lemma_splice_total(t, i, n, e - 1);
        assert(pt_vis(t, i, n.level, 0) == vis_from(s1, 0, i));
        assert(post.wf());
    }

    /// Removes only the node at `index`, keeping its descendants: they are
    /// promoted one level up, becoming children of the removed node's former
    /// parent.  Returns the removed value, or `None` when the index is out
    /// of range.
    ///
    /// The node is expanded first, so any descendants it was hiding become
    /// visible in its place; every ancestor loses one descendant, and the
    /// ancestors that showed the node (and the list height, when the node
    /// occupied a visible row) lose exactly its one row.
    #[verifier::rlimit(100)]
    #[verifier::spinoff_prover]
    pub fn remove(&mut self, index: usize) -> (r: Option<T>)
        requires
            old(self).wf(),
        ensures
            final(self).wf(),
            index >= old(self).shapes().len() ==> r is None && *final(self) == *old(self),
            index < old(self).shapes().len() ==> ({
                let s0 = old(self).shapes();
                let i = index as int;
                let s1 = s0.update(i, with_collapsed(s0[i], false));
                &&& r == Some(old(self).values()[i])
                &&& final(self).values() == old(self).values().remove(i)
                &&& final(self).shapes() == promote_seq(s1, i)
            }),
    {
        let ln = self.items.len();
        if index >= ln {
            return None;
        }
        proof {
            self.lemma_views();
        }
        let ghost s0 = self.shapes();
        let ghost i = index as int;
        self.set_collapsed(index, false);
        let ghost s1 = self.shapes();
        proof {
            self.lemma_views();
            assert(self.node_ok(i));
            lemma_height_bounds(s1, i);
            lemma_run_end(s1, s1[i].level, i + 1);
        }
        let c = self.items[index].children;
        let ghost pre = *self;
        let hidden = self.propagate(index, 1, false, 1);
        let ghost mid = *self;
        proof {
            assert forall|m2: int| 0 <= m2 < ln implies #[trigger] prop_slot(
                pre.items@,
                mid.items@,
                s1,
                i,
                -1,
                -1,
                0,
                m2,
            ) by {
                assert(prop_slot(pre.items@, mid.items@, s1, i, -(1int), -(1int), 0, m2));
            }
        }
        let node = self.items.remove(index);
        let ghost shrunk = self.items@;
        proof {
            mid.items@.remove_ensures(i);
            assert(prop_slot(pre.items@, mid.items@, s1, i, -1, -1, 0, i));
            assert(mid.items@[i] == pre.items@[i]);
            pre.lemma_views();
            assert(node.spec_value() == pre.values()[i]);
        }
        proof {
            assert(pre.node_ok(i));
            lemma_vis_count_split(s1, 0, 0, i, ln as int);
            lemma_vis_count_split(s1, 0, i, i + 1, ln as int);
        }
        // The list loses the removed row only when it was visible.
        if !hidden {
            self.height = self.height - 1;
        }
        // The extracted node's descendants move one level up, into the slot
        // range it vacated.
        let e1 = index + c;
        let mut m: usize = index;
        while m < e1
            invariant
                pre.wf(),
                s1 == pre.shapes(),
                valid_levels(s1),
                pre.items@.len() == ln,
                mid.items@.len() == ln,
                i == index as int,
                0 <= i < ln,
                c == desc_count(s1, i),
                e1 == index + c,
                subtree_end(s1, i) == i + 1 + c,
                i + 1 + c <= ln,
                index <= m <= e1,
                forall|x: int| i < x < i + 1 + c ==> (#[trigger] s1[x].level) > s1[i].level,
                forall|m2: int|
                    0 <= m2 < ln ==> #[trigger] prop_slot(
                        pre.items@,
                        mid.items@,
                        s1,
                        i,
                        -1,
                        -1,
                        0,
                        m2,
                    ),
                forall|x: int| 0 <= x < i ==> #[trigger] shrunk[x] == mid.items@[x],
                forall|x: int| i <= x < ln - 1 ==> #[trigger] shrunk[x] == mid.items@[x + 1],
                shrunk.len() == ln - 1,
                self.items@.len() == ln - 1,
                self.height as int == pre.height - (if vis_from(s1, 0, i) {
                    1int
                } else {
                    0int
                }),
                forall|x: int| 0 <= x < index ==> #[trigger] self.items@[x] == shrunk[x],
                forall|x: int|
                    index <= x < m ==> (#[trigger] self.items@[x].value) == shrunk[x].value
                        && self.items@[x].level as int == shrunk[x].level - 1
                        && self.items@[x].is_collapsed == shrunk[x].is_collapsed
                        && self.items@[x].is_container == shrunk[x].is_container
                        && self.items@[x].children == shrunk[x].children
                        && self.items@[x].height == shrunk[x].height
                        && self.items@[x].collapsed_height == shrunk[x].collapsed_height,
                forall|x: int| m <= x < ln - 1 ==> #[trigger] self.items@[x] == shrunk[x],
            decreases e1 - m,
        {
            proof {
                assert(shrunk[m as int] == mid.items@[m as int + 1]);
                assert(prop_slot(pre.items@, mid.items@, s1, i, -1, -1, 0, m as int + 1));
                assert(mid.items@[m as int + 1] == pre.items@[m as int + 1]);
                pre.lemma_views();
                assert(pre.items@[m as int + 1].shape() == s1[m as int + 1]);
                assert(s1[m as int + 1].level > s1[i].level);
            }
            let ghost prev = self.items@;
            let cur = self.items[m].level;
            self.items[m].level = cur - 1;
            proof {
                assert forall|x: int| index <= x < m + 1 implies (
                #[trigger] self.items@[x].value) == shrunk[x].value && self.items@[x].level as int
                    == shrunk[x].level - 1 && self.items@[x].is_collapsed == shrunk[x].is_collapsed
                    && self.items@[x].is_container == shrunk[x].is_container
                    && self.items@[x].children == shrunk[x].children && self.items@[x].height
                    == shrunk[x].height
                    && self.items@[x].collapsed_height == shrunk[x].collapsed_height by {
                    if x < m {
                        assert(prev[x].value == shrunk[x].value);
                    } else {
                        assert(prev[x] == shrunk[x]);
                    }
                }
            }
            m = m + 1;
        }
        proof {
            assert(i + desc_count(pre.shapes(), i) == e1);
            assert forall|x: int| i <= x < i + desc_count(pre.shapes(), i) implies (
            #[trigger] self.items@[x].value) == shrunk[x].value && self.items@[x].level as int
                == shrunk[x].level - 1 && self.items@[x].is_collapsed == shrunk[x].is_collapsed
                && self.items@[x].is_container == shrunk[x].is_container
                && self.items@[x].children == shrunk[x].children && self.items@[x].height
                == shrunk[x].height
                && self.items@[x].collapsed_height == shrunk[x].collapsed_height by {}
            Self::lemma_extract_finish(pre, mid, *self, shrunk, i);
        }
        Some(node.value)
    }

    /// Translates a visible row to its storage index: the index of the
    /// `row`-th position reachable by following only expanded nodes.
    /// Returns the storage length when `row` is beyond the visible rows.
    ///
    /// The walk skips the whole hidden subtree of every collapsed node it
    /// passes, so it touches each storage slot at most once.
    pub fn row_to_item_index(&self, row: usize) -> (r: usize)
        requires
            self.wf(),
        ensures
            row < total_height(self.shapes()) ==> r == index_of_row(self.shapes(), row as int),
            row >= total_height(self.shapes()) ==> r == self.shapes().len(),
    {
        let ln = self.items.len();
        let ghost s = self.shapes();
        proof {
            self.lemma_views();
        }
        let mut i: usize = 0;
        let mut rem: usize = row;
        while i < ln
            invariant
                self.wf(),
                s == self.shapes(),
                ln == self.items@.len(),
                i <= ln,
                rem <= row,
                i == ln || vis_from(s, 0, i as int),
                row == rem + vis_count(s, 0, 0, i as int),
            decreases ln - i,
        {
            proof {
                assert(self.node_ok(i as int));
                lemma_vis_step(s, i as int);
                lemma_height_bounds(s, i as int);
            }
            if rem == 0 {
                proof {
                    lemma_vis_count_split(s, 0, i as int + 1, ln as int, ln as int);
                    lemma_vis_count_split(s, 0, 0, i as int + 1, ln as int);
                    lemma_row_index_round_trip(s, row as int);
                }
                return i;
            }
            rem = rem - 1;
            if self.items[i].is_collapsed {
                i = i + self.items[i].children;
            }
            i = i + 1;
        }
        proof {
            lemma_vis_count_le(s, 0, 0, ln as int);
        }
        ln
    }

    /// Translates the storage index of a currently visible node to its
    /// visual row: the number of visible positions before it.
    ///
    /// This is the inverse of [`Self::row_to_item_index`]; callers hold an
    /// index obtained from a row and convert it back after consulting the
    /// storage order.
    pub fn item_index_to_row(&self, index: usize) -> (r: usize)
        requires
            self.wf(),
            index < self.shapes().len(),
            vis_from(self.shapes(), 0, index as int),
        ensures
            r == vis_count(self.shapes(), 0, 0, index as int),
    {
        let ghost s = self.shapes();
        proof {
            self.lemma_views();
        }
        let mut i: usize = 0;
        let mut row: usize = index;
        while i < index
            invariant
                self.wf(),
                s == self.shapes(),
                index < self.items@.len(),
                vis_from(s, 0, index as int),
                i <= index,
                vis_from(s, 0, i as int),
                row + i == index + vis_count(s, 0, 0, i as int),
            decreases index - i,
        {
            proof {
                assert(self.node_ok(i as int));
                lemma_vis_step(s, i as int);
                lemma_height_bounds(s, i as int);
                if self.items@[i as int].is_collapsed {
                    // A collapsed node passed on the way cannot contain the
                    // target index: the target is visible.
                    lemma_ancestor_iff(s, i as int, index as int);
                }
            }
            if self.items[i].is_collapsed {
                let ch = self.items[i].children;
                i = i + ch;
                row = row - ch;
            }
            i = i + 1;
        }
        row
    }


    /// One insertion-walk step that updated exactly slot `j` (an ancestor
    /// of the point) extends the walk description one position down.
    proof fn lemma_ins_advance(
        orig: Seq<TreeNode<T>>,
        before: Seq<TreeNode<T>>,
        now: Seq<TreeNode<T>>,
        s0: Seq<NodeShape>,
        p: int,
        lv: nat,
        j: int,
    )
        requires
            orig.len() == before.len() == now.len(),
            0 <= j < now.len(),
            forall|m: int|
                0 <= m < orig.len() ==> #[trigger] ins_slot(orig, before, s0, p, lv, j + 1, m),
            ins_slot(orig, now, s0, p, lv, j, j),
            forall|m: int| 0 <= m < orig.len() && m != j ==> now[m] == before[m],
        ensures
            forall|m: int| 0 <= m < orig.len() ==> #[trigger] ins_slot(orig, now, s0, p, lv, j, m),
    {
        assert forall|m: int| 0 <= m < orig.len() implies #[trigger] ins_slot(
            orig,
            now,
            s0,
            p,
            lv,
            j,
            m,
        ) by {
            if m != j {
                assert(ins_slot(orig, before, s0, p, lv, j + 1, m));
            }
        }
    }

    /// An insertion-walk step that touched nothing extends the description.
    proof fn lemma_ins_skip(
        orig: Seq<TreeNode<T>>,
        now: Seq<TreeNode<T>>,
        s0: Seq<NodeShape>,
        p: int,
        lv: nat,
        j: int,
    )
        requires
            orig.len() == now.len(),
            0 <= j < now.len(),
            !pt_anc(s0, p, lv, j),
            forall|m: int|
                0 <= m < orig.len() ==> #[trigger] ins_slot(orig, now, s0, p, lv, j + 1, m),
        ensures
            forall|m: int| 0 <= m < orig.len() ==> #[trigger] ins_slot(orig, now, s0, p, lv, j, m),
    {
        assert forall|m: int| 0 <= m < orig.len() implies #[trigger] ins_slot(
            orig,
            now,
            s0,
            p,
            lv,
            j,
            m,
        ) by {
            assert(ins_slot(orig, now, s0, p, lv, j + 1, m));
        }
    }

    /// Walks from the insertion point `p` towards the root, applying the
    /// insertion's bookkeeping to every ancestor of the point: each becomes
    /// a container and gains one descendant; heights grow by one on
    /// ancestors that show the point, the nearest collapsed ancestor grows
    /// its cached expansion height instead, and ancestors above it see no
    /// height change.  Returns whether the point is hidden behind some
    /// collapsed ancestor.
    ///
    /// The list is left momentarily inconsistent — the caller inserts the
    /// new node to complete the change.
    #[verifier::rlimit(100)]
    fn propagate_insert(&mut self, p: usize, lv: usize) -> (hidden: bool)
        requires
            old(self).wf(),
            p <= old(self).items@.len(),
            old(self).items@.len() < usize::MAX,
        ensures
            final(self).items@.len() == old(self).items@.len(),
            final(self).shapes() == set_containers(old(self).shapes(), p as int, lv as nat),
            final(self).values() == old(self).values(),
            final(self).height == old(self).height,
            hidden == !pt_vis(old(self).shapes(), p as int, lv as nat, 0),
            forall|m: int|
                0 <= m < old(self).items@.len() ==> #[trigger] ins_slot(
                    old(self).items@,
                    final(self).items@,
                    old(self).shapes(),
                    p as int,
                    lv as nat,
                    0,
                    m,
                ),
    {
        let ghost s0 = old(self).shapes();
        let ghost v0 = old(self).values();
        let ghost i = p as int;
        let ghost orig = old(self).items@;
        let ln = self.items.len();
        proof {
            self.lemma_views();
        }
        let mut j: usize = p;
        let mut lvl: usize = lv;
        let mut hidden: bool = false;
        while j > 0
            invariant
                old(self).wf(),
                s0 == old(self).shapes(),
                orig == old(self).items@,
                v0 == old(self).values(),
                i == p as int,
                0 <= i <= ln,
                ln == orig.len(),
                ln < usize::MAX,
                j <= p,
                lvl <= lv,
                self.items@.len() == ln,
                self.height == old(self).height,
                hidden == !pt_vis(s0, i, lv as nat, j as int),
                forall|m: int| j <= m < i ==> (#[trigger] s0[m].level) >= lvl,
                lvl == lv || exists|m: int| j <= m < i && (#[trigger] s0[m].level) == lvl,
                forall|m: int|
                    0 <= m < ln ==> #[trigger] ins_slot(
                        orig,
                        self.items@,
                        s0,
                        i,
                        lv as nat,
                        j as int,
                        m,
                    ),
            decreases j,
        {
            j = j - 1;
            let node_level = self.items[j].level;
            proof {
                self.lemma_views();
                assert(ins_slot(orig, self.items@, s0, i, lv as nat, j as int + 1, j as int));
                assert(self.items@[j as int] == orig[j as int]);
                old(self).lemma_views();
                assert(orig[j as int].shape() == s0[j as int]);
                assert(node_level == s0[j as int].level);
            }
            if node_level < lvl {
                proof {
                    assert forall|m: int| j < m < i implies #[trigger] s0[m].level > s0[j as int].level by {
                        assert(s0[m].level >= lvl);
                    }
                    assert(pt_anc(s0, i, lv as nat, j as int));
                    assert(old(self).node_ok(j as int));
                    lemma_height_bounds(s0, j as int);
                    lemma_pt_vis_step(s0, i, lv as nat, j as int);
                }
                let ghost before = self.items@;
                let visible_path = !hidden;
                if self.items[j].is_collapsed {
                    if visible_path {
                        let ch = self.items[j].collapsed_height.unwrap();
                        self.items[j].collapsed_height = Some(ch + 1);
                    }
                    hidden = true;
                } else {
                    if visible_path {
                        let h = self.items[j].height;
                        self.items[j].height = h + 1;
                    }
                }
                let old_children = self.items[j].children;
                self.items[j].children = old_children + 1;
                self.items[j].is_container = true;
                lvl = node_level;
                proof {
                    self.lemma_views();
                    assert(ins_slot(orig, self.items@, s0, i, lv as nat, j as int, j as int));
                    Self::lemma_ins_advance(
                        orig,
                        before,
                        self.items@,
                        s0,
                        i,
                        lv as nat,
                        j as int,
                    );
                }
            } else {
                proof {
                    assert(!pt_anc(s0, i, lv as nat, j as int)) by {
                        if lvl == lv {
                            assert(lv <= s0[j as int].level);
                        } else {
                            let w = choose|m: int|
                                j as int + 1 <= m < i && (#[trigger] s0[m].level) == lvl;
                            assert(s0[w].level <= s0[j as int].level);
                        }
                    }
                    lemma_pt_vis_skip(s0, i, lv as nat, j as int, j as int + 1);
                    Self::lemma_ins_skip(orig, self.items@, s0, i, lv as nat, j as int);
                }
            }
        }
        proof {
            self.lemma_views();
            old(self).lemma_views();
            assert forall|m: int| 0 <= m < ln implies (#[trigger] self.items@[m].shape())
                == set_containers(s0, i, lv as nat)[m] by {
                assert(ins_slot(orig, self.items@, s0, i, lv as nat, 0, m));
                assert(orig[m].shape() == s0[m]);
            }
            assert forall|m: int| 0 <= m < ln implies (#[trigger] self.items@[m].spec_value())
                == v0[m] by {
                assert(ins_slot(orig, self.items@, s0, i, lv as nat, 0, m));
                assert(v0[m] == orig[m].spec_value());
            }
            assert(self.shapes() =~= set_containers(s0, i, lv as nat));
            assert(self.values() =~= v0);
        }
        hidden
    }



    /// Container flags do not affect visibility counts.
    proof fn lemma_containers_count(
        s0: Seq<NodeShape>,
        p: int,
        lv: nat,
        sc: int,
        lo: int,
        hi: int,
    )
        requires
            0 <= sc <= lo <= hi <= s0.len(),
        ensures
            vis_count(set_containers(s0, p, lv), sc, lo, hi) == vis_count(s0, sc, lo, hi),
        decreases hi - lo,
    {
        let sc0 = set_containers(s0, p, lv);
        if lo < hi {
            assert forall|m: int| 0 <= m < s0.len() implies #[trigger] level_shift_at(
                s0,
                sc0,
                0,
                0,
                m,
            ) && flag_shift_at(s0, sc0, 0, m) by {}
            lemma_vis_from_shift(s0, sc0, 0, 0, sc, lo);
            Self::lemma_containers_count(s0, p, lv, sc, lo + 1, hi);
        }
    }

    /// The frame between the shapes before an insertion walk and after it:
    /// only container flags move, so every structural measure agrees.
    proof fn lemma_containers_frame(s0: Seq<NodeShape>, p: int, lv: nat, x: int)
        requires
            0 <= x < s0.len(),
        ensures
            set_containers(s0, p, lv).len() == s0.len(),
            set_containers(s0, p, lv)[x].level == s0[x].level,
            set_containers(s0, p, lv)[x].collapsed == s0[x].collapsed,
            subtree_end(set_containers(s0, p, lv), x) == subtree_end(s0, x),
            desc_count(set_containers(s0, p, lv), x) == desc_count(s0, x),
            node_height(set_containers(s0, p, lv), x) == node_height(s0, x),
            exp_height(set_containers(s0, p, lv), x) == exp_height(s0, x),
            forall|j: int| #[trigger] pt_anc(set_containers(s0, p, lv), p, lv, j) == pt_anc(
                s0,
                p,
                lv,
                j,
            ),
            forall|sc: int| #[trigger] pt_vis(set_containers(s0, p, lv), p, lv, sc) == pt_vis(
                s0,
                p,
                lv,
                sc,
            ),
            forall|sc: int, k: int|
                0 <= sc && 0 <= k <= s0.len() ==> #[trigger] vis_from(
                    set_containers(s0, p, lv),
                    sc,
                    k,
                ) == vis_from(s0, sc, k),
    {
        let sc0 = set_containers(s0, p, lv);
        lemma_run_end(s0, s0[x].level, x + 1);
        assert forall|m: int| 0 <= m < s0.len() implies #[trigger] level_shift_at(s0, sc0, 0, 0, m)
            && flag_shift_at(s0, sc0, 0, m) by {}
        lemma_measures_shift(s0, sc0, 0, 0, 0, s0.len() as int, x);
        assert forall|j: int| #[trigger] pt_anc(sc0, p, lv, j) == pt_anc(s0, p, lv, j) by {
            if pt_anc(sc0, p, lv, j) {
                assert forall|m: int| j < m < p implies #[trigger] s0[m].level > s0[j].level by {
                    assert(sc0[m].level > sc0[j].level);
                }
            }
            if pt_anc(s0, p, lv, j) {
                assert forall|m: int| j < m < p implies #[trigger] sc0[m].level > sc0[j].level by {
                    assert(s0[m].level > s0[j].level);
                }
            }
        }
        assert forall|sc: int| #[trigger] pt_vis(sc0, p, lv, sc) == pt_vis(s0, p, lv, sc) by {
            if pt_vis(sc0, p, lv, sc) {
                assert forall|j: int| sc <= j < p && #[trigger] pt_anc(s0, p, lv, j) implies !s0[j].collapsed by {
                    assert(pt_anc(sc0, p, lv, j));
                    assert(!sc0[j].collapsed);
                }
            }
            if pt_vis(s0, p, lv, sc) {
                assert forall|j: int| sc <= j < p && #[trigger] pt_anc(sc0, p, lv, j) implies !sc0[j].collapsed by {
                    assert(pt_anc(s0, p, lv, j));
                }
            }
        }
        assert forall|sc: int, k: int| 0 <= sc && 0 <= k <= s0.len() implies #[trigger] vis_from(
            sc0,
            sc,
            k,
        ) == vis_from(s0, sc, k) by {
            if sc <= k && k < s0.len() {
                lemma_vis_from_shift(s0, sc0, 0, 0, sc, k);
            } else {
            }
        }
    }

    /// After an insertion with its walk done, the shapes are the spliced
    /// model over the container-updated shapes, the values gain the new one
    /// in place, and the levels still encode a forest.
    #[verifier::rlimit(100)]
    #[verifier::spinoff_prover]
    proof fn lemma_splice_views(
        pre: Self,
        mid: Self,
        post: Self,
        p: int,
        lv: usize,
        e0: int,
        cont: bool,
        coll0: bool,
    )
        requires
            pre.wf(),
            pre.items@.len() < usize::MAX,
            0 <= p <= e0 <= pre.items@.len(),
            lv >= 0,
            coll0 == (cont && p == e0),
            splice_ok(
                pre.shapes(),
                p,
                (NodeShape { level: lv as nat, collapsed: coll0, container: cont }),
                e0,
            ),
            p < e0 ==> subtree_end(pre.shapes(), p) == e0 && (forall|m: int|
                p < m < e0 ==> (#[trigger] pre.shapes()[m].level) > lv as nat),
            p > 0 ==> lv as nat <= pre.shapes()[p - 1].level + 1,
            p == 0 ==> lv == 0,
            mid.items@.len() == pre.items@.len(),
            forall|m: int|
                0 <= m < pre.items@.len() ==> #[trigger] ins_slot(
                    pre.items@,
                    mid.items@,
                    pre.shapes(),
                    p,
                    lv as nat,
                    0,
                    m,
                ),
            post.items@.len() == pre.items@.len() + 1,
            forall|m: int| 0 <= m < p ==> #[trigger] post.items@[m] == mid.items@[m],
            post.items@[p].level == lv,
            post.items@[p].is_collapsed == coll0,
            post.items@[p].is_container == cont,
            post.items@[p].children == e0 - p,
            post.items@[p].height as int == (if p < e0 {
                1 + pre.items@[p].height
            } else {
                1int
            }),
            post.items@[p].collapsed_height == (if coll0 {
                Some(1usize)
            } else {
                None::<usize>
            }),
            forall|m: int|
                p < m <= e0 ==> (#[trigger] post.items@[m].value) == mid.items@[m - 1].value
                    && post.items@[m].level as int == mid.items@[m - 1].level + 1
                    && post.items@[m].is_collapsed == mid.items@[m - 1].is_collapsed
                    && post.items@[m].is_container == mid.items@[m - 1].is_container
                    && post.items@[m].children == mid.items@[m - 1].children
                    && post.items@[m].height == mid.items@[m - 1].height
                    && post.items@[m].collapsed_height == mid.items@[m - 1].collapsed_height,
            forall|m: int|
                e0 < m <= pre.items@.len() ==> #[trigger] post.items@[m] == mid.items@[m - 1],
        ensures
            post.shapes() == splice_one(
                set_containers(pre.shapes(), p, lv as nat),
                p,
                (NodeShape { level: lv as nat, collapsed: coll0, container: cont }),
                e0,
            ),
            post.values() == pre.values().insert(p, post.items@[p].spec_value()),
            valid_levels(
                splice_one(
                    set_containers(pre.shapes(), p, lv as nat),
                    p,
                    (NodeShape { level: lv as nat, collapsed: coll0, container: cont }),
                    e0,
                ),
            ),
    {
        let s0 = pre.shapes();
        let sc0 = set_containers(s0, p, lv as nat);
        let n0 = NodeShape { level: lv as nat, collapsed: coll0, container: cont };
        let t = splice_one(sc0, p, n0, e0);
        lemma_splice_index(sc0, p, n0, e0);
        pre.lemma_views();
        mid.lemma_views();
        post.lemma_views();
        assert forall|m: int| 0 <= m < post.items@.len() implies (#[trigger] post.items@[m].shape())
            == t[m] by {
            if m < p {
                assert(ins_slot(pre.items@, mid.items@, s0, p, lv as nat, 0, m));
                assert(pre.items@[m].shape() == s0[m]);
                assert(post.items@[m] == mid.items@[m]);
                if pt_anc(s0, p, lv as nat, m) {
                    assert(sc0[m] == (NodeShape { container: true, ..s0[m] }));
                    assert(t[m] == sc0[m]);
                    assert(post.items@[m].shape() == t[m]);
                } else {
                    assert(sc0[m] == s0[m]);
                    assert(t[m] == sc0[m]);
                    assert(post.items@[m].shape() == t[m]);
                }
            } else if m == p {
                assert(t[p] == n0);
                assert(post.items@[p].shape() == t[m]);
            } else if m <= e0 {
                assert(ins_slot(pre.items@, mid.items@, s0, p, lv as nat, 0, m - 1));
                assert(!pt_anc(s0, p, lv as nat, m - 1));
                assert(pre.items@[m - 1].shape() == s0[m - 1]);
                assert(sc0[m - 1] == s0[m - 1]);
                assert(t[m] == (NodeShape { level: (sc0[m - 1].level + 1) as nat, ..sc0[m - 1] }));
                assert(mid.items@[m - 1] == pre.items@[m - 1]);
                assert(post.items@[m].value == mid.items@[m - 1].value);
                assert(post.items@[m].shape() == t[m]);
            } else {
                assert(ins_slot(pre.items@, mid.items@, s0, p, lv as nat, 0, m - 1));
                assert(!pt_anc(s0, p, lv as nat, m - 1));
                assert(pre.items@[m - 1].shape() == s0[m - 1]);
                assert(sc0[m - 1] == s0[m - 1]);
                assert(t[m] == sc0[m - 1]);
                assert(post.items@[m].shape() == t[m]);
            }
        }
        assert(post.shapes() =~= t);
        assert forall|m: int| 0 <= m < post.items@.len() implies (
        #[trigger] post.items@[m].spec_value()) == pre.values().insert(
            p,
            post.items@[p].spec_value(),
        )[m] by {
            pre.values().insert_ensures(p, post.items@[p].spec_value());
            if m < p {
                assert(ins_slot(pre.items@, mid.items@, s0, p, lv as nat, 0, m));
            } else if m > p {
                assert(ins_slot(pre.items@, mid.items@, s0, p, lv as nat, 0, m - 1));
                assert(!pt_anc(s0, p, lv as nat, m - 1));
                if m <= e0 {
                    assert(post.items@[m].value == mid.items@[m - 1].value);
                }
            }
        }
        assert(post.values() =~= pre.values().insert(p, post.items@[p].spec_value()));
        assert(valid_levels(t)) by {
            assert forall|m: int| 1 <= m < t.len() implies (#[trigger] t[m].level) <= t[m
                - 1].level + 1 by {
                if m < p {
                } else if m == p {
                } else if m == p + 1 && p < e0 {
                    assert(s0[p].level == lv as nat);
                } else if m <= e0 {
                    assert(s0[m - 1].level <= s0[m - 2].level + 1);
                } else if m == e0 + 1 {
                    assert(s0[e0].level <= lv as nat);
                    if p < e0 {
                        assert(s0[e0 - 1].level >= lv as nat);
                    }
                } else {
                    assert(s0[m - 1].level <= s0[m - 2].level + 1);
                }
            }
            if t.len() > 0 && p == 0 {
            }
        }
    }

    /// One slot's cached counters agree with the model after an insertion
    /// with its walk done.
    #[verifier::rlimit(100)]
    #[verifier::spinoff_prover]
    proof fn lemma_splice_slot(
        pre: Self,
        mid: Self,
        post: Self,
        p: int,
        lv: usize,
        e0: int,
        cont: bool,
        coll0: bool,
        m: int,
    )
        requires
            pre.wf(),
            pre.items@.len() < usize::MAX,
            0 <= p <= e0 <= pre.items@.len(),
            lv >= 0,
            coll0 == (cont && p == e0),
            splice_ok(
                pre.shapes(),
                p,
                (NodeShape { level: lv as nat, collapsed: coll0, container: cont }),
                e0,
            ),
            p < e0 ==> subtree_end(pre.shapes(), p) == e0 && (forall|m: int|
                p < m < e0 ==> (#[trigger] pre.shapes()[m].level) > lv as nat),
            p > 0 ==> lv as nat <= pre.shapes()[p - 1].level + 1,
            p == 0 ==> lv == 0,
            mid.items@.len() == pre.items@.len(),
            forall|m: int|
                0 <= m < pre.items@.len() ==> #[trigger] ins_slot(
                    pre.items@,
                    mid.items@,
                    pre.shapes(),
                    p,
                    lv as nat,
                    0,
                    m,
                ),
            post.items@.len() == pre.items@.len() + 1,
            forall|m: int| 0 <= m < p ==> #[trigger] post.items@[m] == mid.items@[m],
            post.items@[p].level == lv,
            post.items@[p].is_collapsed == coll0,
            post.items@[p].is_container == cont,
            post.items@[p].children == e0 - p,
            post.items@[p].height as int == (if p < e0 {
                1 + pre.items@[p].height
            } else {
                1int
            }),
            post.items@[p].collapsed_height == (if coll0 {
                Some(1usize)
            } else {
                None::<usize>
            }),
            forall|m: int|
                p < m <= e0 ==> (#[trigger] post.items@[m].value) == mid.items@[m - 1].value
                    && post.items@[m].level as int == mid.items@[m - 1].level + 1
                    && post.items@[m].is_collapsed == mid.items@[m - 1].is_collapsed
                    && post.items@[m].is_container == mid.items@[m - 1].is_container
                    && post.items@[m].children == mid.items@[m - 1].children
                    && post.items@[m].height == mid.items@[m - 1].height
                    && post.items@[m].collapsed_height == mid.items@[m - 1].collapsed_height,
            forall|m: int|
                e0 < m <= pre.items@.len() ==> #[trigger] post.items@[m] == mid.items@[m - 1],
            post.shapes() == splice_one(
                set_containers(pre.shapes(), p, lv as nat),
                p,
                (NodeShape { level: lv as nat, collapsed: coll0, container: cont }),
                e0,
            ),
            0 <= m < post.items@.len(),
        ensures
            post.node_ok(m),
    {
        let s0 = pre.shapes();
        let sc0 = set_containers(s0, p, lv as nat);
        let n0 = NodeShape { level: lv as nat, collapsed: coll0, container: cont };
        let t = splice_one(sc0, p, n0, e0);
        lemma_splice_index(sc0, p, n0, e0);
        assert(splice_ok(sc0, p, n0, e0)) by {
            Self::lemma_splice_premises(pre, p, lv as nat, e0, cont, coll0);
        }
        if m < p {
            assert(ins_slot(pre.items@, mid.items@, s0, p, lv as nat, 0, m));
            assert(pre.node_ok(m));
            Self::lemma_containers_frame(s0, p, lv as nat, m);
            lemma_height_bounds(s0, m);
            lemma_height_bounds(t, m);
            if pt_anc(s0, p, lv as nat, m) {
                lemma_splice_pt_measures(sc0, p, n0, e0, m);
                lemma_pt_vis_step(s0, p, lv as nat, m);
                lemma_height_unfold(s0, m);
                lemma_height_unfold(t, m);
            } else {
                lemma_splice_nonpt_measures(sc0, p, n0, e0, m);
            }
        } else if m == p {
            assert(post.items@[p].shape() == t[p]);
            if p < e0 {
                assert(pre.node_ok(p));
                Self::lemma_containers_frame(s0, p, lv as nat, p);
                assert forall|m2: int| p < m2 < e0 implies (#[trigger] sc0[m2].level) > n0.level by {
                    assert(s0[m2].level > lv as nat);
                }
            }
            lemma_splice_new_measures(sc0, p, n0, e0);
            if p < e0 {
                lemma_height_unfold(t, p);
            }
        } else if m <= e0 {
            assert(ins_slot(pre.items@, mid.items@, s0, p, lv as nat, 0, m - 1));
            assert(!pt_anc(s0, p, lv as nat, m - 1));
            assert(pre.node_ok(m - 1));
            assert(post.items@[m].value == mid.items@[m - 1].value);
            Self::lemma_containers_frame(s0, p, lv as nat, m - 1);
            lemma_splice_block_measures(sc0, p, n0, e0, m - 1);
        } else {
            assert(ins_slot(pre.items@, mid.items@, s0, p, lv as nat, 0, m - 1));
            assert(!pt_anc(s0, p, lv as nat, m - 1));
            assert(pre.node_ok(m - 1));
            Self::lemma_containers_frame(s0, p, lv as nat, m - 1);
            lemma_splice_suffix_measures(sc0, p, n0, e0, m - 1);
        }
    }

    /// The splice premises carry over from the original shapes to the
    /// container-updated ones: only container flags differ.
    proof fn lemma_splice_premises(pre: Self, p: int, lv: nat, e0: int, cont: bool, coll0: bool)
        requires
            0 <= p <= e0 <= pre.shapes().len(),
            splice_ok(
                pre.shapes(),
                p,
                (NodeShape { level: lv, collapsed: coll0, container: cont }),
                e0,
            ),
        ensures
            splice_ok(
                set_containers(pre.shapes(), p, lv),
                p,
                (NodeShape { level: lv, collapsed: coll0, container: cont }),
                e0,
            ),
            p < e0 && subtree_end(pre.shapes(), p) == e0 ==> subtree_end(
                set_containers(pre.shapes(), p, lv),
                p,
            ) == e0,
    {
        let s0 = pre.shapes();
        let sc0 = set_containers(s0, p, lv);
        assert forall|j: int|
            0 <= j < p && p < #[trigger] subtree_end(sc0, j) implies lv > sc0[j].level by {
            Self::lemma_containers_frame(s0, p, lv, j);
        }
        if p < e0 {
            Self::lemma_containers_frame(s0, p, lv, p);
        }
    }


    /// Packaging of an insertion's final step: with the walk done, the
    /// block bumped one level down, and the new node in place, the list is
    /// well-formed and equals the spliced model.
    #[verifier::rlimit(100)]
    #[verifier::spinoff_prover]
    proof fn lemma_splice_finish(
        pre: Self,
        mid: Self,
        post: Self,
        bumped: Seq<TreeNode<T>>,
        p: int,
        lv: usize,
        e0: int,
        cont: bool,
        coll0: bool,
    )
        requires
            pre.wf(),
            pre.items@.len() < usize::MAX,
            0 <= p <= e0 <= pre.items@.len(),
            coll0 == (cont && p == e0),
            splice_ok(
                pre.shapes(),
                p,
                (NodeShape { level: lv as nat, collapsed: coll0, container: cont }),
                e0,
            ),
            p < e0 ==> subtree_end(pre.shapes(), p) == e0 && (forall|m: int|
                p < m < e0 ==> (#[trigger] pre.shapes()[m].level) > lv as nat),
            p > 0 ==> lv as nat <= pre.shapes()[p - 1].level + 1,
            p == 0 ==> lv == 0,
            mid.items@.len() == pre.items@.len(),
            forall|m: int|
                0 <= m < pre.items@.len() ==> #[trigger] ins_slot(
                    pre.items@,
                    mid.items@,
                    pre.shapes(),
                    p,
                    lv as nat,
                    0,
                    m,
                ),
            bumped.len() == pre.items@.len(),
            forall|m: int| 0 <= m < p ==> #[trigger] bumped[m] == mid.items@[m],
            forall|m: int|
                p <= m < e0 ==> (#[trigger] bumped[m].value) == mid.items@[m].value
                    && bumped[m].level as int == mid.items@[m].level + 1
                    && bumped[m].is_collapsed == mid.items@[m].is_collapsed
                    && bumped[m].is_container == mid.items@[m].is_container
                    && bumped[m].children == mid.items@[m].children
                    && bumped[m].height == mid.items@[m].height
                    && bumped[m].collapsed_height == mid.items@[m].collapsed_height,
            forall|m: int|
                e0 <= m < pre.items@.len() ==> #[trigger] bumped[m] == mid.items@[m],
            post.items@.len() == pre.items@.len() + 1,
            forall|m: int| 0 <= m < p ==> #[trigger] post.items@[m] == bumped[m],
            forall|m: int|
                p < m <= pre.items@.len() ==> #[trigger] post.items@[m] == bumped[m - 1],
            post.items@[p].level == lv,
            post.items@[p].is_collapsed == coll0,
            post.items@[p].is_container == cont,
            post.items@[p].children == e0 - p,
            post.items@[p].height as int == (if p < e0 {
                1 + pre.items@[p].height
            } else {
                1int
            }),
            post.items@[p].collapsed_height == (if coll0 {
                Some(1usize)
            } else {
                None::<usize>
            }),
            post.height as int == pre.height + (if pt_vis(pre.shapes(), p, lv as nat, 0) {
                1int
            } else {
                0int
            }),
        ensures
            post.wf(),
            post.shapes() == splice_one(
                set_containers(pre.shapes(), p, lv as nat),
                p,
                (NodeShape { level: lv as nat, collapsed: coll0, container: cont }),
                e0,
            ),
            post.values() == pre.values().insert(p, post.items@[p].spec_value()),
    {
        assert forall|m: int| 0 <= m < p implies (#[trigger] post.items@[m])
            == mid.items@[m] by {
            assert(post.items@[m] == bumped[m]);
        }
        assert forall|m: int| p < m <= e0 implies (#[trigger] post.items@[m].value)
            == mid.items@[m - 1].value && post.items@[m].level as int == mid.items@[m - 1].level
            + 1 && post.items@[m].is_collapsed == mid.items@[m - 1].is_collapsed
            && post.items@[m].is_container == mid.items@[m - 1].is_container
            && post.items@[m].children == mid.items@[m - 1].children && post.items@[m].height
            == mid.items@[m - 1].height && post.items@[m].collapsed_height == mid.items@[m
            - 1].collapsed_height by {
            assert(post.items@[m] == bumped[m - 1]);
            assert(bumped[m - 1].value == mid.items@[m - 1].value);
        }
        assert forall|m: int| e0 < m <= pre.items@.len() implies (#[trigger] post.items@[m])
            == mid.items@[m - 1] by {
            assert(post.items@[m] == bumped[m - 1]);
            assert(bumped[m - 1] == mid.items@[m - 1]);
        }
        Self::lemma_splice_restores_wf(pre, mid, post, p, lv, e0, cont, coll0);
    }

    /// An insertion with its walk done restores well-formedness: the result
    /// is the spliced model.
    #[verifier::rlimit(100)]
    #[verifier::spinoff_prover]
    proof fn lemma_splice_restores_wf(
        pre: Self,
        mid: Self,
        post: Self,
        p: int,
        lv: usize,
        e0: int,
        cont: bool,
        coll0: bool,
    )
        requires
            pre.wf(),
            pre.items@.len() < usize::MAX,
            0 <= p <= e0 <= pre.items@.len(),
            lv >= 0,
            coll0 == (cont && p == e0),
            splice_ok(
                pre.shapes(),
                p,
                (NodeShape { level: lv as nat, collapsed: coll0, container: cont }),
                e0,
            ),
            p < e0 ==> subtree_end(pre.shapes(), p) == e0 && (forall|m: int|
                p < m < e0 ==> (#[trigger] pre.shapes()[m].level) > lv as nat),
            p > 0 ==> lv as nat <= pre.shapes()[p - 1].level + 1,
            p == 0 ==> lv == 0,
            mid.items@.len() == pre.items@.len(),
            forall|m: int|
                0 <= m < pre.items@.len() ==> #[trigger] ins_slot(
                    pre.items@,
                    mid.items@,
                    pre.shapes(),
                    p,
                    lv as nat,
                    0,
                    m,
                ),
            post.items@.len() == pre.items@.len() + 1,
            forall|m: int| 0 <= m < p ==> #[trigger] post.items@[m] == mid.items@[m],
            post.items@[p].level == lv,
            post.items@[p].is_collapsed == coll0,
            post.items@[p].is_container == cont,
            post.items@[p].children == e0 - p,
            post.items@[p].height as int == (if p < e0 {
                1 + pre.items@[p].height
            } else {
                1int
            }),
            post.items@[p].collapsed_height == (if coll0 {
                Some(1usize)
            } else {
                None::<usize>
            }),
            forall|m: int|
                p < m <= e0 ==> (#[trigger] post.items@[m].value) == mid.items@[m - 1].value
                    && post.items@[m].level as int == mid.items@[m - 1].level + 1
                    && post.items@[m].is_collapsed == mid.items@[m - 1].is_collapsed
                    && post.items@[m].is_container == mid.items@[m - 1].is_container
                    && post.items@[m].children == mid.items@[m - 1].children
                    && post.items@[m].height == mid.items@[m - 1].height
                    && post.items@[m].collapsed_height == mid.items@[m - 1].collapsed_height,
            forall|m: int|
                e0 < m <= pre.items@.len() ==> #[trigger] post.items@[m] == mid.items@[m - 1],
            post.height as int == pre.height + (if pt_vis(pre.shapes(), p, lv as nat, 0) {
                1int
            } else {
                0int
            }),
        ensures
            post.wf(),
            post.shapes() == splice_one(
                set_containers(pre.shapes(), p, lv as nat),
                p,
                (NodeShape { level: lv as nat, collapsed: coll0, container: cont }),
                e0,
            ),
            post.values() == pre.values().insert(p, post.items@[p].spec_value()),
    {
        let s0 = pre.shapes();
        let sc0 = set_containers(s0, p, lv as nat);
        let n0 = NodeShape { level: lv as nat, collapsed: coll0, container: cont };
        let t = splice_one(sc0, p, n0, e0);
        Self::lemma_splice_views(pre, mid, post, p, lv, e0, cont, coll0);
        Self::lemma_splice_premises(pre, p, lv as nat, e0, cont, coll0);
        assert forall|m: int| 0 <= m < t.len() implies #[trigger] post.node_ok(m) by {
            Self::lemma_splice_slot(pre, mid, post, p, lv, e0, cont, coll0, m);
        }
        lemma_splice_total(sc0, p, n0, e0);
        Self::lemma_containers_count(s0, p, lv as nat, 0, 0, s0.len() as int);
        if pre.items@.len() > 0 {
            Self::lemma_containers_frame(s0, p, lv as nat, 0);
        }
        assert(pt_vis(sc0, p, lv as nat, 0) == pt_vis(s0, p, lv as nat, 0)) by {
            if pre.items@.len() > 0 {
            } else {
                assert(forall|j: int| !pt_anc(sc0, p, lv as nat, j));
                assert(forall|j: int| !pt_anc(s0, p, lv as nat, j));
            }
        }
        assert(post.wf());
    }



    /// Resolves a placement against the (clamped) reference index: the
    /// storage position and level of the node to insert, and whether it
    /// adopts the reference node's subtree.
    fn place(&self, placement: Placement, index: usize) -> (r: (usize, usize, bool))
        requires
            self.wf(),
        ensures
            ({
                let s0 = self.shapes();
                let i = clamp_index(s0, index as int);
                &&& r.0 == ins_pos(s0, placement, i)
                &&& r.1 as nat == ins_level(s0, placement, i)
                &&& r.2 == (placement is Parent && s0.len() > 0)
                &&& r.2 ==> r.0 == i
                &&& r.0 <= s0.len()
            }),
    {
        let ln = self.items.len();
        proof {
            self.lemma_views();
        }
        let i: usize = if ln == 0 {
            0
        } else if index >= ln {
            ln - 1
        } else {
            index
        };
        let ghost s0 = self.shapes();
        let ghost gi = i as int;
        proof {
            if ln > 0 {
                assert(self.node_ok(gi));
                lemma_height_bounds(s0, gi);
                lemma_level_le(s0, gi);
                lemma_run_end(s0, s0[gi].level, gi + 1);
            }
        }
        if ln == 0 {
            (0, 0, false)
        } else {
            match placement {
                Placement::After => (i + 1 + self.items[i].children, self.items[i].level, false),
                Placement::Before => (i, self.items[i].level, false),
                Placement::FirstChild => (i + 1, self.items[i].level + 1, false),
                Placement::LastChild => (
                    i + 1 + self.items[i].children,
                    self.items[i].level + 1,
                    false,
                ),
                Placement::Parent => (i, self.items[i].level, true),
            }
        }
    }

    /// Inserts `value` at the given placement relative to storage index
    /// `index` (clamped to the valid range), returning the new node's
    /// visual row, or `None` when it is hidden behind a collapsed ancestor.
    ///
    /// Every ancestor of the new node becomes a container and gains one
    /// descendant; heights grow by one along the visible path, the nearest
    /// collapsed ancestor grows its cached expansion height instead.  For
    /// `Placement::Parent` the node at `index` and its whole subtree move
    /// one level down and become the new node's subtree.  A childless
    /// container starts collapsed.
    #[verifier::rlimit(100)]
    #[verifier::spinoff_prover]
    fn insert_at(&mut self, placement: Placement, index: usize, value: T, is_container: bool) -> (r:
        (usize, bool))
        requires
            old(self).wf(),
            old(self).shapes().len() < usize::MAX,
        ensures
            final(self).wf(),
            ({
                let s0 = old(self).shapes();
                let i = clamp_index(s0, index as int);
                let p = ins_pos(s0, placement, i);
                let lv = ins_level(s0, placement, i);
                let e0 = ins_block_end(s0, placement, i);
                let n = ins_shape(s0, placement, i, is_container);
                &&& final(self).shapes() == splice_one(set_containers(s0, p, lv), p, n, e0)
                &&& final(self).values() == old(self).values().insert(p, value)
                &&& r.0 == p
                &&& r.1 == !pt_vis(s0, p, lv, 0)
            }),
    {
        let ln = self.items.len();
        let ghost s0 = self.shapes();
        let ghost v0 = self.values();
        let ghost gi = clamp_index(s0, index as int);
        let (p, lvl, parent_mode) = self.place(placement, index);
        let ghost gp = p as int;
        proof {
            self.lemma_views();
            if parent_mode {
                assert(self.node_ok(gp));
                lemma_height_bounds(s0, gp);
                lemma_run_end(s0, s0[gp].level, gp + 1);
            }
        }
        let block_len: usize = if parent_mode {
            1 + self.items[p].children
        } else {
            0
        };
        let node_height_before: usize = if parent_mode {
            self.items[p].height
        } else {
            0
        };
        let ghost ge0 = gp + block_len as int;
        proof {
            assert(ge0 == ins_block_end(s0, placement, gi));
        }
        let hidden = self.propagate_insert(p, lvl);
        let ghost mid = *self;
        // For a new parent, the adopted subtree moves one level down.
        if parent_mode {
            let e0 = p + block_len;
            let mut m: usize = p;
            while m < e0
                invariant
                    old(self).wf(),
                    s0 == old(self).shapes(),
                    valid_levels(s0),
                    gp == p as int,
                    mid.items@.len() == ln,
                    ln == s0.len(),
                    p <= m <= e0 <= ln,
                    ln < usize::MAX,
                    self.items@.len() == ln,
                    self.height == mid.height,
                    forall|x: int|
                        0 <= x < ln ==> #[trigger] ins_slot(
                            old(self).items@,
                            mid.items@,
                            s0,
                            gp,
                            lvl as nat,
                            0,
                            x,
                        ),
                    forall|x: int| 0 <= x < p ==> #[trigger] self.items@[x] == mid.items@[x],
                    forall|x: int|
                        p <= x < m ==> (#[trigger] self.items@[x].value) == mid.items@[x].value
                            && self.items@[x].level as int == mid.items@[x].level + 1
                            && self.items@[x].is_collapsed == mid.items@[x].is_collapsed
                            && self.items@[x].is_container == mid.items@[x].is_container
                            && self.items@[x].children == mid.items@[x].children
                            && self.items@[x].height == mid.items@[x].height
                            && self.items@[x].collapsed_height == mid.items@[x].collapsed_height,
                    forall|x: int|
                        m <= x < ln ==> #[trigger] self.items@[x] == mid.items@[x],
                decreases e0 - m,
            {
                proof {
                    assert(ins_slot(
                        old(self).items@,
                        mid.items@,
                        s0,
                        gp,
                        lvl as nat,
                        0,
                        m as int,
                    ));
                    assert(!pt_anc(s0, gp, lvl as nat, m as int));
                    old(self).lemma_views();
                    assert(mid.items@[m as int] == old(self).items@[m as int]);
                    assert(old(self).items@[m as int].shape() == s0[m as int]);
                    lemma_level_le(s0, m as int);
                }
                let cur = self.items[m].level;
                self.items[m].level = cur + 1;
                m = m + 1;
            }
        }
        let ghost bumped = self.items@;
        proof {
            if parent_mode {
                assert forall|m: int| gp <= m < ge0 implies (#[trigger] bumped[m].value)
                    == mid.items@[m].value && bumped[m].level as int == mid.items@[m].level + 1
                    && bumped[m].is_collapsed == mid.items@[m].is_collapsed
                    && bumped[m].is_container == mid.items@[m].is_container
                    && bumped[m].children == mid.items@[m].children
                    && bumped[m].height == mid.items@[m].height && bumped[m].collapsed_height
                    == mid.items@[m].collapsed_height by {
                    assert(self.items@[m].value == mid.items@[m].value);
                }
            } else {
                assert(bumped =~= mid.items@);
            }
            assert forall|m: int| 0 <= m < gp implies (#[trigger] bumped[m]) == mid.items@[m] by {}
            assert forall|m: int| ge0 <= m < ln implies (#[trigger] bumped[m])
                == mid.items@[m] by {}
        }
        let coll0 = is_container && block_len == 0;
        let new_height: usize = if parent_mode {
            1 + node_height_before
        } else {
            1
        };
        self.items.insert(
            p,
            TreeNode {
                value,
                level: lvl,
                is_collapsed: coll0,
                children: block_len,
                height: new_height,
                is_container,
                collapsed_height: if coll0 {
                    Some(1)
                } else {
                    None
                },
            },
        );
        proof {
            // The placement yields a structurally sound splice.
            let n0 = NodeShape { level: lvl as nat, collapsed: coll0, container: is_container };
            if ln > 0 {
                lemma_placement_ok(s0, placement, gi, is_container);
                assert(n0 == ins_shape(s0, placement, gi, is_container));
            } else {
                assert(splice_ok(s0, gp, n0, ge0));
            }
            // Indexing into the freshly spliced storage, zone by zone.
            let nn = self.items@[gp];
            bumped.insert_ensures(gp, nn);
            assert(self.items@ =~= bumped.insert(gp, nn));
            lemma_vis_count_le(s0, 0, 0, ln as int);
        }
        if !hidden {
            self.height = self.height + 1;
        }
        proof {
            Self::lemma_splice_finish(
                *old(self),
                mid,
                *self,
                bumped,
                gp,
                lvl,
                ge0,
                is_container,
                coll0,
            );
            assert(self.items@[gp].spec_value() == value);
            assert(ins_shape(s0, placement, gi, is_container) == (NodeShape {
                level: lvl as nat,
                collapsed: coll0,
                container: is_container,
            }));
        }
        (p, hidden)
    }

    /// Inserts `value` at the given placement, returning the new node's
    /// visual row, or `None` when it is hidden behind a collapsed ancestor.
    #[verifier::rlimit(100)]
    fn insert(&mut self, placement: Placement, index: usize, value: T, is_container: bool) -> (r:
        Option<usize>)
        requires
            old(self).wf(),
            old(self).shapes().len() < usize::MAX,
        ensures
            final(self).wf(),
            ({
                let s0 = old(self).shapes();
                let i = clamp_index(s0, index as int);
                let p = ins_pos(s0, placement, i);
                let lv = ins_level(s0, placement, i);
                let e0 = ins_block_end(s0, placement, i);
                let n = ins_shape(s0, placement, i, is_container);
                &&& final(self).shapes() == splice_one(set_containers(s0, p, lv), p, n, e0)
                &&& final(self).values() == old(self).values().insert(p, value)
                &&& (r is Some <==> pt_vis(s0, p, lv, 0))
                &&& (r matches Some(row) ==> row == vis_count(final(self).shapes(), 0, 0, p))
            }),
    {
        let ghost s0 = self.shapes();
        let (p, hidden) = self.insert_at(placement, index, value, is_container);
        let ghost gi = clamp_index(s0, index as int);
        let ghost gp = ins_pos(s0, placement, gi);
        let ghost lv = ins_level(s0, placement, gi);
        let ghost ge0 = ins_block_end(s0, placement, gi);
        let ghost n0 = ins_shape(s0, placement, gi, is_container);
        if hidden {
            None
        } else {
            proof {
                let sc0 = set_containers(s0, gp, lv);
                if s0.len() > 0 {
                    lemma_placement_ok(s0, placement, gi, is_container);
                }
                Self::lemma_splice_premises(*old(self), gp, lv, ge0, is_container, n0.collapsed);
                lemma_splice_vis(sc0, gp, n0, ge0, 0, gp);
                if s0.len() > 0 {
                    Self::lemma_containers_frame(s0, gp, lv, 0);
                } else {
                    assert(forall|j: int| !pt_anc(sc0, gp, lv, j));
                    assert(forall|j: int| !pt_anc(s0, gp, lv, j));
                }
                assert(vis_from(self.shapes(), 0, gp));
            }
            let row = self.item_index_to_row(p);
            Some(row)
        }
    }

    /// Inserts a plain item; see [`Self::insert_container_item`] for the
    /// container variant.  Returns the new node's visual row, or `None`
    /// when a collapsed ancestor hides it.
    pub fn insert_item(&mut self, placement: Placement, index: usize, value: T) -> (r: Option<
        usize,
    >)
        requires
            old(self).wf(),
            old(self).shapes().len() < usize::MAX,
        ensures
            final(self).wf(),
            ({
                let s0 = old(self).shapes();
                let i = clamp_index(s0, index as int);
                let p = ins_pos(s0, placement, i);
                let lv = ins_level(s0, placement, i);
                let e0 = ins_block_end(s0, placement, i);
                let n = ins_shape(s0, placement, i, false);
                &&& final(self).shapes() == splice_one(set_containers(s0, p, lv), p, n, e0)
                &&& final(self).values() == old(self).values().insert(p, value)
                &&& (r is Some <==> pt_vis(s0, p, lv, 0))
                &&& (r matches Some(row) ==> row == vis_count(final(self).shapes(), 0, 0, p))
            }),
    {
        self.insert(placement, index, value, false)
    }

    /// Inserts a container item: one that shows a collapse affordance even
    /// while childless, and starts out collapsed when childless.  Returns
    /// the new node's visual row, or `None` when a collapsed ancestor
    /// hides it.
    pub fn insert_container_item(&mut self, placement: Placement, index: usize, value: T) -> (r:
        Option<usize>)
        requires
            old(self).wf(),
            old(self).shapes().len() < usize::MAX,
        ensures
            final(self).wf(),
            ({
                let s0 = old(self).shapes();
                let i = clamp_index(s0, index as int);
                let p = ins_pos(s0, placement, i);
                let lv = ins_level(s0, placement, i);
                let e0 = ins_block_end(s0, placement, i);
                let n = ins_shape(s0, placement, i, true);
                &&& final(self).shapes() == splice_one(set_containers(s0, p, lv), p, n, e0)
                &&& final(self).values() == old(self).values().insert(p, value)
                &&& (r is Some <==> pt_vis(s0, p, lv, 0))
                &&& (r matches Some(row) ==> row == vis_count(final(self).shapes(), 0, 0, p))
            }),
    {
        self.insert(placement, index, value, true)
    }

    /// Collapses (`true`) or expands (`false`) the node at `index`, hiding
    /// or revealing its descendants.  A no-op when the node is already in
    /// the requested state or the index is out of range.
    ///
    /// Walking upward from the node, every ancestor that currently shows it
    /// has its height adjusted by the number of rows that disappear or
    /// reappear; the nearest collapsed ancestor (if any) instead has its
    /// cached expansion height adjusted, and ancestors beyond it are left
    /// alone — their visible extent cannot change.  The list height moves
    /// only when the node itself occupies a visible row.
    pub fn set_collapsed(&mut self, index: usize, collapsed: bool)
        requires
            old(self).wf(),
        ensures
            final(self).wf(),
            final(self).values() == old(self).values(),
            final(self).shapes() == if index < old(self).shapes().len() {
                old(self).shapes().update(
                    index as int,
                    with_collapsed(old(self).shapes()[index as int], collapsed),
                )
            } else {
                old(self).shapes()
            },
    {
        let ln = self.items.len();
        proof {
            self.lemma_views();
        }
        if index >= ln {
            return ;
        }
        let ghost s0 = self.shapes();
        let ghost v0 = self.values();
        let ghost i = index as int;
        if self.items[index].is_collapsed == collapsed {
            proof {
                assert(with_collapsed(s0[i], collapsed) == s0[i]);
                assert(s0.update(i, s0[i]) =~= s0);
            }
            return ;
        }
        let ghost s2 = s0.update(i, with_collapsed(s0[i], collapsed));
        proof {
            assert(self.node_ok(i));
            lemma_height_bounds(s0, i);
            lemma_height_unfold(s0, i);
        }
        let offset: usize = if collapsed {
            self.items[index].height - 1
        } else {
            self.items[index].collapsed_height.unwrap() - 1
        };
        let ghost off = offset as int;
        proof {
            assert(off == vis_count(s0, i + 1, i + 1, subtree_end(s0, i)));
        }
        let ghost orig = self.items@;
        let hidden = self.propagate(index, offset, !collapsed, 0);
        let ghost after_walk = self.items@;
        // The node itself: flip the flag, moving its stored height between
        // 1 (collapsed) and its expansion height, which stays cached while
        // it is collapsed.
        if collapsed {
            self.items[index].collapsed_height = Some(offset + 1);
            self.items[index].height = 1;
            self.items[index].is_collapsed = true;
        } else {
            self.items[index].is_collapsed = false;
            self.items[index].height = offset + 1;
            self.items[index].collapsed_height = None;
        }
        proof {
            lemma_toggle_count(s0, s2, i, 0, 0, ln as int);
            lemma_vis_count_le(s2, 0, 0, ln as int);
        }
        // The list height moves only when the toggled node is itself
        // visible from the root.
        if !hidden {
            if collapsed {
                self.height = self.height - offset;
            } else {
                self.height = self.height + offset;
            }
        }
        proof {
            let dh: int = if collapsed { -off } else { off };
            assert forall|m: int| 0 <= m < ln implies prop_slot(
                orig,
                after_walk,
                s0,
                i,
                dh,
                0,
                0,
                m,
            ) by {
                if collapsed {
                    assert(prop_slot(orig, after_walk, s0, i, -(offset as int), -(0 as int), 0, m));
                } else {
                    assert(prop_slot(orig, after_walk, s0, i, offset as int, -(0 as int), 0, m));
                }
            }
            assert forall|m: int| 0 <= m < ln && m != i implies prop_slot(
                orig,
                self.items@,
                s0,
                i,
                dh,
                0,
                0,
                m,
            ) by {
                assert(prop_slot(orig, after_walk, s0, i, dh, 0, 0, m));
                assert(self.items@[m] == after_walk[m]);
            }
            assert(prop_slot(orig, after_walk, s0, i, dh, 0, 0, i));
            assert(after_walk[i] == orig[i]);
            Self::lemma_toggle_restores_wf(*old(self), *self, i, collapsed, off, dh);
        }
    }
}

} // verus!
