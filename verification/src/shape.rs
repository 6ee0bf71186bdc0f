//! The mathematical model of the flattened tree.
//!
//! A tree list is modelled by a sequence of [`NodeShape`] records, one per
//! stored node, in pre-order: a node's descendants occupy the contiguous
//! range immediately following it.  Depth is carried by `level`; a node is a
//! descendant of an earlier node exactly when every entry between them (and
//! itself) sits at a strictly deeper level.
//!
//! All derived quantities of the container (descendant counts, visible
//! heights, the total number of visible rows) are defined here as spec
//! functions over that sequence.

use vstd::prelude::*;

verus! {

/// Structural state of one node: its depth, whether its descendants are
/// currently hidden, and whether it offers a collapse affordance even
/// without children.
pub struct NodeShape {
    pub level: nat,
    pub collapsed: bool,
    pub container: bool,
}

/// The first position at or after `k` whose level is at most `base`, or the
/// length of the sequence if no such position exists.
pub open spec fn run_end(s: Seq<NodeShape>, base: nat, k: int) -> int
    decreases s.len() - k,
{
    if k < 0 || k >= s.len() {
        s.len() as int
    } else if s[k].level <= base {
        k
    } else {
        run_end(s, base, k + 1)
    }
}

/// One past the last descendant of the node at `i`: the end of the
/// contiguous run of strictly deeper entries that follows `i`.
pub open spec fn subtree_end(s: Seq<NodeShape>, i: int) -> int {
    run_end(s, s[i].level, i + 1)
}

/// The number of descendants of the node at `i`.
pub open spec fn desc_count(s: Seq<NodeShape>, i: int) -> nat {
    (subtree_end(s, i) - (i + 1)) as nat
}

/// `j` lies strictly above `k` on the path from a root to `k`: every entry
/// after `j` up to and including `k` is strictly deeper than `j`.
pub open spec fn is_ancestor(s: Seq<NodeShape>, j: int, k: int) -> bool {
    0 <= j < k < s.len() && forall|m: int| j < m <= k ==> s[m].level > s[j].level
}

/// No ancestor of `k` at or after position `scope` is collapsed: `k` is
/// visible when the subtree is viewed from `scope`'s vantage point.
/// With `scope == 0` this says `k` occupies a visible row of the whole list.
pub open spec fn vis_from(s: Seq<NodeShape>, scope: int, k: int) -> bool {
    forall|j: int| scope <= j < k && #[trigger] is_ancestor(s, j, k) ==> !s[j].collapsed
}

/// The number of positions in `[lo, hi)` visible from `scope`.
pub open spec fn vis_count(s: Seq<NodeShape>, scope: int, lo: int, hi: int) -> nat
    decreases hi - lo,
{
    if lo >= hi {
        0
    } else {
        (if vis_from(s, scope, lo) { 1nat } else { 0nat }) + vis_count(s, scope, lo + 1, hi)
    }
}

/// The number of visible rows the subtree at `i` occupies: 1 if `i` is
/// collapsed or childless, otherwise 1 plus the visible rows of its
/// children's subtrees.
pub open spec fn node_height(s: Seq<NodeShape>, i: int) -> nat {
    vis_count(s, i, i, subtree_end(s, i))
}

/// The number of visible rows the subtree at `i` would occupy if `i` itself
/// were expanded, with everything beneath it left as it is.
pub open spec fn exp_height(s: Seq<NodeShape>, i: int) -> nat {
    vis_count(s, i + 1, i, subtree_end(s, i))
}

/// The total number of visible rows of the list.
pub open spec fn total_height(s: Seq<NodeShape>) -> nat {
    vis_count(s, 0, 0, s.len() as int)
}

/// Levels form a valid pre-order forest encoding: the first node is a root
/// and each node descends at most one level below its predecessor.
pub open spec fn valid_levels(s: Seq<NodeShape>) -> bool {
    &&& s.len() > 0 ==> s[0].level == 0
    &&& forall|i: int| 1 <= i < s.len() ==> #[trigger] s[i].level <= s[i - 1].level + 1
}

/// `run_end` lands between `k` and the length, everything before it in the
/// run is strictly deeper than `base`, and the entry it lands on (if any)
/// is not.
pub proof fn lemma_run_end(s: Seq<NodeShape>, base: nat, k: int)
    requires
        0 <= k <= s.len(),
    ensures
        k <= run_end(s, base, k) <= s.len(),
        forall|m: int| k <= m < run_end(s, base, k) ==> #[trigger] s[m].level > base,
        run_end(s, base, k) < s.len() ==> s[run_end(s, base, k)].level <= base,
    decreases s.len() - k,
{
    if k < s.len() && s[k].level > base {
        lemma_run_end(s, base, k + 1);
    }
}

/// Any position that ends a run of strictly deeper entries is where
/// `run_end` lands.
pub proof fn lemma_run_end_is(s: Seq<NodeShape>, base: nat, k: int, e: int)
    requires
        0 <= k <= e <= s.len(),
        forall|m: int| k <= m < e ==> #[trigger] s[m].level > base,
        e < s.len() ==> s[e].level <= base,
    ensures
        run_end(s, base, k) == e,
    decreases e - k,
{
    if k < e {
        lemma_run_end_is(s, base, k + 1, e);
    }
}

/// The descendants of `i` are exactly the positions strictly between `i`
/// and `subtree_end(s, i)`.
pub proof fn lemma_ancestor_iff(s: Seq<NodeShape>, i: int, k: int)
    requires
        0 <= i < s.len(),
    ensures
        is_ancestor(s, i, k) <==> i < k < subtree_end(s, i),
{
    lemma_run_end(s, s[i].level, i + 1);
    if is_ancestor(s, i, k) && subtree_end(s, i) <= k {
        // The run cannot stop at or before `k`: every entry in `(i, k]` is
        // strictly deeper than `i`.
        assert(s[subtree_end(s, i)].level > s[i].level);
    }
}

/// Counting visible positions splits across any midpoint.
pub proof fn lemma_vis_count_split(s: Seq<NodeShape>, sc: int, lo: int, mid: int, hi: int)
    requires
        lo <= mid <= hi,
    ensures
        vis_count(s, sc, lo, hi) == vis_count(s, sc, lo, mid) + vis_count(s, sc, mid, hi),
    decreases mid - lo,
{
    if lo < mid {
        lemma_vis_count_split(s, sc, lo + 1, mid, hi);
    }
}

/// A count of visible positions never exceeds the width of the range.
pub proof fn lemma_vis_count_le(s: Seq<NodeShape>, sc: int, lo: int, hi: int)
    requires
        lo <= hi,
    ensures
        vis_count(s, sc, lo, hi) <= hi - lo,
    decreases hi - lo,
{
    if lo < hi {
        lemma_vis_count_le(s, sc, lo + 1, hi);
    }
}

/// Visibility of a descendant `k` of `i` from a vantage point at or above
/// `i` factors through `i`: the part of the ancestor path above `i` is
/// exactly `i`'s own path, and the rest lies strictly inside `i`'s subtree.
pub proof fn lemma_vis_decompose(s: Seq<NodeShape>, sc: int, i: int, k: int)
    requires
        0 <= sc <= i < s.len(),
        i < k < subtree_end(s, i),
    ensures
        vis_from(s, sc, k) <==> (vis_from(s, sc, i) && !s[i].collapsed && vis_from(s, i + 1, k)),
{
    lemma_run_end(s, s[i].level, i + 1);
    lemma_ancestor_iff(s, i, k);
    assert(is_ancestor(s, i, k));
    // An ancestor of `i` is an ancestor of `k`, and vice versa for
    // positions before `i`.
    assert forall|j: int| 0 <= j < i implies (is_ancestor(s, j, i) <==> #[trigger] is_ancestor(
        s,
        j,
        k,
    )) by {
        if is_ancestor(s, j, i) {
            assert forall|m: int| j < m <= k implies s[m].level > s[j].level by {
                if m > i {
                    assert(s[m].level > s[i].level);
                    assert(s[i].level > s[j].level);
                }
            }
        }
    }
    if vis_from(s, sc, k) {
        assert forall|j: int| sc <= j < i && #[trigger] is_ancestor(s, j, i) implies !s[j].collapsed by {
            assert(is_ancestor(s, j, k));
        }
    }
    if vis_from(s, sc, i) && !s[i].collapsed && vis_from(s, i + 1, k) {
        assert forall|j: int| sc <= j < k && #[trigger] is_ancestor(s, j, k) implies !s[j].collapsed by {
            if j < i {
                assert(is_ancestor(s, j, i));
            }
        }
    }
}

/// Inside the subtree of a visible, expanded node `i`, visibility from any
/// vantage point at or above `i` coincides with visibility from just
/// below `i`.
pub proof fn lemma_vis_count_scope(s: Seq<NodeShape>, sc: int, i: int, lo: int, hi: int)
    requires
        0 <= sc <= i < s.len(),
        i < lo <= hi <= subtree_end(s, i),
        vis_from(s, sc, i),
        !s[i].collapsed,
    ensures
        vis_count(s, sc, lo, hi) == vis_count(s, i + 1, lo, hi),
    decreases hi - lo,
{
    if lo < hi {
        lemma_vis_decompose(s, sc, i, lo);
        lemma_vis_count_scope(s, sc, i, lo + 1, hi);
    }
}

/// Inside the subtree of a node `i` that is collapsed or itself hidden,
/// nothing is visible from a vantage point at or above `i`.
pub proof fn lemma_vis_count_zero(s: Seq<NodeShape>, sc: int, i: int, lo: int, hi: int)
    requires
        0 <= sc <= i < s.len(),
        i < lo <= hi <= subtree_end(s, i),
        !(vis_from(s, sc, i) && !s[i].collapsed),
    ensures
        vis_count(s, sc, lo, hi) == 0,
    decreases hi - lo,
{
    if lo < hi {
        lemma_vis_decompose(s, sc, i, lo);
        lemma_vis_count_zero(s, sc, i, lo + 1, hi);
    }
}

/// Entry `m` of `s1` reappears in `s2` at offset `d`, `dl` levels deeper.
pub open spec fn level_shift_at(s1: Seq<NodeShape>, s2: Seq<NodeShape>, d: int, dl: int, m: int) -> bool {
    s2[m + d].level == s1[m].level + dl
}

/// Entry `m` of `s1` reappears in `s2` at offset `d` with the same
/// collapse flag.
pub open spec fn flag_shift_at(s1: Seq<NodeShape>, s2: Seq<NodeShape>, d: int, m: int) -> bool {
    s2[m + d].collapsed == s1[m].collapsed
}

/// The window `[lo, hi)` of `s1` reappears in `s2` at offset `d`, uniformly
/// `dl` levels deeper.
pub open spec fn level_window(
    s1: Seq<NodeShape>,
    s2: Seq<NodeShape>,
    d: int,
    dl: int,
    lo: int,
    hi: int,
) -> bool {
    &&& 0 <= lo && hi <= s1.len()
    &&& 0 <= lo + d && hi + d <= s2.len()
    &&& forall|m: int| lo <= m < hi ==> #[trigger] level_shift_at(s1, s2, d, dl, m)
}

/// The window `[lo, hi)` of `s1` reappears in `s2` at offset `d`, uniformly
/// `dl` levels deeper, with the same collapse flags.
pub open spec fn shifted_window(
    s1: Seq<NodeShape>,
    s2: Seq<NodeShape>,
    d: int,
    dl: int,
    lo: int,
    hi: int,
) -> bool {
    &&& level_window(s1, s2, d, dl, lo, hi)
    &&& forall|m: int| lo <= m < hi ==> #[trigger] flag_shift_at(s1, s2, d, m)
}

/// The ancestor relation is carried along a shifted window: it reads only
/// relative levels inside `(j, k]`.
pub proof fn lemma_ancestor_shift(
    s1: Seq<NodeShape>,
    s2: Seq<NodeShape>,
    d: int,
    dl: int,
    lo: int,
    hi: int,
    j: int,
    k: int,
)
    requires
        level_window(s1, s2, d, dl, lo, hi),
        lo <= j < k < hi,
    ensures
        is_ancestor(s1, j, k) <==> is_ancestor(s2, j + d, k + d),
{
    assert(level_shift_at(s1, s2, d, dl, j));
    if is_ancestor(s1, j, k) {
        assert forall|m2: int| j + d < m2 <= k + d implies #[trigger] s2[m2].level > s2[j
            + d].level by {
            assert(level_shift_at(s1, s2, d, dl, m2 - d));
            assert(s1[m2 - d].level > s1[j].level);
        }
    }
    if is_ancestor(s2, j + d, k + d) {
        assert forall|m: int| j < m <= k implies #[trigger] s1[m].level > s1[j].level by {
            assert(level_shift_at(s1, s2, d, dl, m));
            assert(s2[m + d].level > s2[j + d].level);
        }
    }
}

/// Visibility of one position is carried along a shifted window: it reads
/// levels up to `k` and collapse flags strictly before `k`.
pub proof fn lemma_vis_from_shift(
    s1: Seq<NodeShape>,
    s2: Seq<NodeShape>,
    d: int,
    dl: int,
    sc: int,
    k: int,
)
    requires
        level_window(s1, s2, d, dl, sc, k + 1),
        forall|m: int| sc <= m < k ==> #[trigger] flag_shift_at(s1, s2, d, m),
        0 <= sc <= k < s1.len(),
    ensures
        vis_from(s1, sc, k) <==> vis_from(s2, sc + d, k + d),
{
    if vis_from(s1, sc, k) {
        assert forall|j2: int| sc + d <= j2 < k + d && #[trigger] is_ancestor(s2, j2, k + d) implies !s2[j2].collapsed by {
            let j = j2 - d;
            lemma_ancestor_shift(s1, s2, d, dl, sc, k + 1, j, k);
            assert(is_ancestor(s1, j, k));
            assert(flag_shift_at(s1, s2, d, j));
        }
    }
    if vis_from(s2, sc + d, k + d) {
        assert forall|j: int| sc <= j < k && #[trigger] is_ancestor(s1, j, k) implies !s1[j].collapsed by {
            lemma_ancestor_shift(s1, s2, d, dl, sc, k + 1, j, k);
            assert(is_ancestor(s2, j + d, k + d));
            assert(flag_shift_at(s1, s2, d, j));
        }
    }
}

/// Visible-position counts are carried along a shifted window.
pub proof fn lemma_vis_count_shift(
    s1: Seq<NodeShape>,
    s2: Seq<NodeShape>,
    d: int,
    dl: int,
    sc: int,
    lo: int,
    hi: int,
)
    requires
        level_window(s1, s2, d, dl, sc, hi),
        forall|m: int| sc <= m < hi ==> #[trigger] flag_shift_at(s1, s2, d, m),
        0 <= sc <= lo <= hi <= s1.len(),
    ensures
        vis_count(s1, sc, lo, hi) == vis_count(s2, sc + d, lo + d, hi + d),
    decreases hi - lo,
{
    if lo < hi {
        lemma_vis_from_shift(s1, s2, d, dl, sc, lo);
        lemma_vis_count_shift(s1, s2, d, dl, sc, lo + 1, hi);
    }
}

/// A subtree boundary is carried along a shifted window that covers the
/// run and its terminator.
pub proof fn lemma_subtree_end_shift(
    s1: Seq<NodeShape>,
    s2: Seq<NodeShape>,
    d: int,
    dl: int,
    lo: int,
    hi: int,
    i: int,
)
    requires
        level_window(s1, s2, d, dl, lo, hi),
        lo <= i < hi <= s1.len(),
        subtree_end(s1, i) <= hi,
        subtree_end(s1, i) == hi ==> hi + d == s2.len() || s2[hi + d].level <= s1[i].level + dl,
    ensures
        subtree_end(s2, i + d) == subtree_end(s1, i) + d,
{
    lemma_run_end(s1, s1[i].level, i + 1);
    let e = subtree_end(s1, i);
    assert(level_shift_at(s1, s2, d, dl, i));
    assert forall|m2: int| i + d + 1 <= m2 < e + d implies #[trigger] s2[m2].level > s2[i + d].level by {
        assert(level_shift_at(s1, s2, d, dl, m2 - d));
        assert(s1[m2 - d].level > s1[i].level);
    }
    if e < hi {
        assert(level_shift_at(s1, s2, d, dl, e));
        assert(s1[e].level <= s1[i].level);
    }
    lemma_run_end_is(s2, s2[i + d].level, i + d + 1, e + d);
}

/// Descendant counts and both height measures of a node are carried along
/// a shifted window that covers its subtree and terminator.
pub proof fn lemma_measures_shift(
    s1: Seq<NodeShape>,
    s2: Seq<NodeShape>,
    d: int,
    dl: int,
    lo: int,
    hi: int,
    i: int,
)
    requires
        shifted_window(s1, s2, d, dl, lo, hi),
        lo <= i < hi <= s1.len(),
        subtree_end(s1, i) <= hi,
        subtree_end(s1, i) == hi ==> hi + d == s2.len() || s2[hi + d].level <= s1[i].level + dl,
    ensures
        subtree_end(s2, i + d) == subtree_end(s1, i) + d,
        desc_count(s2, i + d) == desc_count(s1, i),
        node_height(s2, i + d) == node_height(s1, i),
        exp_height(s2, i + d) == exp_height(s1, i),
        s2[i + d].collapsed == s1[i].collapsed,
{
    lemma_subtree_end_shift(s1, s2, d, dl, lo, hi, i);
    let e = subtree_end(s1, i);
    lemma_run_end(s1, s1[i].level, i + 1);
    lemma_vis_count_shift(s1, s2, d, dl, i, i, e);
    lemma_height_unfold(s1, i);
    lemma_height_unfold(s2, i + d);
    lemma_vis_count_shift(s1, s2, d, dl, i + 1, i + 1, e);
    assert(flag_shift_at(s1, s2, d, i));
}

/// The ancestor relation ignores collapse flags: it agrees on any two
/// sequences with the same levels.
pub proof fn lemma_ancestor_levels(s1: Seq<NodeShape>, s2: Seq<NodeShape>, j: int, k: int)
    requires
        s1.len() == s2.len(),
        forall|m: int| 0 <= m < s1.len() ==> #[trigger] s2[m].level == s1[m].level,
    ensures
        is_ancestor(s1, j, k) <==> is_ancestor(s2, j, k),
{
    if 0 <= j < k < s1.len() {
        lemma_ancestor_shift(s1, s2, 0, 0, 0, s1.len() as int, j, k);
    }
}

/// Flipping the collapse flag at `i` leaves a position's visibility alone
/// unless `i` is one of the ancestors it consults.
pub proof fn lemma_vis_from_flag_point(
    s1: Seq<NodeShape>,
    s2: Seq<NodeShape>,
    i: int,
    sc: int,
    k: int,
)
    requires
        s1.len() == s2.len(),
        0 <= i < s1.len(),
        forall|m: int| 0 <= m < s1.len() ==> #[trigger] s2[m].level == s1[m].level,
        forall|m: int| 0 <= m < s1.len() && m != i ==> #[trigger] s2[m].collapsed == s1[m].collapsed,
        0 <= sc <= k <= s1.len(),
        !(sc <= i < k && is_ancestor(s1, i, k)),
    ensures
        vis_from(s1, sc, k) <==> vis_from(s2, sc, k),
{
    if vis_from(s1, sc, k) {
        assert forall|j: int| sc <= j < k && #[trigger] is_ancestor(s2, j, k) implies !s2[j].collapsed by {
            lemma_ancestor_levels(s1, s2, j, k);
            assert(is_ancestor(s1, j, k));
            assert(j != i);
        }
    }
    if vis_from(s2, sc, k) {
        assert forall|j: int| sc <= j < k && #[trigger] is_ancestor(s1, j, k) implies !s1[j].collapsed by {
            lemma_ancestor_levels(s1, s2, j, k);
            assert(is_ancestor(s2, j, k));
            assert(j != i);
        }
    }
}

/// Flipping the collapse flag at `i` leaves counts alone over any range
/// whose members never consult `i`.
pub proof fn lemma_vis_count_flag_point(
    s1: Seq<NodeShape>,
    s2: Seq<NodeShape>,
    i: int,
    sc: int,
    lo: int,
    hi: int,
)
    requires
        s1.len() == s2.len(),
        0 <= i < s1.len(),
        forall|m: int| 0 <= m < s1.len() ==> #[trigger] s2[m].level == s1[m].level,
        forall|m: int| 0 <= m < s1.len() && m != i ==> #[trigger] s2[m].collapsed == s1[m].collapsed,
        0 <= sc <= lo <= hi <= s1.len(),
        forall|k: int| lo <= k < hi ==> !(sc <= i < k && #[trigger] is_ancestor(s1, i, k)),
    ensures
        vis_count(s1, sc, lo, hi) == vis_count(s2, sc, lo, hi),
    decreases hi - lo,
{
    if lo < hi {
        lemma_vis_from_flag_point(s1, s2, i, sc, lo);
        lemma_vis_count_flag_point(s1, s2, i, sc, lo + 1, hi);
    }
}

/// A node's stored height unfolds to 1 for a collapsed node and to the
/// would-be expanded height otherwise; the expanded height is 1 plus the
/// visible rows strictly inside the subtree.
pub proof fn lemma_height_unfold(s: Seq<NodeShape>, i: int)
    requires
        0 <= i < s.len(),
    ensures
        exp_height(s, i) == 1 + vis_count(s, i + 1, i + 1, subtree_end(s, i)),
        s[i].collapsed ==> node_height(s, i) == 1,
        !s[i].collapsed ==> node_height(s, i) == exp_height(s, i),
{
    lemma_run_end(s, s[i].level, i + 1);
    let e = subtree_end(s, i);
    assert(vis_from(s, i + 1, i));
    assert(vis_from(s, i, i));
    assert(exp_height(s, i) == 1 + vis_count(s, i + 1, i + 1, e));
    if s[i].collapsed {
        lemma_vis_count_zero(s, i, i, i + 1, e);
    } else {
        lemma_vis_count_scope(s, i, i, i + 1, e);
    }
}

/// Both height measures of a node are at least 1 and at most the length of
/// the sequence.
pub proof fn lemma_height_bounds(s: Seq<NodeShape>, i: int)
    requires
        0 <= i < s.len(),
    ensures
        i < subtree_end(s, i) <= s.len(),
        1 <= node_height(s, i) <= s.len(),
        1 <= exp_height(s, i) <= s.len(),
{
    lemma_run_end(s, s[i].level, i + 1);
    lemma_height_unfold(s, i);
    let e = subtree_end(s, i);
    lemma_vis_count_le(s, i + 1, i + 1, e);
}

/// The same node with its collapse flag set to `c`.
pub open spec fn with_collapsed(n: NodeShape, c: bool) -> NodeShape {
    NodeShape { collapsed: c, ..n }
}

/// A subtree is contained in the subtree of each of its ancestors.
pub proof fn lemma_subtree_nested(s: Seq<NodeShape>, a: int, i: int)
    requires
        is_ancestor(s, a, i),
    ensures
        i < subtree_end(s, a),
        subtree_end(s, i) <= subtree_end(s, a),
{
    lemma_ancestor_iff(s, a, i);
    lemma_run_end(s, s[a].level, a + 1);
    lemma_run_end(s, s[i].level, i + 1);
    let ea = subtree_end(s, a);
    if ea < subtree_end(s, i) {
        // `ea` would lie strictly inside `i`'s run, yet terminate `a`'s.
        assert(s[ea].level > s[i].level);
        assert(s[i].level > s[a].level);
    }
}

/// For an ancestor `a` of `i`, visibility of `i` from `a` is visibility
/// from just below `a` plus `a` itself being expanded.
pub proof fn lemma_vis_from_step(s: Seq<NodeShape>, a: int, i: int)
    requires
        is_ancestor(s, a, i),
    ensures
        vis_from(s, a, i) == (!s[a].collapsed && vis_from(s, a + 1, i)),
{
}

/// Visibility from two vantage points agrees when no ancestor lies between
/// them.
pub proof fn lemma_vis_from_skip(s: Seq<NodeShape>, b: int, c: int, i: int)
    requires
        0 <= b <= c <= i < s.len(),
        forall|j: int| b <= j < c ==> !is_ancestor(s, j, i),
    ensures
        vis_from(s, b, i) == vis_from(s, c, i),
{
}

/// Room an ancestor `a` always has for a change at `i`: its descendant
/// count covers `i`'s subtree and `i` itself, its expanded height covers
/// `i`'s stored height whenever it shows `i`, and while `i` is collapsed
/// its expanded height plus `i`'s hidden rows still fit in the sequence.
pub proof fn lemma_ancestor_room(s: Seq<NodeShape>, i: int, a: int)
    requires
        is_ancestor(s, a, i),
    ensures
        desc_count(s, a) >= desc_count(s, i) + 1,
        vis_from(s, a + 1, i) ==> exp_height(s, a) >= 1 + node_height(s, i),
        s[i].collapsed ==> exp_height(s, a) + vis_count(s, i + 1, i + 1, subtree_end(s, i))
            <= s.len(),
        exp_height(s, a) <= s.len(),
{
    lemma_subtree_nested(s, a, i);
    lemma_run_end(s, s[a].level, a + 1);
    lemma_run_end(s, s[i].level, i + 1);
    lemma_height_bounds(s, a);
    lemma_height_bounds(s, i);
    let e = subtree_end(s, i);
    let ea = subtree_end(s, a);
    lemma_height_unfold(s, a);
    lemma_height_unfold(s, i);
    lemma_vis_count_split(s, a + 1, a + 1, i, ea);
    lemma_vis_count_split(s, a + 1, i, e, ea);
    lemma_vis_count_split(s, a + 1, i, i + 1, e);
    lemma_vis_count_le(s, a + 1, a + 1, i);
    lemma_vis_count_le(s, a + 1, e, ea);
    lemma_vis_count_le(s, a + 1, a + 1, i + 1);
    if vis_from(s, a + 1, i) {
        if s[i].collapsed {
            lemma_vis_count_zero(s, a + 1, i, i + 1, e);
        } else {
            lemma_vis_count_scope(s, a + 1, i, i + 1, e);
        }
        lemma_vis_count_le(s, i + 1, i + 1, e);
    } else {
        if s[i].collapsed {
            lemma_vis_count_zero(s, a + 1, i, i + 1, e);
            lemma_vis_count_le(s, i + 1, i + 1, e);
        }
    }
}

/// How one collapse-flag flip at `i` changes a visibility count over a
/// range `[lo, hi)` that covers `i`'s whole subtree, seen from a vantage
/// point at or above `i`.  `off` is the number of positions strictly inside
/// `i`'s subtree that are visible from just below `i`: exactly the rows
/// that appear or disappear.
pub proof fn lemma_toggle_count(
    s: Seq<NodeShape>,
    s2: Seq<NodeShape>,
    i: int,
    sc: int,
    lo: int,
    hi: int,
)
    requires
        s2.len() == s.len(),
        0 <= i < s.len(),
        forall|m: int| 0 <= m < s.len() ==> #[trigger] s2[m].level == s[m].level,
        forall|m: int| 0 <= m < s.len() && m != i ==> #[trigger] s2[m].collapsed == s[m].collapsed,
        s2[i].collapsed != s[i].collapsed,
        0 <= sc <= lo <= i + 1,
        sc <= i,
        i < hi <= s.len(),
        subtree_end(s, i) <= hi,
    ensures
        ({
            let off = vis_count(s, i + 1, i + 1, subtree_end(s, i));
            &&& (!vis_from(s, sc, i) ==> vis_count(s2, sc, lo, hi) == vis_count(s, sc, lo, hi))
            &&& (vis_from(s, sc, i) && s2[i].collapsed ==> vis_count(s, sc, lo, hi) == vis_count(
                s2,
                sc,
                lo,
                hi,
            ) + off)
            &&& (vis_from(s, sc, i) && !s2[i].collapsed ==> vis_count(s2, sc, lo, hi) == vis_count(
                s,
                sc,
                lo,
                hi,
            ) + off)
            &&& (vis_from(s, sc, i) && !s[i].collapsed && lo <= i ==> vis_count(s, sc, lo, hi)
                >= 1 + off)
            &&& vis_from(s2, sc, i) == vis_from(s, sc, i)
        }),
{
    let e = subtree_end(s, i);
    let off = vis_count(s, i + 1, i + 1, e);
    lemma_run_end(s, s[i].level, i + 1);
    assert forall|m: int| 0 <= m < s.len() implies #[trigger] level_shift_at(s, s2, 0, 0, m) by {}
    lemma_subtree_end_shift(s, s2, 0, 0, 0, s.len() as int, i);
    assert(subtree_end(s2, i) == e);
    lemma_vis_count_split(s, sc, lo, i + 1, hi);
    lemma_vis_count_split(s, sc, i + 1, e, hi);
    lemma_vis_count_split(s2, sc, lo, i + 1, hi);
    lemma_vis_count_split(s2, sc, i + 1, e, hi);
    // Positions at or before `i` never consult `i`'s flag.
    lemma_vis_count_flag_point(s, s2, i, sc, lo, i + 1);
    // Positions past the subtree never have `i` as an ancestor.
    assert forall|k: int| e <= k < hi implies !(sc <= i < k && #[trigger] is_ancestor(s, i, k)) by {
        lemma_ancestor_iff(s, i, k);
    }
    lemma_vis_count_flag_point(s, s2, i, sc, e, hi);
    // Visibility of `i` itself is untouched.
    lemma_vis_from_flag_point(s, s2, i, sc, i);
    // Strictly inside the subtree, counts from just below `i` are
    // untouched as well.
    lemma_vis_count_flag_point(s, s2, i, i + 1, i + 1, e);
    if vis_from(s, sc, i) {
        if s[i].collapsed {
            lemma_vis_count_zero(s, sc, i, i + 1, e);
        } else {
            lemma_vis_count_scope(s, sc, i, i + 1, e);
        }
        if s2[i].collapsed {
            lemma_vis_count_zero(s2, sc, i, i + 1, e);
        } else {
            lemma_vis_count_scope(s2, sc, i, i + 1, e);
        }
        if !s[i].collapsed && lo <= i {
            lemma_vis_count_split(s, sc, lo, i, i + 1);
            lemma_vis_count_le(s, sc, lo, i);
        }
    } else {
        lemma_vis_from_flag_point(s, s2, i, sc, i);
        lemma_vis_count_zero(s, sc, i, i + 1, e);
        lemma_vis_count_zero(s2, sc, i, i + 1, e);
    }
}

/// A collapse-flag flip at `i` leaves every measure of an unrelated node
/// (neither `i` itself nor one of `i`'s ancestors) unchanged.
pub proof fn lemma_toggle_frame(s: Seq<NodeShape>, s2: Seq<NodeShape>, i: int, j: int)
    requires
        s2.len() == s.len(),
        0 <= i < s.len(),
        0 <= j < s.len(),
        forall|m: int| 0 <= m < s.len() ==> #[trigger] s2[m].level == s[m].level,
        forall|m: int| 0 <= m < s.len() && m != i ==> #[trigger] s2[m].collapsed == s[m].collapsed,
        j != i,
        !is_ancestor(s, j, i),
    ensures
        subtree_end(s2, j) == subtree_end(s, j),
        desc_count(s2, j) == desc_count(s, j),
        node_height(s2, j) == node_height(s, j),
        exp_height(s2, j) == exp_height(s, j),
{
    lemma_run_end(s, s[j].level, j + 1);
    assert forall|m: int| 0 <= m < s.len() implies #[trigger] level_shift_at(s, s2, 0, 0, m) by {}
    lemma_subtree_end_shift(s, s2, 0, 0, 0, s.len() as int, j);
    let e = subtree_end(s, j);
    lemma_ancestor_iff(s, j, i);
    // No position in `j`'s subtree consults `i`: if `i` were an ancestor of
    // such a position and sat inside `j`'s subtree, it would make `j` an
    // ancestor of `i`.
    assert forall|k: int| j <= k < e implies !(j <= i < k && #[trigger] is_ancestor(s, i, k)) by {
        lemma_ancestor_iff(s, j, i);
    }
    lemma_vis_count_flag_point(s, s2, i, j, j, e);
    lemma_vis_count_flag_point(s, s2, i, j + 1, j + 1, e);
    lemma_height_unfold(s, j);
    lemma_height_unfold(s2, j);
    assert(vis_count(s, j, j, e) == vis_count(s2, j, j, e));
}

/// How a collapse-flag flip at `i` changes the measures of `i` itself and
/// of each of `i`'s ancestors.
pub proof fn lemma_toggle_node(s: Seq<NodeShape>, s2: Seq<NodeShape>, i: int)
    requires
        s2.len() == s.len(),
        0 <= i < s.len(),
        forall|m: int| 0 <= m < s.len() ==> #[trigger] s2[m].level == s[m].level,
        forall|m: int| 0 <= m < s.len() && m != i ==> #[trigger] s2[m].collapsed == s[m].collapsed,
        s2[i].collapsed != s[i].collapsed,
    ensures
        subtree_end(s2, i) == subtree_end(s, i),
        desc_count(s2, i) == desc_count(s, i),
        exp_height(s2, i) == exp_height(s, i),
        node_height(s2, i) == if s2[i].collapsed {
            1nat
        } else {
            exp_height(s, i)
        },
        exp_height(s, i) >= 1,
        node_height(s, i) >= 1,
{
    lemma_run_end(s, s[i].level, i + 1);
    assert forall|m: int| 0 <= m < s.len() implies #[trigger] level_shift_at(s, s2, 0, 0, m) by {}
    lemma_subtree_end_shift(s, s2, 0, 0, 0, s.len() as int, i);
    let e = subtree_end(s, i);
    lemma_vis_count_flag_point(s, s2, i, i + 1, i + 1, e);
    lemma_height_unfold(s, i);
    lemma_height_unfold(s2, i);
}

/// How a collapse-flag flip at `i` changes the measures of an ancestor `a`
/// of `i`: nothing changes unless every ancestor strictly between `a` and
/// `i` is expanded, in which case the expanded height (and, for an expanded
/// `a`, the stored height) moves by exactly the rows `i` hides or reveals.
pub proof fn lemma_toggle_ancestor(s: Seq<NodeShape>, s2: Seq<NodeShape>, i: int, a: int)
    requires
        s2.len() == s.len(),
        0 <= i < s.len(),
        forall|m: int| 0 <= m < s.len() ==> #[trigger] s2[m].level == s[m].level,
        forall|m: int| 0 <= m < s.len() && m != i ==> #[trigger] s2[m].collapsed == s[m].collapsed,
        s2[i].collapsed != s[i].collapsed,
        is_ancestor(s, a, i),
    ensures
        ({
            let off = vis_count(s, i + 1, i + 1, subtree_end(s, i));
            &&& subtree_end(s2, a) == subtree_end(s, a)
            &&& desc_count(s2, a) == desc_count(s, a)
            &&& (!vis_from(s, a + 1, i) ==> exp_height(s2, a) == exp_height(s, a) && node_height(
                s2,
                a,
            ) == node_height(s, a))
            &&& (vis_from(s, a + 1, i) && s2[i].collapsed ==> exp_height(s, a) == exp_height(
                s2,
                a,
            ) + off && exp_height(s2, a) >= 1)
            &&& (vis_from(s, a + 1, i) && !s2[i].collapsed ==> exp_height(s2, a) == exp_height(
                s,
                a,
            ) + off)
            &&& (s[a].collapsed ==> node_height(s2, a) == node_height(s, a))
            &&& (!s[a].collapsed ==> node_height(s, a) == exp_height(s, a) && node_height(s2, a)
                == exp_height(s2, a))
            &&& exp_height(s, a) >= 1 + if vis_from(s, a + 1, i) && !s[i].collapsed {
                off
            } else {
                0nat
            }
        }),
{
    let e = subtree_end(s, i);
    let ea = subtree_end(s, a);
    let off = vis_count(s, i + 1, i + 1, e);
    lemma_subtree_nested(s, a, i);
    lemma_run_end(s, s[a].level, a + 1);
    lemma_run_end(s, s[i].level, i + 1);
    assert forall|m: int| 0 <= m < s.len() implies #[trigger] level_shift_at(s, s2, 0, 0, m) by {}
    lemma_subtree_end_shift(s, s2, 0, 0, 0, s.len() as int, a);
    lemma_height_unfold(s, a);
    lemma_height_unfold(s2, a);
    // Expanded height: 1 + count over [a+1, ea) from scope a+1.
    lemma_toggle_count(s, s2, i, a + 1, a + 1, ea);
    // Tie the toggle condition to visibility of `i` from `a + 1`.
    assert(vis_from(s2, a + 1, i) == vis_from(s, a + 1, i));
    if !s[a].collapsed {
        assert(s2[a].collapsed == s[a].collapsed);
    }
    if vis_from(s, a + 1, i) && !s[i].collapsed {
        lemma_vis_count_split(s, a + 1, a + 1, i, ea);
        lemma_vis_count_split(s, a + 1, i, e, ea);
        lemma_vis_count_split(s, a + 1, i, i + 1, e);
        assert(vis_count(s, a + 1, i, i + 1) == (if vis_from(s, a + 1, i) { 1nat } else { 0nat })
            + vis_count(s, a + 1, i + 1, i + 1));
        lemma_vis_count_scope(s, a + 1, i, i + 1, e);
    }
}

/// The sequence with the range `[a, b)` deleted.
pub open spec fn cut_seq(s: Seq<NodeShape>, a: int, b: int) -> Seq<NodeShape> {
    s.subrange(0, a) + s.subrange(b, s.len() as int)
}

/// The range `[a, b)` can be deleted without tearing any subtree: every
/// subtree rooted inside it ends inside it, and no earlier subtree ends
/// strictly inside it.
pub open spec fn cut_ok(s: Seq<NodeShape>, a: int, b: int) -> bool {
    &&& 0 <= a <= b <= s.len()
    &&& forall|j: int| a <= j < b ==> #[trigger] subtree_end(s, j) <= b
    &&& forall|j: int|
        0 <= j < a ==> #[trigger] subtree_end(s, j) <= a || subtree_end(s, j) >= b
}

/// Deleting the subtree of `i`, or only its descendants, is a clean cut.
pub proof fn lemma_subtree_cut_ok(s: Seq<NodeShape>, i: int, a: int)
    requires
        0 <= i < s.len(),
        a == i || a == i + 1,
    ensures
        cut_ok(s, a, subtree_end(s, i)),
{
    let e = subtree_end(s, i);
    lemma_run_end(s, s[i].level, i + 1);
    assert forall|j: int| a <= j < e implies #[trigger] subtree_end(s, j) <= e by {
        if j != i {
            lemma_ancestor_iff(s, i, j);
            lemma_subtree_nested(s, i, j);
        }
    }
    assert forall|j: int|
        0 <= j < a implies #[trigger] subtree_end(s, j) <= a || subtree_end(s, j) >= e by {
        if j < i {
            lemma_run_end(s, s[j].level, j + 1);
            if subtree_end(s, j) > i {
                lemma_ancestor_iff(s, j, i);
                lemma_subtree_nested(s, j, i);
            }
        }
    }
}

/// Indexing into a cut: positions before the cut are unchanged, positions
/// after it are shifted left by its width.
pub proof fn lemma_cut_index(s: Seq<NodeShape>, a: int, b: int)
    requires
        0 <= a <= b <= s.len(),
    ensures
        cut_seq(s, a, b).len() == s.len() - (b - a),
        forall|m: int| 0 <= m < a ==> #[trigger] cut_seq(s, a, b)[m] == s[m],
        forall|m: int|
            a <= m < s.len() - (b - a) ==> #[trigger] cut_seq(s, a, b)[m] == s[m + (b - a)],
{
}

/// Inside a clean cut whose right edge is shallower than `lj`, every entry
/// is strictly deeper than `lj`: a run that is still open when it reaches
/// the cut stays open across it.
pub proof fn lemma_cut_deep(s: Seq<NodeShape>, a: int, b: int, lj: nat, m: int)
    requires
        forall|j: int| a <= j < b ==> #[trigger] subtree_end(s, j) <= b,
        0 <= a <= m < b <= s.len(),
        b < s.len(),
        s[b].level > lj,
    ensures
        s[m].level > lj,
    decreases b - m,
{
    if s[m].level <= lj {
        lemma_run_end(s, s[m].level, m + 1);
        let em = subtree_end(s, m);
        if em < b {
            lemma_cut_deep(s, a, b, lj, em);
        }
    }
}

/// A clean cut preserves the ancestor relation between a position before it
/// and one after it.
pub proof fn lemma_cut_ancestor(s: Seq<NodeShape>, a: int, b: int, j: int, k: int)
    requires
        cut_ok(s, a, b),
        0 <= j < a,
        b <= k < s.len(),
    ensures
        is_ancestor(cut_seq(s, a, b), j, k - (b - a)) <==> is_ancestor(s, j, k),
{
    let c = cut_seq(s, a, b);
    let d = b - a;
    lemma_cut_index(s, a, b);
    if is_ancestor(s, j, k) {
        assert forall|m: int| j < m <= k - d implies #[trigger] c[m].level > c[j].level by {
            if m < a {
                assert(s[m].level > s[j].level);
            } else {
                assert(s[m + d].level > s[j].level);
            }
        }
    }
    if is_ancestor(c, j, k - d) {
        assert(c[a] == s[b]);
        assert(s[b].level > s[j].level);
        assert forall|m: int| j < m <= k implies #[trigger] s[m].level > s[j].level by {
            if m < a {
                assert(c[m].level > c[j].level);
            } else if m < b {
                lemma_cut_deep(s, a, b, s[j].level, m);
            } else {
                assert(c[m - d].level > c[j].level);
            }
        }
    }
}

/// A clean cut preserves visibility of positions before it (from any
/// vantage point before them).
pub proof fn lemma_cut_vis_prefix(s: Seq<NodeShape>, a: int, b: int, sc: int, k: int)
    requires
        cut_ok(s, a, b),
        0 <= sc <= k < a,
    ensures
        vis_from(cut_seq(s, a, b), sc, k) == vis_from(s, sc, k),
{
    let c = cut_seq(s, a, b);
    lemma_cut_index(s, a, b);
    assert forall|m: int| 0 <= m < a implies #[trigger] level_shift_at(s, c, 0, 0, m) by {}
    assert forall|m: int| 0 <= m < a implies #[trigger] flag_shift_at(s, c, 0, m) by {}
    lemma_vis_from_shift(s, c, 0, 0, sc, k);
}

/// A clean cut preserves visibility of positions after it, from any vantage
/// point at or before its left edge.
pub proof fn lemma_cut_vis_suffix(s: Seq<NodeShape>, a: int, b: int, sc: int, k: int)
    requires
        cut_ok(s, a, b),
        0 <= sc <= a,
        b <= k < s.len(),
    ensures
        vis_from(cut_seq(s, a, b), sc, k - (b - a)) == vis_from(s, sc, k),
{
    let c = cut_seq(s, a, b);
    let d = b - a;
    lemma_cut_index(s, a, b);
    if vis_from(s, sc, k) {
        assert forall|j: int| sc <= j < k - d && #[trigger] is_ancestor(c, j, k - d) implies !c[j].collapsed by {
            if j < a {
                lemma_cut_ancestor(s, a, b, j, k);
                assert(is_ancestor(s, j, k));
            } else {
                assert(c[j] == s[j + d]);
                lemma_ancestor_shift(s, c, -d, 0, b, s.len() as int, j + d, k);
                assert(is_ancestor(s, j + d, k));
            }
        }
    }
    if vis_from(c, sc, k - d) {
        assert forall|j: int| sc <= j < k && #[trigger] is_ancestor(s, j, k) implies !s[j].collapsed by {
            if j < a {
                lemma_cut_ancestor(s, a, b, j, k);
            } else if j < b {
                // Inside the cut no subtree reaches `k`.
                lemma_run_end(s, s[j].level, j + 1);
                lemma_ancestor_iff(s, j, k);
                assert(false);
            } else {
                lemma_ancestor_shift(s, c, -d, 0, b, s.len() as int, j, k);
                assert(is_ancestor(c, j - d, k - d));
            }
        }
    }
}

/// Counts before a clean cut are unchanged.
pub proof fn lemma_cut_count_prefix(s: Seq<NodeShape>, a: int, b: int, sc: int, lo: int, hi: int)
    requires
        cut_ok(s, a, b),
        0 <= sc <= lo <= hi <= a,
    ensures
        vis_count(cut_seq(s, a, b), sc, lo, hi) == vis_count(s, sc, lo, hi),
    decreases hi - lo,
{
    if lo < hi {
        lemma_cut_vis_prefix(s, a, b, sc, lo);
        lemma_cut_count_prefix(s, a, b, sc, lo + 1, hi);
    }
}

/// Counts after a clean cut are unchanged, from any vantage point at or
/// before its left edge.
pub proof fn lemma_cut_count_suffix(s: Seq<NodeShape>, a: int, b: int, sc: int, lo: int, hi: int)
    requires
        cut_ok(s, a, b),
        0 <= sc <= a,
        b <= lo <= hi <= s.len(),
    ensures
        vis_count(cut_seq(s, a, b), sc, lo - (b - a), hi - (b - a)) == vis_count(s, sc, lo, hi),
    decreases hi - lo,
{
    if lo < hi {
        lemma_cut_vis_suffix(s, a, b, sc, lo);
        lemma_cut_count_suffix(s, a, b, sc, lo + 1, hi);
    }
}

/// A node whose subtree ends at or before a clean cut keeps its boundary
/// and all measures.
pub proof fn lemma_cut_prefix_measures(s: Seq<NodeShape>, a: int, b: int, j: int)
    requires
        cut_ok(s, a, b),
        0 <= j < a,
        subtree_end(s, j) <= a,
    ensures
        subtree_end(cut_seq(s, a, b), j) == subtree_end(s, j),
        desc_count(cut_seq(s, a, b), j) == desc_count(s, j),
        node_height(cut_seq(s, a, b), j) == node_height(s, j),
        exp_height(cut_seq(s, a, b), j) == exp_height(s, j),
{
    let c = cut_seq(s, a, b);
    let e = subtree_end(s, j);
    lemma_cut_index(s, a, b);
    lemma_run_end(s, s[j].level, j + 1);
    assert forall|m: int| j + 1 <= m < e implies #[trigger] c[m].level > c[j].level by {
        assert(s[m].level > s[j].level);
    }
    if e == a {
        // The run cannot continue into what follows the cut: if the entry
        // after the cut were deeper than `j`, the whole cut would be too,
        // and `j`'s run would not have ended at its left edge.
        if a < c.len() {
            assert(c[a] == s[b]);
            if s[b].level > s[j].level {
                lemma_cut_deep(s, a, b, s[j].level, a);
                assert(s[a].level > s[j].level);
                assert(false);
            }
        }
    } else {
        assert(c[e] == s[e]);
    }
    lemma_run_end_is(c, c[j].level, j + 1, e);
    lemma_vis_count_shift(s, c, 0, 0, j, j, e);
    lemma_vis_count_shift(s, c, 0, 0, j + 1, j + 1, e);
    lemma_height_unfold(s, j);
    lemma_height_unfold(c, j);
}

/// A node whose subtree spans a clean cut loses exactly the cut's width
/// from its descendant count and the cut's visible rows from its height
/// measures.
pub proof fn lemma_cut_ancestor_measures(s: Seq<NodeShape>, a: int, b: int, j: int)
    requires
        cut_ok(s, a, b),
        0 <= j < a,
        subtree_end(s, j) >= b,
    ensures
        subtree_end(cut_seq(s, a, b), j) == subtree_end(s, j) - (b - a),
        desc_count(cut_seq(s, a, b), j) == desc_count(s, j) - (b - a),
        node_height(s, j) == node_height(cut_seq(s, a, b), j) + vis_count(s, j, a, b),
        exp_height(s, j) == exp_height(cut_seq(s, a, b), j) + vis_count(s, j + 1, a, b),
{
    let c = cut_seq(s, a, b);
    let d = b - a;
    let e = subtree_end(s, j);
    lemma_cut_index(s, a, b);
    lemma_run_end(s, s[j].level, j + 1);
    assert forall|m: int| j + 1 <= m < e - d implies #[trigger] c[m].level > c[j].level by {
        if m < a {
            assert(s[m].level > s[j].level);
        } else {
            assert(c[m] == s[m + d]);
            assert(s[m + d].level > s[j].level);
        }
    }
    if e - d < c.len() {
        assert(c[e - d] == s[e]);
    }
    lemma_run_end_is(c, c[j].level, j + 1, e - d);
    // Heights: split at the cut on both sides.
    lemma_vis_count_split(s, j, j, a, e);
    lemma_vis_count_split(s, j, a, b, e);
    lemma_vis_count_split(c, j, j, a, e - d);
    lemma_cut_count_prefix(s, a, b, j, j, a);
    lemma_cut_count_suffix(s, a, b, j, b, e);
    lemma_vis_count_split(s, j + 1, j + 1, a, e);
    lemma_vis_count_split(s, j + 1, a, b, e);
    lemma_vis_count_split(c, j + 1, j + 1, a, e - d);
    lemma_cut_count_prefix(s, a, b, j + 1, j + 1, a);
    lemma_cut_count_suffix(s, a, b, j + 1, b, e);
    lemma_height_unfold(s, j);
    lemma_height_unfold(c, j);
    assert(vis_from(s, j, j) && vis_from(c, j, j));
}

/// A node entirely after a clean cut keeps all measures.
pub proof fn lemma_cut_suffix_measures(s: Seq<NodeShape>, a: int, b: int, j: int)
    requires
        cut_ok(s, a, b),
        b <= j < s.len(),
    ensures
        subtree_end(cut_seq(s, a, b), j - (b - a)) == subtree_end(s, j) - (b - a),
        desc_count(cut_seq(s, a, b), j - (b - a)) == desc_count(s, j),
        node_height(cut_seq(s, a, b), j - (b - a)) == node_height(s, j),
        exp_height(cut_seq(s, a, b), j - (b - a)) == exp_height(s, j),
        cut_seq(s, a, b)[j - (b - a)] == s[j],
{
    let c = cut_seq(s, a, b);
    let d = b - a;
    lemma_cut_index(s, a, b);
    lemma_run_end(s, s[j].level, j + 1);
    assert forall|m: int| b <= m < s.len() implies #[trigger] level_shift_at(s, c, -d, 0, m)
        && flag_shift_at(s, c, -d, m) by {
        assert(c[m - d] == s[m]);
    }
    lemma_measures_shift(s, c, -d, 0, b, s.len() as int, j);
}

/// The total height after a clean cut drops by exactly the visible rows
/// that the cut contained.
pub proof fn lemma_cut_total(s: Seq<NodeShape>, a: int, b: int)
    requires
        cut_ok(s, a, b),
    ensures
        total_height(s) == total_height(cut_seq(s, a, b)) + vis_count(s, 0, a, b),
{
    let c = cut_seq(s, a, b);
    lemma_cut_index(s, a, b);
    lemma_vis_count_split(s, 0, 0, a, s.len() as int);
    lemma_vis_count_split(s, 0, a, b, s.len() as int);
    lemma_vis_count_split(c, 0, 0, a, c.len() as int);
    lemma_cut_count_prefix(s, a, b, 0, 0, a);
    lemma_cut_count_suffix(s, a, b, 0, b, s.len() as int);
}

/// What a deleted subtree range contributes to a count seen from `sc`: the
/// node's full stored height when the node is visible from there, nothing
/// otherwise; and, strictly below the node, its hidden rows exactly when it
/// is visible and expanded.
pub proof fn lemma_removed_count(s: Seq<NodeShape>, sc: int, i: int)
    requires
        0 <= sc <= i < s.len(),
    ensures
        vis_count(s, sc, i, subtree_end(s, i)) == if vis_from(s, sc, i) {
            node_height(s, i)
        } else {
            0nat
        },
        vis_count(s, sc, i + 1, subtree_end(s, i)) == if vis_from(s, sc, i) && !s[i].collapsed {
            (exp_height(s, i) - 1) as nat
        } else {
            0nat
        },
{
    let e = subtree_end(s, i);
    lemma_run_end(s, s[i].level, i + 1);
    lemma_height_unfold(s, i);
    lemma_vis_count_split(s, sc, i, i + 1, e);
    if vis_from(s, sc, i) && !s[i].collapsed {
        lemma_vis_count_scope(s, sc, i, i + 1, e);
    } else {
        lemma_vis_count_zero(s, sc, i, i + 1, e);
    }
}

/// Stepping past a visible position: the next position (if the node is
/// expanded) or the end of its subtree (in any case) is visible again, and
/// exactly one visible row lies in between.
pub proof fn lemma_vis_step(s: Seq<NodeShape>, i: int)
    requires
        0 <= i < s.len(),
        vis_from(s, 0, i),
    ensures
        !s[i].collapsed ==> vis_from(s, 0, i + 1),
        vis_from(s, 0, subtree_end(s, i)),
        vis_count(s, 0, 0, i + 1) == vis_count(s, 0, 0, i) + 1,
        s[i].collapsed ==> vis_count(s, 0, 0, subtree_end(s, i)) == vis_count(s, 0, 0, i) + 1,
        i < subtree_end(s, i) <= s.len(),
    decreases 0int,
{
    let e = subtree_end(s, i);
    lemma_run_end(s, s[i].level, i + 1);
    if !s[i].collapsed {
        assert forall|j: int| 0 <= j < i + 1 && #[trigger] is_ancestor(s, j, i + 1) implies !s[j].collapsed by {
            if j < i {
                assert(is_ancestor(s, j, i));
            }
        }
    }
    if e < s.len() {
        assert forall|j: int| 0 <= j < e && #[trigger] is_ancestor(s, j, e) implies !s[j].collapsed by {
            lemma_ancestor_iff(s, i, e);
            if j < i {
                assert(is_ancestor(s, j, i));
            } else if j > i {
                lemma_ancestor_iff(s, j, e);
                lemma_subtree_nested(s, i, j);
            }
        }
    }
    lemma_vis_count_split(s, 0, 0, i, i + 1);
    assert(vis_count(s, 0, i, i + 1) == 1nat + vis_count(s, 0, i + 1, i + 1));
    if s[i].collapsed {
        lemma_vis_count_split(s, 0, 0, i + 1, e);
        lemma_vis_count_zero(s, 0, i, i + 1, e);
    }
}

/// The storage index of the `row`-th visible position.
pub open spec fn index_of_row(s: Seq<NodeShape>, row: int) -> int {
    choose|idx: int|
        0 <= idx < s.len() && vis_from(s, 0, idx) && vis_count(s, 0, 0, idx) == row
}

/// At most one storage index sits at any visible row.
pub proof fn lemma_row_unique(s: Seq<NodeShape>, idx1: int, idx2: int)
    requires
        0 <= idx1 < s.len(),
        0 <= idx2 < s.len(),
        vis_from(s, 0, idx1),
        vis_from(s, 0, idx2),
        vis_count(s, 0, 0, idx1) == vis_count(s, 0, 0, idx2),
    ensures
        idx1 == idx2,
{
    if idx1 < idx2 {
        lemma_vis_count_split(s, 0, 0, idx1 + 1, idx2);
        lemma_vis_count_split(s, 0, 0, idx1, idx1 + 1);
    }
    if idx2 < idx1 {
        lemma_vis_count_split(s, 0, 0, idx2 + 1, idx1);
        lemma_vis_count_split(s, 0, 0, idx2, idx2 + 1);
    }
}

/// Every row below the total corresponds to some visible storage index at
/// or after `k`, provided the rows before `k` have not yet reached it.
proof fn lemma_find_row(s: Seq<NodeShape>, row: int, k: int)
    requires
        0 <= k <= s.len(),
        vis_count(s, 0, 0, k) <= row < total_height(s),
    ensures
        exists|idx: int|
            0 <= idx < s.len() && #[trigger] vis_from(s, 0, idx) && vis_count(s, 0, 0, idx)
                == row,
    decreases s.len() - k,
{
    if k == s.len() {
        assert(false);
    } else {
        lemma_vis_count_split(s, 0, 0, k, k + 1);
        assert(vis_count(s, 0, k, k + 1) == (if vis_from(s, 0, k) {
            1nat
        } else {
            0nat
        }) + vis_count(s, 0, k + 1, k + 1));
        if vis_from(s, 0, k) && vis_count(s, 0, 0, k) == row {
        } else {
            lemma_find_row(s, row, k + 1);
        }
    }
}

/// Round trip between rows and storage indexes: for any row within the
/// visible height, the `row`-th visible storage index exists, is unique,
/// and translating it back (counting the visible positions before it)
/// yields the row again.
pub proof fn lemma_row_index_round_trip(s: Seq<NodeShape>, row: int)
    requires
        0 <= row < total_height(s),
    ensures
        0 <= index_of_row(s, row) < s.len(),
        vis_from(s, 0, index_of_row(s, row)),
        vis_count(s, 0, 0, index_of_row(s, row)) == row,
        forall|idx: int|
            0 <= idx < s.len() && #[trigger] vis_from(s, 0, idx) && vis_count(s, 0, 0, idx)
                == row ==> idx == index_of_row(s, row),
{
    lemma_find_row(s, row, 0);
    let w = index_of_row(s, row);
    assert(0 <= w < s.len() && vis_from(s, 0, w) && vis_count(s, 0, 0, w) == row);
    assert forall|idx: int|
        0 <= idx < s.len() && #[trigger] vis_from(s, 0, idx) && vis_count(s, 0, 0, idx)
            == row implies idx == w by {
        lemma_row_unique(s, idx, w);
    }
}

/// In a valid forest encoding no node sits deeper than its position.
pub proof fn lemma_level_le(s: Seq<NodeShape>, m: int)
    requires
        valid_levels(s),
        0 <= m < s.len(),
    ensures
        s[m].level <= m,
    decreases m,
{
    if m > 0 {
        lemma_level_le(s, m - 1);
    }
}

/// `j` is an ancestor of the point `p` for a new node at level `lv`: it
/// would sit on the new node's path to the root.
pub open spec fn pt_anc(s: Seq<NodeShape>, p: int, lv: nat, j: int) -> bool {
    0 <= j < p <= s.len() && lv > s[j].level && forall|m: int|
        j < m < p ==> #[trigger] s[m].level > s[j].level
}

/// No ancestor of the point `p` at or after `sc` is collapsed: a node
/// inserted there at level `lv` occupies a visible row.
pub open spec fn pt_vis(s: Seq<NodeShape>, p: int, lv: nat, sc: int) -> bool {
    forall|j: int| sc <= j < p && #[trigger] pt_anc(s, p, lv, j) ==> !s[j].collapsed
}

/// Every node one level deeper, flags unchanged.
pub open spec fn bump_levels(s: Seq<NodeShape>) -> Seq<NodeShape> {
    s.map_values(|x: NodeShape| NodeShape { level: (x.level + 1) as nat, ..x })
}

/// The sequence with a new node `n` inserted at `p`, adopting the block
/// `[p, e0)` as its subtree (each block member one level deeper).  With
/// `e0 == p` the new node is a leaf.
pub open spec fn splice_one(s: Seq<NodeShape>, p: int, n: NodeShape, e0: int) -> Seq<NodeShape> {
    s.subrange(0, p) + seq![n] + bump_levels(s.subrange(p, e0)) + s.subrange(e0, s.len() as int)
}

/// The splice is structurally sound: the block sits at or below the new
/// node's level and starts exactly on it, what follows the block closes it,
/// and no earlier subtree is torn (any run reaching past `p` is deeper than
/// the new node).  A non-empty block demands an expanded new node.
pub open spec fn splice_ok(s: Seq<NodeShape>, p: int, n: NodeShape, e0: int) -> bool {
    &&& 0 <= p <= e0 <= s.len()
    &&& forall|m: int| p <= m < e0 ==> (#[trigger] s[m].level) >= n.level
    &&& (e0 < s.len() ==> s[e0].level <= n.level)
    &&& forall|j: int| 0 <= j < p && p < #[trigger] subtree_end(s, j) ==> n.level > s[j].level
    &&& (p < e0 ==> s[p].level == n.level)
    &&& (p < e0 ==> !n.collapsed)
}

/// Indexing into a splice, zone by zone.
pub proof fn lemma_splice_index(s: Seq<NodeShape>, p: int, n: NodeShape, e0: int)
    requires
        0 <= p <= e0 <= s.len(),
    ensures
        splice_one(s, p, n, e0).len() == s.len() + 1,
        forall|m: int| 0 <= m < p ==> #[trigger] splice_one(s, p, n, e0)[m] == s[m],
        splice_one(s, p, n, e0)[p] == n,
        forall|m: int|
            p < m <= e0 ==> (#[trigger] splice_one(s, p, n, e0)[m]) == (NodeShape {
                level: (s[m - 1].level + 1) as nat,
                ..s[m - 1]
            }),
        forall|m: int|
            e0 < m <= s.len() ==> #[trigger] splice_one(s, p, n, e0)[m] == s[m - 1],
{
    let t = splice_one(s, p, n, e0);
    assert forall|m: int| p < m <= e0 implies (#[trigger] t[m]) == (NodeShape {
        level: (s[m - 1].level + 1) as nat,
        ..s[m - 1]
    }) by {
        assert(t[m] == bump_levels(s.subrange(p, e0))[m - p - 1]);
    }
}

/// Ancestors across a splice: among earlier positions, the new node's
/// ancestors are exactly the point's ancestors; every block member has
/// exactly those (plus the new node); and the relation between earlier and
/// later positions is untouched.
pub proof fn lemma_splice_anc(s: Seq<NodeShape>, p: int, n: NodeShape, e0: int, j: int, k: int)
    requires
        splice_ok(s, p, n, e0),
        0 <= j < p,
        p <= k <= s.len(),
    ensures
        k == p ==> (is_ancestor(splice_one(s, p, n, e0), j, p) <==> pt_anc(s, p, n.level, j)),
        p <= k - 1 < e0 ==> (is_ancestor(splice_one(s, p, n, e0), j, k) <==> pt_anc(
            s,
            p,
            n.level,
            j,
        )),
        e0 <= k - 1 < s.len() ==> (is_ancestor(splice_one(s, p, n, e0), j, k) <==> is_ancestor(
            s,
            j,
            k - 1,
        )),
{
    let t = splice_one(s, p, n, e0);
    lemma_splice_index(s, p, n, e0);
    if k == p || p <= k - 1 < e0 {
        if pt_anc(s, p, n.level, j) {
            assert forall|m: int| j < m <= k implies #[trigger] t[m].level > t[j].level by {
                if m < p {
                    assert(s[m].level > s[j].level);
                } else if m > p {
                    assert(s[m - 1].level >= n.level);
                }
            }
        }
        if is_ancestor(t, j, k) {
            assert(t[p].level > t[j].level);
            assert forall|m: int| j < m < p implies #[trigger] s[m].level > s[j].level by {
                assert(t[m].level > t[j].level);
            }
        }
    }
    if e0 <= k - 1 < s.len() {
        if is_ancestor(s, j, k - 1) {
            // The old run reaches past `p`, so the new node and the block
            // are deeper than `j`.
            lemma_run_end(s, s[j].level, j + 1);
            lemma_ancestor_iff(s, j, k - 1);
            assert(p < subtree_end(s, j));
            assert forall|m: int| j < m <= k implies #[trigger] t[m].level > t[j].level by {
                if m < p {
                    assert(s[m].level > s[j].level);
                } else if m == p {
                    assert(n.level > s[j].level);
                } else if m <= e0 {
                    assert(s[m - 1].level >= n.level);
                } else {
                    assert(s[m - 1].level > s[j].level);
                }
            }
        }
        if is_ancestor(t, j, k) {
            assert forall|m: int| j < m <= k - 1 implies #[trigger] s[m].level > s[j].level by {
                if m < p {
                    assert(t[m].level > t[j].level);
                } else if m < e0 {
                    assert(t[m + 1].level > t[j].level);
                    assert(t[m + 1].level == s[m].level + 1);
                    assert(t[p].level > t[j].level);
                    assert(s[m].level >= n.level);
                } else {
                    assert(t[m + 1].level > t[j].level);
                }
            }
        }
    }
}

/// The new node's subtree in a splice is exactly the adopted block.
pub proof fn lemma_splice_new_end(s: Seq<NodeShape>, p: int, n: NodeShape, e0: int)
    requires
        splice_ok(s, p, n, e0),
    ensures
        subtree_end(splice_one(s, p, n, e0), p) == e0 + 1,
{
    let t = splice_one(s, p, n, e0);
    lemma_splice_index(s, p, n, e0);
    assert forall|m: int| p + 1 <= m < e0 + 1 implies #[trigger] t[m].level > t[p].level by {
        assert(s[m - 1].level >= n.level);
    }
    if e0 + 1 < t.len() {
        assert(t[e0 + 1] == s[e0]);
    }
    lemma_run_end_is(t, t[p].level, p + 1, e0 + 1);
}

/// Visibility across a splice, zone by zone, from a vantage point at or
/// before the splice point.
pub proof fn lemma_splice_vis(s: Seq<NodeShape>, p: int, n: NodeShape, e0: int, sc: int, k: int)
    requires
        splice_ok(s, p, n, e0),
        0 <= sc <= p,
        sc <= k <= s.len(),
    ensures
        k < p ==> (vis_from(splice_one(s, p, n, e0), sc, k) <==> vis_from(s, sc, k)),
        k == p ==> (vis_from(splice_one(s, p, n, e0), sc, p) <==> pt_vis(s, p, n.level, sc)),
        p <= k - 1 < e0 ==> (vis_from(splice_one(s, p, n, e0), sc, k) <==> vis_from(s, sc, k - 1)),
        e0 <= k - 1 < s.len() ==> (vis_from(splice_one(s, p, n, e0), sc, k) <==> vis_from(
            s,
            sc,
            k - 1,
        )),
    decreases 0int,
{
    let t = splice_one(s, p, n, e0);
    lemma_splice_index(s, p, n, e0);
    if k < p {
        assert forall|m: int| 0 <= m < p implies #[trigger] level_shift_at(s, t, 0, 0, m)
            && flag_shift_at(s, t, 0, m) by {}
        lemma_vis_from_shift(s, t, 0, 0, sc, k);
    } else if k == p {
        if vis_from(t, sc, p) {
            assert forall|j: int| sc <= j < p && #[trigger] pt_anc(s, p, n.level, j) implies !s[j].collapsed by {
                lemma_splice_anc(s, p, n, e0, j, p);
            }
        }
        if pt_vis(s, p, n.level, sc) {
            assert forall|j: int| sc <= j < p && #[trigger] is_ancestor(t, j, p) implies !t[j].collapsed by {
                lemma_splice_anc(s, p, n, e0, j, p);
            }
        }
    } else if p <= k - 1 < e0 {
        // Block members: their prefix ancestors are the point's old
        // ancestors of the block root, which has the new node's level.
        assert(s[p].level == n.level && !n.collapsed);
        if vis_from(t, sc, k) {
            assert forall|j: int| sc <= j < k - 1 && #[trigger] is_ancestor(s, j, k - 1) implies !s[j].collapsed by {
                if j < p {
                    assert(pt_anc(s, p, n.level, j)) by {
                        assert(s[p].level > s[j].level);
                    }
                    lemma_splice_anc(s, p, n, e0, j, k);
                    assert(is_ancestor(t, j, k));
                } else {
                    lemma_ancestor_shift(s, t, 1, 1, p, e0, j, k - 1);
                    assert(is_ancestor(t, j + 1, k));
                }
            }
        }
        if vis_from(s, sc, k - 1) {
            assert forall|j: int| sc <= j < k && #[trigger] is_ancestor(t, j, k) implies !t[j].collapsed by {
                if j < p {
                    lemma_splice_anc(s, p, n, e0, j, k);
                    assert(pt_anc(s, p, n.level, j));
                    assert(is_ancestor(s, j, k - 1)) by {
                        assert forall|m: int| j < m <= k - 1 implies #[trigger] s[m].level
                            > s[j].level by {
                            if m >= p {
                                assert(s[m].level >= n.level);
                            }
                        }
                    }
                } else if j == p {
                } else {
                    lemma_ancestor_shift(s, t, 1, 1, p, e0, j - 1, k - 1);
                    assert(is_ancestor(s, j - 1, k - 1));
                }
            }
        }
    } else {
        // Suffix: the new node and block are never ancestors of what
        // follows the block.
        let k1 = k - 1;
        if vis_from(t, sc, k) {
            assert forall|j: int| sc <= j < k1 && #[trigger] is_ancestor(s, j, k1) implies !s[j].collapsed by {
                if j < p {
                    lemma_splice_anc(s, p, n, e0, j, k);
                    assert(is_ancestor(t, j, k));
                } else {
                    assert forall|m2: int| j + 1 < m2 <= k implies #[trigger] t[m2].level > t[j
                        + 1].level by {
                        if m2 <= e0 {
                            assert(t[m2].level == s[m2 - 1].level + 1);
                            assert(s[m2 - 1].level > s[j].level);
                            assert(t[j + 1].level == if j < e0 {
                                s[j].level + 1
                            } else {
                                s[j].level
                            });
                        } else {
                            assert(t[m2] == s[m2 - 1]);
                            assert(s[m2 - 1].level > s[j].level);
                            if j < e0 {
                                assert(s[j].level >= n.level);
                                assert(s[m2 - 1].level > s[j].level);
                            }
                        }
                    }
                    assert(is_ancestor(t, j + 1, k));
                }
            }
        }
        if vis_from(s, sc, k1) {
            assert forall|j: int| sc <= j < k && #[trigger] is_ancestor(t, j, k) implies !t[j].collapsed by {
                if j < p {
                    lemma_splice_anc(s, p, n, e0, j, k);
                } else if j == p {
                    lemma_splice_new_end(s, p, n, e0);
                    lemma_ancestor_iff(t, p, k);
                    assert(false);
                } else if j <= e0 {
                    // A block member cannot reach past the block: the entry
                    // after the block closes every subtree inside it.
                    assert(e0 < s.len());
                    assert(t[e0 + 1] == s[e0]);
                    assert(t[j].level == s[j - 1].level + 1);
                    assert(s[e0].level <= n.level);
                    assert(s[j - 1].level >= n.level);
                    assert(j < e0 + 1 <= k);
                    assert(t[e0 + 1].level > t[j].level);
                    assert(false);
                } else {
                    assert forall|m2: int| j - 1 < m2 <= k1 implies #[trigger] s[m2].level > s[j
                        - 1].level by {
                        assert(t[m2 + 1].level > t[j].level);
                        assert(t[m2 + 1] == s[m2]);
                    }
                    assert(is_ancestor(s, j - 1, k1));
                }
            }
        }
    }
}

/// Counts before the splice point are unchanged.
pub proof fn lemma_splice_count_prefix(
    s: Seq<NodeShape>,
    p: int,
    n: NodeShape,
    e0: int,
    sc: int,
    lo: int,
    hi: int,
)
    requires
        splice_ok(s, p, n, e0),
        0 <= sc <= lo <= hi <= p,
    ensures
        vis_count(splice_one(s, p, n, e0), sc, lo, hi) == vis_count(s, sc, lo, hi),
    decreases hi - lo,
{
    if lo < hi {
        lemma_splice_vis(s, p, n, e0, sc, lo);
        lemma_splice_count_prefix(s, p, n, e0, sc, lo + 1, hi);
    }
}

/// Counts past the splice point shift by one position and are otherwise
/// unchanged, from any vantage point at or before the point.
pub proof fn lemma_splice_count_tail(
    s: Seq<NodeShape>,
    p: int,
    n: NodeShape,
    e0: int,
    sc: int,
    lo: int,
    hi: int,
)
    requires
        splice_ok(s, p, n, e0),
        0 <= sc <= p <= lo <= hi <= s.len(),
    ensures
        vis_count(splice_one(s, p, n, e0), sc, lo + 1, hi + 1) == vis_count(s, sc, lo, hi),
    decreases hi - lo,
{
    if lo < hi {
        lemma_splice_vis(s, p, n, e0, sc, lo + 1);
        lemma_splice_count_tail(s, p, n, e0, sc, lo + 1, hi);
    }
}

/// The total height after a splice grows by one exactly when the new node
/// is visible.
pub proof fn lemma_splice_total(s: Seq<NodeShape>, p: int, n: NodeShape, e0: int)
    requires
        splice_ok(s, p, n, e0),
    ensures
        total_height(splice_one(s, p, n, e0)) == total_height(s) + (if pt_vis(s, p, n.level, 0) {
            1nat
        } else {
            0nat
        }),
{
    let t = splice_one(s, p, n, e0);
    lemma_splice_index(s, p, n, e0);
    lemma_vis_count_split(t, 0, 0, p, t.len() as int);
    lemma_vis_count_split(t, 0, p, p + 1, t.len() as int);
    lemma_vis_count_split(s, 0, 0, p, s.len() as int);
    lemma_splice_count_prefix(s, p, n, e0, 0, 0, p);
    lemma_splice_count_tail(s, p, n, e0, 0, p, s.len() as int);
    lemma_splice_vis(s, p, n, e0, 0, p);
    assert(vis_count(t, 0, p, p + 1) == (if vis_from(t, 0, p) {
        1nat
    } else {
        0nat
    }) + vis_count(t, 0, p + 1, p + 1));
}

/// Measures of an ancestor of the splice point: its subtree absorbs the new
/// node, and its height measures grow by one exactly when they showed the
/// point.
pub proof fn lemma_splice_pt_measures(s: Seq<NodeShape>, p: int, n: NodeShape, e0: int, j: int)
    requires
        splice_ok(s, p, n, e0),
        pt_anc(s, p, n.level, j),
    ensures
        p <= subtree_end(s, j),
        subtree_end(splice_one(s, p, n, e0), j) == subtree_end(s, j) + 1,
        desc_count(splice_one(s, p, n, e0), j) == desc_count(s, j) + 1,
        node_height(splice_one(s, p, n, e0), j) == node_height(s, j) + (if pt_vis(
            s,
            p,
            n.level,
            j,
        ) {
            1nat
        } else {
            0nat
        }),
        exp_height(splice_one(s, p, n, e0), j) == exp_height(s, j) + (if pt_vis(
            s,
            p,
            n.level,
            j + 1,
        ) {
            1nat
        } else {
            0nat
        }),
{
    let t = splice_one(s, p, n, e0);
    let ej = subtree_end(s, j);
    lemma_splice_index(s, p, n, e0);
    lemma_run_end(s, s[j].level, j + 1);
    // The run reaches the point.
    assert(p <= ej) by {
        if ej < p {
            assert(s[ej].level > s[j].level);
        }
    }
    // The block is deeper than `j`, so the run reaches past it too.
    assert(e0 <= ej || ej < p) by {
        if p <= ej < e0 {
            assert(s[ej].level >= n.level);
        }
    }
    assert forall|m: int| j + 1 <= m < ej + 1 implies #[trigger] t[m].level > t[j].level by {
        if m < p {
            assert(s[m].level > s[j].level);
        } else if m == p {
        } else if m <= e0 {
            assert(s[m - 1].level >= n.level);
        } else {
            assert(s[m - 1].level > s[j].level);
        }
    }
    if ej + 1 < t.len() {
        assert(t[ej + 1] == s[ej]);
    }
    lemma_run_end_is(t, t[j].level, j + 1, ej + 1);
    // Heights: split at the point on both sides.
    lemma_vis_count_split(s, j, j, p, ej);
    lemma_vis_count_split(t, j, j, p, ej + 1);
    lemma_vis_count_split(t, j, p, p + 1, ej + 1);
    lemma_splice_count_prefix(s, p, n, e0, j, j, p);
    lemma_splice_count_tail(s, p, n, e0, j, p, ej);
    lemma_splice_vis(s, p, n, e0, j, p);
    assert(vis_count(t, j, p, p + 1) == (if vis_from(t, j, p) {
        1nat
    } else {
        0nat
    }) + vis_count(t, j, p + 1, p + 1));
    lemma_vis_count_split(s, j + 1, j + 1, p, ej);
    lemma_vis_count_split(t, j + 1, j + 1, p, ej + 1);
    lemma_vis_count_split(t, j + 1, p, p + 1, ej + 1);
    lemma_splice_count_prefix(s, p, n, e0, j + 1, j + 1, p);
    lemma_splice_count_tail(s, p, n, e0, j + 1, p, ej);
    lemma_splice_vis(s, p, n, e0, j + 1, p);
    assert(vis_count(t, j + 1, p, p + 1) == (if vis_from(t, j + 1, p) {
        1nat
    } else {
        0nat
    }) + vis_count(t, j + 1, p + 1, p + 1));
    lemma_height_unfold(s, j);
    lemma_height_unfold(t, j);
    assert(vis_from(s, j, j) && vis_from(t, j, j));
}

/// Measures of an earlier node that is no ancestor of the splice point are
/// unchanged.
pub proof fn lemma_splice_nonpt_measures(s: Seq<NodeShape>, p: int, n: NodeShape, e0: int, j: int)
    requires
        splice_ok(s, p, n, e0),
        0 <= j < p,
        !pt_anc(s, p, n.level, j),
    ensures
        subtree_end(splice_one(s, p, n, e0), j) == subtree_end(s, j),
        desc_count(splice_one(s, p, n, e0), j) == desc_count(s, j),
        node_height(splice_one(s, p, n, e0), j) == node_height(s, j),
        exp_height(splice_one(s, p, n, e0), j) == exp_height(s, j),
{
    let t = splice_one(s, p, n, e0);
    let ej = subtree_end(s, j);
    lemma_splice_index(s, p, n, e0);
    lemma_run_end(s, s[j].level, j + 1);
    // A run reaching past the point would make `j` an ancestor of the point.
    assert(ej <= p) by {
        if p < ej {
            assert forall|m: int| j < m < p implies #[trigger] s[m].level > s[j].level by {}
            assert(pt_anc(s, p, n.level, j));
        }
    }
    // And a run ending exactly at the point is not extended by the new
    // node, which sits at or above `j`'s level.
    assert forall|m: int| j + 1 <= m < ej implies #[trigger] t[m].level > t[j].level by {
        assert(s[m].level > s[j].level);
    }
    if ej < p {
        assert(t[ej] == s[ej]);
    } else {
        assert(t[ej] == n);
        assert(n.level <= s[j].level) by {
            if n.level > s[j].level {
                assert forall|m: int| j < m < p implies #[trigger] s[m].level > s[j].level by {}
                assert(pt_anc(s, p, n.level, j));
            }
        }
    }
    lemma_run_end_is(t, t[j].level, j + 1, ej);
    lemma_vis_count_split(s, j, j, ej, ej);
    lemma_splice_count_prefix(s, p, n, e0, j, j, ej);
    lemma_splice_count_prefix(s, p, n, e0, j + 1, j + 1, ej);
    lemma_height_unfold(s, j);
    lemma_height_unfold(t, j);
}

/// Measures of a block member are unchanged (it moves one slot and one
/// level down).
pub proof fn lemma_splice_block_measures(s: Seq<NodeShape>, p: int, n: NodeShape, e0: int, m: int)
    requires
        splice_ok(s, p, n, e0),
        p <= m < e0,
    ensures
        subtree_end(s, m) <= e0,
        subtree_end(splice_one(s, p, n, e0), m + 1) == subtree_end(s, m) + 1,
        desc_count(splice_one(s, p, n, e0), m + 1) == desc_count(s, m),
        node_height(splice_one(s, p, n, e0), m + 1) == node_height(s, m),
        exp_height(splice_one(s, p, n, e0), m + 1) == exp_height(s, m),
        splice_one(s, p, n, e0)[m + 1].collapsed == s[m].collapsed,
{
    let t = splice_one(s, p, n, e0);
    lemma_splice_index(s, p, n, e0);
    lemma_run_end(s, s[m].level, m + 1);
    assert(subtree_end(s, m) <= e0) by {
        if e0 < subtree_end(s, m) {
            assert(s[e0].level > s[m].level);
            assert(s[m].level >= n.level);
        }
    }
    assert forall|m2: int| p <= m2 < e0 implies #[trigger] level_shift_at(s, t, 1, 1, m2)
        && flag_shift_at(s, t, 1, m2) by {}
    lemma_measures_shift(s, t, 1, 1, p, e0, m);
}

/// Measures of a node after the block are unchanged (it moves one slot
/// down).
pub proof fn lemma_splice_suffix_measures(s: Seq<NodeShape>, p: int, n: NodeShape, e0: int, k: int)
    requires
        splice_ok(s, p, n, e0),
        e0 <= k < s.len(),
    ensures
        subtree_end(splice_one(s, p, n, e0), k + 1) == subtree_end(s, k) + 1,
        desc_count(splice_one(s, p, n, e0), k + 1) == desc_count(s, k),
        node_height(splice_one(s, p, n, e0), k + 1) == node_height(s, k),
        exp_height(splice_one(s, p, n, e0), k + 1) == exp_height(s, k),
        splice_one(s, p, n, e0)[k + 1] == s[k],
{
    let t = splice_one(s, p, n, e0);
    lemma_splice_index(s, p, n, e0);
    lemma_run_end(s, s[k].level, k + 1);
    assert forall|m2: int| e0 <= m2 < s.len() implies #[trigger] level_shift_at(s, t, 1, 0, m2)
        && flag_shift_at(s, t, 1, m2) by {}
    lemma_measures_shift(s, t, 1, 0, e0, s.len() as int, k);
}

/// Measures of the new node itself: it owns exactly the adopted block; as a
/// leaf it has height 1, and when it adopts the whole former subtree of the
/// block root it shows one row more than that subtree did.
pub proof fn lemma_splice_new_measures(s: Seq<NodeShape>, p: int, n: NodeShape, e0: int)
    requires
        splice_ok(s, p, n, e0),
        p < e0 ==> subtree_end(s, p) == e0 && (forall|m: int|
            p < m < e0 ==> (#[trigger] s[m].level) > n.level),
    ensures
        subtree_end(splice_one(s, p, n, e0), p) == e0 + 1,
        desc_count(splice_one(s, p, n, e0), p) == e0 - p,
        p == e0 ==> node_height(splice_one(s, p, n, e0), p) == 1 && exp_height(
            splice_one(s, p, n, e0),
            p,
        ) == 1,
        p < e0 ==> node_height(splice_one(s, p, n, e0), p) == 1 + node_height(s, p) && exp_height(
            splice_one(s, p, n, e0),
            p,
        ) == 1 + node_height(s, p),
{
    let t = splice_one(s, p, n, e0);
    lemma_splice_index(s, p, n, e0);
    lemma_splice_new_end(s, p, n, e0);
    lemma_height_unfold(t, p);
    if p < e0 {
        // Rows inside the adopted block are visible under the new expanded
        // node exactly as they were under the block root.
        lemma_run_end(s, s[p].level, p + 1);
        assert forall|m: int| p <= m < e0 implies (vis_from(t, p + 1, m + 1) <==> vis_from(
            s,
            p,
            m,
        )) by {
            if vis_from(t, p + 1, m + 1) {
                assert forall|j: int| p <= j < m && #[trigger] is_ancestor(s, j, m) implies !s[j].collapsed by {
                    lemma_ancestor_shift(s, t, 1, 1, p, e0, j, m);
                    assert(is_ancestor(t, j + 1, m + 1));
                }
            }
            if vis_from(s, p, m) {
                assert forall|j: int| p + 1 <= j < m + 1 && #[trigger] is_ancestor(t, j, m + 1) implies !t[j].collapsed by {
                    lemma_ancestor_shift(s, t, 1, 1, p, e0, j - 1, m);
                    assert(is_ancestor(s, j - 1, m));
                }
            }
        }
        assert(vis_count(t, p + 1, p + 1, e0 + 1) == vis_count(s, p, p, e0)) by {
            lemma_splice_count_inner(s, p, n, e0, p, e0);
        }
        lemma_height_unfold(s, p);
        assert(node_height(s, p) == vis_count(s, p, p, e0));
    }
}

/// Counting inside the adopted block from just below the new node matches
/// counting from the block root.
proof fn lemma_splice_count_inner(
    s: Seq<NodeShape>,
    p: int,
    n: NodeShape,
    e0: int,
    lo: int,
    hi: int,
)
    requires
        splice_ok(s, p, n, e0),
        p <= lo <= hi <= e0,
    ensures
        vis_count(splice_one(s, p, n, e0), p + 1, lo + 1, hi + 1) == vis_count(s, p, lo, hi),
    decreases hi - lo,
{
    let t = splice_one(s, p, n, e0);
    lemma_splice_index(s, p, n, e0);
    if lo < hi {
        assert((vis_from(t, p + 1, lo + 1) <==> vis_from(s, p, lo))) by {
            if vis_from(t, p + 1, lo + 1) {
                assert forall|j: int| p <= j < lo && #[trigger] is_ancestor(s, j, lo) implies !s[j].collapsed by {
                    lemma_ancestor_shift(s, t, 1, 1, p, e0, j, lo);
                    assert(is_ancestor(t, j + 1, lo + 1));
                }
            }
            if vis_from(s, p, lo) {
                assert forall|j: int| p + 1 <= j < lo + 1 && #[trigger] is_ancestor(t, j, lo + 1) implies !t[j].collapsed by {
                    lemma_ancestor_shift(s, t, 1, 1, p, e0, j - 1, lo);
                    assert(is_ancestor(s, j - 1, lo));
                }
            }
        }
        lemma_splice_count_inner(s, p, n, e0, lo + 1, hi);
    }
}

/// Stepping over the nearest point-ancestor, and skipping stretches with no
/// point-ancestors, when tracking the point's visibility.
pub proof fn lemma_pt_vis_step(s: Seq<NodeShape>, p: int, lv: nat, a: int)
    requires
        pt_anc(s, p, lv, a),
    ensures
        pt_vis(s, p, lv, a) == (!s[a].collapsed && pt_vis(s, p, lv, a + 1)),
{
}

/// Vantage points with no point-ancestor between them see the point alike.
pub proof fn lemma_pt_vis_skip(s: Seq<NodeShape>, p: int, lv: nat, b: int, c: int)
    requires
        0 <= b <= c <= p,
        forall|j: int| b <= j < c ==> !pt_anc(s, p, lv, j),
    ensures
        pt_vis(s, p, lv, b) == pt_vis(s, p, lv, c),
{
}


/// The same node one level higher.
pub open spec fn drop_level(x: NodeShape) -> NodeShape {
    NodeShape { level: (x.level - 1) as nat, ..x }
}

/// The sequence with the node at `i` extracted: its descendants are kept in
/// place, promoted one level up, so they become children of `i`'s former
/// parent.
pub open spec fn promote_seq(s: Seq<NodeShape>, i: int) -> Seq<NodeShape> {
    s.subrange(0, i) + s.subrange(i + 1, subtree_end(s, i)).map_values(
        |x: NodeShape| drop_level(x),
    ) + s.subrange(subtree_end(s, i), s.len() as int)
}

/// Indexing into a promotion, zone by zone.
pub proof fn lemma_promote_index(s: Seq<NodeShape>, i: int)
    requires
        0 <= i < s.len(),
        i < subtree_end(s, i) <= s.len(),
    ensures
        promote_seq(s, i).len() == s.len() - 1,
        forall|m: int| 0 <= m < i ==> #[trigger] promote_seq(s, i)[m] == s[m],
        forall|m: int|
            i <= m < subtree_end(s, i) - 1 ==> #[trigger] promote_seq(s, i)[m] == drop_level(
                s[m + 1],
            ),
        forall|m: int|
            subtree_end(s, i) - 1 <= m < s.len() - 1 ==> #[trigger] promote_seq(s, i)[m] == s[m
                + 1],
{
    let e = subtree_end(s, i);
    let t = promote_seq(s, i);
    assert forall|m: int| i <= m < e - 1 implies #[trigger] t[m] == drop_level(s[m + 1]) by {
        assert(t[m] == s.subrange(i + 1, e).map_values(|x: NodeShape| drop_level(x))[m - i]);
    }
}

/// Extracting an expanded node is the inverse of a splice: putting the node
/// back at its position, re-adopting its promoted descendants as the block,
/// yields the original sequence, and the promoted sequence satisfies all
/// splice premises.
#[verifier::rlimit(100)]
#[verifier::spinoff_prover]
pub proof fn lemma_promote_splice(s: Seq<NodeShape>, i: int)
    requires
        valid_levels(s),
        0 <= i < s.len(),
        !s[i].collapsed,
    ensures
        ({
            let e = subtree_end(s, i);
            let t = promote_seq(s, i);
            let n = s[i];
            &&& i < e <= s.len()
            &&& t.len() == s.len() - 1
            &&& splice_one(t, i, n, e - 1) == s
            &&& splice_ok(t, i, n, e - 1)
        }),
{
    let e = subtree_end(s, i);
    let t = promote_seq(s, i);
    let n = s[i];
    let lv = n.level;
    lemma_run_end(s, lv, i + 1);
    lemma_promote_index(s, i);
    // A direct child sits exactly one level deeper.
    if i + 1 < e {
        assert(s[i + 1].level == lv + 1);
    }
    // Putting the node back yields the original.
    lemma_splice_index(t, i, n, e - 1);
    assert(splice_one(t, i, n, e - 1) =~= s) by {
        assert forall|m: int| 0 <= m < s.len() implies #[trigger] splice_one(t, i, n, e - 1)[m]
            == s[m] by {
            if m < i {
            } else if m == i {
            } else if m < e {
                assert(t[m - 1] == drop_level(s[m]));
                assert(s[m].level > lv);
            } else {
                assert(t[m - 1] == s[m]);
            }
        }
    }
    // The promoted sequence is a sound splice target.
    assert forall|m: int| i <= m < e - 1 implies (#[trigger] t[m].level) >= lv by {
        assert(t[m] == drop_level(s[m + 1]));
        assert(s[m + 1].level > lv);
    }
    if e - 1 < t.len() {
        assert(t[e - 1] == s[e]);
        assert(s[e].level <= lv);
    }
    assert forall|j: int| 0 <= j < i && i < #[trigger] subtree_end(t, j) implies lv > t[j].level by {
        lemma_run_end(t, t[j].level, j + 1);
        assert(i < t.len());
        assert(t[i].level > t[j].level);
        assert(t[i].level <= lv) by {
            if i < e - 1 {
                assert(t[i] == drop_level(s[i + 1]));
            } else {
                assert(t[i] == s[i + 1]);
                assert(s[i + 1].level <= lv);
            }
        }
    }
    assert(splice_ok(t, i, n, e - 1));
}

/// The promoted levels still form a forest.
#[verifier::rlimit(100)]
#[verifier::spinoff_prover]
pub proof fn lemma_promote_valid(s: Seq<NodeShape>, i: int)
    requires
        valid_levels(s),
        0 <= i < s.len(),
    ensures
        valid_levels(promote_seq(s, i)),
{
    let e = subtree_end(s, i);
    let t = promote_seq(s, i);
    let lv = s[i].level;
    lemma_run_end(s, lv, i + 1);
    lemma_promote_index(s, i);
    if i + 1 < e {
        assert(s[i + 1].level == lv + 1);
    }
    assert forall|m: int| 1 <= m < t.len() implies (#[trigger] t[m].level) <= t[m - 1].level
        + 1 by {
        if m < i {
        } else if m == i {
            if m < e - 1 {
                assert(t[m] == drop_level(s[m + 1]));
                assert(s[m + 1].level <= s[m].level + 1);
            } else {
                assert(t[m] == s[m + 1]);
                assert(s[m + 1].level <= lv);
                assert(lv <= s[m - 1].level + 1);
            }
        } else if m < e - 1 {
            assert(t[m] == drop_level(s[m + 1]));
            assert(t[m - 1] == drop_level(s[m]));
        } else if m == e - 1 {
            assert(t[m] == s[m + 1]);
            assert(s[m + 1].level <= lv);
            if m - 1 >= i {
                if i < e - 1 {
                    assert(t[m - 1] == drop_level(s[m]));
                    assert(s[m].level > lv);
                }
            }
        } else {
            assert(t[m] == s[m + 1]);
            assert(t[m - 1] == s[m]);
        }
    }
    if t.len() > 0 {
        if i == 0 {
            if 0 < e - 1 {
                assert(t[0] == drop_level(s[1]));
                assert(s[1].level == lv + 1);
                assert(lv == 0);
            } else {
                assert(t[0] == s[1]);
                assert(s[1].level <= lv);
                assert(lv == 0);
            }
        }
    }
}

/// Ancestors of an extracted node are exactly the point-ancestors of the
/// gap it leaves, with the same visibility.
#[verifier::rlimit(100)]
#[verifier::spinoff_prover]
pub proof fn lemma_promote_pt(s: Seq<NodeShape>, i: int)
    requires
        valid_levels(s),
        0 <= i < s.len(),
    ensures
        forall|j: int|
            0 <= j < i ==> (#[trigger] pt_anc(promote_seq(s, i), i, s[i].level, j) <==> is_ancestor(
                s,
                j,
                i,
            )),
        forall|sc: int|
            0 <= sc <= i ==> (#[trigger] pt_vis(promote_seq(s, i), i, s[i].level, sc) <==> vis_from(
                s,
                sc,
                i,
            )),
{
    let e = subtree_end(s, i);
    let t = promote_seq(s, i);
    let lv = s[i].level;
    lemma_run_end(s, lv, i + 1);
    lemma_promote_index(s, i);
    assert forall|j: int| 0 <= j < i implies (#[trigger] pt_anc(t, i, lv, j) <==> is_ancestor(
        s,
        j,
        i,
    )) by {
        if pt_anc(t, i, lv, j) {
            assert forall|m: int| j < m <= i implies #[trigger] s[m].level > s[j].level by {
                if m < i {
                    assert(t[m].level > t[j].level);
                }
            }
        }
        if is_ancestor(s, j, i) {
            assert forall|m: int| j < m < i implies #[trigger] t[m].level > t[j].level by {
                assert(s[m].level > s[j].level);
            }
        }
    }
    assert forall|sc: int| 0 <= sc <= i implies (#[trigger] pt_vis(t, i, lv, sc) <==> vis_from(
        s,
        sc,
        i,
    )) by {
        if pt_vis(t, i, lv, sc) {
            assert forall|j: int| sc <= j < i && #[trigger] is_ancestor(s, j, i) implies !s[j].collapsed by {
                assert(pt_anc(t, i, lv, j));
                assert(!t[j].collapsed);
            }
        }
        if vis_from(s, sc, i) {
            assert forall|j: int| sc <= j < i && #[trigger] pt_anc(t, i, lv, j) implies !t[j].collapsed by {
                assert(is_ancestor(s, j, i));
            }
        }
    }
}

/// Round trip of a collapse: collapsing an expanded node and then expanding
/// it again, with no structural change in between, restores the exact model
/// state — and with it the stored height and descendant count of the node
/// and of every ancestor.
pub proof fn lemma_collapse_expand_round_trip(s: Seq<NodeShape>, i: int)
    requires
        0 <= i < s.len(),
        !s[i].collapsed,
    ensures
        ({
            let folded = s.update(i, with_collapsed(s[i], true));
            let restored = folded.update(i, with_collapsed(folded[i], false));
            &&& restored == s
            &&& forall|j: int|
                0 <= j < s.len() ==> #[trigger] node_height(restored, j) == node_height(s, j)
                    && desc_count(restored, j) == desc_count(s, j) && exp_height(restored, j)
                    == exp_height(s, j)
            &&& total_height(restored) == total_height(s)
        }),
{
    let folded = s.update(i, with_collapsed(s[i], true));
    let restored = folded.update(i, with_collapsed(folded[i], false));
    assert(restored =~= s);
}

/// Idempotence of collapsing: setting the same collapse state twice in a
/// row leaves exactly the state one setting leaves.
pub proof fn lemma_set_collapsed_idempotent(s: Seq<NodeShape>, i: int, c: bool)
    requires
        0 <= i < s.len(),
    ensures
        ({
            let once = s.update(i, with_collapsed(s[i], c));
            once.update(i, with_collapsed(once[i], c)) == once
        }),
{
    let once = s.update(i, with_collapsed(s[i], c));
    assert(once.update(i, with_collapsed(once[i], c)) =~= once);
}

} // verus!
