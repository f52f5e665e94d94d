//! Which elements are rendered, and the proof that removing
//! definition containers does not change that.
//!
//! An element is rendered if it is a root, if a link points at it, or
//! if its parent is rendered and is no definition container.  A
//! container that goes takes its own links with it: what is said here
//! holds unless such a link was all that had an element rendered.
use vstd::prelude::*;
use crate::edit::{
    hoist, ids_of, lemma_hoist_wf, lemma_links_to_unlinked, lemma_remove_range, lift, raised,
    unlinked,
};
use crate::element::ElementKind;
use crate::flatten::{flatten_from, is_flattenable, lemma_hoist_len};
use crate::tree::{
    is_child, is_referenced, lemma_subtree_end, links_to, nested_at, subtree_end, well_formed,
    Tree,
};

verus! {

/// Index of the last element at or before `j` that lies above `depth`,
/// or `-1` if there is none.
pub open spec fn shallower_before(t: Tree, j: int, depth: nat) -> int
    decreases j + 1,
{
    if j < 0 {
        -1
    } else if j < t.len() && t[j].depth < depth {
        j
    } else {
        shallower_before(t, j - 1, depth)
    }
}

/// Index of the parent of element `i`, or `-1` if it has none.
pub open spec fn parent(t: Tree, i: int) -> int {
    shallower_before(t, i - 1, t[i].depth)
}

/// Element `i` is rendered: it is a root, or the target of a link, or
/// the child of a rendered element that is no definition container.
pub open spec fn is_rendered(t: Tree, i: int) -> bool
    decreases i,
{
    if i < 0 || i >= t.len() {
        false
    } else if t[i].depth == 0 || is_referenced(t, i) {
        true
    } else {
        let p = parent(t, i);
        0 <= p < i && t[p].kind != ElementKind::Defs && is_rendered(t, p)
    }
}

/// Where element `j` stands once element `i` has been removed.
pub open spec fn moved(i: int, j: int) -> int {
    if j < i {
        j
    } else {
        j - 1
    }
}

/// Removing element `i` leaves every element it links to rendered
/// exactly if it was before.
pub open spec fn keeps_targets(t: Tree, i: int) -> bool {
    forall|x: int|
        0 <= x < t.len() && x != i && links_to(t[i], #[trigger] t[x].id) ==> is_rendered(
            hoist(t, i),
            moved(i, x),
        ) == is_rendered(t, x)
}

/// In the sweep from element `i` on, every container that goes leaves
/// the elements it links to rendered exactly if they were before.
pub open spec fn keeps_all_targets(t: Tree, i: int) -> bool
    decreases t.len() - i,
    via keeps_all_targets_decreases
{
    if i < 0 || i >= t.len() {
        true
    } else if is_flattenable(t, i) {
        keeps_targets(t, i) && keeps_all_targets(hoist(t, i), i)
    } else {
        keeps_all_targets(t, i + 1)
    }
}

#[via_fn]
proof fn keeps_all_targets_decreases(t: Tree, i: int) {
    if 0 <= i < t.len() && is_flattenable(t, i) {
        lemma_hoist_len(t, i);
    }
}

/// Where the element that stands at `k` after the sweep from `i` on
/// stood before it.
pub open spec fn origin(t: Tree, i: int, k: int) -> int
    decreases t.len() - i,
    via origin_decreases
{
    if i < 0 || i >= t.len() {
        k
    } else if is_flattenable(t, i) {
        let k1 = origin(hoist(t, i), i, k);
        if k1 < i {
            k1
        } else {
            k1 + 1
        }
    } else {
        origin(t, i + 1, k)
    }
}

#[via_fn]
proof fn origin_decreases(t: Tree, i: int, k: int) {
    if 0 <= i < t.len() && is_flattenable(t, i) {
        lemma_hoist_len(t, i);
    }
}

/// What [`shallower_before`] finds.
pub proof fn lemma_shallower(t: Tree, j: int, depth: nat)
    requires
        -1 <= j < t.len(),
    ensures
        -1 <= shallower_before(t, j, depth) <= j,
        forall|k: int|
            shallower_before(t, j, depth) < k <= j ==> (#[trigger] t[k]).depth >= depth,
        shallower_before(t, j, depth) >= 0 ==> t[shallower_before(t, j, depth)].depth < depth,
    decreases j + 1,
{
    if j >= 0 && !(t[j].depth < depth) {
        lemma_shallower(t, j - 1, depth);
    }
}

/// [`shallower_before`] is the only index with the properties of
/// [`lemma_shallower`].
pub proof fn lemma_shallower_is(t: Tree, j: int, depth: nat, r: int)
    requires
        j < t.len(),
        -1 <= r <= j,
        forall|k: int| r < k <= j ==> (#[trigger] t[k]).depth >= depth,
        r >= 0 ==> t[r].depth < depth,
    ensures
        shallower_before(t, j, depth) == r,
    decreases j - r,
{
    if r < j {
        assert(t[j].depth >= depth);
        lemma_shallower_is(t, j - 1, depth, r);
    }
}

/// What becomes of element `j` when element `i` is hoisted away: it
/// keeps its kind and identifier, goes up one level if it was below
/// `i`, and loses nothing but its links to `i`.
pub proof fn lemma_hoist_element(t: Tree, i: int, j: int)
    requires
        0 <= i < t.len(),
        0 <= j < t.len(),
        j != i,
    ensures
        hoist(t, i).len() == t.len() - 1,
        hoist(t, i)[moved(i, j)].id == t[j].id,
        hoist(t, i)[moved(i, j)].kind == t[j].kind,
        hoist(t, i)[moved(i, j)].depth == if i < j < subtree_end(t, i) {
            t[j].depth - 1
        } else {
            t[j].depth as int
        },
        hoist(t, i)[moved(i, j)] == unlinked(
            if i < j < subtree_end(t, i) {
                raised(t[j])
            } else {
                t[j]
            },
            seq![t[i].id],
        ),
{
    let e = subtree_end(t, i);
    let l = lift(t, i + 1, e);
    lemma_subtree_end(t, i);
    lemma_remove_range(l, i, i + 1);
    assert(ids_of(l.subrange(i, i + 1)) =~= seq![t[i].id]);
}

/// After element `i` has been hoisted away, element `j` links to `v`
/// exactly if it did before and `v` is not the identifier of `i`.
pub proof fn lemma_hoist_links(t: Tree, i: int, j: int, v: Seq<char>)
    requires
        0 <= i < t.len(),
        0 <= j < t.len(),
        j != i,
    ensures
        links_to(hoist(t, i)[moved(i, j)], v) <==> links_to(t[j], v) && v != t[i].id,
{
    let e = subtree_end(t, i);
    let src = if i < j < e { raised(t[j]) } else { t[j] };
    let dead = seq![t[i].id];
    lemma_hoist_element(t, i, j);
    lemma_links_to_unlinked(src, dead, v);
    assert(dead.contains(v) <==> v == t[i].id) by {
        if v == t[i].id {
            assert(dead[0] == v);
        }
    }
    assert(links_to(src, v) <==> links_to(t[j], v)) by {
        assert(src.attrs == t[j].attrs);
    }
}

/// Hoisting element `i` away does not change whether an element it
/// does not link to is the target of a link.
pub proof fn lemma_hoist_referenced(t: Tree, i: int, j: int)
    requires
        well_formed(t),
        0 <= i < t.len(),
        0 <= j < t.len(),
        j != i,
        !links_to(t[i], t[j].id),
    ensures
        is_referenced(hoist(t, i), moved(i, j)) == is_referenced(t, j),
{
    let h = hoist(t, i);
    let v = t[j].id;
    lemma_hoist_element(t, i, j);
    if is_referenced(h, moved(i, j)) {
        lemma_hoist_referenced_before(t, i, j);
    }
    if is_referenced(t, j) {
        let k = choose|k: int| 0 <= k < t.len() && links_to(#[trigger] t[k], v);
        assert(t[i].id != v);
        lemma_hoist_element(t, i, k);
        lemma_hoist_links(t, i, k, v);
        assert(links_to(h[moved(i, k)], v));
    }
}

/// A child's parent is the element it is a child of.
pub proof fn lemma_child_parent(t: Tree, a: int, b: int)
    requires
        0 <= a < t.len(),
        is_child(t, a, b),
    ensures
        parent(t, b) == a,
{
    lemma_subtree_end(t, a);
    lemma_shallower_is(t, b - 1, t[b].depth, a);
}

/// An element is a child of its parent.
pub proof fn lemma_parent_child(t: Tree, b: int)
    requires
        well_formed(t),
        0 <= b < t.len(),
        parent(t, b) >= 0,
    ensures
        is_child(t, parent(t, b), b),
{
    let p = parent(t, b);
    let e = subtree_end(t, p);
    let db = t[b].depth;
    lemma_shallower(t, b - 1, db);
    lemma_subtree_end(t, p);
    assert(b < e) by {
        if e <= b {
            if e < b {
                assert(t[e].depth >= db);
            }
        }
    }
    assert(db == t[p].depth + 1) by {
        assert(nested_at(t, p + 1));
        if b > p + 1 {
            assert(t[p + 1].depth >= db);
        }
    }
}

/// An element that is the target of a link after element `i` has been
/// hoisted away was one before.
pub proof fn lemma_hoist_referenced_before(t: Tree, i: int, j: int)
    requires
        0 <= i < t.len(),
        0 <= j < t.len(),
        j != i,
        is_referenced(hoist(t, i), moved(i, j)),
    ensures
        is_referenced(t, j),
{
    let h = hoist(t, i);
    let v = t[j].id;
    lemma_hoist_element(t, i, j);
    let k2 = choose|k2: int| 0 <= k2 < h.len() && links_to(#[trigger] h[k2], v);
    let k = if k2 < i { k2 } else { k2 + 1 };
    lemma_hoist_element(t, i, k);
    lemma_hoist_links(t, i, k, v);
    assert(links_to(t[k], v));
}

/// Hoisting element `i` away keeps the parent of every element that
/// was no child of `i`.
pub proof fn lemma_hoist_parent(t: Tree, i: int, j: int)
    requires
        well_formed(t),
        0 <= i < t.len(),
        0 <= j < t.len(),
        j != i,
    ensures
        -1 <= parent(t, j) < j,
        parent(t, j) >= 0 ==> t[parent(t, j)].depth < t[j].depth,
        parent(t, j) == i ==> is_child(t, i, j),
        i < j < subtree_end(t, i) ==> parent(t, j) >= i,
        parent(t, j) != i ==> parent(hoist(t, i), moved(i, j)) == moved(i, parent(t, j)),
{
    let h = hoist(t, i);
    let e = subtree_end(t, i);
    let d = t[i].depth;
    let p = parent(t, j);
    let dj = t[j].depth;
    lemma_subtree_end(t, i);
    lemma_shallower(t, j - 1, dj);
    lemma_hoist_element(t, i, j);
    if i < j < e {
        assert(p >= i) by {
            if p < i {
                assert(t[i].depth >= dj);
            }
        }
    }
    if j >= e && i <= p {
        assert(p >= e) by {
            if p < e {
                assert(t[p].depth >= d);
                if e < j {
                    assert(t[e].depth >= dj);
                }
            }
        }
    }
    if p == i {
        assert(j < e) by {
            if e <= j {
                if e < j {
                    assert(t[e].depth >= dj);
                }
            }
        }
        assert(dj == d + 1) by {
            assert(nested_at(t, i + 1));
            if j > i + 1 {
                assert(t[i + 1].depth >= dj);
            }
        }
    } else {
        let r = moved(i, p);
        let mj = moved(i, j);
        let hd = h[mj].depth;
        if p >= 0 {
            lemma_hoist_element(t, i, p);
        }
        assert forall|k2: int| r < k2 <= mj - 1 implies (#[trigger] h[k2]).depth >= hd by {
            let k = if k2 < i { k2 } else { k2 + 1 };
            assert(p < k < j && k != i);
            lemma_hoist_element(t, i, k);
            assert(t[k].depth >= dj);
            if i < k < e && !(i < j < e) {
                assert(p < i);
                if e < j {
                    assert(t[e].depth >= dj);
                }
                assert(dj <= d);
            }
        }
        lemma_shallower_is(h, mj - 1, hd, r);
    }
}

/// Removing a definition container whose children are all referenced
/// does not change which of the other elements are rendered, unless
/// the container holds a link to an element that is rendered only as
/// long as that link is there.
pub proof fn law_flatten_keeps_rendering(t: Tree, i: int, j: int)
    requires
        well_formed(t),
        0 <= i < t.len(),
        is_flattenable(t, i),
        keeps_targets(t, i),
        0 <= j < t.len(),
        j != i,
    ensures
        is_rendered(hoist(t, i), moved(i, j)) == is_rendered(t, j),
    decreases j,
{
    let h = hoist(t, i);
    let e = subtree_end(t, i);
    if !links_to(t[i], t[j].id) {
        lemma_subtree_end(t, i);
        lemma_hoist_element(t, i, j);
        lemma_hoist_referenced(t, i, j);
        lemma_hoist_parent(t, i, j);
        let p = parent(t, j);
        if is_referenced(t, j) {
        } else if p == i {
            assert(is_child(t, i, j));
        } else if i < j < e {
            lemma_hoist_element(t, i, p);
            law_flatten_keeps_rendering(t, i, p);
        } else if t[j].depth == 0 {
        } else if p >= 0 {
            lemma_hoist_element(t, i, p);
            law_flatten_keeps_rendering(t, i, p);
        }
    }
}

/// The sweep does not change which elements are rendered: what stands
/// in the document after it is the element it was before, with its
/// kind and identifier, and is rendered exactly if it was; unless a
/// container that goes holds a link to an element that is rendered
/// only as long as that link is there.
pub proof fn law_flatten_pass_keeps_rendering(t: Tree, i: int, k: int)
    requires
        well_formed(t),
        0 <= i,
        keeps_all_targets(t, i),
        0 <= k < flatten_from(t, i).len(),
    ensures
        0 <= origin(t, i, k) < t.len(),
        flatten_from(t, i)[k].id == t[origin(t, i, k)].id,
        flatten_from(t, i)[k].kind == t[origin(t, i, k)].kind,
        is_rendered(flatten_from(t, i), k) == is_rendered(t, origin(t, i, k)),
    decreases t.len() - i,
{
    if i < t.len() {
        if is_flattenable(t, i) {
            let h = hoist(t, i);
            lemma_hoist_wf(t, i);
            lemma_hoist_len(t, i);
            law_flatten_pass_keeps_rendering(h, i, k);
            let k1 = origin(h, i, k);
            let j = if k1 < i { k1 } else { k1 + 1 };
            lemma_hoist_element(t, i, j);
            law_flatten_keeps_rendering(t, i, j);
        } else {
            law_flatten_pass_keeps_rendering(t, i + 1, k);
        }
    }
}

} // verus!
