//! Where elements stand after flattening: what a container that goes
//! leaves behind, and which elements stay.
use vstd::prelude::*;
use crate::edit::{hoist, lemma_hoist_wf, without_links};
use crate::flatten::{flatten_from, is_flattenable, lemma_hoist_len};
use crate::render::{
    lemma_hoist_element, lemma_shallower, lemma_shallower_is, moved, parent,
};
use crate::settle::lemma_hoist_wakes_parent_only;
use crate::tree::{
    is_child, lemma_run_end_is, lemma_subtree_end, subtree_end, well_formed, Tree,
};

verus! {

/// Where element `c` stands after the sweep from `i` on, or `-1` if
/// the sweep takes it away.
pub open spec fn place(t: Tree, i: int, c: int) -> int
    decreases t.len() - i,
    via place_decreases
{
    if i < 0 || i >= t.len() {
        c
    } else if is_flattenable(t, i) {
        if c == i {
            -1
        } else {
            place(hoist(t, i), i, moved(i, c))
        }
    } else {
        place(t, i + 1, c)
    }
}

#[via_fn]
proof fn place_decreases(t: Tree, i: int, c: int) {
    if 0 <= i < t.len() && is_flattenable(t, i) {
        lemma_hoist_len(t, i);
    }
}

/// When a container goes, each of its children takes its place: the
/// child stands one level higher, under the container's parent, with
/// its kind, its identifier, its descendants and its attributes, but
/// for links to the container.  The elements before the container stay
/// where they are and those after it move up by one, so that the order
/// of all elements is kept.
pub proof fn law_hoist_places_children(t: Tree, i: int, j: int)
    requires
        well_formed(t),
        0 <= i < t.len(),
        is_child(t, i, j),
    ensures
        hoist(t, i).len() == t.len() - 1,
        hoist(t, i)[j - 1].depth == t[i].depth,
        hoist(t, i)[j - 1].kind == t[j].kind,
        hoist(t, i)[j - 1].id == t[j].id,
        hoist(t, i)[j - 1].attrs == without_links(t[j].attrs, seq![t[i].id]),
        parent(hoist(t, i), j - 1) == parent(t, i),
        subtree_end(hoist(t, i), j - 1) == subtree_end(t, j) - 1,
{
    let h = hoist(t, i);
    let e = subtree_end(t, i);
    let ej = subtree_end(t, j);
    let d = t[i].depth;
    let pp = parent(t, i);
    lemma_subtree_end(t, i);
    lemma_subtree_end(t, j);
    lemma_hoist_element(t, i, j);
    lemma_hoist_wf(t, i);
    lemma_shallower(t, i - 1, d);
    if pp >= 0 {
        lemma_hoist_element(t, i, pp);
    }
    assert forall|k2: int| pp < k2 <= j - 2 implies (#[trigger] h[k2]).depth >= d by {
        let k = if k2 < i { k2 } else { k2 + 1 };
        lemma_hoist_element(t, i, k);
    }
    lemma_shallower_is(h, j - 2, d, pp);
    assert(ej <= e) by {
        if ej > e {
            assert(t[e].depth > t[j].depth);
        }
    }
    assert forall|k2: int| j <= k2 < ej - 1 implies (#[trigger] h[k2]).depth > d by {
        lemma_hoist_element(t, i, k2 + 1);
        assert(t[k2 + 1].depth > t[j].depth);
    }
    if ej - 1 < h.len() {
        lemma_hoist_element(t, i, ej);
    }
    lemma_run_end_is(h, j, d, ej - 1);
}

/// The sweep takes nothing away but containers that can go when it
/// meets them: an element it has passed, or one that is no container
/// that can go, is still there afterwards, with its kind and its
/// identifier.  So a container with an unreferenced child stays.
pub proof fn law_flatten_keeps(t: Tree, i: int, c: int)
    requires
        well_formed(t),
        0 <= i,
        0 <= c < t.len(),
        c < i || !is_flattenable(t, c),
    ensures
        0 <= place(t, i, c) < flatten_from(t, i).len(),
        place(t, i, c) <= c,
        flatten_from(t, i)[place(t, i, c)].id == t[c].id,
        flatten_from(t, i)[place(t, i, c)].kind == t[c].kind,
    decreases t.len() - i,
{
    if i < t.len() {
        if is_flattenable(t, i) {
            let h = hoist(t, i);
            lemma_hoist_wf(t, i);
            lemma_hoist_len(t, i);
            lemma_hoist_element(t, i, c);
            if c > i {
                lemma_shallower(t, i - 1, t[i].depth);
                lemma_hoist_wakes_parent_only(t, i, c);
            }
            law_flatten_keeps(h, i, moved(i, c));
        } else {
            law_flatten_keeps(t, i + 1, c);
        }
    }
}

} // verus!
