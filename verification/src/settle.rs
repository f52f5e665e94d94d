//! Flattening twice.
//!
//! A second run changes nothing exactly if the first run leaves no
//! container that can go.  It leaves one only where a container that
//! went was the last unreferenced child of its parent, a container the
//! sweep had already passed.
use vstd::prelude::*;
use crate::edit::{hoist, lemma_hoist_wf};
use crate::flatten::{
    flatten, flatten_from, is_flattenable, law_flatten_fixed_point, law_flatten_only_removes,
    lemma_hoist_len,
};
use crate::element::ElementKind;
use crate::render::{
    lemma_child_parent, lemma_hoist_element, lemma_hoist_parent, lemma_hoist_referenced_before,
    lemma_parent_child, lemma_shallower, moved, parent,
};
use crate::tree::{is_child, is_referenced, lemma_subtree_end, well_formed, Tree};

verus! {

/// No element of `t` is a container that can go.
pub open spec fn is_flat(t: Tree) -> bool {
    forall|k: int| 0 <= k < t.len() ==> !#[trigger] is_flattenable(t, k)
}

/// Once element `i` has gone, its parent is a container that can go.
pub open spec fn wakes_parent(t: Tree, i: int) -> bool {
    parent(t, i) >= 0 && is_flattenable(hoist(t, i), parent(t, i))
}

/// In the sweep from element `i` on, no container that goes leaves its
/// parent a container that can go.
pub open spec fn wakes_none(t: Tree, i: int) -> bool
    decreases t.len() - i,
    via wakes_none_decreases
{
    if i < 0 || i >= t.len() {
        true
    } else if is_flattenable(t, i) {
        !wakes_parent(t, i) && wakes_none(hoist(t, i), i)
    } else {
        wakes_none(t, i + 1)
    }
}

#[via_fn]
proof fn wakes_none_decreases(t: Tree, i: int) {
    if 0 <= i < t.len() && is_flattenable(t, i) {
        lemma_hoist_len(t, i);
    }
}

/// A sweep that meets a container that can go takes an element away.
pub proof fn lemma_flatten_shrinks(t: Tree, i: int, k: int)
    requires
        0 <= i <= k < t.len(),
        is_flattenable(t, k),
    ensures
        flatten_from(t, i).len() < t.len(),
    decreases t.len() - i,
{
    if is_flattenable(t, i) {
        lemma_hoist_len(t, i);
        law_flatten_only_removes(hoist(t, i), i);
    } else {
        lemma_flatten_shrinks(t, i + 1, k);
    }
}

/// Flattening twice gives what flattening once gives exactly if the
/// first run leaves no container that can go.
pub proof fn law_flatten_twice(t: Tree)
    ensures
        flatten(flatten(t)) == flatten(t) <==> is_flat(flatten(t)),
{
    let f = flatten(t);
    if is_flat(f) {
        law_flatten_fixed_point(f, 0);
    } else {
        let k = choose|k: int| 0 <= k < f.len() && #[trigger] is_flattenable(f, k);
        lemma_flatten_shrinks(f, 0, k);
    }
}

/// Hoisting element `i` away turns no element but its parent into a
/// container that can go.
pub proof fn lemma_hoist_wakes_parent_only(t: Tree, i: int, c: int)
    requires
        well_formed(t),
        0 <= i < t.len(),
        0 <= c < t.len(),
        c != i,
        c != parent(t, i),
        !is_flattenable(t, c),
    ensures
        !is_flattenable(hoist(t, i), moved(i, c)),
{
    let h = hoist(t, i);
    lemma_hoist_element(t, i, c);
    lemma_hoist_wf(t, i);
    if t[c].kind == ElementKind::Defs {
        let b = choose|b: int| #[trigger] is_child(t, c, b) && !is_referenced(t, b);
        lemma_subtree_end(t, c);
        lemma_child_parent(t, c, b);
        assert(b != i);
        lemma_hoist_element(t, i, b);
        lemma_hoist_parent(t, i, b);
        assert(parent(h, moved(i, b)) == moved(i, c));
        lemma_parent_child(h, moved(i, b));
        if is_referenced(h, moved(i, b)) {
            lemma_hoist_referenced_before(t, i, b);
        }
        assert(is_child(h, moved(i, c), moved(i, b)) && !is_referenced(h, moved(i, b)));
    }
}

/// Where no container that goes leaves its parent a container that can
/// go, the sweep leaves no container that can go.
pub proof fn lemma_flatten_settles(t: Tree, i: int)
    requires
        well_formed(t),
        0 <= i,
        wakes_none(t, i),
        forall|c: int| 0 <= c < i && c < t.len() ==> !#[trigger] is_flattenable(t, c),
    ensures
        is_flat(flatten_from(t, i)),
    decreases t.len() - i,
{
    if i < t.len() {
        if is_flattenable(t, i) {
            let h = hoist(t, i);
            lemma_hoist_wf(t, i);
            lemma_hoist_len(t, i);
            lemma_shallower(t, i - 1, t[i].depth);
            assert forall|c: int| 0 <= c < i && c < h.len() implies !#[trigger] is_flattenable(
                h,
                c,
            ) by {
                if c != parent(t, i) {
                    lemma_hoist_wakes_parent_only(t, i, c);
                }
            }
            lemma_flatten_settles(h, i);
        } else {
            lemma_flatten_settles(t, i + 1);
        }
    }
}

/// Flattening twice gives what flattening once gives, unless a
/// container that goes in the first run was the last unreferenced
/// child of its parent and leaves the parent, which the sweep has
/// passed by then, a container that can go.
pub proof fn law_flatten_idempotent(t: Tree)
    requires
        well_formed(t),
        wakes_none(t, 0),
    ensures
        flatten(flatten(t)) == flatten(t),
{
    lemma_flatten_settles(t, 0);
    law_flatten_fixed_point(flatten(t), 0);
}

} // verus!
