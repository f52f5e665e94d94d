//! Removal of definition containers whose children are all referenced.
use vstd::prelude::*;
use crate::document::Document;
use crate::edit::{hoist, lemma_hoist_wf};
use crate::element::ElementKind;
use crate::tree::{is_child, is_referenced, lemma_subtree_end, subtree_end, well_formed, Tree};

verus! {

/// Element `i` is a definition container that can go: every one of its
/// children is the target of a link.  Only direct children count.
pub open spec fn is_flattenable(t: Tree, i: int) -> bool {
    &&& t[i].kind == ElementKind::Defs
    &&& forall|c: int| #[trigger] is_child(t, i, c) ==> is_referenced(t, c)
}

/// The document after the sweep that starts at element `i`: every
/// container met that can go is replaced by its children, which are
/// then visited in turn; all other elements are passed over.
pub open spec fn flatten_from(t: Tree, i: int) -> Tree
    decreases t.len() - i,
    via flatten_from_decreases
{
    if i < 0 || i >= t.len() {
        t
    } else if is_flattenable(t, i) {
        flatten_from(hoist(t, i), i)
    } else {
        flatten_from(t, i + 1)
    }
}

#[via_fn]
proof fn flatten_from_decreases(t: Tree, i: int) {
    if 0 <= i < t.len() && is_flattenable(t, i) {
        lemma_hoist_len(t, i);
    }
}

/// Hoisting takes exactly one element away.
pub proof fn lemma_hoist_len(t: Tree, i: int)
    requires
        0 <= i < t.len(),
    ensures
        hoist(t, i).len() == t.len() - 1,
{
}

/// The document after the whole sweep.
pub open spec fn flatten(t: Tree) -> Tree {
    flatten_from(t, 0)
}

/// The sweep never adds an element, and a sweep that removes none
/// changes nothing.
pub proof fn law_flatten_only_removes(t: Tree, i: int)
    requires
        0 <= i,
    ensures
        flatten_from(t, i).len() <= t.len(),
        flatten_from(t, i).len() == t.len() ==> flatten_from(t, i) == t,
    decreases t.len() - i,
{
    if i < t.len() {
        if is_flattenable(t, i) {
            lemma_hoist_len(t, i);
            law_flatten_only_removes(hoist(t, i), i);
        } else {
            law_flatten_only_removes(t, i + 1);
        }
    }
}

/// The sweep keeps a document well formed: identifiers stay unique and
/// every link keeps a target.
pub proof fn law_flatten_keeps_well_formed(t: Tree, i: int)
    requires
        well_formed(t),
        0 <= i,
    ensures
        well_formed(flatten_from(t, i)),
    decreases t.len() - i,
{
    if i < t.len() {
        if is_flattenable(t, i) {
            lemma_hoist_wf(t, i);
            law_flatten_keeps_well_formed(hoist(t, i), i);
        } else {
            law_flatten_keeps_well_formed(t, i + 1);
        }
    }
}

/// A document without a container that can go is left as it is.
pub proof fn law_flatten_fixed_point(t: Tree, i: int)
    requires
        0 <= i,
        forall|k: int| i <= k < t.len() ==> !#[trigger] is_flattenable(t, k),
    ensures
        flatten_from(t, i) == t,
    decreases t.len() - i,
{
    if i < t.len() {
        assert(!is_flattenable(t, i));
        law_flatten_fixed_point(t, i + 1);
    }
}

/// Whether element `i` is a container that can go.
pub fn can_flatten(doc: &Document, i: usize) -> (r: bool)
    requires
        i < doc@.len(),
    ensures
        r == is_flattenable(doc@, i as int),
{
    if !(doc.element(i).kind == ElementKind::Defs) {
        return false;
    }
    let e: usize = doc.subtree_end(i);
    let d: usize = doc.element(i).depth;
    proof {
        lemma_subtree_end(doc@, i as int);
    }
    let mut c: usize = i + 1;
    while c < e
        invariant
            i < c <= e <= doc@.len(),
            e == subtree_end(doc@, i as int),
            d == doc@[i as int].depth,
            forall|k: int| i < k < e ==> (#[trigger] doc@[k]).depth > d,
            forall|k: int| i < k < c && #[trigger] is_child(doc@, i as int, k) ==> is_referenced(
                doc@,
                k,
            ),
        decreases e - c,
    {
        if doc.element(c).depth - d == 1 && !doc.is_referenced(c) {
            assert(is_child(doc@, i as int, c as int));
            return false;
        }
        c += 1;
    }
    true
}

/// Replaces every definition container whose children are all
/// referenced by its children, in document order, and says whether the
/// document changed.
pub fn ungroup_defs(doc: &mut Document) -> (changed: bool)
    requires
        old(doc).wf(),
    ensures
        final(doc).wf(),
        final(doc)@ == flatten(old(doc)@),
        changed == (final(doc)@ != old(doc)@),
        final(doc)@.len() <= old(doc)@.len(),
{
    let ghost start = doc@;
    let mut changed = false;
    let mut i: usize = 0;
    while i < doc.len()
        invariant
            doc.wf(),
            i <= doc@.len(),
            flatten_from(doc@, i as int) == flatten(start),
            changed ==> doc@.len() < start.len(),
            !changed ==> doc@ == start,
        decreases doc@.len() - i,
    {
        if can_flatten(doc, i) {
            proof {
                lemma_hoist_wf(doc@, i as int);
            }
            doc.hoist(i);
            changed = true;
        } else {
            i += 1;
        }
    }
    changed
}

} // verus!
