//! What documents are, as mathematics: sequences of element values in
//! document order, the rules they obey, and the edits passes make.
use vstd::prelude::*;
use crate::element::{AttrKind, ElementKind, ElementView};

verus! {

/// A document's value: its elements in document order.
pub type Tree = Seq<ElementView>;

/// Index of the first element at or after `from` whose depth does not
/// exceed `depth`, or the length of the document if there is none.
pub open spec fn run_end(t: Tree, from: int, depth: nat) -> int
    decreases t.len() - from,
{
    if from < 0 || from >= t.len() || t[from].depth <= depth {
        from
    } else {
        run_end(t, from + 1, depth)
    }
}

/// Index one past the last descendant of element `i`.
pub open spec fn subtree_end(t: Tree, i: int) -> int {
    run_end(t, i + 1, t[i].depth)
}

/// Element `i` has at least one child.
pub open spec fn has_children(t: Tree, i: int) -> bool {
    i + 1 < t.len() && t[i + 1].depth > t[i].depth
}

/// Element `c` is a child of element `i`.
pub open spec fn is_child(t: Tree, i: int, c: int) -> bool {
    i < c < subtree_end(t, i) && t[c].depth == t[i].depth + 1
}

/// Some element carries the identifier `id`.
pub open spec fn has_id(t: Tree, id: Seq<char>) -> bool {
    exists|j: int| 0 <= j < t.len() && (#[trigger] t[j]).id == id
}

/// Element `e` has a link attribute whose target is `id`.
pub open spec fn links_to(e: ElementView, id: Seq<char>) -> bool {
    exists|k: int|
        0 <= k < e.attrs.len() && (#[trigger] e.attrs[k]).is_link && e.attrs[k].value == id
}

/// Element `i` has an identifier and is the target of at least one link
/// attribute of the document.
pub open spec fn is_referenced(t: Tree, i: int) -> bool {
    t[i].id.len() > 0 && exists|j: int| 0 <= j < t.len() && links_to(#[trigger] t[j], t[i].id)
}

/// Element `e` has an attribute of kind `kind`.
pub open spec fn has_attribute(e: ElementView, kind: AttrKind) -> bool {
    exists|k: int| 0 <= k < e.attrs.len() && (#[trigger] e.attrs[k]).kind == kind
}

/// Element `i` lies at most one level below its predecessor.
pub open spec fn nested_at(t: Tree, i: int) -> bool {
    t[i].depth <= t[i - 1].depth + 1
}

/// The first element is a root, and no element lies more than one level
/// below its predecessor.
pub open spec fn well_nested(t: Tree) -> bool {
    &&& t.len() > 0 ==> t[0].depth == 0
    &&& forall|i: int| 0 < i < t.len() ==> #[trigger] nested_at(t, i)
}

/// No two elements share a non-empty identifier.
pub open spec fn ids_unique(t: Tree) -> bool {
    forall|i: int, j: int|
        0 <= i < t.len() && 0 <= j < t.len() && i != j && (#[trigger] t[i]).id.len() > 0
            ==> t[i].id != (#[trigger] t[j]).id
}

/// Every link attribute names the identifier of an element of the
/// document.
pub open spec fn links_resolve(t: Tree) -> bool {
    forall|i: int, k: int|
        0 <= i < t.len() && 0 <= k < t[i].attrs.len() && (#[trigger] t[i].attrs[k]).is_link
            ==> t[i].attrs[k].value.len() > 0 && has_id(t, t[i].attrs[k].value)
}

/// The rules every document obeys: proper nesting, unique identifiers,
/// no dangling link.
pub open spec fn well_formed(t: Tree) -> bool {
    &&& well_nested(t)
    &&& ids_unique(t)
    &&& links_resolve(t)
}

/// A root element of kind `Svg` is present.
pub open spec fn has_svg_root(t: Tree) -> bool {
    exists|i: int| 0 <= i < t.len() && (#[trigger] t[i]).depth == 0 && t[i].kind == ElementKind::Svg
}

/// What [`run_end`] finds: everything before it lies deeper than
/// `depth`, and the element at it, if any, does not.
pub proof fn lemma_run_end(t: Tree, from: int, depth: nat)
    requires
        0 <= from <= t.len(),
    ensures
        from <= run_end(t, from, depth) <= t.len(),
        forall|k: int| from <= k < run_end(t, from, depth) ==> (#[trigger] t[k]).depth > depth,
        run_end(t, from, depth) < t.len() ==> t[run_end(t, from, depth)].depth <= depth,
    decreases t.len() - from,
{
    if from < t.len() && t[from].depth > depth {
        lemma_run_end(t, from + 1, depth);
    }
}

/// [`run_end`] is the only index with the properties of
/// [`lemma_run_end`].
pub proof fn lemma_run_end_is(t: Tree, from: int, depth: nat, e: int)
    requires
        0 <= from <= e <= t.len(),
        forall|k: int| from <= k < e ==> (#[trigger] t[k]).depth > depth,
        e < t.len() ==> t[e].depth <= depth,
    ensures
        run_end(t, from, depth) == e,
    decreases e - from,
{
    if from < e {
        lemma_run_end_is(t, from + 1, depth, e);
    }
}

/// The descendants of element `i` follow it directly and lie deeper.
pub proof fn lemma_subtree_end(t: Tree, i: int)
    requires
        0 <= i < t.len(),
    ensures
        i < subtree_end(t, i) <= t.len(),
        forall|k: int| i < k < subtree_end(t, i) ==> (#[trigger] t[k]).depth > t[i].depth,
        subtree_end(t, i) < t.len() ==> t[subtree_end(t, i)].depth <= t[i].depth,
        has_children(t, i) <==> subtree_end(t, i) > i + 1,
{
    lemma_run_end(t, i + 1, t[i].depth);
}

} // verus!
