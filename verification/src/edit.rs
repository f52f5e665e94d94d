//! The edits passes make to a document, as functions on its value, and
//! the proofs that they keep it well formed.
use vstd::prelude::*;
use crate::element::{AttributeView, AttrKind, ElementKind, ElementView};
use crate::tree::{
    has_children, has_id, ids_unique, lemma_subtree_end, links_resolve, links_to, nested_at,
    subtree_end, well_formed, well_nested, Tree,
};

verus! {

/// Attribute `a` is a link to one of the identifiers in `dead`.
pub open spec fn is_dead_link(a: AttributeView, dead: Seq<Seq<char>>) -> bool {
    a.is_link && dead.contains(a.value)
}

/// Attribute `a` is to go: it is a link to one of the identifiers in
/// `dead`, or it is of the kind `kind` names.
pub open spec fn is_dropped(a: AttributeView, dead: Seq<Seq<char>>, kind: Option<AttrKind>) -> bool {
    is_dead_link(a, dead) || kind == Some(a.kind)
}

/// `attrs` without the attributes that are to go, order kept.
pub open spec fn sifted(
    attrs: Seq<AttributeView>,
    dead: Seq<Seq<char>>,
    kind: Option<AttrKind>,
) -> Seq<AttributeView>
    decreases attrs.len(),
{
    if attrs.len() == 0 {
        attrs
    } else {
        let rest = sifted(attrs.drop_last(), dead, kind);
        if is_dropped(attrs.last(), dead, kind) {
            rest
        } else {
            rest.push(attrs.last())
        }
    }
}

/// `attrs` without the links to identifiers in `dead`, order kept.
pub open spec fn without_links(attrs: Seq<AttributeView>, dead: Seq<Seq<char>>) -> Seq<
    AttributeView,
> {
    sifted(attrs, dead, None)
}

/// `attrs` without the attributes of kind `kind`, order kept.
pub open spec fn without_kind(attrs: Seq<AttributeView>, kind: AttrKind) -> Seq<AttributeView> {
    sifted(attrs, Seq::empty(), Some(kind))
}

/// Element `e` without its links to identifiers in `dead`.
pub open spec fn unlinked(e: ElementView, dead: Seq<Seq<char>>) -> ElementView {
    ElementView { attrs: without_links(e.attrs, dead), ..e }
}

/// Document `t` with every link to an identifier in `dead` dropped.
pub open spec fn unlink(t: Tree, dead: Seq<Seq<char>>) -> Tree {
    t.map_values(|e: ElementView| unlinked(e, dead))
}

/// The identifiers of the elements of `t`, in order.
pub open spec fn ids_of(t: Tree) -> Seq<Seq<char>> {
    t.map_values(|e: ElementView| e.id)
}

/// Document `t` without the elements `a..b`, and without the link
/// attributes that pointed at one of them.
pub open spec fn remove_range(t: Tree, a: int, b: int) -> Tree {
    unlink(t.take(a) + t.skip(b), ids_of(t.subrange(a, b)))
}

/// Element `e` one level higher.
pub open spec fn raised(e: ElementView) -> ElementView {
    ElementView { depth: (e.depth - 1) as nat, ..e }
}

/// Document `t` with the elements `a..b` one level higher.
pub open spec fn lift(t: Tree, a: int, b: int) -> Tree {
    Seq::new(
        t.len(),
        |k: int|
            if a <= k < b {
                raised(t[k])
            } else {
                t[k]
            },
    )
}

/// Document `t` without element `i`, whose children take its place in
/// their order; links to the removed element go with it.
pub open spec fn hoist(t: Tree, i: int) -> Tree {
    remove_range(lift(t, i + 1, subtree_end(t, i)), i, i + 1)
}

/// A link attribute of kind `kind` to the identifier `target`.
pub open spec fn link_attr(kind: AttrKind, target: Seq<char>) -> AttributeView {
    AttributeView { kind, is_link: true, value: target }
}

/// Element `e` with one more attribute, a link to `target`.
pub open spec fn with_link(e: ElementView, kind: AttrKind, target: Seq<char>) -> ElementView {
    ElementView { attrs: e.attrs.push(link_attr(kind, target)), ..e }
}

/// A new element without attributes or children.
pub open spec fn bare(depth: nat, kind: ElementKind, id: Seq<char>) -> ElementView {
    ElementView { depth, kind, id, attrs: Seq::empty() }
}

/// Document `t` after the children of element `h` have moved to a new
/// element of kind `kind` and identifier `id` that stands immediately
/// before `h`, and `h` has been given a link to it.
pub open spec fn share_children(t: Tree, h: int, kind: ElementKind, id: Seq<char>) -> Tree {
    t.update(h, bare(t[h].depth, kind, id)).insert(
        subtree_end(t, h),
        with_link(t[h], AttrKind::Href, id),
    )
}

/// Document `t` without the descendants of element `x`.
pub open spec fn clear_children(t: Tree, x: int) -> Tree {
    if has_children(t, x) {
        remove_range(t, x + 1, subtree_end(t, x))
    } else {
        t
    }
}

/// Document `t` after element `x` has been given a link to `target`.
pub open spec fn add_link(t: Tree, x: int, kind: AttrKind, target: Seq<char>) -> Tree {
    t.update(x, with_link(t[x], kind, target))
}

/// Document `t` after element `x` has lost its descendants and been
/// given a link to `target`.
pub open spec fn stub(t: Tree, x: int, target: Seq<char>) -> Tree {
    add_link(clear_children(t, x), x, AttrKind::Href, target)
}

/// What [`sifted`] keeps: the attributes that are not to go.
pub proof fn lemma_sifted(attrs: Seq<AttributeView>, dead: Seq<Seq<char>>, kind: Option<AttrKind>)
    ensures
        sifted(attrs, dead, kind).len() <= attrs.len(),
        forall|a: AttributeView| #[trigger]
            sifted(attrs, dead, kind).contains(a) <==> attrs.contains(a) && !is_dropped(
                a,
                dead,
                kind,
            ),
    decreases attrs.len(),
{
    if attrs.len() > 0 {
        let front = attrs.drop_last();
        let rest = sifted(front, dead, kind);
        let r = sifted(attrs, dead, kind);
        lemma_sifted(front, dead, kind);
        assert forall|a: AttributeView| #[trigger]
            r.contains(a) <==> attrs.contains(a) && !is_dropped(a, dead, kind) by {
            if r.contains(a) {
                let k = choose|k: int| 0 <= k < r.len() && r[k] == a;
                if k < rest.len() {
                    assert(rest[k] == a);
                    assert(rest.contains(a));
                    let j = choose|j: int| 0 <= j < front.len() && front[j] == a;
                    assert(attrs[j] == a);
                } else {
                    assert(a == attrs.last());
                    assert(attrs[attrs.len() - 1] == a);
                }
            }
            if attrs.contains(a) && !is_dropped(a, dead, kind) {
                let j = choose|j: int| 0 <= j < attrs.len() && attrs[j] == a;
                if j < attrs.len() - 1 {
                    assert(front[j] == a);
                    assert(front.contains(a));
                    assert(rest.contains(a));
                    let k = choose|k: int| 0 <= k < rest.len() && rest[k] == a;
                    assert(r[k] == a);
                } else {
                    assert(r[rest.len() as int] == a);
                }
            }
        }
    }
}

/// Nothing goes where no attribute is to go.
pub proof fn lemma_sifted_none(
    attrs: Seq<AttributeView>,
    dead: Seq<Seq<char>>,
    kind: Option<AttrKind>,
)
    requires
        forall|k: int| 0 <= k < attrs.len() ==> !is_dropped(#[trigger] attrs[k], dead, kind),
    ensures
        sifted(attrs, dead, kind) == attrs,
    decreases attrs.len(),
{
    if attrs.len() > 0 {
        let front = attrs.drop_last();
        assert forall|k: int| 0 <= k < front.len() implies !is_dropped(
            #[trigger] front[k],
            dead,
            kind,
        ) by {
            assert(front[k] == attrs[k]);
        }
        lemma_sifted_none(front, dead, kind);
        assert(!is_dropped(attrs[attrs.len() - 1], dead, kind));
        assert(front.push(attrs.last()) =~= attrs);
    } else {
        assert(sifted(attrs, dead, kind) =~= attrs);
    }
}

/// The attributes [`without_links`] keeps are those that are no link
/// to a dead identifier.
pub proof fn lemma_without_links(attrs: Seq<AttributeView>, dead: Seq<Seq<char>>)
    ensures
        without_links(attrs, dead).len() <= attrs.len(),
        forall|a: AttributeView| #[trigger]
            without_links(attrs, dead).contains(a) <==> attrs.contains(a) && !is_dead_link(
                a,
                dead,
            ),
{
    lemma_sifted(attrs, dead, None);
}

/// No link is dropped when no identifier is dead.
pub proof fn lemma_without_links_none(attrs: Seq<AttributeView>, dead: Seq<Seq<char>>)
    requires
        forall|k: int| 0 <= k < attrs.len() ==> !is_dead_link(#[trigger] attrs[k], dead),
    ensures
        without_links(attrs, dead) == attrs,
{
    lemma_sifted_none(attrs, dead, None);
}

/// After unlinking, an element links to `id` exactly if it did before
/// and `id` is not dead.
pub proof fn lemma_links_to_unlinked(e: ElementView, dead: Seq<Seq<char>>, id: Seq<char>)
    ensures
        links_to(unlinked(e, dead), id) <==> links_to(e, id) && !dead.contains(id),
{
    let u = unlinked(e, dead);
    lemma_without_links(e.attrs, dead);
    if links_to(u, id) {
        let k = choose|k: int|
            0 <= k < u.attrs.len() && (#[trigger] u.attrs[k]).is_link && u.attrs[k].value == id;
        assert(u.attrs.contains(u.attrs[k]));
        let j = choose|j: int| 0 <= j < e.attrs.len() && e.attrs[j] == u.attrs[k];
        assert(e.attrs[j].is_link && e.attrs[j].value == id);
    }
    if links_to(e, id) && !dead.contains(id) {
        let j = choose|j: int|
            0 <= j < e.attrs.len() && (#[trigger] e.attrs[j]).is_link && e.attrs[j].value == id;
        assert(e.attrs.contains(e.attrs[j]));
        assert(u.attrs.contains(e.attrs[j]));
        let k = choose|k: int| 0 <= k < u.attrs.len() && u.attrs[k] == e.attrs[j];
        assert(u.attrs[k].is_link && u.attrs[k].value == id);
    }
}

/// Where the elements of a document stand after a removal.
pub proof fn lemma_remove_range(t: Tree, a: int, b: int)
    requires
        0 <= a <= b <= t.len(),
    ensures
        remove_range(t, a, b).len() == t.len() - (b - a),
        forall|j: int|
            0 <= j < a ==> (#[trigger] remove_range(t, a, b)[j]) == unlinked(
                t[j],
                ids_of(t.subrange(a, b)),
            ),
        forall|j: int|
            a <= j < t.len() - (b - a) ==> (#[trigger] remove_range(t, a, b)[j]) == unlinked(
                t[j + (b - a)],
                ids_of(t.subrange(a, b)),
            ),
{
}

/// Removing whole subtrees keeps a document well formed.
pub proof fn lemma_remove_range_wf(t: Tree, a: int, b: int)
    requires
        well_formed(t),
        0 <= a < b <= t.len(),
        b < t.len() ==> t[b].depth <= t[a].depth,
    ensures
        well_formed(remove_range(t, a, b)),
{
    let r = remove_range(t, a, b);
    let dead = ids_of(t.subrange(a, b));
    lemma_remove_range(t, a, b);
    assert(well_nested(r)) by {
        assert forall|j: int| 0 < j < r.len() implies #[trigger] nested_at(r, j) by {
            if j < a {
                assert(nested_at(t, j));
            } else if j == a {
                assert(nested_at(t, a));
            } else {
                assert(nested_at(t, j + (b - a)));
            }
        }
    }
    assert(ids_unique(r)) by {
        assert forall|i: int, j: int|
            0 <= i < r.len() && 0 <= j < r.len() && i != j && (#[trigger] r[i]).id.len()
                > 0 implies r[i].id != (#[trigger] r[j]).id by {
            let si = if i < a { i } else { i + (b - a) };
            let sj = if j < a { j } else { j + (b - a) };
            assert(r[i].id == t[si].id && r[j].id == t[sj].id);
        }
    }
    assert(links_resolve(r)) by {
        assert forall|i: int, k: int|
            0 <= i < r.len() && 0 <= k < r[i].attrs.len() && (#[trigger] r[i].attrs[k]).is_link
                implies r[i].attrs[k].value.len() > 0 && has_id(r, r[i].attrs[k].value) by {
            let si = if i < a { i } else { i + (b - a) };
            let at = r[i].attrs[k];
            lemma_without_links(t[si].attrs, dead);
            assert(r[i].attrs.contains(at));
            let k0 = choose|k0: int| 0 <= k0 < t[si].attrs.len() && t[si].attrs[k0] == at;
            assert(t[si].attrs[k0].is_link);
            let w = choose|w: int| 0 <= w < t.len() && (#[trigger] t[w]).id == at.value;
            if a <= w < b {
                assert(dead[w - a] == at.value);
                assert(dead.contains(at.value));
            }
            let rw = if w < a { w } else { w - (b - a) };
            assert(r[rw].id == at.value);
        }
    }
}

/// Lifting the descendants of an element leaves it childless in a
/// well-formed document.
pub proof fn lemma_lift_wf(t: Tree, i: int)
    requires
        well_formed(t),
        0 <= i < t.len(),
    ensures
        well_formed(lift(t, i + 1, subtree_end(t, i))),
        lift(t, i + 1, subtree_end(t, i)).len() == t.len(),
        !has_children(lift(t, i + 1, subtree_end(t, i)), i),
{
    let e = subtree_end(t, i);
    let l = lift(t, i + 1, e);
    lemma_subtree_end(t, i);
    assert(well_nested(l)) by {
        assert forall|j: int| 0 < j < l.len() implies #[trigger] nested_at(l, j) by {
            assert(nested_at(t, j));
            if j == e {
                if e > i + 1 {
                    assert(t[e - 1].depth > t[i].depth);
                }
            }
        }
    }
    assert(ids_unique(l)) by {
        assert forall|a: int, b: int|
            0 <= a < l.len() && 0 <= b < l.len() && a != b && (#[trigger] l[a]).id.len()
                > 0 implies l[a].id != (#[trigger] l[b]).id by {
            assert(l[a].id == t[a].id && l[b].id == t[b].id);
        }
    }
    assert(links_resolve(l)) by {
        assert forall|a: int, k: int|
            0 <= a < l.len() && 0 <= k < l[a].attrs.len() && (#[trigger] l[a].attrs[k]).is_link
                implies l[a].attrs[k].value.len() > 0 && has_id(l, l[a].attrs[k].value) by {
            assert(l[a].attrs == t[a].attrs);
            assert(t[a].attrs[k].is_link);
            let w = choose|w: int| 0 <= w < t.len() && (#[trigger] t[w]).id == t[a].attrs[k].value;
            assert(l[w].id == t[w].id);
        }
    }
    if i + 1 < t.len() {
        assert(nested_at(t, i + 1));
    }
}

/// Hoisting the children of an element keeps a document well formed.
pub proof fn lemma_hoist_wf(t: Tree, i: int)
    requires
        well_formed(t),
        0 <= i < t.len(),
    ensures
        well_formed(hoist(t, i)),
        hoist(t, i).len() == t.len() - 1,
{
    let l = lift(t, i + 1, subtree_end(t, i));
    lemma_lift_wf(t, i);
    lemma_remove_range(l, i, i + 1);
    lemma_remove_range_wf(l, i, i + 1);
}

/// Where the elements of a document stand after its children moved to
/// a new shared element.
pub proof fn lemma_share_children(t: Tree, h: int, kind: ElementKind, id: Seq<char>)
    requires
        0 <= h < t.len(),
    ensures
        share_children(t, h, kind, id).len() == t.len() + 1,
        share_children(t, h, kind, id)[h] == bare(t[h].depth, kind, id),
        share_children(t, h, kind, id)[subtree_end(t, h)] == with_link(t[h], AttrKind::Href, id),
        forall|j: int|
            0 <= j < subtree_end(t, h) && j != h ==> (#[trigger] share_children(t, h, kind, id)[j])
                == t[j],
        forall|j: int|
            subtree_end(t, h) < j <= t.len() ==> (#[trigger] share_children(t, h, kind, id)[j])
                == t[j - 1],
{
    lemma_subtree_end(t, h);
}

/// Moving children to a new shared element with an unused identifier
/// keeps a document well formed.
pub proof fn lemma_share_children_wf(t: Tree, h: int, kind: ElementKind, id: Seq<char>)
    requires
        well_formed(t),
        0 <= h < t.len(),
        id.len() > 0,
        !has_id(t, id),
    ensures
        well_formed(share_children(t, h, kind, id)),
{
    let e = subtree_end(t, h);
    let s = share_children(t, h, kind, id);
    lemma_subtree_end(t, h);
    lemma_share_children(t, h, kind, id);
    assert(well_nested(s)) by {
        assert forall|j: int| 0 < j < s.len() implies #[trigger] nested_at(s, j) by {
            if j < e {
                assert(nested_at(t, j));
            } else if j == e {
                if e > h + 1 {
                    assert(t[e - 1].depth > t[h].depth);
                }
            } else if j == e + 1 {
            } else {
                assert(nested_at(t, j - 1));
            }
        }
    }
    assert(ids_unique(s)) by {
        assert forall|a: int, b: int|
            0 <= a < s.len() && 0 <= b < s.len() && a != b && (#[trigger] s[a]).id.len()
                > 0 implies s[a].id != (#[trigger] s[b]).id by {
            let sa = if a == h { -1 } else if a < e { a } else if a == e { h } else { a - 1 };
            let sb = if b == h { -1 } else if b < e { b } else if b == e { h } else { b - 1 };
            if sa >= 0 {
                assert(s[a].id == t[sa].id);
            }
            if sb >= 0 {
                assert(s[b].id == t[sb].id);
            }
        }
    }
    assert(links_resolve(s)) by {
        assert forall|a: int, k: int|
            0 <= a < s.len() && 0 <= k < s[a].attrs.len() && (#[trigger] s[a].attrs[k]).is_link
                implies s[a].attrs[k].value.len() > 0 && has_id(s, s[a].attrs[k].value) by {
            let sa = if a < e { a } else if a == e { h } else { a - 1 };
            if a == e && k == t[h].attrs.len() {
                assert(s[h].id == id);
            } else {
                assert(s[a].attrs[k] == t[sa].attrs[k]);
                assert(t[sa].attrs[k].is_link);
                let w = choose|w: int|
                    0 <= w < t.len() && (#[trigger] t[w]).id == t[sa].attrs[k].value;
                let sw = if w == h { e } else if w < e { w } else { w + 1 };
                assert(s[sw].id == t[w].id);
            }
        }
    }
}

/// Giving an element a link to an identifier of the document keeps
/// the document well formed.
pub proof fn lemma_add_link_wf(t: Tree, x: int, kind: AttrKind, target: Seq<char>)
    requires
        well_formed(t),
        0 <= x < t.len(),
        target.len() > 0,
        has_id(t, target),
    ensures
        well_formed(add_link(t, x, kind, target)),
{
    let s = add_link(t, x, kind, target);
    let w = choose|w: int| 0 <= w < t.len() && (#[trigger] t[w]).id == target;
    assert(well_nested(s)) by {
        assert forall|j: int| 0 < j < s.len() implies #[trigger] nested_at(s, j) by {
            assert(nested_at(t, j));
        }
    }
    assert(ids_unique(s)) by {
        assert forall|a: int, b: int|
            0 <= a < s.len() && 0 <= b < s.len() && a != b && (#[trigger] s[a]).id.len()
                > 0 implies s[a].id != (#[trigger] s[b]).id by {
            assert(s[a].id == t[a].id && s[b].id == t[b].id);
        }
    }
    assert(links_resolve(s)) by {
        assert forall|a: int, k: int|
            0 <= a < s.len() && 0 <= k < s[a].attrs.len() && (#[trigger] s[a].attrs[k]).is_link
                implies s[a].attrs[k].value.len() > 0 && has_id(s, s[a].attrs[k].value) by {
            if a == x && k == t[x].attrs.len() {
                assert(s[w].id == t[w].id);
            } else {
                assert(s[a].attrs[k] == t[a].attrs[k]);
                assert(t[a].attrs[k].is_link);
                let v = choose|v: int|
                    0 <= v < t.len() && (#[trigger] t[v]).id == t[a].attrs[k].value;
                assert(s[v].id == t[v].id);
            }
        }
    }
}

/// Clearing the children of an element keeps a document well formed.
pub proof fn lemma_clear_children_wf(t: Tree, x: int)
    requires
        well_formed(t),
        0 <= x < t.len(),
    ensures
        well_formed(clear_children(t, x)),
        clear_children(t, x).len() == t.len() - (subtree_end(t, x) - x - 1),
        x < clear_children(t, x).len(),
        forall|j: int| 0 <= j <= x ==> (#[trigger] clear_children(t, x)[j]).id == t[j].id,
        forall|j: int|
            x < j < clear_children(t, x).len() ==> (#[trigger] clear_children(t, x)[j]).id == t[j
                + (subtree_end(t, x) - x - 1)].id,
{
    lemma_subtree_end(t, x);
    if has_children(t, x) {
        let e = subtree_end(t, x);
        lemma_remove_range(t, x + 1, e);
        lemma_remove_range_wf(t, x + 1, e);
    }
}

/// Turning an element into a stub keeps a document well formed, as
/// long as the link's target is not among the descendants that go.
pub proof fn lemma_stub_wf(t: Tree, x: int, target: Seq<char>, w: int)
    requires
        well_formed(t),
        0 <= x < t.len(),
        target.len() > 0,
        0 <= w < t.len(),
        t[w].id == target,
        !(x < w < subtree_end(t, x)),
    ensures
        well_formed(stub(t, x, target)),
        stub(t, x, target).len() == t.len() - (subtree_end(t, x) - x - 1),
{
    let c = clear_children(t, x);
    let e = subtree_end(t, x);
    lemma_subtree_end(t, x);
    lemma_clear_children_wf(t, x);
    let cw = if w <= x { w } else { w - (e - x - 1) };
    assert(c[cw].id == target);
    lemma_add_link_wf(c, x, AttrKind::Href, target);
}

/// Turning element `x` into a stub leaves the elements up to `x` in
/// place, with their depth, kind and identifier, and takes the
/// descendants of `x` away.
pub proof fn lemma_stub_front(t: Tree, x: int, target: Seq<char>)
    requires
        0 <= x < t.len(),
    ensures
        x < stub(t, x, target).len() <= t.len(),
        has_children(t, x) ==> stub(t, x, target).len() < t.len(),
        forall|j: int|
            0 <= j <= x ==> {
                &&& (#[trigger] stub(t, x, target)[j]).id == t[j].id
                &&& stub(t, x, target)[j].depth == t[j].depth
                &&& stub(t, x, target)[j].kind == t[j].kind
            },
{
    lemma_subtree_end(t, x);
    if has_children(t, x) {
        lemma_remove_range(t, x + 1, subtree_end(t, x));
    }
}

/// Element `i` may be given a link to element `j`: `j` has an
/// identifier, is not `i` itself, and does not link to `i`.
pub open spec fn can_link(t: Tree, i: int, j: int) -> bool {
    t[j].id.len() > 0 && t[j].id != t[i].id && !links_to(t[j], t[i].id)
}

/// Document `t` after the attribute of kind `kind` of element `i` has
/// been set to a link to `target`, in place of any attribute of that
/// kind it had.
pub open spec fn set_link(t: Tree, i: int, kind: AttrKind, target: Seq<char>) -> Tree {
    t.update(
        i,
        ElementView {
            attrs: without_kind(t[i].attrs, kind).push(link_attr(kind, target)),
            ..t[i]
        },
    )
}

/// What [`without_kind`] keeps was there before and is of another
/// kind.
pub proof fn lemma_without_kind(attrs: Seq<AttributeView>, kind: AttrKind)
    ensures
        without_kind(attrs, kind).len() <= attrs.len(),
        forall|k: int|
            0 <= k < without_kind(attrs, kind).len() ==> attrs.contains(
                #[trigger] without_kind(attrs, kind)[k],
            ) && without_kind(attrs, kind)[k].kind != kind,
{
    let r = without_kind(attrs, kind);
    lemma_sifted(attrs, Seq::empty(), Some(kind));
    assert forall|k: int| 0 <= k < r.len() implies attrs.contains(#[trigger] r[k]) && r[k].kind
        != kind by {
        assert(r.contains(r[k]));
    }
}

/// Setting a link to an identifier of the document keeps the document
/// well formed.
pub proof fn lemma_set_link_wf(t: Tree, i: int, kind: AttrKind, target: Seq<char>)
    requires
        well_formed(t),
        0 <= i < t.len(),
        target.len() > 0,
        has_id(t, target),
    ensures
        well_formed(set_link(t, i, kind, target)),
{
    let s = set_link(t, i, kind, target);
    let w = choose|w: int| 0 <= w < t.len() && (#[trigger] t[w]).id == target;
    let kept = without_kind(t[i].attrs, kind);
    lemma_without_kind(t[i].attrs, kind);
    assert(well_nested(s)) by {
        assert forall|j: int| 0 < j < s.len() implies #[trigger] nested_at(s, j) by {
            assert(nested_at(t, j));
        }
    }
    assert(ids_unique(s)) by {
        assert forall|a: int, b: int|
            0 <= a < s.len() && 0 <= b < s.len() && a != b && (#[trigger] s[a]).id.len()
                > 0 implies s[a].id != (#[trigger] s[b]).id by {
            assert(s[a].id == t[a].id && s[b].id == t[b].id);
        }
    }
    assert(links_resolve(s)) by {
        assert forall|a: int, k: int|
            0 <= a < s.len() && 0 <= k < s[a].attrs.len() && (#[trigger] s[a].attrs[k]).is_link
                implies s[a].attrs[k].value.len() > 0 && has_id(s, s[a].attrs[k].value) by {
            let at = s[a].attrs[k];
            if a == i && k == kept.len() {
                assert(s[w].id == t[w].id);
            } else {
                let k0 = if a == i {
                    assert(at == kept[k]);
                    assert(t[i].attrs.contains(kept[k]));
                    choose|k0: int| 0 <= k0 < t[i].attrs.len() && t[i].attrs[k0] == at
                } else {
                    k
                };
                assert(t[a].attrs[k0] == at);
                assert(t[a].attrs[k0].is_link);
                let v = choose|v: int| 0 <= v < t.len() && (#[trigger] t[v]).id == at.value;
                assert(s[v].id == t[v].id);
            }
        }
    }
}

} // verus!
