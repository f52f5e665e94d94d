//! Merging twice.
//!
//! A second run changes nothing exactly if the first run leaves no
//! candidate with a join.  It leaves one only where a merge does so at
//! or before its shared element.  That never happens where the
//! elements a rule merges keep their content to themselves: there a
//! merge changes nothing but the head and its joins.
use vstd::prelude::*;
use crate::edit::{
    ids_of, is_dead_link, lemma_remove_range, lemma_share_children, lemma_share_children_wf,
    lemma_stub_wf, lemma_without_links_none, share_children, stub, unlinked, with_link,
};
use crate::element::{AttrKind, ElementView};
use crate::ident::{fresh_id, lemma_fresh_id};
use crate::merge::{
    content, id_prefix, is_candidate, is_equal, is_join, is_mergeable, joins, kind_fits,
    law_merge_fixed_point, law_merge_keeps_well_formed, lemma_joins_upto, lemma_merge_at,
    merge_at, merge_from, merged, same_attributes, stub_all, MergeRule,
};
use crate::tree::{
    has_attribute, has_children, has_id, is_referenced, lemma_run_end_is, lemma_subtree_end,
    links_to, subtree_end, well_formed, Tree,
};

verus! {

/// Element `k` lies inside element `g`, which is of a kind the rule
/// merges.
pub open spec fn encloses(t: Tree, g: int, k: int, rule: MergeRule) -> bool {
    0 <= g < k < subtree_end(t, g) && k < t.len() && kind_fits(rule, t[g].kind)
}

/// The elements the rule merges keep their content to themselves:
/// what lies inside one of them is neither of such a kind nor the
/// target of a link.
pub open spec fn contents_plain(t: Tree, rule: MergeRule) -> bool {
    forall|g: int, k: int| #[trigger]
        encloses(t, g, k, rule) ==> !is_referenced(t, k) && !kind_fits(rule, t[k].kind)
}

/// Elements `a` and `b` are two candidates with equal content.
pub open spec fn is_pair(t: Tree, a: int, b: int, rule: MergeRule) -> bool {
    &&& 0 <= a < b < t.len()
    &&& is_candidate(t, a, rule)
    &&& is_candidate(t, b, rule)
    &&& content(t, a) == content(t, b)
}

/// Where the rule looks at the attributes of candidates, candidates
/// with equal content hold the same attributes.
pub open spec fn attributes_follow(t: Tree, rule: MergeRule) -> bool {
    rule is Kind ==> forall|a: int, b: int| #[trigger]
        is_pair(t, a, b, rule) ==> same_attributes(t[a].attrs, t[b].attrs)
}

/// Two elements of the same depth, kind and attributes.
pub open spec fn same_shape(x: ElementView, y: ElementView) -> bool {
    x.depth == y.depth && x.kind == y.kind && x.attrs == y.attrs
}

/// The `k`-th element from `g` in `u` has the shape of the `k`-th
/// element from `g2` in `v`.
pub open spec fn shape_matches(u: Tree, g: int, v: Tree, g2: int, k: int) -> bool {
    same_shape(u[g + k], v[g2 + k])
}

/// An element whose subtree stands unchanged in another document has
/// the same content there, and is a candidate there exactly if it is
/// one here.
pub proof fn lemma_same_subtree(u: Tree, g: int, v: Tree, g2: int, rule: MergeRule)
    requires
        0 <= g < u.len(),
        0 <= g2 < v.len(),
        g2 + (subtree_end(u, g) - g) <= v.len(),
        u[g].depth == v[g2].depth,
        forall|k: int| 1 <= k < subtree_end(u, g) - g ==> #[trigger] shape_matches(u, g, v, g2, k),
        g2 + (subtree_end(u, g) - g) < v.len() ==> v[g2 + (subtree_end(u, g) - g)].depth
            <= u[g].depth,
    ensures
        subtree_end(v, g2) == g2 + (subtree_end(u, g) - g),
        content(v, g2) == content(u, g),
        has_children(v, g2) == has_children(u, g),
        same_shape(u[g], v[g2]) ==> is_candidate(v, g2, rule) == is_candidate(
            u,
            g,
            rule,
        ),
{
    let n = subtree_end(u, g) - g;
    lemma_subtree_end(u, g);
    assert forall|j: int| g2 + 1 <= j < g2 + n implies (#[trigger] v[j]).depth > v[g2].depth by {
        assert(shape_matches(u, g, v, g2, j - g2));
        assert(u[g + (j - g2)].depth > u[g].depth);
    }
    lemma_run_end_is(v, g2 + 1, v[g2].depth, g2 + n);
    lemma_subtree_end(v, g2);
    assert(content(v, g2) =~= content(u, g)) by {
        assert forall|k: int| 0 <= k < n - 1 implies content(v, g2)[k] == content(u, g)[k] by {
            assert(shape_matches(u, g, v, g2, k + 1));
        }
    }
    if same_shape(u[g], v[g2]) {
        assert(has_attribute(v[g2], AttrKind::Href) == has_attribute(u[g], AttrKind::Href));
    }
}

/// Under [`contents_plain`], turning element `x` into a stub
/// changes no other element: those before `x` stay, those after its
/// descendants move up.
pub proof fn lemma_stub_elements(t: Tree, x: int, target: Seq<char>, rule: MergeRule)
    requires
        well_formed(t),
        contents_plain(t, rule),
        0 <= x < t.len(),
        kind_fits(rule, t[x].kind),
    ensures
        stub(t, x, target).len() == t.len() - (subtree_end(t, x) - x - 1),
        stub(t, x, target)[x] == with_link(t[x], AttrKind::Href, target),
        forall|k: int| 0 <= k < x ==> (#[trigger] stub(t, x, target)[k]) == t[k],
        forall|k: int|
            x < k < stub(t, x, target).len() ==> (#[trigger] stub(t, x, target)[k]) == t[k + (
            subtree_end(t, x) - x - 1)],
{
    let e = subtree_end(t, x);
    lemma_subtree_end(t, x);
    if has_children(t, x) {
        let dead = ids_of(t.subrange(x + 1, e));
        lemma_remove_range(t, x + 1, e);
        assert forall|j: int| 0 <= j < t.len() implies unlinked(#[trigger] t[j], dead)
            == t[j] by {
            assert forall|a: int| 0 <= a < t[j].attrs.len() implies !is_dead_link(
                #[trigger] t[j].attrs[a],
                dead,
            ) by {
                let at = t[j].attrs[a];
                if is_dead_link(at, dead) {
                    let i = choose|i: int| 0 <= i < dead.len() && dead[i] == at.value;
                    let k = x + 1 + i;
                    assert(t[k].id == at.value);
                    assert(links_to(t[j], t[k].id));
                    assert(is_referenced(t, k));
                    assert(encloses(t, x, k, rule));
                }
            }
            lemma_without_links_none(t[j].attrs, dead);
        }
    }
}

/// Where element `k` stood before the descendants of `x`, `n` in
/// number, went.
pub open spec fn before_stub(x: int, n: int, k: int) -> int {
    if k <= x {
        k
    } else {
        k + n
    }
}

/// What an element with one more link links to.
pub proof fn lemma_with_link(e: ElementView, kind: AttrKind, target: Seq<char>, v: Seq<char>)
    ensures
        links_to(with_link(e, kind, target), v) <==> links_to(e, v) || v == target,
        has_attribute(with_link(e, kind, target), kind),
{
    let w = with_link(e, kind, target);
    assert(w.attrs[e.attrs.len() as int].kind == kind);
    if links_to(w, v) {
        let k = choose|k: int|
            0 <= k < w.attrs.len() && (#[trigger] w.attrs[k]).is_link && w.attrs[k].value == v;
        if k < e.attrs.len() {
            assert(e.attrs[k] == w.attrs[k]);
        }
    }
    if links_to(e, v) {
        let k = choose|k: int|
            0 <= k < e.attrs.len() && (#[trigger] e.attrs[k]).is_link && e.attrs[k].value == v;
        assert(w.attrs[k] == e.attrs[k]);
    }
    if v == target {
        assert(w.attrs[e.attrs.len() as int].is_link);
    }
}

/// Under [`contents_plain`], turning element `x` into a stub
/// leaves every other element of such a kind with its content, and a candidate
/// exactly if it was one.
pub proof fn lemma_stub_keeps(t: Tree, x: int, target: Seq<char>, g: int, rule: MergeRule)
    requires
        well_formed(t),
        contents_plain(t, rule),
        0 <= x < t.len(),
        kind_fits(rule, t[x].kind),
        0 <= g < t.len(),
        g != x,
        kind_fits(rule, t[g].kind),
    ensures
        g < x ==> subtree_end(t, g) <= x && subtree_end(stub(t, x, target), g) == subtree_end(
            t,
            g,
        ) && content(stub(t, x, target), g) == content(t, g) && is_candidate(
            stub(t, x, target),
            g,
            rule,
        ) == is_candidate(t, g, rule),
        g > x ==> g >= subtree_end(t, x) && subtree_end(
            stub(t, x, target),
            g - (subtree_end(t, x) - x - 1),
        ) == subtree_end(t, g) - (subtree_end(t, x) - x - 1) && content(
            stub(t, x, target),
            g - (subtree_end(t, x) - x - 1),
        ) == content(t, g) && is_candidate(
            stub(t, x, target),
            g - (subtree_end(t, x) - x - 1),
            rule,
        ) == is_candidate(t, g, rule),
{
    let e = subtree_end(t, x);
    let n = e - x - 1;
    let s = stub(t, x, target);
    let eg = subtree_end(t, g);
    lemma_subtree_end(t, x);
    lemma_subtree_end(t, g);
    lemma_stub_elements(t, x, target, rule);
    if g < x {
        if x < eg {
            assert(encloses(t, g, x, rule));
        }
        assert forall|k: int| 1 <= k < eg - g implies #[trigger] shape_matches(t, g, s, g, k) by {
            assert(s[g + k] == t[g + k]);
        }
        assert(s[g] == t[g]);
        lemma_same_subtree(t, g, s, g, rule);
    } else {
        if g < e {
            assert(encloses(t, x, g, rule));
        }
        assert forall|k: int| 1 <= k < eg - g implies #[trigger] shape_matches(
            t,
            g,
            s,
            g - n,
            k,
        ) by {
            assert(s[g - n + k] == t[g + k]);
        }
        if eg < t.len() {
            assert(s[eg - n] == t[eg]);
        }
        assert(s[g - n] == t[g]);
        lemma_same_subtree(t, g, s, g - n, rule);
    }
}

/// A stub has neither children nor candidacy.
pub proof fn lemma_stub_is_bare(t: Tree, x: int, target: Seq<char>, rule: MergeRule)
    requires
        well_formed(t),
        contents_plain(t, rule),
        0 <= x < t.len(),
        kind_fits(rule, t[x].kind),
    ensures
        subtree_end(stub(t, x, target), x) == x + 1,
        !is_candidate(stub(t, x, target), x, rule),
{
    let s = stub(t, x, target);
    let e = subtree_end(t, x);
    lemma_subtree_end(t, x);
    lemma_stub_elements(t, x, target, rule);
    lemma_with_link(t[x], AttrKind::Href, target, target);
    if x + 1 < s.len() {
        assert(s[x + 1] == t[e]);
    }
    lemma_run_end_is(s, x + 1, s[x].depth, x + 1);
}

/// Under [`contents_plain`], two candidates with equal content after
/// element `x` has become a stub were two such candidates before,
/// unchanged, and neither is `x`.
pub proof fn lemma_stub_reflects(
    t: Tree,
    x: int,
    target: Seq<char>,
    a: int,
    b: int,
    rule: MergeRule,
)
    requires
        well_formed(t),
        contents_plain(t, rule),
        0 <= x < t.len(),
        kind_fits(rule, t[x].kind),
        is_pair(stub(t, x, target), a, b, rule),
    ensures
        is_pair(
            t,
            before_stub(x, subtree_end(t, x) - x - 1, a),
            before_stub(x, subtree_end(t, x) - x - 1, b),
            rule,
        ),
        a != x,
        b != x,
        stub(t, x, target)[a] == t[before_stub(x, subtree_end(t, x) - x - 1, a)],
        stub(t, x, target)[b] == t[before_stub(x, subtree_end(t, x) - x - 1, b)],
{
    let n = subtree_end(t, x) - x - 1;
    lemma_subtree_end(t, x);
    lemma_stub_elements(t, x, target, rule);
    lemma_stub_is_bare(t, x, target, rule);
    lemma_stub_keeps(t, x, target, before_stub(x, n, a), rule);
    lemma_stub_keeps(t, x, target, before_stub(x, n, b), rule);
}

/// Under [`contents_plain`], contents are still kept to themselves
/// after element `x` has become a stub with a link to an element that
/// lies in none of the elements the rule merges.
pub proof fn lemma_stub_keeps_plain(t: Tree, x: int, target: Seq<char>, h: int, rule: MergeRule)
    requires
        well_formed(t),
        contents_plain(t, rule),
        0 <= x < t.len(),
        kind_fits(rule, t[x].kind),
        0 <= h < x,
        t[h].id == target,
        target.len() > 0,
        forall|g: int| !#[trigger] encloses(t, g, h, rule),
    ensures
        contents_plain(stub(t, x, target), rule),
        forall|g: int| !#[trigger] encloses(stub(t, x, target), g, h, rule),
{
    let s = stub(t, x, target);
    let e = subtree_end(t, x);
    let n = e - x - 1;
    lemma_subtree_end(t, x);
    lemma_stub_elements(t, x, target, rule);
    lemma_stub_is_bare(t, x, target, rule);
    assert forall|g: int| !#[trigger] encloses(s, g, h, rule) by {
        if encloses(s, g, h, rule) {
            assert(s[g] == t[g]);
            lemma_stub_keeps(t, x, target, g, rule);
            assert(encloses(t, g, h, rule));
        }
    }
    assert forall|g2: int, k2: int| #[trigger] encloses(s, g2, k2, rule) implies !is_referenced(s, k2)
        && !kind_fits(rule, s[k2].kind) by {
        let g = before_stub(x, n, g2);
        let k = before_stub(x, n, k2);
        assert(g2 != x);
        lemma_stub_keeps(t, x, target, g, rule);
        assert(encloses(t, g, k, rule));
        assert(s[k2] == t[k]);
        if is_referenced(s, k2) {
            let v = t[k].id;
            let j2 = choose|j2: int| 0 <= j2 < s.len() && links_to(#[trigger] s[j2], v);
            if j2 == x {
                lemma_with_link(t[x], AttrKind::Href, target, v);
                if links_to(t[x], v) {
                    assert(is_referenced(t, k));
                } else {
                    assert(k == h);
                }
            } else {
                assert(s[j2] == t[before_stub(x, n, j2)]);
                assert(links_to(t[before_stub(x, n, j2)], v));
                assert(is_referenced(t, k));
            }
        }
    }
}

/// Where element `k` stood before the children of the head moved to
/// a shared element put before it; `e` is where the head's
/// descendants ended.
pub open spec fn before_share(e: int, k: int) -> int {
    if k < e {
        k
    } else {
        k - 1
    }
}

/// Under [`contents_plain`], sharing the children of element `p`
/// leaves every other element of such a kind with its content, and a candidate
/// exactly if it was one.
pub proof fn lemma_share_keeps(t: Tree, p: int, id: Seq<char>, g: int, rule: MergeRule)
    requires
        well_formed(t),
        contents_plain(t, rule),
        0 <= p < t.len(),
        kind_fits(rule, t[p].kind),
        0 <= g < t.len(),
        g != p,
        kind_fits(rule, t[g].kind),
    ensures
        g < p ==> subtree_end(t, g) <= p && subtree_end(
            share_children(t, p, t[p].kind, id),
            g,
        ) == subtree_end(t, g) && content(
            share_children(t, p, t[p].kind, id),
            g,
        ) == content(t, g) && is_candidate(
            share_children(t, p, t[p].kind, id),
            g,
            rule,
        ) == is_candidate(t, g, rule),
        g > p ==> g >= subtree_end(t, p) && subtree_end(
            share_children(t, p, t[p].kind, id),
            g + 1,
        ) == subtree_end(t, g) + 1 && content(
            share_children(t, p, t[p].kind, id),
            g + 1,
        ) == content(t, g) && is_candidate(
            share_children(t, p, t[p].kind, id),
            g + 1,
            rule,
        ) == is_candidate(t, g, rule),
{
    let e = subtree_end(t, p);
    let s = share_children(t, p, t[p].kind, id);
    let eg = subtree_end(t, g);
    lemma_subtree_end(t, p);
    lemma_subtree_end(t, g);
    lemma_share_children(t, p, t[p].kind, id);
    if g < p {
        if p < eg {
            assert(encloses(t, g, p, rule));
        }
        assert forall|k: int| 1 <= k < eg - g implies #[trigger] shape_matches(t, g, s, g, k) by {
            assert(s[g + k] == t[g + k]);
        }
        assert(s[g] == t[g]);
        if eg < p {
            assert(s[eg] == t[eg]);
        }
        lemma_same_subtree(t, g, s, g, rule);
    } else {
        if g < e {
            assert(encloses(t, p, g, rule));
        }
        assert forall|k: int| 1 <= k < eg - g implies #[trigger] shape_matches(
            t,
            g,
            s,
            g + 1,
            k,
        ) by {
            assert(s[g + 1 + k] == t[g + k]);
        }
        if eg < t.len() {
            assert(s[eg + 1] == t[eg]);
        }
        assert(s[g + 1] == t[g]);
        lemma_same_subtree(t, g, s, g + 1, rule);
    }
}

/// The shared element has the head's content and is a candidate; the
/// head has become a stub.
pub proof fn lemma_share_head(t: Tree, p: int, id: Seq<char>, rule: MergeRule)
    requires
        well_formed(t),
        0 <= p < t.len(),
        is_candidate(t, p, rule),
    ensures
        subtree_end(share_children(t, p, t[p].kind, id), p) == subtree_end(t, p),
        content(share_children(t, p, t[p].kind, id), p) == content(t, p),
        is_candidate(share_children(t, p, t[p].kind, id), p, rule),
        subtree_end(share_children(t, p, t[p].kind, id), subtree_end(t, p))
            == subtree_end(t, p) + 1,
        !is_candidate(
            share_children(t, p, t[p].kind, id),
            subtree_end(t, p),
            rule,
        ),
{
    let e = subtree_end(t, p);
    let s = share_children(t, p, t[p].kind, id);
    lemma_subtree_end(t, p);
    lemma_share_children(t, p, t[p].kind, id);
    assert forall|k: int| 1 <= k < e - p implies #[trigger] shape_matches(t, p, s, p, k) by {
        assert(s[p + k] == t[p + k]);
    }
    lemma_same_subtree(t, p, s, p, rule);
    assert(s[p].attrs.len() == 0);
    lemma_with_link(t[p], AttrKind::Href, id, id);
    if e + 1 < s.len() {
        assert(s[e + 1] == t[e]);
    }
    lemma_run_end_is(s, e + 1, s[e].depth, e + 1);
}


/// Under [`contents_plain`], contents are still kept to themselves
/// after the children of the candidate `p` have moved to a shared
/// element with a fresh identifier, and the shared element lies in
/// none of the elements the rule merges.
pub proof fn lemma_share_keeps_plain(t: Tree, p: int, id: Seq<char>, rule: MergeRule)
    requires
        well_formed(t),
        contents_plain(t, rule),
        0 <= p < t.len(),
        is_candidate(t, p, rule),
        id.len() > 0,
        !has_id(t, id),
    ensures
        contents_plain(share_children(t, p, t[p].kind, id), rule),
        forall|g: int| !#[trigger] encloses(
            share_children(t, p, t[p].kind, id),
            g,
            p,
            rule,
        ),
{
    let e = subtree_end(t, p);
    let s = share_children(t, p, t[p].kind, id);
    lemma_subtree_end(t, p);
    lemma_share_children(t, p, t[p].kind, id);
    lemma_share_head(t, p, id, rule);
    assert forall|g: int| !#[trigger] encloses(s, g, p, rule) by {
        if encloses(s, g, p, rule) {
            assert(s[g] == t[g]);
            lemma_share_keeps(t, p, id, g, rule);
        }
    }
    assert forall|g2: int, k2: int| #[trigger] encloses(s, g2, k2, rule) implies !is_referenced(s, k2)
        && !kind_fits(rule, s[k2].kind) by {
        assert(g2 != e);
        let g = if g2 == p { p } else { before_share(e, g2) };
        let k = before_share(e, k2);
        if g2 != p {
            assert(s[g2] == t[g]);
            if p < g2 < e {
                assert(encloses(t, p, g2, rule));
            }
            lemma_share_keeps(t, p, id, g, rule);
        }
        assert(encloses(t, g, k, rule));
        assert(k2 != p && k2 != e);
        assert(s[k2] == t[k]);
        if is_referenced(s, k2) {
            let v = t[k].id;
            assert(v != id);
            let j2 = choose|j2: int| 0 <= j2 < s.len() && links_to(#[trigger] s[j2], v);
            if j2 == e {
                lemma_with_link(t[p], AttrKind::Href, id, v);
                assert(links_to(t[p], v));
            } else if j2 == p {
                assert(s[p].attrs.len() == 0);
            } else {
                assert(s[j2] == t[before_share(e, j2)]);
                assert(links_to(t[before_share(e, j2)], v));
            }
            assert(is_referenced(t, k));
        }
    }
}

/// Under [`contents_plain`], two candidates with equal content after
/// the children of the candidate `p` have moved to a shared element
/// were two such candidates before, the shared element standing for
/// `p`; but for the shared element they are unchanged.
pub proof fn lemma_share_reflects(
    t: Tree,
    p: int,
    id: Seq<char>,
    a: int,
    b: int,
    rule: MergeRule,
)
    requires
        well_formed(t),
        contents_plain(t, rule),
        0 <= p < t.len(),
        is_candidate(t, p, rule),
        is_pair(share_children(t, p, t[p].kind, id), a, b, rule),
    ensures
        is_pair(t, before_share(subtree_end(t, p), a), before_share(subtree_end(t, p), b), rule),
        a == p ==> b > subtree_end(t, p),
        a != p ==> share_children(t, p, t[p].kind, id)[a] == t[before_share(
            subtree_end(t, p),
            a,
        )],
        b != p ==> share_children(t, p, t[p].kind, id)[b] == t[before_share(
            subtree_end(t, p),
            b,
        )],
{
    let e = subtree_end(t, p);
    let s = share_children(t, p, t[p].kind, id);
    lemma_subtree_end(t, p);
    lemma_share_children(t, p, t[p].kind, id);
    lemma_share_head(t, p, id, rule);
    if a != p {
        assert(a != e);
        if a < e {
            assert(s[a] == t[a]);
            if p < a {
                assert(encloses(t, p, a, rule));
            }
            lemma_share_keeps(t, p, id, a, rule);
        } else {
            assert(s[a] == t[a - 1]);
            lemma_share_keeps(t, p, id, a - 1, rule);
        }
    }
    if b != p {
        assert(b != e);
        if b < e {
            assert(s[b] == t[b]);
            if p < b {
                assert(encloses(t, p, b, rule));
            }
            lemma_share_keeps(t, p, id, b, rule);
        } else {
            assert(s[b] == t[b - 1]);
            lemma_share_keeps(t, p, id, b - 1, rule);
        }
    }
}

/// Under [`contents_plain`], turning the listed candidates into stubs
/// keeps a document well formed and its contents kept to themselves.
pub proof fn lemma_stub_all_plain(t: Tree, js: Seq<int>, target: Seq<char>, h: int, rule: MergeRule)
    requires
        well_formed(t),
        contents_plain(t, rule),
        target.len() > 0,
        0 <= h < t.len(),
        t[h].id == target,
        forall|g: int| !#[trigger] encloses(t, g, h, rule),
        forall|k: int| 0 <= k < js.len() ==> h <= #[trigger] js[k] && js[k] + 1 < t.len(),
        forall|k: int| 0 <= k < js.len() ==> is_candidate(t, #[trigger] js[k] + 1, rule),
        forall|k1: int, k2: int| 0 <= k1 < k2 < js.len() ==> (#[trigger] js[k1]) < (#[trigger] js[k2]),
    ensures
        well_formed(stub_all(t, js, target)),
        contents_plain(stub_all(t, js, target), rule),
    decreases js.len(),
{
    if js.len() > 0 {
        let x = js.last() + 1;
        let s = stub(t, x, target);
        let front = js.drop_last();
        lemma_stub_step(t, js, target, h, rule);
        lemma_stub_all_plain(s, front, target, h, rule);
    }
}

/// One step of [`lemma_stub_all_plain`]: after the last of the listed
/// candidates has become a stub, the others are as before.
pub proof fn lemma_stub_step(t: Tree, js: Seq<int>, target: Seq<char>, h: int, rule: MergeRule)
    requires
        well_formed(t),
        contents_plain(t, rule),
        target.len() > 0,
        0 <= h < t.len(),
        t[h].id == target,
        forall|g: int| !#[trigger] encloses(t, g, h, rule),
        forall|k: int| 0 <= k < js.len() ==> h <= #[trigger] js[k] && js[k] + 1 < t.len(),
        forall|k: int| 0 <= k < js.len() ==> is_candidate(t, #[trigger] js[k] + 1, rule),
        forall|k1: int, k2: int| 0 <= k1 < k2 < js.len() ==> (#[trigger] js[k1]) < (#[trigger] js[k2]),
        js.len() > 0,
    ensures
        well_formed(stub(t, js.last() + 1, target)),
        contents_plain(stub(t, js.last() + 1, target), rule),
        h < stub(t, js.last() + 1, target).len(),
        stub(t, js.last() + 1, target)[h].id == target,
        forall|g: int| !#[trigger] encloses(stub(t, js.last() + 1, target), g, h, rule),
        forall|k: int|
            0 <= k < js.drop_last().len() ==> h <= #[trigger] js.drop_last()[k] && js.drop_last()[k]
                + 1 < stub(t, js.last() + 1, target).len(),
        forall|k: int|
            0 <= k < js.drop_last().len() ==> is_candidate(
                stub(t, js.last() + 1, target),
                #[trigger] js.drop_last()[k] + 1,
                rule,
            ),
        forall|k1: int, k2: int|
            0 <= k1 < k2 < js.drop_last().len() ==> (#[trigger] js.drop_last()[k1]) < (
            #[trigger] js.drop_last()[k2]),
{
    let x = js.last() + 1;
    let s = stub(t, x, target);
    let front = js.drop_last();
    assert(h <= js[js.len() - 1]);
    assert(is_candidate(t, js[js.len() - 1] + 1, rule));
    lemma_subtree_end(t, x);
    lemma_stub_wf(t, x, target, h);
    lemma_stub_elements(t, x, target, rule);
    lemma_stub_keeps_plain(t, x, target, h, rule);
    assert forall|k: int| 0 <= k < front.len() implies h <= #[trigger] front[k] && front[k] + 1
        < s.len() && is_candidate(s, front[k] + 1, rule) by {
        assert(front[k] == js[k]);
        assert(js[k] < js[js.len() - 1]);
        assert(is_candidate(t, js[k] + 1, rule));
        lemma_stub_keeps(t, x, target, front[k] + 1, rule);
    }
    assert forall|k1: int, k2: int| 0 <= k1 < k2 < front.len() implies (#[trigger] front[k1]) < (
    #[trigger] front[k2]) by {
        assert(front[k1] == js[k1] && front[k2] == js[k2]);
    }
}

/// Under [`contents_plain`], two candidates with equal content after
/// the listed candidates have become stubs were two such candidates
/// before, unchanged, and neither is one of those listed.
pub proof fn lemma_stub_all_reflects(
    t: Tree,
    js: Seq<int>,
    target: Seq<char>,
    h: int,
    a: int,
    b: int,
    rule: MergeRule,
) -> (r: (int, int))
    requires
        well_formed(t),
        contents_plain(t, rule),
        target.len() > 0,
        0 <= h < t.len(),
        t[h].id == target,
        forall|g: int| !#[trigger] encloses(t, g, h, rule),
        forall|k: int| 0 <= k < js.len() ==> h <= #[trigger] js[k] && js[k] + 1 < t.len(),
        forall|k: int| 0 <= k < js.len() ==> is_candidate(t, #[trigger] js[k] + 1, rule),
        forall|k1: int, k2: int| 0 <= k1 < k2 < js.len() ==> (#[trigger] js[k1]) < (#[trigger] js[k2]),
        is_pair(stub_all(t, js, target), a, b, rule),
    ensures
        is_pair(t, r.0, r.1, rule),
        forall|k: int| 0 <= k < js.len() ==> r.0 != #[trigger] js[k] + 1 && r.1 != js[k] + 1,
        a <= h ==> r.0 == a,
        stub_all(t, js, target)[a] == t[r.0],
        stub_all(t, js, target)[b] == t[r.1],
    decreases js.len(),
{
    if js.len() == 0 {
        (a, b)
    } else {
        let x = js.last() + 1;
        let s = stub(t, x, target);
        let front = js.drop_last();
        let n = subtree_end(t, x) - x - 1;
        lemma_stub_step(t, js, target, h, rule);
        lemma_subtree_end(t, x);
        let r1 = lemma_stub_all_reflects(s, front, target, h, a, b, rule);
        lemma_stub_reflects(t, x, target, r1.0, r1.1, rule);
        let r = (before_stub(x, n, r1.0), before_stub(x, n, r1.1));
        assert forall|k: int| 0 <= k < js.len() implies r.0 != #[trigger] js[k] + 1 && r.1 != js[k]
            + 1 by {
            if k < front.len() {
                assert(front[k] == js[k]);
                assert(js[k] < js[js.len() - 1]);
                assert(r1.0 != front[k] + 1 && r1.1 != front[k] + 1);
            }
        }
        assert(h <= js[js.len() - 1]);
        r
    }
}

/// Under [`contents_plain`] and [`attributes_follow`], the first of two
/// candidates with equal content has the second for a join.
pub proof fn lemma_pair_merges(t: Tree, a: int, b: int, rule: MergeRule)
    requires
        contents_plain(t, rule),
        attributes_follow(t, rule),
        is_pair(t, a, b, rule),
    ensures
        is_mergeable(t, a, rule),
        subtree_end(t, a) <= b,
        is_join(t, a, b, rule),
{
    lemma_subtree_end(t, a);
    if b < subtree_end(t, a) {
        assert(encloses(t, a, b, rule));
    }
    lemma_joins_upto(t, a, t.len() as int, rule);
    assert(is_equal(t, a, b, rule));
    assert(is_join(t, a, b, rule));
    assert(joins(t, a, rule).contains(b));
}

/// What lies behind two candidates with equal content that a merge at
/// `p` leaves: two such candidates of the document before, neither of
/// them the head or one of its joins.
pub proof fn lemma_merge_reflects(t: Tree, p: int, a: int, b: int, rule: MergeRule) -> (r: (
    int,
    int,
))
    requires
        well_formed(t),
        contents_plain(t, rule),
        attributes_follow(t, rule),
        0 <= p < t.len(),
        is_mergeable(t, p, rule),
        forall|c: int| 0 <= c < p ==> !#[trigger] is_mergeable(t, c, rule),
        is_pair(merge_at(t, p, rule), a, b, rule),
    ensures
        is_pair(t, r.0, r.1, rule),
        p < r.0,
        p < a,
        merge_at(t, p, rule)[a] == t[r.0],
        merge_at(t, p, rule)[b] == t[r.1],
{
    let id = fresh_id(t, id_prefix(t[p].kind));
    let s = share_children(t, p, t[p].kind, id);
    let js = joins(t, p, rule);
    let e = subtree_end(t, p);
    lemma_fresh_id(t, id_prefix(t[p].kind));
    lemma_subtree_end(t, p);
    lemma_share_children(t, p, t[p].kind, id);
    lemma_share_children_wf(t, p, t[p].kind, id);
    lemma_share_keeps_plain(t, p, id, rule);
    lemma_joins_upto(t, p, t.len() as int, rule);
    assert forall|k: int| 0 <= k < js.len() implies p <= #[trigger] js[k] && js[k] + 1 < s.len()
        && is_candidate(s, js[k] + 1, rule) by {
        assert(is_join(t, p, js[k], rule));
        lemma_share_keeps(t, p, id, js[k], rule);
    }
    let q = lemma_stub_all_reflects(s, js, id, p, a, b, rule);
    lemma_share_reflects(t, p, id, q.0, q.1, rule);
    let at = before_share(e, q.0);
    let bt = before_share(e, q.1);
    lemma_pair_merges(t, at, bt, rule);
    if q.0 == p {
        assert(js.contains(bt));
        let k = choose|k: int| 0 <= k < js.len() && js[k] == bt;
        assert(q.1 != js[k] + 1);
    }
    if a <= p {
        assert(q.0 == a);
    }
    (at, bt)
}

/// Under [`contents_plain`] and [`attributes_follow`], a merge keeps
/// both and leaves no candidate up to the shared element with a join,
/// if none before the head had one.
pub proof fn lemma_merge_step(t: Tree, p: int, rule: MergeRule)
    requires
        well_formed(t),
        contents_plain(t, rule),
        attributes_follow(t, rule),
        0 <= p < t.len(),
        is_mergeable(t, p, rule),
        forall|a: int| 0 <= a < p ==> !#[trigger] is_mergeable(t, a, rule),
    ensures
        well_formed(merge_at(t, p, rule)),
        contents_plain(merge_at(t, p, rule), rule),
        attributes_follow(merge_at(t, p, rule), rule),
        forall|a: int|
            0 <= a <= p && a < merge_at(t, p, rule).len() ==> !#[trigger] is_mergeable(
                merge_at(t, p, rule),
                a,
                rule,
            ),
{
    let id = fresh_id(t, id_prefix(t[p].kind));
    let s = share_children(t, p, t[p].kind, id);
    let js = joins(t, p, rule);
    let r = merge_at(t, p, rule);
    lemma_fresh_id(t, id_prefix(t[p].kind));
    lemma_subtree_end(t, p);
    lemma_share_children(t, p, t[p].kind, id);
    lemma_share_children_wf(t, p, t[p].kind, id);
    lemma_share_keeps_plain(t, p, id, rule);
    lemma_joins_upto(t, p, t.len() as int, rule);
    lemma_merge_at(t, p, rule);
    assert forall|k: int| 0 <= k < js.len() implies p <= #[trigger] js[k] && js[k] + 1 < s.len()
        && is_candidate(s, js[k] + 1, rule) by {
        assert(is_join(t, p, js[k], rule));
        lemma_share_keeps(t, p, id, js[k], rule);
    }
    lemma_stub_all_plain(s, js, id, p, rule);
    assert forall|a: int| 0 <= a <= p && a < r.len() implies !#[trigger] is_mergeable(
        r,
        a,
        rule,
    ) by {
        if is_mergeable(r, a, rule) {
            lemma_joins_upto(r, a, r.len() as int, rule);
            let b = joins(r, a, rule)[0];
            lemma_subtree_end(r, a);
            assert(is_join(r, a, b, rule));
            assert(is_pair(r, a, b, rule));
            let q = lemma_merge_reflects(t, p, a, b, rule);
        }
    }
    if rule is Kind {
        assert forall|a: int, b: int| #[trigger] is_pair(r, a, b, rule) implies same_attributes(
            r[a].attrs,
            r[b].attrs,
        ) by {
            let q = lemma_merge_reflects(t, p, a, b, rule);
            assert(is_pair(t, q.0, q.1, rule));
        }
    }
}

/// No candidate of `t` has a join under `rule`.
pub open spec fn is_merged(t: Tree, rule: MergeRule) -> bool {
    forall|k: int| 0 <= k < t.len() ==> !#[trigger] is_mergeable(t, k, rule)
}

/// The merge at `p` leaves no candidate up to the shared element with
/// a join.
pub open spec fn settles_at(t: Tree, p: int, rule: MergeRule) -> bool {
    forall|a: int|
        0 <= a <= p && a < merge_at(t, p, rule).len() ==> !#[trigger] is_mergeable(
            merge_at(t, p, rule),
            a,
            rule,
        )
}

/// In the pass from `p` on, every merge leaves the candidates up to
/// its shared element without a join.
pub open spec fn settles_from(t: Tree, p: int, rule: MergeRule) -> bool
    decreases t.len() - p,
    when well_formed(t) && 0 <= p
    via settles_from_decreases
{
    if p >= t.len() {
        true
    } else if is_mergeable(t, p, rule) {
        settles_at(t, p, rule) && settles_from(merge_at(t, p, rule), p + 1, rule)
    } else {
        settles_from(t, p + 1, rule)
    }
}

#[via_fn]
proof fn settles_from_decreases(t: Tree, p: int, rule: MergeRule) {
    if p < t.len() && is_mergeable(t, p, rule) {
        lemma_merge_at(t, p, rule);
    }
}

/// The pass from `p` on leaves the identifiers of the elements before
/// `p` as they are.
pub proof fn lemma_merge_from_front(t: Tree, p: int, j: int, rule: MergeRule)
    requires
        well_formed(t),
        0 <= j < p,
        j < t.len(),
    ensures
        j < merge_from(t, p, rule).len(),
        merge_from(t, p, rule)[j].id == t[j].id,
    decreases t.len() - p,
{
    if p < t.len() {
        if is_mergeable(t, p, rule) {
            lemma_merge_at(t, p, rule);
            lemma_merge_from_front(merge_at(t, p, rule), p + 1, j, rule);
        } else {
            lemma_merge_from_front(t, p + 1, j, rule);
        }
    }
}

/// A pass that meets a candidate with a join changes the document.
pub proof fn lemma_merge_changes(t: Tree, p: int, k: int, rule: MergeRule)
    requires
        well_formed(t),
        0 <= p <= k < t.len(),
        is_mergeable(t, k, rule),
    ensures
        merge_from(t, p, rule) != t,
    decreases t.len() - p,
{
    if is_mergeable(t, p, rule) {
        let r = merge_at(t, p, rule);
        lemma_merge_at(t, p, rule);
        lemma_fresh_id(t, id_prefix(t[p].kind));
        lemma_merge_from_front(r, p + 1, p, rule);
        if merge_from(t, p, rule) == t {
            assert(t[p].id == fresh_id(t, id_prefix(t[p].kind)));
        }
    } else {
        lemma_merge_changes(t, p + 1, k, rule);
    }
}

/// Merging twice gives what merging once gives exactly if the first
/// run leaves no candidate with a join.
pub proof fn law_merge_twice(t: Tree, rule: MergeRule)
    requires
        well_formed(t),
    ensures
        merged(merged(t, rule), rule) == merged(t, rule) <==> is_merged(merged(t, rule), rule),
{
    let f = merged(t, rule);
    law_merge_keeps_well_formed(t, 0, rule);
    if is_merged(f, rule) {
        law_merge_fixed_point(f, 0, rule);
    } else {
        let k = choose|k: int| 0 <= k < f.len() && #[trigger] is_mergeable(f, k, rule);
        lemma_merge_changes(f, 0, k, rule);
    }
}

/// Where every merge leaves the candidates up to its shared element
/// without a join, the pass from `p` on leaves no candidate with a
/// join, if none before `p` has one.
pub proof fn lemma_merge_settles(t: Tree, p: int, rule: MergeRule)
    requires
        well_formed(t),
        0 <= p,
        settles_from(t, p, rule),
        forall|a: int| 0 <= a < p && a < t.len() ==> !#[trigger] is_mergeable(t, a, rule),
    ensures
        is_merged(merge_from(t, p, rule), rule),
    decreases t.len() - p,
{
    if p < t.len() {
        if is_mergeable(t, p, rule) {
            lemma_merge_at(t, p, rule);
            lemma_merge_settles(merge_at(t, p, rule), p + 1, rule);
        } else {
            lemma_merge_settles(t, p + 1, rule);
        }
    }
}

/// Under [`contents_plain`] and [`attributes_follow`], every merge of
/// the pass from `p` on leaves the candidates up to its shared element
/// without a join, if none before `p` has one.
pub proof fn lemma_plain_settles(t: Tree, p: int, rule: MergeRule)
    requires
        well_formed(t),
        contents_plain(t, rule),
        attributes_follow(t, rule),
        0 <= p,
        forall|a: int| 0 <= a < p && a < t.len() ==> !#[trigger] is_mergeable(t, a, rule),
    ensures
        settles_from(t, p, rule),
    decreases t.len() - p,
{
    if p < t.len() {
        if is_mergeable(t, p, rule) {
            lemma_merge_step(t, p, rule);
            lemma_merge_at(t, p, rule);
            lemma_plain_settles(merge_at(t, p, rule), p + 1, rule);
        } else {
            lemma_plain_settles(t, p + 1, rule);
        }
    }
}

/// Merging twice gives what merging once gives, unless a merge of the
/// first run leaves a candidate with a join at or before its shared
/// element: the shared element itself, which has no attributes, where
/// it equals a candidate that differed from the head in its
/// attributes only, or an earlier candidate that equals another one
/// since a link it held into a join went with the join's children.
pub proof fn law_merge_idempotent(t: Tree, rule: MergeRule)
    requires
        well_formed(t),
        settles_from(t, 0, rule),
    ensures
        merged(merged(t, rule), rule) == merged(t, rule),
{
    lemma_merge_settles(t, 0, rule);
    law_merge_keeps_well_formed(t, 0, rule);
    law_merge_fixed_point(merged(t, rule), 0, rule);
}

/// Regrouping twice gives what regrouping once gives, unless a merge
/// of the first run leaves a candidate with a join at or before its
/// shared element.
pub proof fn law_regroup_idempotent(t: Tree)
    requires
        well_formed(t),
        settles_from(t, 0, MergeRule::Stops),
    ensures
        merged(merged(t, MergeRule::Stops), MergeRule::Stops) == merged(t, MergeRule::Stops),
{
    law_merge_idempotent(t, MergeRule::Stops);
}

/// No merge leaves a candidate with a join behind where the elements
/// the rule merges keep their content to themselves (none of them lies
/// inside another, and no link points at an element inside one) and,
/// if the rule looks at attributes, candidates with equal content hold
/// the same attributes: there merging twice gives what merging once
/// gives.
pub proof fn law_merge_idempotent_where_plain(t: Tree, rule: MergeRule)
    requires
        well_formed(t),
        contents_plain(t, rule),
        attributes_follow(t, rule),
    ensures
        settles_from(t, 0, rule),
        merged(merged(t, rule), rule) == merged(t, rule),
{
    lemma_plain_settles(t, 0, rule);
    law_merge_idempotent(t, rule);
}

} // verus!
