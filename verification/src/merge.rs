//! Merging of equal definitions into one shared definition.
//!
//! A pass walks the document in document order.  Each candidate it
//! meets is a head; every later candidate equal to the head joins it.
//! If any did, the head's children move to a new shared element put
//! immediately before the head, and the head and its joins become
//! stubs that link to the shared element.
use vstd::prelude::*;
use crate::document::{element_has_attribute, Document};
use crate::edit::{
    lemma_share_children, lemma_share_children_wf, lemma_stub_front, lemma_stub_wf, share_children,
    stub,
};
use crate::element::{attrs_view, Attribute, AttributeView, AttrKind, ElementKind, ElementView};
use crate::ident::{fresh_id, gen_id, lemma_fresh_id};
use crate::tree::{
    has_attribute, has_children, has_id, lemma_subtree_end, subtree_end, well_formed, Tree,
};

verus! {

/// Which elements a pass merges, and when two of them are equal.
#[derive(Clone, Copy, Debug, PartialEq, Eq, Structural)]
pub enum MergeRule {
    /// Gradients of either kind; two are equal when their children
    /// are, whatever their own attributes.
    Stops,
    /// Elements of one kind; two are equal when they hold the same
    /// attributes, in whatever order, and their children are equal.
    Kind(ElementKind),
}

/// `kind` is a gradient.
pub open spec fn is_gradient(kind: ElementKind) -> bool {
    kind == ElementKind::LinearGradient || kind == ElementKind::RadialGradient
}

/// `kind` is a kind of element the rule merges.
pub open spec fn kind_fits(rule: MergeRule, kind: ElementKind) -> bool {
    match rule {
        MergeRule::Stops => is_gradient(kind),
        MergeRule::Kind(k) => kind == k,
    }
}

/// Element `i` is open to merging: it is of a kind the rule merges,
/// has children, and does not already take its content from elsewhere.
pub open spec fn is_candidate(t: Tree, i: int, rule: MergeRule) -> bool {
    &&& kind_fits(rule, t[i].kind)
    &&& has_children(t, i)
    &&& !has_attribute(t[i], AttrKind::Href)
}

/// Element `e` as it counts in a comparison: without its identifier,
/// and with its depth taken relative to `base`.
pub open spec fn normalized(e: ElementView, base: nat) -> ElementView {
    ElementView { depth: (e.depth - base) as nat, id: Seq::empty(), ..e }
}

/// The descendants of element `i` as they count in a comparison.
pub open spec fn content(t: Tree, i: int) -> Seq<ElementView> {
    Seq::new(
        (subtree_end(t, i) - i - 1) as nat,
        |k: int| normalized(t[i + 1 + k], t[i].depth),
    )
}

/// Every attribute in `x` is also in `y`.
pub open spec fn attributes_within(x: Seq<AttributeView>, y: Seq<AttributeView>) -> bool {
    forall|i: int| 0 <= i < x.len() ==> y.contains(#[trigger] x[i])
}

/// `x` and `y` hold the same attributes, in whatever order.
pub open spec fn same_attributes(x: Seq<AttributeView>, y: Seq<AttributeView>) -> bool {
    attributes_within(x, y) && attributes_within(y, x)
}

/// Elements `a` and `b` are equal under `rule`: their descendants are
/// the same, identifiers aside, and, where the rule looks at the
/// elements themselves, so are their kinds and their attributes.
pub open spec fn is_equal(t: Tree, a: int, b: int, rule: MergeRule) -> bool {
    &&& content(t, a) == content(t, b)
    &&& rule is Kind ==> t[a].kind == t[b].kind && same_attributes(t[a].attrs, t[b].attrs)
}

/// Element `x` joins the head `h`.
pub open spec fn is_join(t: Tree, h: int, x: int, rule: MergeRule) -> bool {
    is_candidate(t, x, rule) && is_equal(t, h, x, rule)
}

/// The elements that join the head `h`, among those after the head's
/// descendants and before `n`, in document order.
pub open spec fn joins_upto(t: Tree, h: int, n: int, rule: MergeRule) -> Seq<int>
    decreases n - subtree_end(t, h),
{
    if n <= subtree_end(t, h) {
        Seq::empty()
    } else {
        let rest = joins_upto(t, h, n - 1, rule);
        if is_join(t, h, n - 1, rule) {
            rest.push(n - 1)
        } else {
            rest
        }
    }
}

/// The elements that join the head `h`, in document order.
pub open spec fn joins(t: Tree, h: int, rule: MergeRule) -> Seq<int> {
    joins_upto(t, h, t.len() as int, rule)
}

/// The prefix of the identifier a merge gives the shared element it
/// makes for a head of kind `kind`.
pub open spec fn id_prefix(kind: ElementKind) -> Seq<char> {
    match kind {
        ElementKind::LinearGradient => "lg"@,
        ElementKind::RadialGradient => "rg"@,
        _ => "def"@,
    }
}

/// Document `t` after the elements that stand one place after those
/// listed in `js` have become stubs with a link to `target`, the last
/// one first.
pub open spec fn stub_all(t: Tree, js: Seq<int>, target: Seq<char>) -> Tree
    decreases js.len(),
{
    if js.len() == 0 {
        t
    } else {
        stub_all(stub(t, js.last() + 1, target), js.drop_last(), target)
    }
}

/// Document `t` after the head `h` and its joins have been merged: a
/// new element of the head's kind, with a fresh identifier, stands
/// immediately before the head and has the head's children; the head
/// and the joins are stubs that link to it.
pub open spec fn merge_at(t: Tree, h: int, rule: MergeRule) -> Tree {
    let id = fresh_id(t, id_prefix(t[h].kind));
    stub_all(share_children(t, h, t[h].kind, id), joins(t, h, rule), id)
}

/// Element `h` is a head with at least one join.
pub open spec fn is_mergeable(t: Tree, h: int, rule: MergeRule) -> bool {
    is_candidate(t, h, rule) && joins(t, h, rule).len() > 0
}

/// The document after the pass that starts at element `p`.
pub open spec fn merge_from(t: Tree, p: int, rule: MergeRule) -> Tree
    decreases t.len() - p,
    when well_formed(t) && 0 <= p
    via merge_from_decreases
{
    if p >= t.len() {
        t
    } else if is_mergeable(t, p, rule) {
        merge_from(merge_at(t, p, rule), p + 1, rule)
    } else {
        merge_from(t, p + 1, rule)
    }
}

#[via_fn]
proof fn merge_from_decreases(t: Tree, p: int, rule: MergeRule) {
    if p < t.len() && is_mergeable(t, p, rule) {
        lemma_merge_at(t, p, rule);
    }
}

/// The document after the whole pass.
pub open spec fn merged(t: Tree, rule: MergeRule) -> Tree {
    merge_from(t, 0, rule)
}

/// What [`joins_upto`] lists: exactly the joins in its range, in
/// ascending order.
pub proof fn lemma_joins_upto(t: Tree, h: int, n: int, rule: MergeRule)
    requires
        0 <= h < t.len(),
        n <= t.len(),
    ensures
        forall|k: int|
            0 <= k < joins_upto(t, h, n, rule).len() ==> subtree_end(t, h) <= (
            #[trigger] joins_upto(t, h, n, rule)[k]) < n && is_join(
                t,
                h,
                joins_upto(t, h, n, rule)[k],
                rule,
            ),
        forall|k1: int, k2: int|
            0 <= k1 < k2 < joins_upto(t, h, n, rule).len() ==> (#[trigger] joins_upto(
                t,
                h,
                n,
                rule,
            )[k1]) < (#[trigger] joins_upto(t, h, n, rule)[k2]),
        forall|x: int|
            subtree_end(t, h) <= x < n && #[trigger] is_join(t, h, x, rule) ==> joins_upto(
                t,
                h,
                n,
                rule,
            ).contains(x),
    decreases n - subtree_end(t, h),
{
    if n > subtree_end(t, h) {
        lemma_joins_upto(t, h, n - 1, rule);
        let rest = joins_upto(t, h, n - 1, rule);
        let js = joins_upto(t, h, n, rule);
        assert forall|x: int|
            subtree_end(t, h) <= x < n && #[trigger] is_join(t, h, x, rule) implies js.contains(
            x,
        ) by {
            if x < n - 1 {
                assert(rest.contains(x));
                let k = choose|k: int| 0 <= k < rest.len() && rest[k] == x;
                assert(js[k] == x);
            } else {
                assert(js[rest.len() as int] == x);
            }
        }
    }
}

/// Turning the listed elements into stubs keeps a document well
/// formed and leaves everything up to the link's target in place.
pub proof fn lemma_stub_all(t: Tree, js: Seq<int>, target: Seq<char>, w: int)
    requires
        well_formed(t),
        target.len() > 0,
        0 <= w < t.len(),
        t[w].id == target,
        forall|k: int| 0 <= k < js.len() ==> w <= #[trigger] js[k],
        forall|k1: int, k2: int| 0 <= k1 < k2 < js.len() ==> (#[trigger] js[k1]) < (#[trigger] js[k2]),
        js.len() > 0 ==> js.last() + 1 < t.len(),
    ensures
        well_formed(stub_all(t, js, target)),
        w < stub_all(t, js, target).len() <= t.len(),
        js.len() > 0 && has_children(t, js.last() + 1) ==> stub_all(t, js, target).len()
            < t.len(),
        forall|j: int|
            0 <= j <= w ==> {
                &&& (#[trigger] stub_all(t, js, target)[j]).id == t[j].id
                &&& stub_all(t, js, target)[j].depth == t[j].depth
                &&& stub_all(t, js, target)[j].kind == t[j].kind
            },
    decreases js.len(),
{
    if js.len() > 0 {
        let x = js.last() + 1;
        let s = stub(t, x, target);
        let front = js.drop_last();
        assert(w <= js[js.len() - 1]);
        lemma_stub_wf(t, x, target, w);
        lemma_stub_front(t, x, target);
        assert forall|k: int| 0 <= k < front.len() implies w <= #[trigger] front[k] by {
            assert(front[k] == js[k]);
        }
        assert forall|k1: int, k2: int| 0 <= k1 < k2 < front.len() implies (#[trigger] front[k1])
            < (#[trigger] front[k2]) by {
            assert(front[k1] == js[k1] && front[k2] == js[k2]);
        }
        if front.len() > 0 {
            assert(front.last() == js[js.len() - 2]);
            assert(js[js.len() - 2] < js[js.len() - 1]);
        }
        lemma_stub_all(s, front, target, w);
    }
}

/// A merge keeps a document well formed, never makes it longer, and
/// leaves the elements before the head in place; the shared element
/// stands where the head stood.
pub proof fn lemma_merge_at(t: Tree, h: int, rule: MergeRule)
    requires
        well_formed(t),
        0 <= h < t.len(),
        is_mergeable(t, h, rule),
    ensures
        well_formed(merge_at(t, h, rule)),
        h < merge_at(t, h, rule).len() <= t.len(),
        merge_at(t, h, rule)[h].id == fresh_id(t, id_prefix(t[h].kind)),
        forall|j: int|
            0 <= j < h ==> {
                &&& (#[trigger] merge_at(t, h, rule)[j]).id == t[j].id
                &&& merge_at(t, h, rule)[j].depth == t[j].depth
                &&& merge_at(t, h, rule)[j].kind == t[j].kind
            },
{
    let id = fresh_id(t, id_prefix(t[h].kind));
    let s = share_children(t, h, t[h].kind, id);
    let js = joins(t, h, rule);
    lemma_fresh_id(t, id_prefix(t[h].kind));
    lemma_subtree_end(t, h);
    lemma_share_children(t, h, t[h].kind, id);
    lemma_share_children_wf(t, h, t[h].kind, id);
    lemma_joins_upto(t, h, t.len() as int, rule);
    let x = js[js.len() - 1];
    assert(is_join(t, h, x, rule));
    assert(s[x + 1] == t[x]);
    assert(s[x + 2] == t[x + 1]);
    assert(has_children(s, x + 1));
    assert forall|k: int| 0 <= k < js.len() implies h <= #[trigger] js[k] by {}
    lemma_stub_all(s, js, id, h);
    assert forall|j: int| 0 <= j < h implies {
        &&& (#[trigger] merge_at(t, h, rule)[j]).id == t[j].id
        &&& merge_at(t, h, rule)[j].depth == t[j].depth
        &&& merge_at(t, h, rule)[j].kind == t[j].kind
    } by {
        assert(s[j] == t[j]);
    }
}

/// An element inside the head never equals the head, so that the
/// joins of a head are all the later candidates equal to it.
pub proof fn law_nested_never_equal(t: Tree, h: int, x: int, rule: MergeRule)
    requires
        0 <= h < x < subtree_end(t, h),
        x < t.len(),
    ensures
        !is_equal(t, h, x, rule),
{
    let eh = subtree_end(t, h);
    let ex = subtree_end(t, x);
    lemma_subtree_end(t, h);
    lemma_subtree_end(t, x);
    if ex > eh {
        assert(t[eh].depth > t[x].depth);
        assert(t[x].depth > t[h].depth);
    }
    assert(content(t, h).len() == eh - h - 1);
    assert(content(t, x).len() == ex - x - 1);
}

/// The pass keeps a document well formed: identifiers stay unique and
/// every link keeps a target.
pub proof fn law_merge_keeps_well_formed(t: Tree, p: int, rule: MergeRule)
    requires
        well_formed(t),
        0 <= p,
    ensures
        well_formed(merge_from(t, p, rule)),
    decreases t.len() - p,
{
    if p < t.len() {
        if is_mergeable(t, p, rule) {
            lemma_merge_at(t, p, rule);
            law_merge_keeps_well_formed(merge_at(t, p, rule), p + 1, rule);
        } else {
            law_merge_keeps_well_formed(t, p + 1, rule);
        }
    }
}

/// A document in which no candidate has a join is left as it is.
pub proof fn law_merge_fixed_point(t: Tree, p: int, rule: MergeRule)
    requires
        well_formed(t),
        0 <= p,
        forall|k: int| p <= k < t.len() ==> !#[trigger] is_mergeable(t, k, rule),
    ensures
        merge_from(t, p, rule) == t,
    decreases t.len() - p,
{
    if p < t.len() {
        assert(!is_mergeable(t, p, rule));
        law_merge_fixed_point(t, p + 1, rule);
    }
}

/// Whether two lists of attributes are the same.
fn attrs_equal(x: &Vec<Attribute>, y: &Vec<Attribute>) -> (r: bool)
    ensures
        r == (attrs_view(x@) == attrs_view(y@)),
{
    if x.len() != y.len() {
        assert(attrs_view(x@).len() != attrs_view(y@).len());
        return false;
    }
    let mut k: usize = 0;
    while k < x.len()
        invariant
            k <= x.len(),
            x.len() == y.len(),
            forall|kk: int| 0 <= kk < k ==> (#[trigger] attrs_view(x@)[kk]) == attrs_view(y@)[kk],
        decreases x.len() - k,
    {
        if !(x[k].kind == y[k].kind) || x[k].is_link != y[k].is_link || !(x[k].value
            == y[k].value) {
            assert(attrs_view(x@)[k as int] != attrs_view(y@)[k as int]);
            return false;
        }
        k += 1;
    }
    assert(attrs_view(x@) =~= attrs_view(y@));
    true
}

/// Whether attribute `a` is in `list`.
fn holds_attribute(list: &Vec<Attribute>, a: &Attribute) -> (r: bool)
    ensures
        r == attrs_view(list@).contains(a@),
{
    let mut k: usize = 0;
    while k < list.len()
        invariant
            k <= list.len(),
            forall|kk: int| 0 <= kk < k ==> (#[trigger] attrs_view(list@)[kk]) != a@,
        decreases list.len() - k,
    {
        if list[k].kind == a.kind && list[k].is_link == a.is_link && list[k].value == a.value {
            assert(attrs_view(list@)[k as int] == a@);
            return true;
        }
        k += 1;
    }
    false
}

/// Whether every attribute in `x` is also in `y`.
fn attrs_within(x: &Vec<Attribute>, y: &Vec<Attribute>) -> (r: bool)
    ensures
        r == attributes_within(attrs_view(x@), attrs_view(y@)),
{
    let mut i: usize = 0;
    while i < x.len()
        invariant
            i <= x.len(),
            forall|ii: int| 0 <= ii < i ==> attrs_view(y@).contains(#[trigger] attrs_view(x@)[ii]),
        decreases x.len() - i,
    {
        if !holds_attribute(y, &x[i]) {
            assert(!attrs_view(y@).contains(attrs_view(x@)[i as int]));
            return false;
        }
        i += 1;
    }
    true
}

/// Whether the descendants of elements `a` and `b` are the same, their
/// identifiers aside.
pub fn same_content(doc: &Document, a: usize, b: usize) -> (r: bool)
    requires
        a < doc@.len(),
        b < doc@.len(),
    ensures
        r == (content(doc@, a as int) == content(doc@, b as int)),
{
    let ea: usize = doc.subtree_end(a);
    let eb: usize = doc.subtree_end(b);
    proof {
        lemma_subtree_end(doc@, a as int);
        lemma_subtree_end(doc@, b as int);
    }
    if ea - a != eb - b {
        assert(content(doc@, a as int).len() != content(doc@, b as int).len());
        return false;
    }
    let n: usize = ea - a - 1;
    let da: usize = doc.element(a).depth;
    let db: usize = doc.element(b).depth;
    let mut k: usize = 0;
    while k < n
        invariant
            k <= n,
            n == ea - a - 1,
            n == eb - b - 1,
            ea <= doc@.len(),
            eb <= doc@.len(),
            ea == subtree_end(doc@, a as int),
            eb == subtree_end(doc@, b as int),
            da == doc@[a as int].depth,
            db == doc@[b as int].depth,
            forall|j: int| a < j < ea ==> (#[trigger] doc@[j]).depth > da,
            forall|j: int| b < j < eb ==> (#[trigger] doc@[j]).depth > db,
            forall|kk: int|
                0 <= kk < k ==> (#[trigger] content(doc@, a as int)[kk]) == content(
                    doc@,
                    b as int,
                )[kk],
        decreases n - k,
    {
        let x = doc.element(a + 1 + k);
        let y = doc.element(b + 1 + k);
        if x.depth - da != y.depth - db || !(x.kind == y.kind) || !attrs_equal(
            &x.attrs,
            &y.attrs,
        ) {
            assert(content(doc@, a as int)[k as int] != content(doc@, b as int)[k as int]);
            return false;
        }
        k += 1;
    }
    assert(content(doc@, a as int) =~= content(doc@, b as int));
    true
}

/// Whether element `i` is open to merging under `rule`.
pub fn check_candidate(doc: &Document, i: usize, rule: MergeRule) -> (r: bool)
    requires
        i < doc@.len(),
    ensures
        r == is_candidate(doc@, i as int, rule),
{
    let e = doc.element(i);
    let kind_fits = match rule {
        MergeRule::Stops => e.kind == ElementKind::LinearGradient || e.kind
            == ElementKind::RadialGradient,
        MergeRule::Kind(kind) => e.kind == kind,
    };
    kind_fits && doc.has_children(i) && !element_has_attribute(e, AttrKind::Href)
}

/// Whether elements `a` and `b` are equal under `rule`.
pub fn check_equal(doc: &Document, a: usize, b: usize, rule: MergeRule) -> (r: bool)
    requires
        a < doc@.len(),
        b < doc@.len(),
    ensures
        r == is_equal(doc@, a as int, b as int, rule),
{
    if !same_content(doc, a, b) {
        return false;
    }
    match rule {
        MergeRule::Stops => true,
        MergeRule::Kind(_) => doc.element(a).kind == doc.element(b).kind && attrs_within(
            &doc.element(a).attrs,
            &doc.element(b).attrs,
        ) && attrs_within(&doc.element(b).attrs, &doc.element(a).attrs),
    }
}

/// The positions in `v`, as mathematical integers.
pub open spec fn positions(v: Seq<usize>) -> Seq<int> {
    v.map_values(|x: usize| x as int)
}

/// Lists the elements that join the head `h`, in document order.
pub fn find_joins(doc: &Document, h: usize, rule: MergeRule) -> (js: Vec<usize>)
    requires
        h < doc@.len(),
    ensures
        positions(js@) == joins(doc@, h as int, rule),
{
    let mut js: Vec<usize> = Vec::new();
    let n: usize = doc.len();
    let mut x: usize = doc.subtree_end(h);
    proof {
        assert(positions(js@) =~= joins_upto(doc@, h as int, x as int, rule));
    }
    while x < n
        invariant
            h < n,
            n == doc@.len(),
            subtree_end(doc@, h as int) <= x <= n,
            positions(js@) == joins_upto(doc@, h as int, x as int, rule),
        decreases n - x,
    {
        let ghost before = positions(js@);
        if check_candidate(doc, x, rule) && check_equal(doc, h, x, rule) {
            js.push(x);
            proof {
                assert(positions(js@) =~= before.push(x as int));
            }
        }
        x += 1;
    }
    js
}

/// The prefix of the identifier a merge gives the shared element it
/// makes for a head of kind `kind`.
fn prefix_of(kind: ElementKind) -> (r: &'static str)
    ensures
        r@ == id_prefix(kind),
{
    match kind {
        ElementKind::LinearGradient => "lg",
        ElementKind::RadialGradient => "rg",
        _ => "def",
    }
}

/// Merges the head `h` with the elements listed in `js`.
fn merge_head(doc: &mut Document, h: usize, js: &Vec<usize>, rule: MergeRule)
    requires
        old(doc).wf(),
        h < old(doc)@.len(),
        is_mergeable(old(doc)@, h as int, rule),
        positions(js@) == joins(old(doc)@, h as int, rule),
    ensures
        final(doc).wf(),
        final(doc)@ == merge_at(old(doc)@, h as int, rule),
{
    let ghost t = doc@;
    let ghost jv = positions(js@);
    let kind = doc.element(h).kind;
    let id = gen_id(doc, prefix_of(kind));
    proof {
        lemma_subtree_end(t, h as int);
        lemma_share_children(t, h as int, kind, id@);
        lemma_joins_upto(t, h as int, t.len() as int, rule);
    }
    doc.share_children(h, kind, id.clone());
    let ghost s = doc@;
    let mut k: usize = js.len();
    proof {
        assert(jv.take(k as int) =~= jv);
    }
    while k > 0
        invariant
            k <= js.len(),
            jv == positions(js@),
            doc.wf(),
            id@.len() > 0,
            h < doc@.len(),
            doc@[h as int].id == id@,
            k > 0 ==> jv[k - 1] + 1 < doc@.len(),
            forall|i: int| 0 <= i < jv.len() ==> h <= #[trigger] jv[i],
            forall|k1: int, k2: int| 0 <= k1 < k2 < jv.len() ==> (#[trigger] jv[k1]) < (
            #[trigger] jv[k2]),
            stub_all(doc@, jv.take(k as int), id@) == stub_all(s, jv, id@),
        decreases k,
    {
        let ghost cur = doc@;
        let n: usize = doc.len();
        assert(jv[k - 1] == js@[k - 1] as int);
        let x: usize = js[k - 1] + 1;
        proof {
            assert(jv[k - 1] == js@[k - 1] as int);
            assert(h <= jv[k - 1]);
            lemma_stub_front(cur, x as int, id@);
            assert(jv.take(k as int).last() == jv[k - 1]);
            assert(jv.take(k as int).drop_last() =~= jv.take(k - 1));
            if k > 1 {
                assert(jv[k - 2] < jv[k - 1]);
            }
            assert(cur[h as int].id == id@ && !(x < h));
        }
        doc.stub(x, &id);
        k -= 1;
    }
    proof {
        assert(jv.take(0) =~= Seq::<int>::empty());
    }
}

/// Runs the pass under `rule` over the whole document and says whether
/// it merged anything.  After a merge the stubs take their content
/// through a link, so attribute values worked out before the pass no
/// longer hold for them: a caller that keeps such values works them
/// out anew when the answer is `true`.
pub fn merge_equal(doc: &mut Document, rule: MergeRule) -> (changed: bool)
    requires
        old(doc).wf(),
    ensures
        final(doc).wf(),
        final(doc)@ == merged(old(doc)@, rule),
        changed == (final(doc)@ != old(doc)@),
{
    let ghost start = doc@;
    let ghost mut mark: int = 0;
    let mut changed = false;
    let mut p: usize = 0;
    while p < doc.len()
        invariant
            doc.wf(),
            p <= doc@.len(),
            merge_from(doc@, p as int, rule) == merged(start, rule),
            !changed ==> doc@ == start,
            changed ==> 0 <= mark < p && doc@[mark].id.len() > 0 && !has_id(start, doc@[mark].id),
        decreases doc@.len() - p,
    {
        let ghost cur = doc@;
        let mut merged_here = false;
        if check_candidate(doc, p, rule) {
            let js = find_joins(doc, p, rule);
            if js.len() > 0 {
                proof {
                    lemma_merge_at(cur, p as int, rule);
                    lemma_fresh_id(cur, id_prefix(cur[p as int].kind));
                    if changed {
                        assert(merge_at(cur, p as int, rule)[mark].id == cur[mark].id);
                    } else {
                        mark = p as int;
                    }
                }
                merge_head(doc, p, &js, rule);
                changed = true;
                merged_here = true;
            }
        }
        proof {
            if !merged_here {
                assert(!is_mergeable(cur, p as int, rule));
            }
        }
        p += 1;
    }
    proof {
        if changed {
            assert(doc@[mark].id.len() > 0);
            if doc@ == start {
                assert(start[mark].id == doc@[mark].id);
            }
        }
    }
    changed
}

/// Merges gradients whose children are equal, whatever the gradients'
/// own attributes, and says whether it merged anything.
pub fn regroup_gradient_stops(doc: &mut Document) -> (changed: bool)
    requires
        old(doc).wf(),
    ensures
        final(doc).wf(),
        final(doc)@ == merged(old(doc)@, MergeRule::Stops),
        changed == (final(doc)@ != old(doc)@),
{
    merge_equal(doc, MergeRule::Stops)
}

/// Merges elements of kind `kind` that have the same attributes and
/// equal children, and says whether it merged anything.
pub fn merge_duplicates(doc: &mut Document, kind: ElementKind) -> (changed: bool)
    requires
        old(doc).wf(),
    ensures
        final(doc).wf(),
        final(doc)@ == merged(old(doc)@, MergeRule::Kind(kind)),
        changed == (final(doc)@ != old(doc)@),
{
    merge_equal(doc, MergeRule::Kind(kind))
}

} // verus!
