//! The document and the queries passes ask of it.
use vstd::prelude::*;
use crate::edit::{
    add_link, can_link, clear_children, hoist, ids_of, lemma_add_link_wf, lemma_clear_children_wf,
    lemma_lift_wf, lemma_remove_range, lemma_remove_range_wf, lemma_set_link_wf,
    lemma_share_children, lemma_share_children_wf, lift, remove_range, set_link, share_children,
    stub, sifted, unlink, unlinked,
};
use crate::element::{attrs_view, elements_view, Attribute, AttrKind, Element, ElementKind};
use crate::error::Error;
use crate::tree::{
    has_attribute, has_children, has_id, has_svg_root, ids_unique, is_referenced,
    lemma_subtree_end, links_resolve, links_to, nested_at, run_end, subtree_end, well_formed,
    well_nested, Tree,
};

verus! {

/// A document: a forest of elements in document order.
pub struct Document {
    elems: Vec<Element>,
}

impl View for Document {
    type V = Tree;

    closed spec fn view(&self) -> Tree {
        elements_view(self.elems@)
    }
}

/// Whether `e` has a link attribute whose target is `id`.
fn element_links_to(e: &Element, id: &String) -> (r: bool)
    ensures
        r == links_to(e@, id@),
{
    let mut k: usize = 0;
    while k < e.attrs.len()
        invariant
            k <= e.attrs.len(),
            forall|kk: int|
                0 <= kk < k ==> !((#[trigger] e@.attrs[kk]).is_link && e@.attrs[kk].value == id@),
        decreases e.attrs.len() - k,
    {
        if e.attrs[k].is_link && e.attrs[k].value == *id {
            assert(e@.attrs[k as int].is_link && e@.attrs[k as int].value == id@);
            return true;
        }
        k += 1;
    }
    false
}

/// Whether `e` has an attribute of kind `kind`.
pub(crate) fn element_has_attribute(e: &Element, kind: AttrKind) -> (r: bool)
    ensures
        r == has_attribute(e@, kind),
{
    let mut k: usize = 0;
    while k < e.attrs.len()
        invariant
            k <= e.attrs.len(),
            forall|kk: int| 0 <= kk < k ==> (#[trigger] e@.attrs[kk]).kind != kind,
        decreases e.attrs.len() - k,
    {
        if e.attrs[k].kind == kind {
            assert(e@.attrs[k as int].kind == kind);
            return true;
        }
        k += 1;
    }
    false
}

/// Mathematical value of a list of strings.
spec fn strings_view(v: Seq<String>) -> Seq<Seq<char>> {
    v.map_values(|s: String| s@)
}

/// Whether `list` holds a string equal to `s`.
fn contains_string(list: &Vec<String>, s: &String) -> (r: bool)
    ensures
        r == strings_view(list@).contains(s@),
{
    let mut k: usize = 0;
    while k < list.len()
        invariant
            k <= list.len(),
            forall|kk: int| 0 <= kk < k ==> (#[trigger] strings_view(list@)[kk]) != s@,
        decreases list.len() - k,
    {
        if list[k] == *s {
            assert(strings_view(list@)[k as int] == s@);
            return true;
        }
        k += 1;
    }
    false
}

/// Drops from `attrs` the links to one of the identifiers in `dead`
/// and, if `kind` names one, the attributes of that kind.
fn sift(attrs: &mut Vec<Attribute>, dead: &Vec<String>, kind: Option<AttrKind>)
    ensures
        attrs_view(final(attrs)@) == sifted(attrs_view(old(attrs)@), strings_view(dead@), kind),
{
    let ghost orig = attrs_view(attrs@);
    let ghost dv = strings_view(dead@);
    let ghost mut m: int = 0;
    let mut k: usize = 0;
    proof {
        assert(attrs_view(attrs@).take(0) =~= sifted(orig.take(0), dv, kind));
        assert(attrs_view(attrs@).skip(0) =~= orig.skip(0));
    }
    while k < attrs.len()
        invariant
            0 <= k <= attrs.len(),
            k <= m <= orig.len(),
            attrs.len() - k == orig.len() - m,
            dv == strings_view(dead@),
            attrs_view(attrs@).take(k as int) == sifted(orig.take(m), dv, kind),
            attrs_view(attrs@).skip(k as int) == orig.skip(m),
        decreases attrs.len() - k,
    {
        let ghost before = attrs_view(attrs@);
        let of_kind = match kind {
            Some(wanted) => attrs[k].kind == wanted,
            None => false,
        };
        let dropped = of_kind || (attrs[k].is_link && contains_string(dead, &attrs[k].value));
        proof {
            assert(before[k as int] == before.skip(k as int)[0]);
            assert(before[k as int] == orig[m]);
            assert(orig.take(m + 1).drop_last() =~= orig.take(m));
            assert(orig.take(m + 1).last() == orig[m]);
            assert forall|i: int| 0 <= i < orig.len() - m - 1 implies (#[trigger] before.skip(
                k as int + 1,
            )[i]) == orig.skip(m + 1)[i] by {
                assert(before.skip(k as int)[i + 1] == orig.skip(m)[i + 1]);
            }
            assert(before.skip(k as int + 1) =~= orig.skip(m + 1));
        }
        if dropped {
            attrs.remove(k);
            proof {
                assert(attrs_view(attrs@) =~= before.remove(k as int));
                assert(attrs_view(attrs@).take(k as int) =~= before.take(k as int));
                assert(attrs_view(attrs@).skip(k as int) =~= before.skip(k as int + 1));
                m = m + 1;
            }
        } else {
            k += 1;
            proof {
                assert(before.take(k as int) =~= before.take(k as int - 1).push(orig[m]));
                m = m + 1;
            }
        }
    }
    proof {
        assert(attrs_view(attrs@).take(k as int) =~= attrs_view(attrs@));
        assert(orig.take(m) =~= orig);
    }
}

impl Document {
    /// How the document's value follows from its elements.
    proof fn lemma_view(&self)
        ensures
            self@.len() == self.elems@.len(),
            forall|i: int| 0 <= i < self.elems@.len() ==> (#[trigger] self@[i]) == self.elems@[i]@,
    {
    }

    /// The document obeys the rules of [`well_formed`].
    pub open spec fn wf(&self) -> bool {
        well_formed(self@)
    }

    /// The document without elements.
    pub fn new() -> (doc: Document)
        ensures
            doc@ == Seq::<crate::element::ElementView>::empty(),
            doc.wf(),
    {
        let doc = Document { elems: Vec::new() };
        assert(doc@ =~= Seq::<crate::element::ElementView>::empty());
        doc
    }

    /// Number of elements.
    pub fn len(&self) -> (n: usize)
        ensures
            n == self@.len(),
    {
        self.elems.len()
    }

    /// The elements in document order.
    pub fn elements(&self) -> (r: &Vec<Element>)
        ensures
            elements_view(r@) == self@,
    {
        &self.elems
    }

    /// Element `i`.
    pub fn element(&self, i: usize) -> (e: &Element)
        requires
            i < self@.len(),
        ensures
            e@ == self@[i as int],
    {
        &self.elems[i]
    }

    /// Index one past the last descendant of element `i`.
    pub fn subtree_end(&self, i: usize) -> (e: usize)
        requires
            i < self@.len(),
        ensures
            e == subtree_end(self@, i as int),
            i < e <= self@.len(),
    {
        proof {
            self.lemma_view();
            lemma_subtree_end(self@, i as int);
        }
        let n: usize = self.elems.len();
        let d: usize = self.elems[i].depth;
        let mut j: usize = i + 1;
        while j < n && self.elems[j].depth > d
            invariant
                i < j <= n,
                n == self.elems.len(),
                d == self@[i as int].depth,
                run_end(self@, j as int, d as nat) == subtree_end(self@, i as int),
            decreases n - j,
        {
            j += 1;
        }
        j
    }

    /// Whether element `i` has a child.
    pub fn has_children(&self, i: usize) -> (r: bool)
        requires
            i < self@.len(),
        ensures
            r == has_children(self@, i as int),
    {
        proof {
            self.lemma_view();
        }
        let n: usize = self.elems.len();
        i + 1 < n && self.elems[i + 1].depth > self.elems[i].depth
    }

    /// Whether some element carries the identifier `id`.
    pub fn has_id(&self, id: &String) -> (r: bool)
        ensures
            r == has_id(self@, id@),
    {
        let mut j: usize = 0;
        while j < self.elems.len()
            invariant
                j <= self.elems.len(),
                forall|jj: int| 0 <= jj < j ==> (#[trigger] self@[jj]).id != id@,
            decreases self.elems.len() - j,
        {
            if self.elems[j].id == *id {
                assert(self@[j as int].id == id@);
                return true;
            }
            j += 1;
        }
        false
    }

    /// Whether element `i` is the target of a link attribute.
    pub fn is_referenced(&self, i: usize) -> (r: bool)
        requires
            i < self@.len(),
        ensures
            r == is_referenced(self@, i as int),
    {
        if self.elems[i].id.as_str().is_empty() {
            return false;
        }
        let mut j: usize = 0;
        while j < self.elems.len()
            invariant
                j <= self.elems.len(),
                i < self.elems.len(),
                self@[i as int].id.len() > 0,
                forall|jj: int| 0 <= jj < j ==> !links_to(#[trigger] self@[jj], self@[i as int].id),
            decreases self.elems.len() - j,
        {
            if element_links_to(&self.elems[j], &self.elems[i].id) {
                assert(links_to(self@[j as int], self@[i as int].id));
                return true;
            }
            j += 1;
        }
        false
    }

    /// Whether a root element of kind `Svg` is present.
    pub fn has_svg_root(&self) -> (r: bool)
        ensures
            r == has_svg_root(self@),
    {
        let mut j: usize = 0;
        while j < self.elems.len()
            invariant
                j <= self.elems.len(),
                forall|jj: int|
                    0 <= jj < j ==> !((#[trigger] self@[jj]).depth == 0 && self@[jj].kind
                        == ElementKind::Svg),
            decreases self.elems.len() - j,
        {
            if self.elems[j].depth == 0 && self.elems[j].kind == ElementKind::Svg {
                assert(self@[j as int].depth == 0 && self@[j as int].kind == ElementKind::Svg);
                return true;
            }
            j += 1;
        }
        false
    }

    fn check_nesting(&self) -> (r: bool)
        ensures
            r == well_nested(self@),
    {
        if self.elems.len() == 0 {
            return true;
        }
        if self.elems[0].depth != 0 {
            return false;
        }
        let mut i: usize = 1;
        while i < self.elems.len()
            invariant
                1 <= i <= self.elems.len(),
                self@[0].depth == 0,
                forall|ii: int| 0 < ii < i ==> #[trigger] nested_at(self@, ii),
            decreases self.elems.len() - i,
        {
            if self.elems[i].depth > self.elems[i - 1].depth
                && self.elems[i].depth - self.elems[i - 1].depth > 1 {
                assert(!nested_at(self@, i as int));
                return false;
            }
            i += 1;
        }
        true
    }

    fn check_ids(&self) -> (r: bool)
        ensures
            r == ids_unique(self@),
    {
        let n: usize = self.elems.len();
        let mut i: usize = 0;
        while i < n
            invariant
                i <= n,
                n == self.elems.len(),
                forall|a: int, b: int|
                    0 <= a < i && a < b < n && (#[trigger] self@[a]).id.len() > 0 ==> self@[a].id
                        != (#[trigger] self@[b]).id,
            decreases n - i,
        {
            if !self.elems[i].id.as_str().is_empty() {
                let mut j: usize = i + 1;
                while j < n
                    invariant
                        i < j <= n,
                        n == self.elems.len(),
                        self@[i as int].id.len() > 0,
                        forall|b: int| i < b < j ==> self@[i as int].id != (#[trigger] self@[b]).id,
                    decreases n - j,
                {
                    if self.elems[i].id == self.elems[j].id {
                        assert(self@[i as int].id.len() > 0 && self@[i as int].id
                            == self@[j as int].id);
                        return false;
                    }
                    j += 1;
                }
            }
            i += 1;
        }
        assert forall|a: int, b: int|
            0 <= a < n && 0 <= b < n && a != b && (#[trigger] self@[a]).id.len() > 0
                implies self@[a].id != (#[trigger] self@[b]).id by {
            if b < a && self@[b].id.len() > 0 {
                assert(self@[b].id != self@[a].id);
            }
        }
        true
    }

    fn check_links(&self) -> (r: bool)
        ensures
            r == links_resolve(self@),
    {
        let n: usize = self.elems.len();
        let mut i: usize = 0;
        while i < n
            invariant
                i <= n,
                n == self.elems.len(),
                forall|a: int, k: int|
                    0 <= a < i && 0 <= k < self@[a].attrs.len() && (#[trigger] self@[a].attrs[k]).is_link
                        ==> self@[a].attrs[k].value.len() > 0 && has_id(
                        self@,
                        self@[a].attrs[k].value,
                    ),
            decreases n - i,
        {
            let m: usize = self.elems[i].attrs.len();
            let mut k: usize = 0;
            while k < m
                invariant
                    k <= m,
                    i < n,
                    n == self.elems.len(),
                    m == self.elems[i as int].attrs.len(),
                    m == self@[i as int].attrs.len(),
                    forall|kk: int|
                        0 <= kk < k && (#[trigger] self@[i as int].attrs[kk]).is_link
                            ==> self@[i as int].attrs[kk].value.len() > 0 && has_id(
                            self@,
                            self@[i as int].attrs[kk].value,
                        ),
                decreases m - k,
            {
                if self.elems[i].attrs[k].is_link {
                    if self.elems[i].attrs[k].value.as_str().is_empty() || !self.has_id(
                        &self.elems[i].attrs[k].value,
                    ) {
                        assert(self@[i as int].attrs[k as int].is_link);
                        return false;
                    }
                }
                k += 1;
            }
            i += 1;
        }
        true
    }

    /// Removes the elements `a..b`, which must be whole subtrees, and
    /// drops every link attribute that pointed at one of them.
    pub(crate) fn remove_range(&mut self, a: usize, b: usize)
        requires
            old(self).wf(),
            a < b <= old(self)@.len(),
            b < old(self)@.len() ==> old(self)@[b as int].depth <= old(self)@[a as int].depth,
        ensures
            final(self)@ == remove_range(old(self)@, a as int, b as int),
            final(self).wf(),
    {
        let ghost t = self@;
        proof {
            self.lemma_view();
            lemma_remove_range(t, a as int, b as int);
            lemma_remove_range_wf(t, a as int, b as int);
        }
        let mut dead: Vec<String> = Vec::new();
        let mut k: usize = a;
        proof {
            assert(strings_view(dead@) =~= ids_of(t.subrange(a as int, k as int)));
        }
        while k < b
            invariant
                a <= k <= b <= self.elems.len(),
                self@ == t,
                strings_view(dead@) == ids_of(t.subrange(a as int, k as int)),
            decreases b - k,
        {
            proof {
                self.lemma_view();
            }
            let ghost dead_before = strings_view(dead@);
            let id = self.elems[k].id.clone();
            assert(id@ == t[k as int].id);
            dead.push(id);
            k += 1;
            proof {
                assert(strings_view(dead@) =~= dead_before.push(t[k - 1].id));
                assert(ids_of(t.subrange(a as int, k as int)) =~= ids_of(
                    t.subrange(a as int, k - 1),
                ).push(t[k - 1].id));
            }
        }
        let ghost dv = strings_view(dead@);
        let mut tail = self.elems.split_off(b);
        self.elems.truncate(a);
        self.elems.append(&mut tail);
        let ghost mid = t.take(a as int) + t.skip(b as int);
        proof {
            assert(elements_view(self.elems@) =~= mid);
        }
        let n: usize = self.elems.len();
        let mut j: usize = 0;
        while j < n
            invariant
                j <= n,
                n == self.elems.len(),
                n == mid.len(),
                dv == strings_view(dead@),
                forall|jj: int| 0 <= jj < j ==> (#[trigger] self.elems@[jj])@ == unlinked(mid[jj], dv),
                forall|jj: int| j <= jj < n ==> (#[trigger] self.elems@[jj])@ == mid[jj],
            decreases n - j,
        {
            let ghost before = self.elems@;
            sift(&mut self.elems[j].attrs, &dead, None);
            proof {
                assert(forall|jj: int| 0 <= jj < n && jj != j ==> self.elems@[jj] == before[jj]);
                assert(self.elems@[j as int].depth == before[j as int].depth);
                assert(self.elems@[j as int].kind == before[j as int].kind);
                assert(self.elems@[j as int].id == before[j as int].id);
            }
            j += 1;
        }
        proof {
            assert(self@ =~= unlink(mid, dv));
        }
    }

    /// Removes element `i` and puts its children in its place.
    pub(crate) fn hoist(&mut self, i: usize)
        requires
            old(self).wf(),
            i < old(self)@.len(),
        ensures
            final(self)@ == hoist(old(self)@, i as int),
            final(self).wf(),
    {
        let ghost t = self@;
        let e: usize = self.subtree_end(i);
        proof {
            self.lemma_view();
            lemma_subtree_end(t, i as int);
            lemma_lift_wf(t, i as int);
            assert(self@ =~= lift(t, i + 1, i + 1));
        }
        let mut k: usize = i + 1;
        while k < e
            invariant
                i < k <= e <= t.len(),
                self.elems@.len() == t.len(),
                self@ == lift(t, i + 1, k as int),
                forall|kk: int| i < kk < e ==> (#[trigger] t[kk]).depth > t[i as int].depth,
            decreases e - k,
        {
            proof {
                self.lemma_view();
            }
            let ghost before = self.elems@;
            let d: usize = self.elems[k].depth;
            assert(self@[k as int] == lift(t, i + 1, k as int)[k as int]);
            assert(d == t[k as int].depth);
            self.elems[k].depth = d - 1;
            k += 1;
            proof {
                assert(forall|jj: int|
                    0 <= jj < before.len() && jj != k - 1 ==> self.elems@[jj] == before[jj]);
                assert forall|jj: int| 0 <= jj < t.len() implies (#[trigger] self@[jj]) == lift(
                    t,
                    i + 1,
                    k as int,
                )[jj] by {
                    assert(elements_view(before)[jj] == lift(t, i + 1, k - 1)[jj]);
                }
                assert(self@ =~= lift(t, i + 1, k as int));
            }
        }
        self.remove_range(i, i + 1);
    }

    /// Moves the children of element `h` to a new element of kind
    /// `kind` and identifier `id` that is put immediately before `h`,
    /// and gives `h` a link to it.
    pub(crate) fn share_children(&mut self, h: usize, kind: ElementKind, id: String)
        requires
            old(self).wf(),
            h < old(self)@.len(),
            id@.len() > 0,
            !has_id(old(self)@, id@),
        ensures
            final(self)@ == share_children(old(self)@, h as int, kind, id@),
            final(self).wf(),
    {
        let ghost t = self@;
        let e: usize = self.subtree_end(h);
        proof {
            self.lemma_view();
            lemma_share_children(t, h as int, kind, id@);
            lemma_share_children_wf(t, h as int, kind, id@);
        }
        let depth: usize = self.elems[h].depth;
        let link = Attribute { kind: AttrKind::Href, is_link: true, value: id.clone() };
        let shared = Element { depth, kind, id, attrs: Vec::new() };
        assert(attrs_view(shared.attrs@) =~= Seq::empty());
        self.elems.push(shared);
        let mut head = self.elems.swap_remove(h);
        let ghost head_before = head@;
        head.attrs.push(link);
        assert(attrs_view(head.attrs@) =~= head_before.attrs.push(link@));
        self.elems.insert(e, head);
        proof {
            assert(self@ =~= share_children(t, h as int, kind, id@));
        }
    }

    /// Removes the descendants of element `x` and gives it a link to
    /// `target`.
    pub(crate) fn stub(&mut self, x: usize, target: &String)
        requires
            old(self).wf(),
            x < old(self)@.len(),
            target@.len() > 0,
            exists|w: int|
                0 <= w < old(self)@.len() && (#[trigger] old(self)@[w]).id == target@ && !(x < w
                    < subtree_end(old(self)@, x as int)),
        ensures
            final(self)@ == stub(old(self)@, x as int, target@),
            final(self).wf(),
    {
        let ghost t = self@;
        let e: usize = self.subtree_end(x);
        proof {
            lemma_subtree_end(t, x as int);
            lemma_clear_children_wf(t, x as int);
        }
        if e > x + 1 {
            self.remove_range(x + 1, e);
        }
        let ghost c = self@;
        proof {
            assert(c == clear_children(t, x as int));
            let w = choose|w: int|
                0 <= w < t.len() && (#[trigger] t[w]).id == target@ && !(x < w < subtree_end(
                    t,
                    x as int,
                ));
            let cw = if w <= x { w } else { w - (e - x - 1) };
            assert(c[cw].id == target@);
            lemma_add_link_wf(c, x as int, AttrKind::Href, target@);
            self.lemma_view();
        }
        let ghost before = self.elems@;
        let link = Attribute { kind: AttrKind::Href, is_link: true, value: target.clone() };
        self.elems[x].attrs.push(link);
        proof {
            assert(forall|jj: int|
                0 <= jj < before.len() && jj != x ==> self.elems@[jj] == before[jj]);
            assert(attrs_view(self.elems@[x as int].attrs@) =~= attrs_view(
                before[x as int].attrs@,
            ).push(link@));
            assert(self@ =~= add_link(c, x as int, AttrKind::Href, target@));
        }
    }

    /// Removes element `i` with its descendants, and every link
    /// attribute that pointed at one of them.
    pub fn remove_subtree(&mut self, i: usize)
        requires
            old(self).wf(),
            i < old(self)@.len(),
        ensures
            final(self).wf(),
            final(self)@ == remove_range(old(self)@, i as int, subtree_end(old(self)@, i as int)),
    {
        let e: usize = self.subtree_end(i);
        proof {
            lemma_subtree_end(self@, i as int);
        }
        self.remove_range(i, e);
    }

    /// Sets the attribute of kind `kind` of element `i` to a link to
    /// element `j`, in place of any attribute of that kind it had.
    /// Fails, and changes nothing, if `j` has no identifier, is `i`
    /// itself, or links to `i`.
    pub fn set_link_attribute(&mut self, i: usize, kind: AttrKind, j: usize) -> (r: Result<
        (),
        Error,
    >)
        requires
            old(self).wf(),
            i < old(self)@.len(),
            j < old(self)@.len(),
        ensures
            final(self).wf(),
            can_link(old(self)@, i as int, j as int) ==> r == Ok::<(), Error>(()) && final(self)@
                == set_link(old(self)@, i as int, kind, old(self)@[j as int].id),
            !can_link(old(self)@, i as int, j as int) ==> r == Err::<(), Error>(Error::Link)
                && final(self)@ == old(self)@,
    {
        let ghost t = self@;
        proof {
            self.lemma_view();
        }
        if self.elems[j].id.as_str().is_empty() || self.elems[j].id == self.elems[i].id
            || element_links_to(&self.elems[j], &self.elems[i].id) {
            return Err(Error::Link);
        }
        let target = self.elems[j].id.clone();
        proof {
            assert(t[j as int].id == target@);
            lemma_set_link_wf(t, i as int, kind, target@);
        }
        let ghost before = self.elems@;
        let link = Attribute { kind, is_link: true, value: target };
        let none: Vec<String> = Vec::new();
        assert(strings_view(none@) =~= Seq::empty());
        sift(&mut self.elems[i].attrs, &none, Some(kind));
        let ghost mid = self.elems@;
        self.elems[i].attrs.push(link);
        proof {
            assert(forall|jj: int|
                0 <= jj < before.len() && jj != i ==> self.elems@[jj] == before[jj]);
            assert(attrs_view(self.elems@[i as int].attrs@) =~= attrs_view(
                mid[i as int].attrs@,
            ).push(link@));
            assert(self@ =~= set_link(t, i as int, kind, t[j as int].id));
        }
        Ok(())
    }

    /// Makes a document of `elems` if they obey the rules of
    /// [`well_formed`].
    pub fn from_elements(elems: Vec<Element>) -> (r: Result<Document, Error>)
        ensures
            match r {
                Ok(doc) => doc@ == elements_view(elems@) && doc.wf(),
                Err(e) => e == Error::Validation && !well_formed(elements_view(elems@)),
            },
    {
        let doc = Document { elems };
        if doc.check_nesting() && doc.check_ids() && doc.check_links() {
            Ok(doc)
        } else {
            Err(Error::Validation)
        }
    }
}

} // verus!
