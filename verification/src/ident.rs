//! Allocation of fresh identifiers.
use vstd::prelude::*;
use vstd::string::*;
use crate::document::Document;
use crate::tree::{has_id, Tree};

verus! {

/// The character of the decimal digit `d`.
pub open spec fn digit(d: nat) -> char {
    if d == 0 {
        '0'
    } else if d == 1 {
        '1'
    } else if d == 2 {
        '2'
    } else if d == 3 {
        '3'
    } else if d == 4 {
        '4'
    } else if d == 5 {
        '5'
    } else if d == 6 {
        '6'
    } else if d == 7 {
        '7'
    } else if d == 8 {
        '8'
    } else {
        '9'
    }
}

/// The decimal numeral of `n`, without leading zeros.
pub open spec fn decimal(n: nat) -> Seq<char>
    decreases n,
{
    if n < 10 {
        seq![digit(n)]
    } else {
        decimal(n / 10).push(digit(n % 10))
    }
}

/// The identifier made of `prefix` and the numeral of `n`.
pub open spec fn numbered(prefix: Seq<char>, n: nat) -> Seq<char> {
    prefix + decimal(n)
}

/// The least number from `n` on whose identifier is unused.  A document
/// of `len` elements cannot use up the numbers `1..=len + 1`, so the
/// search never has to look further.
pub open spec fn first_unused(t: Tree, prefix: Seq<char>, n: nat) -> nat
    decreases t.len() + 1 - n,
{
    if n > t.len() || !has_id(t, numbered(prefix, n)) {
        n
    } else {
        first_unused(t, prefix, n + 1)
    }
}

/// The lowest-numbered identifier with `prefix` that no element of `t`
/// carries.
pub open spec fn fresh_id(t: Tree, prefix: Seq<char>) -> Seq<char> {
    numbered(prefix, first_unused(t, prefix, 1))
}

/// A numeral has at least one digit.
pub proof fn lemma_decimal_len(n: nat)
    ensures
        decimal(n).len() >= 1,
    decreases n,
{
    if n >= 10 {
        lemma_decimal_len(n / 10);
    }
}

/// Different numbers have different numerals.
pub proof fn lemma_decimal_injective(a: nat, b: nat)
    requires
        decimal(a) == decimal(b),
    ensures
        a == b,
    decreases a,
{
    if a < 10 && b < 10 {
        assert(decimal(a)[0] == digit(a));
        assert(decimal(b)[0] == digit(b));
    } else if a < 10 {
        lemma_decimal_len(b / 10);
        assert(decimal(a).len() == 1);
        assert(decimal(b).len() == decimal(b / 10).len() + 1);
    } else if b < 10 {
        lemma_decimal_len(a / 10);
        assert(decimal(b).len() == 1);
        assert(decimal(a).len() == decimal(a / 10).len() + 1);
    } else {
        let da = decimal(a / 10);
        let db = decimal(b / 10);
        assert(decimal(a) == da.push(digit(a % 10)));
        assert(decimal(b) == db.push(digit(b % 10)));
        assert(da.push(digit(a % 10)).last() == digit(a % 10));
        assert(db.push(digit(b % 10)).last() == digit(b % 10));
        assert(digit(a % 10) == digit(b % 10));
        assert(a % 10 == b % 10);
        assert(da =~= da.push(digit(a % 10)).drop_last());
        assert(db =~= db.push(digit(b % 10)).drop_last());
        lemma_decimal_injective(a / 10, b / 10);
        assert(a == 10 * (a / 10) + a % 10);
        assert(b == 10 * (b / 10) + b % 10);
    }
}

/// Different numbers give different identifiers.
pub proof fn lemma_numbered_injective(prefix: Seq<char>, a: nat, b: nat)
    requires
        numbered(prefix, a) == numbered(prefix, b),
    ensures
        a == b,
{
    assert(decimal(a) =~= numbered(prefix, a).skip(prefix.len() as int));
    assert(decimal(b) =~= numbered(prefix, b).skip(prefix.len() as int));
    lemma_decimal_injective(a, b);
}

/// A document that uses the identifiers numbered `1..=n` has at least
/// `n` elements.
pub proof fn lemma_numbers_need_elements(t: Tree, prefix: Seq<char>, n: nat)
    requires
        forall|m: nat| 1 <= m <= n ==> has_id(t, #[trigger] numbered(prefix, m)),
    ensures
        n <= t.len(),
    decreases n,
{
    if n > 0 {
        assert(has_id(t, numbered(prefix, n)));
        let j = choose|j: int| 0 <= j < t.len() && (#[trigger] t[j]).id == numbered(prefix, n);
        let r = t.remove(j);
        assert forall|m: nat| 1 <= m <= n - 1 implies has_id(r, #[trigger] numbered(prefix, m)) by {
            assert(has_id(t, numbered(prefix, m)));
            let w = choose|w: int| 0 <= w < t.len() && (#[trigger] t[w]).id == numbered(prefix, m);
            if w == j {
                lemma_numbered_injective(prefix, m, n);
            }
            let rw = if w < j { w } else { w - 1 };
            assert(r[rw].id == numbered(prefix, m));
        }
        lemma_numbers_need_elements(r, prefix, (n - 1) as nat);
    }
}

/// What [`first_unused`] finds when every smaller number is in use: an
/// unused number below which every number is in use.
pub proof fn lemma_first_unused(t: Tree, prefix: Seq<char>, n: nat)
    requires
        1 <= n,
        forall|m: nat| 1 <= m < n ==> has_id(t, #[trigger] numbered(prefix, m)),
    ensures
        n <= first_unused(t, prefix, n) <= t.len() + 1,
        !has_id(t, numbered(prefix, first_unused(t, prefix, n))),
        forall|m: nat|
            1 <= m < first_unused(t, prefix, n) ==> has_id(t, #[trigger] numbered(prefix, m)),
    decreases t.len() + 1 - n,
{
    lemma_numbers_need_elements(t, prefix, (n - 1) as nat);
    if has_id(t, numbered(prefix, n)) {
        assert forall|m: nat| 1 <= m <= n implies has_id(t, #[trigger] numbered(prefix, m)) by {}
        lemma_numbers_need_elements(t, prefix, n);
        lemma_first_unused(t, prefix, n + 1);
    }
}

/// A fresh identifier is not empty and not in use.
pub proof fn lemma_fresh_id(t: Tree, prefix: Seq<char>)
    ensures
        fresh_id(t, prefix).len() > 0,
        !has_id(t, fresh_id(t, prefix)),
{
    lemma_first_unused(t, prefix, 1);
    lemma_decimal_len(first_unused(t, prefix, 1));
}

/// The text of the decimal digit `d`.
fn digit_str(d: u8) -> (r: &'static str)
    requires
        d < 10,
    ensures
        r@ == seq![digit(d as nat)],
{
    proof {
        reveal_strlit("0");
        reveal_strlit("1");
        reveal_strlit("2");
        reveal_strlit("3");
        reveal_strlit("4");
        reveal_strlit("5");
        reveal_strlit("6");
        reveal_strlit("7");
        reveal_strlit("8");
        reveal_strlit("9");
    }
    let r = if d == 0 {
        "0"
    } else if d == 1 {
        "1"
    } else if d == 2 {
        "2"
    } else if d == 3 {
        "3"
    } else if d == 4 {
        "4"
    } else if d == 5 {
        "5"
    } else if d == 6 {
        "6"
    } else if d == 7 {
        "7"
    } else if d == 8 {
        "8"
    } else {
        "9"
    };
    assert(r@ =~= seq![digit(d as nat)]);
    r
}

/// Appends the decimal numeral of `n` to `s`.
fn push_decimal(s: &mut String, n: u128)
    ensures
        final(s)@ == old(s)@ + decimal(n as nat),
    decreases n,
{
    if n >= 10 {
        push_decimal(s, n / 10);
    }
    s.append(digit_str((n % 10) as u8));
    assert(s@ =~= old(s)@ + decimal(n as nat));
}

/// Returns the identifier made of `prefix` and the smallest positive
/// number for which no element of `doc` carries it.
pub fn gen_id(doc: &Document, prefix: &str) -> (id: String)
    ensures
        id@ == fresh_id(doc@, prefix@),
        id@.len() > 0,
        !has_id(doc@, id@),
        exists|n: nat|
            1 <= n && id@ == #[trigger] numbered(prefix@, n) && forall|m: nat|
                1 <= m < n ==> has_id(doc@, #[trigger] numbered(prefix@, m)),
{
    let len: usize = doc.len();
    let mut n: u128 = 1;
    loop
        invariant
            1 <= n <= len + 1,
            len == doc@.len(),
            first_unused(doc@, prefix@, n as nat) == first_unused(doc@, prefix@, 1),
            forall|m: nat| 1 <= m < n ==> has_id(doc@, #[trigger] numbered(prefix@, m)),
        decreases len + 1 - n,
    {
        let mut s = String::from_str(prefix);
        push_decimal(&mut s, n);
        proof {
            lemma_first_unused(doc@, prefix@, n as nat);
            lemma_decimal_len(n as nat);
        }
        if n > len as u128 || !doc.has_id(&s) {
            assert(s@ == numbered(prefix@, n as nat));
            return s;
        }
        n += 1;
    }
}

} // verus!
