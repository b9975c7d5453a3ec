//! Lexicographic order on character sequences; `str`'s `Ord` gives the
//! same order, since UTF-8 byte order and code point order agree.

use vstd::prelude::*;
use std::cmp::Ordering;
use vstd::multiset::Multiset;
use crate::text::{chars_of, int_of, views};

verus! {

/// `o` with `Less` and `Greater` exchanged.
pub open spec fn flip(o: Ordering) -> Ordering {
    match o {
        Ordering::Less => Ordering::Greater,
        Ordering::Equal => Ordering::Equal,
        Ordering::Greater => Ordering::Less,
    }
}

/// Lexicographic order on code points; a proper prefix comes first.
pub open spec fn lex_order(a: Seq<char>, b: Seq<char>) -> Ordering
    decreases a.len(),
{
    if a.len() == 0 {
        if b.len() == 0 {
            Ordering::Equal
        } else {
            Ordering::Less
        }
    } else if b.len() == 0 {
        Ordering::Greater
    } else if a[0] < b[0] {
        Ordering::Less
    } else if a[0] > b[0] {
        Ordering::Greater
    } else {
        lex_order(a.drop_first(), b.drop_first())
    }
}

/// Compares two character sequences lexicographically.
pub fn compare_chars(a: &Vec<char>, b: &Vec<char>) -> (o: Ordering)
    ensures
        o == lex_order(a@, b@),
{
    let n = a.len();
    let m = b.len();
    let mut i: usize = 0;
    assert(a@.skip(0) == a@ && b@.skip(0) == b@);
    while i < n && i < m
        invariant
            n == a@.len(),
            m == b@.len(),
            i <= n,
            i <= m,
            lex_order(a@, b@) == lex_order(a@.skip(int_of(i)), b@.skip(int_of(i))),
        decreases n - i,
    {
        assert(a@.skip(int_of(i))[0] == a@[int_of(i)]);
        assert(b@.skip(int_of(i))[0] == b@[int_of(i)]);
        if a[i] < b[i] {
            return Ordering::Less;
        }
        if a[i] > b[i] {
            return Ordering::Greater;
        }
        assert(a@.skip(int_of(i)).drop_first() == a@.skip(int_of(i) + 1));
        assert(b@.skip(int_of(i)).drop_first() == b@.skip(int_of(i) + 1));
        i = i + 1;
    }
    if i < n {
        Ordering::Greater
    } else if i < m {
        Ordering::Less
    } else {
        Ordering::Equal
    }
}

/// Exchanging the arguments flips the result.
pub proof fn lemma_lex_flip(a: Seq<char>, b: Seq<char>)
    ensures
        lex_order(b, a) == flip(lex_order(a, b)),
    decreases a.len(),
{
    if a.len() > 0 && b.len() > 0 && a[0] == b[0] {
        lemma_lex_flip(a.drop_first(), b.drop_first());
    }
}

/// Only equal sequences compare `Equal`.
pub proof fn lemma_lex_equal(a: Seq<char>, b: Seq<char>)
    ensures
        (lex_order(a, b) == Ordering::Equal) <==> a == b,
    decreases a.len(),
{
    if a.len() == 0 || b.len() == 0 {
        if a.len() == 0 && b.len() == 0 {
            assert(a =~= b);
        }
    } else if a[0] != b[0] {
        if a == b {
            assert(a[0] == b[0]);
        }
    } else {
        lemma_lex_equal(a.drop_first(), b.drop_first());
        if a.drop_first() == b.drop_first() {
            assert(a =~= b) by {
                assert forall|i: int| 0 <= i < a.len() implies a[i] == b[i] by {
                    if i > 0 {
                        assert(a[i] == a.drop_first()[i - 1]);
                        assert(b[i] == b.drop_first()[i - 1]);
                    }
                }
            }
        }
        if a == b {
            assert(a.drop_first() == b.drop_first());
        }
    }
}

/// `Less` and not-`Greater` chain.
pub proof fn lemma_lex_transitive(a: Seq<char>, b: Seq<char>, c: Seq<char>)
    ensures
        lex_order(a, b) != Ordering::Greater && lex_order(b, c) != Ordering::Greater
            ==> lex_order(a, c) != Ordering::Greater,
        lex_order(a, b) == Ordering::Less && lex_order(b, c) != Ordering::Greater
            ==> lex_order(a, c) == Ordering::Less,
        lex_order(a, b) != Ordering::Greater && lex_order(b, c) == Ordering::Less
            ==> lex_order(a, c) == Ordering::Less,
    decreases a.len(),
{
    if a.len() > 0 && b.len() > 0 && c.len() > 0 {
        lemma_lex_transitive(a.drop_first(), b.drop_first(), c.drop_first());
    }
}

/// Exchanging the arguments of `ord` flips its result.
#[verifier::opaque]
pub open spec fn antisymmetric(ord: spec_fn(Seq<char>, Seq<char>) -> Ordering) -> bool {
    forall|a: Seq<char>, b: Seq<char>| #[trigger] ord(a, b) == flip(ord(b, a))
}

/// Not-`Greater` under `ord` chains.
#[verifier::opaque]
pub open spec fn transitive(ord: spec_fn(Seq<char>, Seq<char>) -> Ordering) -> bool {
    forall|a: Seq<char>, b: Seq<char>, c: Seq<char>|
        #[trigger] ord(a, b) != Ordering::Greater && #[trigger] ord(b, c) != Ordering::Greater
            ==> ord(a, c) != Ordering::Greater
}

/// The element at `k` is ordered no later than the next one.
pub open spec fn in_order_at(
    s: Seq<Seq<char>>,
    k: int,
    ord: spec_fn(Seq<char>, Seq<char>) -> Ordering,
) -> bool {
    ord(s[k], s[k + 1]) != Ordering::Greater
}

/// Each element is ordered no later than the next one.
pub open spec fn ascending_by(s: Seq<Seq<char>>, ord: spec_fn(Seq<char>, Seq<char>) -> Ordering) -> bool {
    forall|k: int| 0 <= k < s.len() - 1 ==> #[trigger] in_order_at(s, k, ord)
}

/// Each element is ordered no later than every later one.
pub open spec fn sorted_by_order(s: Seq<Seq<char>>, ord: spec_fn(Seq<char>, Seq<char>) -> Ordering) -> bool {
    forall|i: int, j: int| 0 <= i < j < s.len() ==> #[trigger] ord(s[i], s[j]) != Ordering::Greater
}

/// Each element is ordered strictly before every later one.
pub open spec fn strictly_sorted(s: Seq<Seq<char>>, ord: spec_fn(Seq<char>, Seq<char>) -> Ordering) -> bool {
    forall|i: int, j: int| 0 <= i < j < s.len() ==> #[trigger] ord(s[i], s[j]) == Ordering::Less
}

/// A sorted arrangement of distinct elements is strictly sorted when only
/// equal elements are equal under `ord`.
pub proof fn lemma_sorted_strict(
    s: Seq<Seq<char>>,
    t: Seq<Seq<char>>,
    ord: spec_fn(Seq<char>, Seq<char>) -> Ordering,
)
    requires
        sorted_by_order(s, ord),
        s.to_multiset() == t.to_multiset(),
        t.no_duplicates(),
        forall|a: Seq<char>, b: Seq<char>| #[trigger] ord(a, b) == Ordering::Equal ==> a == b,
    ensures
        strictly_sorted(s, ord),
{
    t.lemma_multiset_has_no_duplicates();
    s.lemma_multiset_has_no_duplicates_conv();
    assert forall|i: int, j: int| 0 <= i < j < s.len() implies #[trigger] ord(s[i], s[j])
        == Ordering::Less by {
        assert(s[i] != s[j]);
    }
}

/// Neighbour-wise order is order throughout when `ord` chains.
pub proof fn lemma_ascending_sorted(s: Seq<Seq<char>>, ord: spec_fn(Seq<char>, Seq<char>) -> Ordering)
    requires
        ascending_by(s, ord),
        transitive(ord),
    ensures
        sorted_by_order(s, ord),
{
    assert forall|i: int, j: int| 0 <= i < j < s.len() implies #[trigger] ord(s[i], s[j])
        != Ordering::Greater by {
        lemma_ascending_chain(s, ord, i, j);
    }
}

/// One instance of `transitive`.
proof fn lemma_use_transitive(
    ord: spec_fn(Seq<char>, Seq<char>) -> Ordering,
    a: Seq<char>,
    b: Seq<char>,
    c: Seq<char>,
)
    requires
        transitive(ord),
        ord(a, b) != Ordering::Greater,
        ord(b, c) != Ordering::Greater,
    ensures
        ord(a, c) != Ordering::Greater,
{
    reveal(transitive);
}

proof fn lemma_ascending_chain(
    s: Seq<Seq<char>>,
    ord: spec_fn(Seq<char>, Seq<char>) -> Ordering,
    i: int,
    j: int,
)
    requires
        ascending_by(s, ord),
        transitive(ord),
        0 <= i < j < s.len(),
    ensures
        ord(s[i], s[j]) != Ordering::Greater,
    decreases j - i,
{
    if i + 1 < j {
        lemma_ascending_chain(s, ord, i, j - 1);
        assert(in_order_at(s, j - 1, ord));
        lemma_use_transitive(ord, s[i], s[j - 1], s[j]);
    } else {
        assert(in_order_at(s, i, ord));
    }
}

/// Placing `x` at `p`, after an element not ordered after it and before one
/// ordered after it, keeps a sequence ascending.
pub proof fn lemma_insert_ascending_by(
    s: Seq<Seq<char>>,
    p: int,
    x: Seq<char>,
    ord: spec_fn(Seq<char>, Seq<char>) -> Ordering,
)
    requires
        ascending_by(s, ord),
        antisymmetric(ord),
        0 <= p <= s.len(),
        p > 0 ==> ord(x, s[p - 1]) != Ordering::Less,
        p < s.len() ==> ord(x, s[p]) == Ordering::Less,
    ensures
        ascending_by(s.insert(p, x), ord),
{
    let t = s.insert(p, x);
    if p > 0 {
        reveal(antisymmetric);
        assert(ord(s[p - 1], x) == flip(ord(x, s[p - 1])));
    }
    assert forall|k: int| 0 <= k < t.len() - 1 implies #[trigger] in_order_at(t, k, ord) by {
        if k < p - 1 {
            assert(t[k] == s[k] && t[k + 1] == s[k + 1]);
            assert(in_order_at(s, k, ord));
        } else if k == p - 1 {
            assert(t[k] == s[k] && t[k + 1] == x);
        } else if k == p {
            assert(t[k] == x && t[k + 1] == s[k]);
        } else {
            assert(t[k] == s[k - 1] && t[k + 1] == s[k]);
            assert(in_order_at(s, k - 1, ord));
        }
    }
}

/// Viewing commutes with inserting.
proof fn lemma_views_insert(s: Seq<String>, p: int, x: String)
    requires
        0 <= p <= s.len(),
    ensures
        views(s.insert(p, x)) == views(s).insert(p, x@),
{
    assert(views(s.insert(p, x)) =~= views(s).insert(p, x@));
}

/// The empty sequence has the empty multiset of views.
proof fn lemma_views_empty(s: Seq<String>)
    requires
        s.len() == 0,
    ensures
        views(s).to_multiset() == Multiset::<Seq<char>>::empty(),
{
    broadcast use vstd::seq_lib::group_to_multiset_ensures;
    broadcast use vstd::multiset::group_multiset_axioms;

    assert(views(s) =~= Seq::<Seq<char>>::empty());
    assert(views(s).to_multiset() =~= Multiset::empty());
}

/// One step of the sort keeps the multiset of all strings.
proof fn lemma_sort_step(res: Seq<String>, before: Seq<String>, p: int, orig: Seq<Seq<char>>)
    requires
        before.len() > 0,
        0 <= p <= res.len(),
        views(res).to_multiset().add(views(before).to_multiset()) == orig.to_multiset(),
    ensures
        views(res.insert(p, before[0])).to_multiset().add(views(before.drop_first()).to_multiset())
            == orig.to_multiset(),
{
    broadcast use vstd::seq_lib::group_to_multiset_ensures;
    broadcast use vstd::multiset::group_multiset_axioms;

    let x = before[0];
    lemma_views_insert(res, p, x);
    assert(views(before) =~= views(before.drop_first()).insert(0, x@));
    let a = views(res).to_multiset();
    let b = views(before.drop_first()).to_multiset();
    assert(a.insert(x@).add(b) =~= a.add(b.insert(x@)));
}

/// Sorts strings by `ord`, stably: each string is placed after every string
/// not ordered after it. `before(a, b)` tells whether `a` is ordered
/// strictly before `b`.
pub(crate) fn sort_strings<F: Fn(&String, &String) -> bool>(
    v: Vec<String>,
    before: F,
    Ghost(ord): Ghost<spec_fn(Seq<char>, Seq<char>) -> Ordering>,
) -> (res: Vec<String>)
    requires
        forall|a: &String, b: &String| #[trigger] before.requires((a, b)),
        forall|a: &String, b: &String, r: bool|
            #[trigger] before.ensures((a, b), r) ==> r == (ord(a@, b@) == Ordering::Less),
        antisymmetric(ord),
    ensures
        views(res@).to_multiset() == views(v@).to_multiset(),
        ascending_by(views(res@), ord),
{
    let ghost orig = views(v@);
    let mut rest = v;
    let mut res: Vec<String> = Vec::new();
    proof {
        broadcast use vstd::multiset::group_multiset_axioms;

        lemma_views_empty(res@);
        assert(Multiset::<Seq<char>>::empty().add(orig.to_multiset()) =~= orig.to_multiset());
    }
    while rest.len() > 0
        invariant
            forall|a: &String, b: &String| #[trigger] before.requires((a, b)),
            forall|a: &String, b: &String, r: bool|
                #[trigger] before.ensures((a, b), r) ==> r == (ord(a@, b@) == Ordering::Less),
            antisymmetric(ord),
            views(res@).to_multiset().add(views(rest@).to_multiset()) == orig.to_multiset(),
            ascending_by(views(res@), ord),
        decreases rest.len(),
    {
        let ghost prior = rest@;
        let x = rest.remove(0);
        let mut p: usize = res.len();
        while p > 0 && before(&x, &res[p - 1])
            invariant
                forall|a: &String, b: &String| #[trigger] before.requires((a, b)),
                forall|a: &String, b: &String, r: bool|
                    #[trigger] before.ensures((a, b), r) ==> r == (ord(a@, b@) == Ordering::Less),
                p <= res@.len(),
                p < res@.len() ==> ord(x@, res@[int_of(p)]@) == Ordering::Less,
            decreases p,
        {
            p = p - 1;
        }
        let ghost old_res = res@;
        proof {
            assert(rest@ == prior.drop_first());
            lemma_sort_step(old_res, prior, int_of(p), orig);
            lemma_views_insert(old_res, int_of(p), x);
            lemma_insert_ascending_by(views(old_res), int_of(p), x@, ord);
        }
        res.insert(p, x);
    }
    proof {
        broadcast use vstd::multiset::group_multiset_axioms;

        lemma_views_empty(rest@);
        assert(views(res@).to_multiset().add(Multiset::empty()) =~= views(res@).to_multiset());
    }
    res
}

/// Exchanging arguments flips the lexicographic order.
pub proof fn lemma_lex_antisymmetric()
    ensures
        antisymmetric(|a: Seq<char>, b: Seq<char>| lex_order(a, b)),
{
    reveal(antisymmetric);
    assert forall|a: Seq<char>, b: Seq<char>| #[trigger] lex_order(a, b) == flip(lex_order(b, a)) by {
        lemma_lex_flip(b, a);
    }
}

/// The lexicographic order chains.
pub proof fn lemma_lex_transitive_order()
    ensures
        transitive(|a: Seq<char>, b: Seq<char>| lex_order(a, b)),
{
    reveal(transitive);
    assert forall|a: Seq<char>, b: Seq<char>, c: Seq<char>|
        #[trigger] lex_order(a, b) != Ordering::Greater && #[trigger] lex_order(b, c)
            != Ordering::Greater implies lex_order(a, c) != Ordering::Greater by {
        lemma_lex_transitive(a, b, c);
    }
}

/// Whether `a` comes strictly before `b` lexicographically.
fn lex_before(a: &String, b: &String) -> (r: bool)
    ensures
        r == (lex_order(a@, b@) == Ordering::Less),
{
    match compare_chars(&chars_of(a.as_str()), &chars_of(b.as_str())) {
        Ordering::Less => true,
        _ => false,
    }
}

/// Sorts strings lexicographically (the order of `str`).
pub fn sort_lexicographic(v: Vec<String>) -> (res: Vec<String>)
    ensures
        views(res@).to_multiset() == views(v@).to_multiset(),
        sorted_by_order(views(res@), |a: Seq<char>, b: Seq<char>| lex_order(a, b)),
        views(v@).no_duplicates() ==> strictly_sorted(
            views(res@),
            |a: Seq<char>, b: Seq<char>| lex_order(a, b),
        ),
{
    let ghost ord = |a: Seq<char>, b: Seq<char>| lex_order(a, b);
    proof {
        lemma_lex_antisymmetric();
        lemma_lex_transitive_order();
    }
    let ghost input = views(v@);
    let res = sort_strings(v, lex_before, Ghost(ord));
    proof {
        lemma_ascending_sorted(views(res@), ord);
        if input.no_duplicates() {
            assert forall|a: Seq<char>, b: Seq<char>| #[trigger] ord(a, b) == Ordering::Equal
                implies a == b by {
                lemma_lex_equal(a, b);
            }
            lemma_sorted_strict(views(res@), input, ord);
        }
    }
    res
}

} // verus!
