//! The source list: a JSON object `{ "<id>": "<url>", ... }` read from
//! `urls.json`, turned into sources ordered by id.

use vstd::prelude::*;
use std::cmp::Ordering;
use vstd::multiset::Multiset;
use crate::error::Error;
use crate::order::{
    compare_chars, flip, lemma_lex_equal, lemma_lex_flip, lemma_lex_transitive, lex_order,
};
use crate::text::{
    blank, chars_of, int_of, is_blank, parse_unsigned, parse_u64,
};

verus! {

/// One subscription source: `id` names the output file (`{id}.txt`).
#[derive(Debug, Clone, PartialEq, Eq)]
pub struct Source {
    pub id: String,
    pub url: String,
}

/// A source as plain text: `(id, url)`.
pub open spec fn source_view(s: Source) -> (Seq<char>, Seq<char>) {
    (s.id@, s.url@)
}

/// The sources of `s` as plain text.
pub open spec fn sources_view(s: Seq<Source>) -> Seq<(Seq<char>, Seq<char>)> {
    s.map_values(|x: Source| source_view(x))
}

/// The entries of the JSON object `text`, in ascending key order, if `text`
/// is a JSON object whose values are all strings (`serde_json::from_str`
/// into a `BTreeMap<String, String>`).
pub uninterp spec fn json_string_object(text: Seq<char>) -> Option<Seq<(Seq<char>, Seq<char>)>>;

/// Each key comes strictly before the later ones, as the keys of a
/// `BTreeMap<String, String>` come out of it (`String`'s order is that of
/// UTF-8 bytes, which is that of code points).
pub open spec fn keys_ascending(es: Seq<(Seq<char>, Seq<char>)>) -> bool {
    forall|i: int, j: int|
        0 <= i < j < es.len() ==> lex_order(#[trigger] es[i].0, #[trigger] es[j].0) == Ordering::Less
}

/// Parses `text` with `serde_json::from_str` as a `BTreeMap<String, String>`
/// and lists its entries in the map's order: each key once, keys strictly
/// ascending. On failure the error is the parser's message; nothing is
/// claimed of its text.
#[verifier::external_body]
fn parse_string_object(text: &str) -> (res: Result<Vec<(String, String)>, String>)
    ensures
        res is Ok <==> json_string_object(text@) is Some,
        res matches Ok(v) ==> v@.map_values(|p: (String, String)| pair_view(p))
            == json_string_object(text@)->0,
        res matches Ok(v) ==> keys_ascending(v@.map_values(|p: (String, String)| pair_view(p))),
{
    serde_json::from_str::<std::collections::BTreeMap<String, String>>(text)
        .map(|m| m.into_iter().collect())
        .map_err(|e| e.to_string())
}

/// The number an id spells when it parses as a `u64`.
pub open spec fn id_number(id: Seq<char>) -> Option<nat> {
    parse_unsigned(id, 18446744073709551615nat)
}

/// The order of ids: by value when both are `u64` numbers (`"2"` before
/// `"10"`), otherwise lexicographic.
#[verifier::opaque]
pub open spec fn id_order(a: Seq<char>, b: Seq<char>) -> Ordering {
    match (id_number(a), id_number(b)) {
        (Some(x), Some(y)) => if x < y {
            Ordering::Less
        } else if y < x {
            Ordering::Greater
        } else {
            Ordering::Equal
        },
        _ => lex_order(a, b),
    }
}

/// Compares two ids: numerically where both are numbers, otherwise
/// lexicographically.
fn compare_ids(a: &str, b: &str) -> (o: Ordering)
    ensures
        o == id_order(a@, b@),
{
    reveal(id_order);
    let ac = chars_of(a);
    let bc = chars_of(b);
    match (parse_u64(&ac), parse_u64(&bc)) {
        (Some(x), Some(y)) => {
            if x < y {
                Ordering::Less
            } else if y < x {
                Ordering::Greater
            } else {
                Ordering::Equal
            }
        },
        _ => compare_chars(&ac, &bc),
    }
}

/// Whether id `a` is ordered strictly before id `b`.
fn id_before(a: &str, b: &str) -> (r: bool)
    ensures
        r == (id_order(a@, b@) == Ordering::Less),
{
    match compare_ids(a, b) {
        Ordering::Less => true,
        _ => false,
    }
}

/// Exchanging two ids flips their order.
pub proof fn lemma_id_order_flip(a: Seq<char>, b: Seq<char>)
    ensures
        id_order(b, a) == flip(id_order(a, b)),
{
    reveal(id_order);
    lemma_lex_flip(a, b);
}

/// Ids that are not both `u64` numbers are ordered lexicographically, by
/// the order of `str`: `"asia"` before `"us"`, `"10"` before `"9a"`; two
/// numbers are ordered by value.
pub proof fn lemma_id_order_cases(a: Seq<char>, b: Seq<char>)
    ensures
        id_number(a) is None || id_number(b) is None ==> id_order(a, b) == lex_order(a, b),
        id_number(a) is Some && id_number(b) is Some ==> (id_order(a, b) == Ordering::Less
            <==> id_number(a)->0 < id_number(b)->0) && (id_order(a, b) == Ordering::Equal
            <==> id_number(a)->0 == id_number(b)->0),
{
    reveal(id_order);
}

/// In a list whose neighbours are ordered by id, neighbours that are not
/// both numbers come in lexicographic order.
pub proof fn lemma_text_ids_lexicographic(s: Seq<(Seq<char>, Seq<char>)>)
    requires
        ids_ascending(s),
    ensures
        forall|k: int|
            0 <= k < s.len() - 1 && (id_number(s[k].0) is None || id_number(s[k + 1].0) is None)
                ==> lex_order(#[trigger] s[k].0, s[k + 1].0) != Ordering::Greater,
{
    assert forall|k: int|
        0 <= k < s.len() - 1 && (id_number(s[k].0) is None || id_number(s[k + 1].0) is None)
            implies lex_order(#[trigger] s[k].0, s[k + 1].0) != Ordering::Greater by {
        assert(id_order(s[k].0, s[k + 1].0) != Ordering::Greater);
        lemma_id_order_cases(s[k].0, s[k + 1].0);
    }
}

/// Sources ordered by id have neighbours that are not both numbers in
/// lexicographic order of their ids.
proof fn lemma_sources_text_ids(v: Seq<Source>)
    requires
        ids_ascending(sources_view(v)),
    ensures
        forall|k: int|
            0 <= k < v.len() - 1 && (id_number(v[k].id@) is None || id_number(v[k + 1].id@) is None)
                ==> lex_order(#[trigger] v[k].id@, v[k + 1].id@) != Ordering::Greater,
{
    let sv = sources_view(v);
    lemma_text_ids_lexicographic(sv);
    assert forall|k: int|
        0 <= k < v.len() - 1 && (id_number(v[k].id@) is None || id_number(v[k + 1].id@) is None)
            implies lex_order(#[trigger] v[k].id@, v[k + 1].id@) != Ordering::Greater by {
        assert(sv[k] == source_view(v[k]));
        assert(sv[k + 1] == source_view(v[k + 1]));
        assert(lex_order(sv[k].0, sv[k + 1].0) != Ordering::Greater);
    }
}

/// Each id is ordered no later than the next one.
pub open spec fn ids_ascending(s: Seq<(Seq<char>, Seq<char>)>) -> bool {
    forall|k: int| 0 <= k < s.len() - 1 ==> #[trigger] id_order(s[k].0, s[k + 1].0) != Ordering::Greater
}

/// Every id is a number.
pub open spec fn all_ids_numeric(s: Seq<(Seq<char>, Seq<char>)>) -> bool {
    forall|k: int| 0 <= k < s.len() ==> (#[trigger] id_number(s[k].0)) is Some
}

/// Ids ascend by value over the whole sequence, not only between neighbours.
pub open spec fn numbers_ascending(s: Seq<(Seq<char>, Seq<char>)>) -> bool {
    forall|i: int, j: int|
        0 <= i < j < s.len() ==> (#[trigger] id_number(s[i].0))->0 <= (#[trigger] id_number(
            s[j].0,
        ))->0
}

/// Two neighbours whose ids are both numbers are in order of value.
proof fn lemma_neighbours_numeric(s: Seq<(Seq<char>, Seq<char>)>, k: int)
    requires
        ids_ascending(s),
        all_ids_numeric(s),
        0 <= k < s.len() - 1,
    ensures
        id_number(s[k].0)->0 <= id_number(s[k + 1].0)->0,
{
    reveal(id_order);
    assert(id_order(s[k].0, s[k + 1].0) != Ordering::Greater);
    assert(id_number(s[k].0) is Some);
    assert(id_number(s[k + 1].0) is Some);
}

/// The value of the id at `i` is at most that at `j`, for `i <= j`.
proof fn lemma_numeric_chain(s: Seq<(Seq<char>, Seq<char>)>, i: int, j: int)
    requires
        ids_ascending(s),
        all_ids_numeric(s),
        0 <= i <= j < s.len(),
    ensures
        id_number(s[i].0)->0 <= id_number(s[j].0)->0,
    decreases j - i,
{
    if i < j {
        lemma_numeric_chain(s, i, j - 1);
        lemma_neighbours_numeric(s, j - 1);
    }
}

/// Where every id is a number, neighbour-wise order is order by value
/// throughout.
pub proof fn lemma_numeric_ids_ascend(s: Seq<(Seq<char>, Seq<char>)>)
    requires
        ids_ascending(s),
        all_ids_numeric(s),
    ensures
        numbers_ascending(s),
{
    assert forall|i: int, j: int| 0 <= i < j < s.len() implies (#[trigger] id_number(
        s[i].0,
    ))->0 <= (#[trigger] id_number(s[j].0))->0 by {
        lemma_numeric_chain(s, i, j);
    }
}

/// The entries whose id and url both hold something besides whitespace.
pub open spec fn kept_entries(es: Seq<(Seq<char>, Seq<char>)>) -> Seq<(Seq<char>, Seq<char>)> {
    es.filter(|p: (Seq<char>, Seq<char>)| !is_blank(p.0) && !is_blank(p.1))
}

/// `e` reports that the list at `path` is not valid JSON of the expected shape.
pub open spec fn is_parse_error(e: Error, path: Seq<char>) -> bool {
    match e {
        Error::Parse { path: p, .. } => p@ == path,
        _ => false,
    }
}

/// `e` reports that the list at `path` is empty.
pub open spec fn is_empty_sources_error(e: Error, path: Seq<char>) -> bool {
    match e {
        Error::EmptySources { path: p } => p@ == path,
        _ => false,
    }
}

/// Placing `x` at `p`, after every entry not ordered after it and before
/// one ordered after it, keeps the ids ascending.
proof fn lemma_insert_ascending(s: Seq<(Seq<char>, Seq<char>)>, p: int, x: (Seq<char>, Seq<char>))
    requires
        ids_ascending(s),
        0 <= p <= s.len(),
        p > 0 ==> id_order(x.0, s[p - 1].0) != Ordering::Less,
        p < s.len() ==> id_order(x.0, s[p].0) == Ordering::Less,
    ensures
        ids_ascending(s.insert(p, x)),
{
    let t = s.insert(p, x);
    if p > 0 {
        lemma_id_order_flip(x.0, s[p - 1].0);
    }
    assert forall|k: int| 0 <= k < t.len() - 1 implies #[trigger] id_order(t[k].0, t[k + 1].0)
        != Ordering::Greater by {
        if k < p - 1 {
            assert(t[k] == s[k] && t[k + 1] == s[k + 1]);
            assert(id_order(s[k].0, s[k + 1].0) != Ordering::Greater);
        } else if k == p - 1 {
            assert(t[k] == s[k] && t[k + 1] == x);
        } else if k == p {
            assert(t[k] == x && t[k + 1] == s[k]);
        } else {
            let j = k - 1;
            assert(t[k] == s[j] && t[k + 1] == s[j + 1]);
            assert(id_order(s[j].0, s[j + 1].0) != Ordering::Greater);
        }
    }
}

/// Viewing commutes with inserting.
proof fn lemma_view_insert(s: Seq<Source>, p: int, x: Source)
    requires
        0 <= p <= s.len(),
    ensures
        sources_view(s.insert(p, x)) == sources_view(s).insert(p, source_view(x)),
{
    assert(sources_view(s.insert(p, x)) =~= sources_view(s).insert(p, source_view(x)));
}

/// Viewing commutes with taking the first element off.
proof fn lemma_view_split_first(s: Seq<Source>)
    requires
        s.len() > 0,
    ensures
        sources_view(s).to_multiset() == sources_view(s.drop_first()).to_multiset().insert(
            source_view(s[0]),
        ),
{
    broadcast use vstd::seq_lib::group_to_multiset_ensures;

    assert(sources_view(s) =~= sources_view(s.drop_first()).insert(0, source_view(s[0])));
}

/// Where a source with id `id` goes in `res`: after every source whose id
/// is not ordered after `id`, scanning from the end.
fn insertion_point(res: &Vec<Source>, id: &str) -> (p: usize)
    ensures
        p <= res@.len(),
        p > 0 ==> id_order(id@, res@[p - 1].id@) != Ordering::Less,
        p < res@.len() ==> id_order(id@, res@[int_of(p)].id@) == Ordering::Less,
{
    let mut p: usize = res.len();
    while p > 0 && id_before(id, res[p - 1].id.as_str())
        invariant
            p <= res@.len(),
            p < res@.len() ==> id_order(id@, res@[int_of(p)].id@) == Ordering::Less,
        decreases p,
    {
        p = p - 1;
    }
    p
}

/// One step of the sort keeps the multiset of all sources.
proof fn lemma_sort_step(
    res: Seq<Source>,
    before: Seq<Source>,
    p: int,
    orig: Seq<(Seq<char>, Seq<char>)>,
)
    requires
        before.len() > 0,
        0 <= p <= res.len(),
        sources_view(res).to_multiset().add(sources_view(before).to_multiset())
            == orig.to_multiset(),
    ensures
        sources_view(res.insert(p, before[0])).to_multiset().add(
            sources_view(before.drop_first()).to_multiset(),
        ) == orig.to_multiset(),
{
    broadcast use vstd::seq_lib::group_to_multiset_ensures;
    broadcast use vstd::multiset::group_multiset_axioms;

    let x = before[0];
    lemma_view_insert(res, p, x);
    lemma_view_split_first(before);
    let a = sources_view(res).to_multiset();
    let b = sources_view(before.drop_first()).to_multiset();
    assert(a.insert(source_view(x)).add(b) =~= a.add(b.insert(source_view(x))));
}

/// The empty sequence has the empty multiset of views.
proof fn lemma_view_empty(s: Seq<Source>)
    requires
        s.len() == 0,
    ensures
        sources_view(s).to_multiset() == Multiset::<(Seq<char>, Seq<char>)>::empty(),
{
    broadcast use vstd::seq_lib::group_to_multiset_ensures;
    broadcast use vstd::multiset::group_multiset_axioms;

    assert(sources_view(s) =~= Seq::<(Seq<char>, Seq<char>)>::empty());
    assert(sources_view(s).to_multiset() =~= Multiset::empty());
}

/// All ids are different.
pub open spec fn ids_distinct(s: Seq<(Seq<char>, Seq<char>)>) -> bool {
    forall|i: int, j: int| 0 <= i < j < s.len() ==> #[trigger] s[i].0 != #[trigger] s[j].0
}

/// Neighbours whose ids are ordered alike (such as `"2"` and `"02"`) come in
/// lexicographic order of their ids.
pub open spec fn ties_by_text(s: Seq<(Seq<char>, Seq<char>)>) -> bool {
    forall|k: int|
        0 <= k < s.len() - 1 && #[trigger] id_order(s[k].0, s[k + 1].0) == Ordering::Equal
            ==> lex_order(s[k].0, s[k + 1].0) == Ordering::Less
}

/// Every id of `s` comes lexicographically before `key`.
pub open spec fn ids_below(s: Seq<(Seq<char>, Seq<char>)>, key: Seq<char>) -> bool {
    forall|i: int| 0 <= i < s.len() ==> lex_order(#[trigger] s[i].0, key) == Ordering::Less
}

/// Inserting an entry whose id comes lexicographically after every id
/// placed keeps ids distinct.
proof fn lemma_insert_distinct(s: Seq<(Seq<char>, Seq<char>)>, p: int, x: (Seq<char>, Seq<char>))
    requires
        ids_distinct(s),
        ids_below(s, x.0),
        0 <= p <= s.len(),
    ensures
        ids_distinct(s.insert(p, x)),
{
    let t = s.insert(p, x);
    assert forall|i: int| 0 <= i < s.len() implies s[i].0 != x.0 by {
        assert(lex_order(s[i].0, x.0) == Ordering::Less);
        lemma_lex_equal(s[i].0, x.0);
    }
    assert forall|i: int, j: int| 0 <= i < j < t.len() implies #[trigger] t[i].0 != #[trigger] t[j].0 by {
        if j < p {
            assert(t[i] == s[i] && t[j] == s[j]);
        } else if j == p {
            assert(t[i] == s[i] && t[j] == x);
        } else if i < p {
            assert(t[i] == s[i] && t[j] == s[j - 1]);
        } else if i == p {
            assert(t[i] == x && t[j] == s[j - 1]);
        } else {
            assert(t[i] == s[i - 1] && t[j] == s[j - 1]);
        }
    }
}

/// Inserting an entry, where the ids are ordered, whose id comes
/// lexicographically after every id placed keeps ties in text order.
proof fn lemma_insert_ties(s: Seq<(Seq<char>, Seq<char>)>, p: int, x: (Seq<char>, Seq<char>))
    requires
        ties_by_text(s),
        ids_below(s, x.0),
        0 <= p <= s.len(),
        p < s.len() ==> id_order(x.0, s[p].0) == Ordering::Less,
    ensures
        ties_by_text(s.insert(p, x)),
{
    let t = s.insert(p, x);
    assert forall|k: int|
        0 <= k < t.len() - 1 && #[trigger] id_order(t[k].0, t[k + 1].0) == Ordering::Equal
            implies lex_order(t[k].0, t[k + 1].0) == Ordering::Less by {
        if k < p - 1 {
            assert(t[k] == s[k] && t[k + 1] == s[k + 1]);
            assert(id_order(s[k].0, s[k + 1].0) == Ordering::Equal);
            assert(lex_order(s[k].0, s[k + 1].0) == Ordering::Less);
        } else if k == p - 1 {
            assert(t[k] == s[k] && t[k + 1] == x);
            assert(lex_order(s[k].0, x.0) == Ordering::Less);
        } else if k == p {
            assert(t[k] == x && t[k + 1] == s[k]);
            assert(id_order(x.0, s[p].0) == Ordering::Less);
        } else {
            assert(t[k] == s[k - 1] && t[k + 1] == s[k]);
            let j = k - 1;
            assert(s[j + 1] == s[k]);
            assert(id_order(s[j].0, s[j + 1].0) == Ordering::Equal);
        }
    }
}

/// After inserting `x`, every placed id still comes before `y` when `x`'s
/// does.
proof fn lemma_below_step(
    s: Seq<(Seq<char>, Seq<char>)>,
    p: int,
    x: (Seq<char>, Seq<char>),
    y: Seq<char>,
)
    requires
        ids_below(s, x.0),
        lex_order(x.0, y) == Ordering::Less,
        0 <= p <= s.len(),
    ensures
        ids_below(s.insert(p, x), y),
{
    let t = s.insert(p, x);
    assert forall|i: int| 0 <= i < t.len() implies lex_order(#[trigger] t[i].0, y) == Ordering::Less by {
        if i < p {
            assert(t[i] == s[i]);
            lemma_lex_transitive(s[i].0, x.0, y);
        } else if i > p {
            assert(t[i] == s[i - 1]);
            lemma_lex_transitive(s[i - 1].0, x.0, y);
        } else {
            assert(t[i] == x);
        }
    }
}

/// One step of the sort on entries whose keys ascend.
proof fn lemma_tie_step(s: Seq<(Seq<char>, Seq<char>)>, p: int, rest: Seq<(Seq<char>, Seq<char>)>)
    requires
        rest.len() > 0,
        keys_ascending(rest),
        ids_distinct(s),
        ties_by_text(s),
        ids_below(s, rest[0].0),
        0 <= p <= s.len(),
        p < s.len() ==> id_order(rest[0].0, s[p].0) == Ordering::Less,
    ensures
        keys_ascending(rest.drop_first()),
        ids_distinct(s.insert(p, rest[0])),
        ties_by_text(s.insert(p, rest[0])),
        rest.len() > 1 ==> ids_below(s.insert(p, rest[0]), rest[1].0),
{
    let w = rest.drop_first();
    assert forall|i: int, j: int| 0 <= i < j < w.len() implies lex_order(
        #[trigger] w[i].0,
        #[trigger] w[j].0,
    ) == Ordering::Less by {
        assert(w[i] == rest[i + 1] && w[j] == rest[j + 1]);
    }
    lemma_insert_distinct(s, p, rest[0]);
    lemma_insert_ties(s, p, rest[0]);
    if rest.len() > 1 {
        assert(lex_order(rest[0].0, rest[1].0) == Ordering::Less);
        lemma_below_step(s, p, rest[0], rest[1].0);
    }
}

/// Sorts sources by id (stable insertion sort, each step placing a source
/// after every source whose id is not ordered after its own).
fn sort_sources(v: Vec<Source>) -> (res: Vec<Source>)
    ensures
        sources_view(res@).to_multiset() == sources_view(v@).to_multiset(),
        ids_ascending(sources_view(res@)),
        keys_ascending(sources_view(v@)) ==> ids_distinct(sources_view(res@)) && ties_by_text(
            sources_view(res@),
        ),
{
    let ghost orig = sources_view(v@);
    let mut rest = v;
    let mut res: Vec<Source> = Vec::new();
    proof {
        broadcast use vstd::multiset::group_multiset_axioms;

        lemma_view_empty(res@);
        assert(Multiset::<(Seq<char>, Seq<char>)>::empty().add(orig.to_multiset())
            =~= orig.to_multiset());
    }
    assert(sources_view(rest@) == orig);
    while rest.len() > 0
        invariant
            sources_view(res@).to_multiset().add(sources_view(rest@).to_multiset())
                == orig.to_multiset(),
            ids_ascending(sources_view(res@)),
            keys_ascending(orig) ==> keys_ascending(sources_view(rest@)) && ids_distinct(
                sources_view(res@),
            ) && ties_by_text(sources_view(res@)) && (rest@.len() > 0 ==> ids_below(
                sources_view(res@),
                rest@[0].id@,
            )),
        decreases rest.len(),
    {
        let ghost before = rest@;
        let x = rest.remove(0);
        let p = insertion_point(&res, x.id.as_str());
        let ghost old_res = res@;
        proof {
            lemma_sort_step(old_res, before, int_of(p), orig);
            lemma_view_insert(old_res, int_of(p), x);
            lemma_insert_ascending(sources_view(old_res), int_of(p), source_view(x));
            if keys_ascending(orig) {
                let rv = sources_view(before);
                assert(rv.drop_first() =~= sources_view(before.drop_first()));
                assert(rv[0] == source_view(x));
                lemma_tie_step(sources_view(old_res), int_of(p), rv);
                if before.len() > 1 {
                    assert(rv[1].0 == before[1].id@);
                    assert(rest@[0] == before[1]);
                }
            }
        }
        res.insert(p, x);
    }
    proof {
        broadcast use vstd::multiset::group_multiset_axioms;

        lemma_view_empty(rest@);
        assert(sources_view(res@).to_multiset().add(Multiset::empty()) =~= sources_view(
            res@,
        ).to_multiset());
    }
    res
}

/// An entry as plain text.
pub open spec fn pair_view(p: (String, String)) -> (Seq<char>, Seq<char>) {
    (p.0@, p.1@)
}

/// Whether an entry is kept: neither its id nor its url is blank.
pub open spec fn keeps(p: (Seq<char>, Seq<char>)) -> bool {
    !is_blank(p.0) && !is_blank(p.1)
}

/// One more entry considered by the filter.
proof fn lemma_kept_step(es: Seq<(Seq<char>, Seq<char>)>, i: int)
    requires
        0 <= i < es.len(),
    ensures
        kept_entries(es.take(i + 1)) == if keeps(es[i]) {
            kept_entries(es.take(i)).push(es[i])
        } else {
            kept_entries(es.take(i))
        },
{
    reveal_with_fuel(Seq::filter, 1);
    assert(es.take(i + 1).drop_last() == es.take(i));
    assert(es.take(i + 1).last() == es[i]);
    let pred = |p: (Seq<char>, Seq<char>)| !is_blank(p.0) && !is_blank(p.1);
    assert(pred(es[i]) == keeps(es[i]));
}

/// The entries as plain text.
pub open spec fn entries_view(es: Seq<(String, String)>) -> Seq<(Seq<char>, Seq<char>)> {
    es.map_values(|p: (String, String)| pair_view(p))
}

/// Keeping or dropping entry `i` keeps the kept keys ascending and below
/// the next key.
proof fn lemma_kept_keys(kept: Seq<(Seq<char>, Seq<char>)>, es: Seq<(Seq<char>, Seq<char>)>, i: int, push: bool)
    requires
        keys_ascending(es),
        0 <= i < es.len(),
        keys_ascending(kept),
        ids_below(kept, es[i].0),
    ensures
        keys_ascending(if push { kept.push(es[i]) } else { kept }),
        i + 1 < es.len() ==> ids_below(if push { kept.push(es[i]) } else { kept }, es[i + 1].0),
{
    let k2 = if push { kept.push(es[i]) } else { kept };
    assert forall|a: int, b: int| 0 <= a < b < k2.len() implies lex_order(
        #[trigger] k2[a].0,
        #[trigger] k2[b].0,
    ) == Ordering::Less by {
        assert(k2[a] == kept[a]);
        if b < kept.len() {
            assert(k2[b] == kept[b]);
        } else {
            assert(k2[b] == es[i]);
        }
    }
    if i + 1 < es.len() {
        assert(lex_order(es[i].0, es[i + 1].0) == Ordering::Less);
        assert forall|a: int| 0 <= a < k2.len() implies lex_order(#[trigger] k2[a].0, es[i + 1].0)
            == Ordering::Less by {
            if a < kept.len() {
                assert(k2[a] == kept[a]);
                lemma_lex_transitive(kept[a].0, es[i].0, es[i + 1].0);
            } else {
                assert(k2[a] == es[i]);
            }
        }
    }
}

/// The entries of `entries` that are kept, as sources, in the same order.
fn keep_nonblank(entries: Vec<(String, String)>) -> (res: Vec<Source>)
    ensures
        sources_view(res@) == kept_entries(entries_view(entries@)),
        keys_ascending(entries_view(entries@)) ==> keys_ascending(sources_view(res@)),
{
    let ghost es = entries_view(entries@);
    let n = entries.len();
    let mut rest = entries;
    let mut kept: Vec<Source> = Vec::new();
    let mut i: usize = 0;
    proof {
        assert(es.take(0) =~= Seq::<(Seq<char>, Seq<char>)>::empty());
        reveal_with_fuel(Seq::filter, 1);
        assert(sources_view(kept@) =~= kept_entries(es.take(0)));
        assert(rest@.map_values(|p: (String, String)| pair_view(p)) =~= es.skip(0));
    }
    while rest.len() > 0
        invariant
            es.len() == n,
            i + rest@.len() == n,
            rest@.map_values(|p: (String, String)| pair_view(p)) == es.skip(int_of(i)),
            sources_view(kept@) == kept_entries(es.take(int_of(i))),
            keys_ascending(es) ==> keys_ascending(sources_view(kept@)) && (i < n ==> ids_below(
                sources_view(kept@),
                es[int_of(i)].0,
            )),
        decreases rest.len(),
    {
        let ghost before = rest@;
        let (id, url) = rest.remove(0);
        proof {
            assert(es.skip(int_of(i))[0] == es[int_of(i)]);
            assert(before.map_values(|p: (String, String)| pair_view(p))[0] == pair_view(before[0]));
            assert(rest@ == before.drop_first());
            let rv = rest@.map_values(|p: (String, String)| pair_view(p));
            let bv = before.map_values(|p: (String, String)| pair_view(p));
            assert forall|k: int| 0 <= k < rv.len() implies rv[k] == es.skip(int_of(i) + 1)[k] by {
                assert(rv[k] == pair_view(before[k + 1]));
                assert(bv[k + 1] == pair_view(before[k + 1]));
                assert(bv[k + 1] == es.skip(int_of(i))[k + 1]);
            }
            assert(rv =~= es.skip(int_of(i) + 1));
            lemma_kept_step(es, int_of(i));
        }
        let ghost e = es[int_of(i)];
        assert(e == (id@, url@));
        let ghost old_kept = kept@;
        let keep = !blank(&chars_of(id.as_str())) && !blank(&chars_of(url.as_str()));
        if keep {
            kept.push(Source { id, url });
            assert(sources_view(kept@) =~= sources_view(old_kept).push(e));
        }
        proof {
            if keys_ascending(es) {
                lemma_kept_keys(sources_view(old_kept), es, int_of(i), keep);
            }
        }
        i = i + 1;
    }
    assert(es.take(int_of(i)) =~= es);
    kept
}

/// Builds the ordered source list from the entries `(id, url)` of the
/// list at `path`. No entries at all is an error. Entries whose id or url
/// is blank are dropped; the rest are ordered by id (numerically where ids
/// are numbers, so `"2"` comes before `"10"`). Where the entries come in
/// strictly ascending key order, as a JSON object's entries do, the ids stay
/// distinct and ids of equal value (`"02"`, `"2"`) keep that order.
pub fn sources_from_entries(path: &str, entries: Vec<(String, String)>) -> (res: Result<
    Vec<Source>,
    Error,
>)
    ensures
        entries@.len() == 0 ==> (res matches Err(e) && is_empty_sources_error(e, path@)),
        entries@.len() > 0 ==> (res matches Ok(v) && sources_view(v@).to_multiset()
            == kept_entries(entries_view(entries@)).to_multiset() && ids_ascending(
            sources_view(v@),
        ) && (all_ids_numeric(sources_view(v@)) ==> numbers_ascending(sources_view(v@))) && (
        keys_ascending(entries_view(entries@)) ==> ids_distinct(sources_view(v@)) && ties_by_text(
            sources_view(v@),
        )) && (forall|k: int|
            0 <= k < v@.len() - 1 && (id_number(v@[k].id@) is None || id_number(v@[k + 1].id@) is None)
                ==> lex_order(#[trigger] v@[k].id@, v@[k + 1].id@) != Ordering::Greater)),
{
    if entries.len() == 0 {
        Err(Error::EmptySources { path: path.to_owned() })
    } else {
        let kept = keep_nonblank(entries);
        let sorted = sort_sources(kept);
        proof {
            let sv = sources_view(sorted@);
            if all_ids_numeric(sv) {
                lemma_numeric_ids_ascend(sv);
            }
            lemma_sources_text_ids(sorted@);
        }
        Ok(sorted)
    }
}

/// Builds the ordered source list from the text `raw` of the list file at
/// `path`: a JSON object of id/url strings. Text that is not such an object
/// is a parse error, an empty object an error of its own; otherwise the
/// entries go through `sources_from_entries`.
pub fn parse_sources(path: &str, raw: &str) -> (res: Result<Vec<Source>, Error>)
    ensures
        json_string_object(raw@) is None ==> (res matches Err(e) && is_parse_error(e, path@)),
        json_string_object(raw@) is Some && json_string_object(raw@)->0.len() == 0 ==> (res matches Err(e)
            && is_empty_sources_error(e, path@)),
        json_string_object(raw@) is Some && json_string_object(raw@)->0.len() > 0 ==> (res matches Ok(v)
            && sources_view(v@).to_multiset() == kept_entries(json_string_object(raw@)->0).to_multiset()
            && ids_ascending(sources_view(v@))
            && (all_ids_numeric(sources_view(v@)) ==> numbers_ascending(sources_view(v@)))
            && ids_distinct(sources_view(v@)) && ties_by_text(sources_view(v@))
            && (forall|k: int|
            0 <= k < v@.len() - 1 && (id_number(v@[k].id@) is None || id_number(v@[k + 1].id@) is None)
                ==> lex_order(#[trigger] v@[k].id@, v@[k + 1].id@) != Ordering::Greater)),
{
    match parse_string_object(raw) {
        Err(message) => Err(Error::Parse { path: path.to_owned(), message }),
        Ok(entries) => {
            assert(entries_view(entries@) == json_string_object(raw@)->0);
            sources_from_entries(path, entries)
        },
    }
}

} // verus!
