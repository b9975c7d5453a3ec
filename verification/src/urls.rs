//! The link index `output/urls.txt`: one direct link per output `*.txt`
//! file (except `urls.txt` itself), in natural (numeric-aware) order, so
//! that `2-2.txt` comes before `2-10.txt` and `2-*.txt` before `10-*.txt`.

use vstd::prelude::*;
use std::cmp::Ordering;
use crate::order::{
    antisymmetric, flip, lemma_ascending_sorted, lemma_lex_equal, lemma_lex_flip,
    lemma_lex_transitive, lex_order, compare_chars, sort_strings, sorted_by_order, strictly_sorted,
    transitive, lemma_sorted_strict,
};
use crate::saver::single_name;
use crate::splitter::{lemma_txt_name, part_name, split_extension, stem_and_extension};
use crate::text::decimal;
use crate::text::{
    all_digits, chars_of, digit_value, digits_value, int_of, is_digit, lemma_digits_value_below,
    lemma_digits_value_front, lemma_pow10_mono, lemma_shorter_digits_smaller, pow10, push_chars,
    push_char, string_of, views,
};

verus! {

/// The base of direct links (`raw.githubusercontent.com`) to files in `output/`.
pub const RAW_BASE: &'static str = "https://raw.githubusercontent.com/woolster2020/vc/refs/heads/main/output";

/// The name of the index file inside the output directory.
pub const URLS_FILE_NAME: &'static str = "urls.txt";

/// The direct link of a file: `{RAW_BASE}/{file_name}`.
pub open spec fn raw_url(file_name: Seq<char>) -> Seq<char> {
    RAW_BASE@ + seq!['/'] + file_name
}

/// The direct link for a file name (without directory), e.g. `1-3.txt`.
pub fn raw_url_for(file_name: &str) -> (url: String)
    ensures
        url@ == raw_url(file_name@),
{
    let mut url = string_of(&chars_of(RAW_BASE));
    push_char(&mut url, '/');
    push_chars(&mut url, &chars_of(file_name));
    url
}

/// A run of a name: a run of digits or a run of other characters.
pub enum ChunkView {
    Num(Seq<char>),
    Str(Seq<char>),
}

/// A run of a name, as compared by the natural order.
enum Chunk {
    /// A run of digits: its digits without leading zeros, and the run itself.
    Num(String, String),
    /// A run of other characters.
    Str(String),
}

/// A chunk as plain values.
spec fn chunk_view(c: Chunk) -> ChunkView {
    match c {
        Chunk::Num(_, r) => ChunkView::Num(r@),
        Chunk::Str(s) => ChunkView::Str(s@),
    }
}

/// A run of digits holds its own digits without their leading zeros.
spec fn chunk_wf(c: Chunk) -> bool {
    match c {
        Chunk::Num(d, r) => d@ == strip_zeros(r@) && all_digits(r@),
        Chunk::Str(_) => true,
    }
}

/// The length of the longest prefix of `s` whose characters are all digits
/// (`d`) or all non-digits (`!d`).
pub open spec fn run_len(s: Seq<char>, d: bool) -> nat
    decreases s.len(),
{
    if s.len() > 0 && is_digit(s[0]) == d {
        1 + run_len(s.drop_first(), d)
    } else {
        0
    }
}

/// `s` without its leading `'0'`s.
pub open spec fn strip_zeros(s: Seq<char>) -> Seq<char>
    decreases s.len(),
{
    if s.len() > 0 && s[0] == '0' {
        strip_zeros(s.drop_first())
    } else {
        s
    }
}

/// The chunk of a run.
pub open spec fn make_chunk(run: Seq<char>, d: bool) -> ChunkView {
    if d {
        ChunkView::Num(run)
    } else {
        ChunkView::Str(run)
    }
}

/// A name cut into maximal runs of digits and of other characters.
pub open spec fn chunks(s: Seq<char>) -> Seq<ChunkView>
    decreases s.len(),
{
    if s.len() == 0 {
        seq![]
    } else {
        let d = is_digit(s[0]);
        proof {
            lemma_run_len(s, d);
        }
        seq![make_chunk(s.take(run_len(s, d) as int), d)] + chunks(s.skip(run_len(s, d) as int))
    }
}

/// The text of a chunk.
pub open spec fn chunk_text(c: ChunkView) -> Seq<char> {
    match c {
        ChunkView::Num(r) => r,
        ChunkView::Str(r) => r,
    }
}

/// The texts of chunks, one after the other.
pub open spec fn chunks_text(cs: Seq<ChunkView>) -> Seq<char>
    decreases cs.len(),
{
    if cs.len() == 0 {
        seq![]
    } else {
        chunk_text(cs[0]) + chunks_text(cs.drop_first())
    }
}

/// A run of a non-empty sequence starting with its own kind is non-empty,
/// and each of its characters is of that kind.
pub proof fn lemma_run_len(s: Seq<char>, d: bool)
    ensures
        run_len(s, d) <= s.len(),
        s.len() > 0 && is_digit(s[0]) == d ==> run_len(s, d) >= 1,
        forall|i: int| 0 <= i < run_len(s, d) ==> is_digit(#[trigger] s[i]) == d,
    decreases s.len(),
{
    if s.len() > 0 && is_digit(s[0]) == d {
        lemma_run_len(s.drop_first(), d);
        assert forall|i: int| 0 <= i < run_len(s, d) implies is_digit(#[trigger] s[i]) == d by {
            if i > 0 {
                assert(s[i] == s.drop_first()[i - 1]);
            }
        }
    }
}

/// The chunks of a name spell the name.
pub proof fn lemma_chunks_text(s: Seq<char>)
    ensures
        chunks_text(chunks(s)) == s,
    decreases s.len(),
{
    if s.len() > 0 {
        let d = is_digit(s[0]);
        lemma_run_len(s, d);
        let k = run_len(s, d) as int;
        lemma_chunks_text(s.skip(k));
        let cs = chunks(s);
        assert(cs[0] == make_chunk(s.take(k), d));
        assert(cs.drop_first() == chunks(s.skip(k)));
        assert(s.take(k) + s.skip(k) == s);
    }
}

/// Leading zeros do not change the number that digits spell; what is left
/// is digits that do not start with `'0'`.
pub proof fn lemma_strip_zeros(s: Seq<char>)
    requires
        all_digits(s),
    ensures
        all_digits(strip_zeros(s)),
        digits_value(strip_zeros(s)) == digits_value(s),
        strip_zeros(s).len() > 0 ==> strip_zeros(s)[0] != '0',
    decreases s.len(),
{
    if s.len() > 0 && s[0] == '0' {
        assert(all_digits(s.drop_first())) by {
            assert forall|i: int| 0 <= i < s.drop_first().len() implies is_digit(
                #[trigger] s.drop_first()[i],
            ) by {
                assert(s.drop_first()[i] == s[i + 1]);
            }
        }
        lemma_strip_zeros(s.drop_first());
        lemma_digits_value_front(s);
        assert(digit_value(s[0]) == 0);
        let d = digit_value(s[0]);
        let p = pow10(s.len() - 1);
        assert(d * p == 0) by (nonlinear_arith)
            requires
                d == 0,
        ;
        assert(digits_value(s) == digits_value(s.drop_first()));
        assert(strip_zeros(s) == strip_zeros(s.drop_first()));
    }
}

/// For digits of equal length, lexicographic order is numeric order.
proof fn lemma_digits_lex(a: Seq<char>, b: Seq<char>)
    requires
        all_digits(a),
        all_digits(b),
        a.len() == b.len(),
        lex_order(a, b) == Ordering::Less,
    ensures
        digits_value(a) < digits_value(b),
    decreases a.len(),
{
    assert(a.len() > 0);
    lemma_digits_value_front(a);
    lemma_digits_value_front(b);
    let ra = a.drop_first();
    let rb = b.drop_first();
    assert(all_digits(ra)) by {
        assert forall|i: int| 0 <= i < ra.len() implies is_digit(#[trigger] ra[i]) by {
            assert(ra[i] == a[i + 1]);
        }
    }
    assert(all_digits(rb)) by {
        assert forall|i: int| 0 <= i < rb.len() implies is_digit(#[trigger] rb[i]) by {
            assert(rb[i] == b[i + 1]);
        }
    }
    let p = pow10(a.len() - 1);
    lemma_pow10_mono(0, a.len() - 1);
    if a[0] < b[0] {
        lemma_digits_value_below(ra);
        let da = digit_value(a[0]);
        let db = digit_value(b[0]);
        assert(is_digit(a[0]) && is_digit(b[0]));
        assert(da < db);
        let va = digits_value(ra);
        let vb = digits_value(rb);
        assert(da * p + va < db * p + vb) by (nonlinear_arith)
            requires
                da < db,
                0 <= va < p,
                0 <= vb,
        ;
    } else {
        assert(a[0] == b[0]);
        lemma_digits_lex(ra, rb);
    }
}

/// Two runs of digits compare by the numbers they spell as their digits
/// without leading zeros compare by length, then lexicographically.
proof fn lemma_number_compare(a: Seq<char>, b: Seq<char>)
    requires
        all_digits(a),
        all_digits(b),
    ensures
        strip_zeros(a).len() < strip_zeros(b).len() ==> digits_value(a) < digits_value(b),
        strip_zeros(a).len() == strip_zeros(b).len() ==> (
            (lex_order(strip_zeros(a), strip_zeros(b)) == Ordering::Less ==> digits_value(a)
                < digits_value(b)) && (lex_order(strip_zeros(a), strip_zeros(b))
                == Ordering::Greater ==> digits_value(b) < digits_value(a)) && (lex_order(
                strip_zeros(a),
                strip_zeros(b),
            ) == Ordering::Equal ==> digits_value(a) == digits_value(b))),
{
    let x = strip_zeros(a);
    let y = strip_zeros(b);
    lemma_strip_zeros(a);
    lemma_strip_zeros(b);
    if x.len() < y.len() {
        lemma_shorter_digits_smaller(x, y);
    }
    if x.len() == y.len() {
        lemma_lex_flip(x, y);
        lemma_lex_equal(x, y);
        if lex_order(x, y) == Ordering::Less {
            lemma_digits_lex(x, y);
        }
        if lex_order(x, y) == Ordering::Greater {
            lemma_digits_lex(y, x);
        }
    }
}

/// The end of the run of kind `d` that starts at `i`.
fn run_end(s: &Vec<char>, i: usize, d: bool) -> (e: usize)
    requires
        i <= s@.len(),
    ensures
        i <= e <= s@.len(),
        e - i == run_len(s@.skip(i as int), d),
{
    let n = s.len();
    let mut j: usize = i;
    while j < n && (('0' <= s[j] && s[j] <= '9') == d)
        invariant
            n == s@.len(),
            i <= j <= n,
            run_len(s@.skip(i as int), d) == (j - i) + run_len(s@.skip(j as int), d),
        decreases n - j,
    {
        assert(s@.skip(j as int).drop_first() == s@.skip(j + 1));
        j = j + 1;
    }
    j
}

/// A run of digits without its leading zeros.
fn strip_leading_zeros(run: &Vec<char>) -> (res: Vec<char>)
    ensures
        res@ == strip_zeros(run@),
{
    let n = run.len();
    let mut i: usize = 0;
    assert(run@.skip(0) == run@);
    while i < n && run[i] == '0'
        invariant
            n == run@.len(),
            i <= n,
            strip_zeros(run@) == strip_zeros(run@.skip(i as int)),
        decreases n - i,
    {
        assert(run@.skip(i as int).drop_first() == run@.skip(i + 1));
        i = i + 1;
    }
    let mut rest: Vec<char> = Vec::new();
    let mut k: usize = i;
    while k < n
        invariant
            n == run@.len(),
            i <= k <= n,
            rest@ == run@.subrange(i as int, k as int),
        decreases n - k,
    {
        rest.push(run[k]);
        assert(run@.subrange(i as int, k + 1) == run@.subrange(i as int, k as int).push(run@[k as int]));
        k = k + 1;
    }
    assert(strip_zeros(run@.skip(i as int)) == run@.skip(i as int));
    assert(rest@ == run@.skip(i as int));
    rest
}

/// The chunks of `s`, stored last first, so that popping them gives them in
/// order.
fn split_chunks(s: &str) -> (out: Vec<Chunk>)
    ensures
        out@.map_values(|c: Chunk| chunk_view(c)) == chunks(s@).reverse(),
        forall|k: int| 0 <= k < out@.len() ==> chunk_wf(#[trigger] out@[k]),
{
    let v = chars_of(s);
    let n = v.len();
    let mut out: Vec<Chunk> = Vec::new();
    let mut i: usize = 0;
    assert(v@.skip(0) == v@);
    assert(out@.map_values(|c: Chunk| chunk_view(c)).reverse() =~= Seq::<ChunkView>::empty());
    while i < n
        invariant
            n == v@.len(),
            v@ == s@,
            i <= n,
            chunks(s@) == out@.map_values(|c: Chunk| chunk_view(c)).reverse() + chunks(
                v@.skip(i as int),
            ),
            forall|k: int| 0 <= k < out@.len() ==> chunk_wf(#[trigger] out@[k]),
        decreases n - i,
    {
        let d = '0' <= v[i] && v[i] <= '9';
        assert(v@.skip(i as int)[0] == v@[i as int]);
        let e = run_end(&v, i, d);
        proof {
            lemma_run_len(v@.skip(i as int), d);
        }
        let mut run: Vec<char> = Vec::new();
        let mut k: usize = i;
        while k < e
            invariant
                i <= k <= e <= n,
                n == v@.len(),
                run@ == v@.subrange(i as int, k as int),
            decreases e - k,
        {
            run.push(v[k]);
            assert(v@.subrange(i as int, k + 1) == v@.subrange(i as int, k as int).push(v@[k as int]));
            k = k + 1;
        }
        let ghost rest = v@.skip(i as int);
        assert(rest.take(e - i) == run@);
        assert(rest.skip(e - i) == v@.skip(e as int));
        let chunk = if d {
            assert(all_digits(run@)) by {
                assert forall|j: int| 0 <= j < run@.len() implies is_digit(#[trigger] run@[j]) by {
                    assert(run@[j] == rest[j]);
                }
            }
            Chunk::Num(string_of(&strip_leading_zeros(&run)), string_of(&run))
        } else {
            Chunk::Str(string_of(&run))
        };
        assert(chunk_wf(chunk));
        assert(chunk_view(chunk) == make_chunk(run@, d));
        let ghost before = out@.map_values(|c: Chunk| chunk_view(c));
        let ghost old_out = out@;
        out.insert(0, chunk);
        assert(out@.map_values(|c: Chunk| chunk_view(c)) =~= seq![make_chunk(run@, d)] + before);
        assert((seq![make_chunk(run@, d)] + before).reverse() =~= before.reverse().push(
            make_chunk(run@, d),
        ));
        assert forall|k: int| 0 <= k < out@.len() implies chunk_wf(#[trigger] out@[k]) by {
            if k > 0 {
                assert(out@[k] == old_out[k - 1]);
            }
        }
        assert(chunks(rest) == seq![make_chunk(run@, d)] + chunks(v@.skip(e as int)));
        assert(before.reverse() + (seq![make_chunk(run@, d)] + chunks(v@.skip(e as int)))
            =~= before.reverse().push(make_chunk(run@, d)) + chunks(v@.skip(e as int)));
        i = e;
    }
    assert(chunks(v@.skip(n as int)) =~= Seq::<ChunkView>::empty());
    let ghost w = out@.map_values(|c: Chunk| chunk_view(c));
    assert(chunks(s@) == w.reverse());
    assert(w =~= w.reverse().reverse());
    out
}

/// The order of two chunks: runs of digits before other runs; runs of
/// digits by the numbers they spell, then by text (`"02"` against `"2"`);
/// other runs lexicographically.
pub open spec fn chunk_order(a: ChunkView, b: ChunkView) -> Ordering {
    match (a, b) {
        (ChunkView::Num(ar), ChunkView::Num(br)) => if digits_value(ar) < digits_value(br) {
            Ordering::Less
        } else if digits_value(br) < digits_value(ar) {
            Ordering::Greater
        } else {
            lex_order(ar, br)
        },
        (ChunkView::Num(_), ChunkView::Str(_)) => Ordering::Less,
        (ChunkView::Str(_), ChunkView::Num(_)) => Ordering::Greater,
        (ChunkView::Str(x), ChunkView::Str(y)) => lex_order(x, y),
    }
}

/// The order of two chunk sequences: chunk by chunk; where one runs out
/// first, it comes first.
pub open spec fn chunks_order(a: Seq<ChunkView>, b: Seq<ChunkView>) -> Ordering
    decreases a.len(),
{
    if a.len() == 0 {
        if b.len() == 0 {
            Ordering::Equal
        } else {
            Ordering::Less
        }
    } else if b.len() == 0 {
        Ordering::Greater
    } else {
        match chunk_order(a[0], b[0]) {
            Ordering::Equal => chunks_order(a.drop_first(), b.drop_first()),
            o => o,
        }
    }
}

/// The natural order of names: runs of digits compare as the numbers they
/// spell, everything else lexicographically.
pub open spec fn natural_order(a: Seq<char>, b: Seq<char>) -> Ordering {
    chunks_order(chunks(a), chunks(b))
}

/// Compares two chunks.
fn compare_chunks(a: &Chunk, b: &Chunk) -> (o: Ordering)
    requires
        chunk_wf(*a),
        chunk_wf(*b),
    ensures
        o == chunk_order(chunk_view(*a), chunk_view(*b)),
{
    match (a, b) {
        (Chunk::Num(ad, ar), Chunk::Num(bd, br)) => {
            let x = chars_of(ad.as_str());
            let y = chars_of(bd.as_str());
            proof {
                lemma_number_compare(ar@, br@);
            }
            if x.len() < y.len() {
                Ordering::Less
            } else if y.len() < x.len() {
                proof {
                    lemma_number_compare(br@, ar@);
                }
                Ordering::Greater
            } else {
                match compare_chars(&x, &y) {
                    Ordering::Less => Ordering::Less,
                    Ordering::Greater => Ordering::Greater,
                    Ordering::Equal => compare_chars(&chars_of(ar.as_str()), &chars_of(br.as_str())),
                }
            }
        },
        (Chunk::Num(_, _), Chunk::Str(_)) => Ordering::Less,
        (Chunk::Str(_), Chunk::Num(_, _)) => Ordering::Greater,
        (Chunk::Str(x), Chunk::Str(y)) => compare_chars(&chars_of(x.as_str()), &chars_of(y.as_str())),
    }
}

/// Natural comparison: runs of digits compare as numbers, the rest
/// lexicographically; the chunks are popped from the end of their stores,
/// first chunk first.
fn compare_natural(a: &str, b: &str) -> (o: Ordering)
    ensures
        o == natural_order(a@, b@),
{
    let mut ac = split_chunks(a);
    let mut bc = split_chunks(b);
    assert(chunks(a@).reverse().reverse() =~= chunks(a@));
    assert(chunks(b@).reverse().reverse() =~= chunks(b@));
    loop
        invariant
            forall|k: int| 0 <= k < ac@.len() ==> chunk_wf(#[trigger] ac@[k]),
            forall|k: int| 0 <= k < bc@.len() ==> chunk_wf(#[trigger] bc@[k]),
            natural_order(a@, b@) == chunks_order(
                ac@.map_values(|c: Chunk| chunk_view(c)).reverse(),
                bc@.map_values(|c: Chunk| chunk_view(c)).reverse(),
            ),
        decreases ac@.len(),
    {
        let ghost av = ac@.map_values(|c: Chunk| chunk_view(c));
        let ghost bv = bc@.map_values(|c: Chunk| chunk_view(c));
        let ghost old_ac = ac@;
        let ghost old_bc = bc@;
        let x = ac.pop();
        let y = bc.pop();
        match (x, y) {
            (None, None) => {
                assert(av.reverse().len() == 0 && bv.reverse().len() == 0);
                return Ordering::Equal;
            },
            (None, Some(_)) => {
                assert(av.reverse().len() == 0 && bv.reverse().len() > 0);
                return Ordering::Less;
            },
            (Some(_), None) => {
                assert(av.reverse().len() > 0 && bv.reverse().len() == 0);
                return Ordering::Greater;
            },
            (Some(x), Some(y)) => {
                assert(chunk_wf(old_ac[old_ac.len() - 1]));
                assert(chunk_wf(old_bc[old_bc.len() - 1]));
                let o = compare_chunks(&x, &y);
                proof {
                    assert(av.reverse()[0] == chunk_view(x));
                    assert(bv.reverse()[0] == chunk_view(y));
                    assert(av.reverse().drop_first() =~= ac@.map_values(|c: Chunk| chunk_view(c)).reverse());
                    assert(bv.reverse().drop_first() =~= bc@.map_values(|c: Chunk| chunk_view(c)).reverse());
                }
                match o {
                    Ordering::Equal => {},
                    _ => {
                        return o;
                    },
                }
            },
        }
    }
}

/// Exchanging two chunks flips their order; only equal chunks are equal in
/// the order.
proof fn lemma_chunk_flip(a: ChunkView, b: ChunkView)
    ensures
        chunk_order(b, a) == flip(chunk_order(a, b)),
        chunk_order(a, b) == Ordering::Equal <==> a == b,
{
    match (a, b) {
        (ChunkView::Num(ar), ChunkView::Num(br)) => {
            lemma_lex_flip(ar, br);
            lemma_lex_equal(ar, br);
        },
        (ChunkView::Str(x), ChunkView::Str(y)) => {
            lemma_lex_flip(x, y);
            lemma_lex_equal(x, y);
        },
        _ => {},
    }
}

/// `Less` and not-`Greater` between chunks chain.
proof fn lemma_chunk_transitive(a: ChunkView, b: ChunkView, c: ChunkView)
    ensures
        chunk_order(a, b) != Ordering::Greater && chunk_order(b, c) != Ordering::Greater
            ==> chunk_order(a, c) != Ordering::Greater,
{
    match (a, b, c) {
        (ChunkView::Num(ar), ChunkView::Num(br), ChunkView::Num(cr)) => {
            lemma_lex_transitive(ar, br, cr);
        },
        (ChunkView::Str(x), ChunkView::Str(y), ChunkView::Str(z)) => {
            lemma_lex_transitive(x, y, z);
        },
        _ => {},
    }
}

/// Exchanging two chunk sequences flips their order; only equal sequences
/// are equal in the order.
proof fn lemma_chunks_flip(a: Seq<ChunkView>, b: Seq<ChunkView>)
    ensures
        chunks_order(b, a) == flip(chunks_order(a, b)),
        chunks_order(a, b) == Ordering::Equal <==> a == b,
    decreases a.len(),
{
    if a.len() > 0 && b.len() > 0 {
        lemma_chunk_flip(a[0], b[0]);
        lemma_chunks_flip(a.drop_first(), b.drop_first());
        if a == b {
            assert(a.drop_first() == b.drop_first());
        }
        if a[0] == b[0] && a.drop_first() == b.drop_first() {
            assert(a =~= b) by {
                assert forall|i: int| 0 <= i < a.len() implies a[i] == b[i] by {
                    if i > 0 {
                        assert(a[i] == a.drop_first()[i - 1]);
                        assert(b[i] == b.drop_first()[i - 1]);
                    }
                }
            }
        }
    } else if a.len() == 0 && b.len() == 0 {
        assert(a =~= b);
    }
}

/// Not-`Greater` between chunk sequences chains.
proof fn lemma_chunks_transitive(a: Seq<ChunkView>, b: Seq<ChunkView>, c: Seq<ChunkView>)
    ensures
        chunks_order(a, b) != Ordering::Greater && chunks_order(b, c) != Ordering::Greater
            ==> chunks_order(a, c) != Ordering::Greater,
    decreases a.len(),
{
    if a.len() > 0 && b.len() > 0 && c.len() > 0 {
        lemma_chunk_flip(a[0], b[0]);
        lemma_chunk_flip(b[0], c[0]);
        lemma_chunk_flip(a[0], c[0]);
        lemma_chunk_transitive(a[0], b[0], c[0]);
        lemma_chunk_transitive(c[0], a[0], b[0]);
        lemma_chunk_transitive(b[0], c[0], a[0]);
        lemma_chunks_transitive(a.drop_first(), b.drop_first(), c.drop_first());
    }
}

/// The natural order is a strict total order on names: exchanging two names
/// flips it, only equal names are equal in it, and both `Less` and
/// not-`Greater` chain.
pub proof fn lemma_natural_total_order(a: Seq<char>, b: Seq<char>, c: Seq<char>)
    ensures
        natural_order(b, a) == flip(natural_order(a, b)),
        natural_order(a, b) == Ordering::Equal <==> a == b,
        natural_order(a, b) != Ordering::Greater && natural_order(b, c) != Ordering::Greater
            ==> natural_order(a, c) != Ordering::Greater,
        natural_order(a, b) == Ordering::Less && natural_order(b, c) == Ordering::Less
            ==> natural_order(a, c) == Ordering::Less,
{
    lemma_chunks_flip(chunks(a), chunks(b));
    lemma_chunks_flip(chunks(a), chunks(c));
    lemma_chunks_flip(chunks(b), chunks(c));
    lemma_chunks_transitive(chunks(a), chunks(b), chunks(c));
    lemma_chunks_text(a);
    lemma_chunks_text(b);
    lemma_chunks_text(c);
}

/// A name that starts with a run of digits comes before one that starts
/// with another character, whatever follows: `"3.txt"` before `"a.txt"`.
pub proof fn lemma_digits_before_text(d: Seq<char>, x: Seq<char>, t: Seq<char>, y: Seq<char>)
    requires
        d.len() > 0,
        all_digits(d),
        t.len() > 0,
        !is_digit(t[0]),
    ensures
        natural_order(d + x, t + y) == Ordering::Less,
{
    let a = d + x;
    let b = t + y;
    assert(a[0] == d[0] && is_digit(d[0]));
    assert(b[0] == t[0]);
    assert(chunks(a)[0] is Num);
    assert(chunks(b)[0] is Str);
}

/// Two names that share a beginning ending in a non-digit, then continue
/// with runs of digits spelling different numbers (each run followed by a
/// non-digit or the end), compare as those numbers: `"a-9.txt"` before
/// `"a-10.txt"`, whatever the lengths of the runs.
pub proof fn lemma_numbers_compare_by_value(
    p: Seq<char>,
    da: Seq<char>,
    ra: Seq<char>,
    db: Seq<char>,
    rb: Seq<char>,
)
    requires
        da.len() > 0,
        db.len() > 0,
        all_digits(da),
        all_digits(db),
        ra.len() > 0 ==> !is_digit(ra[0]),
        rb.len() > 0 ==> !is_digit(rb[0]),
        p.len() == 0 || !is_digit(p.last()),
        digits_value(da) < digits_value(db),
    ensures
        natural_order(p + (da + ra), p + (db + rb)) == Ordering::Less,
    decreases p.len(),
{
    if p.len() == 0 {
        assert(p + (da + ra) == da + ra);
        assert(p + (db + rb) == db + rb);
        lemma_first_chunk_num(da, ra);
        lemma_first_chunk_num(db, rb);
    } else {
        assert((da + ra)[0] == da[0] && is_digit(da[0]));
        assert((db + rb)[0] == db[0] && is_digit(db[0]));
        let q = lemma_shared_first_chunk(p, da + ra, db + rb);
        lemma_numbers_compare_by_value(q, da, ra, db, rb);
        let ca = chunks(p + (da + ra));
        let cb = chunks(p + (db + rb));
        lemma_chunk_flip(ca[0], cb[0]);
        assert(chunk_order(ca[0], cb[0]) == Ordering::Equal);
    }
}

/// A run of digits followed by a non-digit (or nothing) is the first chunk.
proof fn lemma_first_chunk_num(d: Seq<char>, r: Seq<char>)
    requires
        d.len() > 0,
        all_digits(d),
        r.len() > 0 ==> !is_digit(r[0]),
    ensures
        chunks(d + r)[0] == ChunkView::Num(d),
{
    let a = d + r;
    lemma_run_digits(d, r);
    assert(a[0] == d[0] && is_digit(d[0]));
    assert(a.take(d.len() as int) == d);
}

/// The first chunk of a beginning that ends in a non-digit is the first
/// chunk of anything continuing it with digits; what is left of the
/// beginning is shorter and still ends in a non-digit.
proof fn lemma_shared_first_chunk(p: Seq<char>, z1: Seq<char>, z2: Seq<char>) -> (q: Seq<char>)
    requires
        p.len() > 0,
        !is_digit(p.last()),
        z1.len() > 0 ==> is_digit(z1[0]),
        z2.len() > 0 ==> is_digit(z2[0]),
    ensures
        q.len() < p.len(),
        q.len() == 0 || !is_digit(q.last()),
        chunks(p + z1)[0] == chunks(p + z2)[0],
        chunks(p + z1).drop_first() == chunks(q + z1),
        chunks(p + z2).drop_first() == chunks(q + z2),
{
    let d = is_digit(p[0]);
    lemma_run_len(p, d);
    let k = run_len(p, d) as int;
    lemma_run_prefix(p, z1, d);
    lemma_run_prefix(p, z2, d);
    let a = p + z1;
    let b = p + z2;
    assert(a[0] == p[0] && b[0] == p[0]);
    assert(a.take(k) == p.take(k));
    assert(b.take(k) == p.take(k));
    let q = p.skip(k);
    assert(a.skip(k) == q + z1);
    assert(b.skip(k) == q + z2);
    if q.len() > 0 {
        assert(q.last() == p.last());
    }
    q
}

/// A run of digits followed by a non-digit (or nothing) is one whole run.
proof fn lemma_run_digits(d: Seq<char>, r: Seq<char>)
    requires
        all_digits(d),
        r.len() > 0 ==> !is_digit(r[0]),
    ensures
        run_len(d + r, true) == d.len(),
    decreases d.len(),
{
    if d.len() > 0 {
        assert((d + r)[0] == d[0] && is_digit(d[0]));
        assert((d + r).drop_first() == d.drop_first() + r);
        assert(all_digits(d.drop_first())) by {
            assert forall|i: int| 0 <= i < d.drop_first().len() implies is_digit(
                #[trigger] d.drop_first()[i],
            ) by {
                assert(d.drop_first()[i] == d[i + 1]);
            }
        }
        lemma_run_digits(d.drop_first(), r);
    } else {
        assert(d + r == r);
    }
}

/// The first run of a beginning that ends in a non-digit is not lengthened
/// by digits after it.
proof fn lemma_run_prefix(p: Seq<char>, z: Seq<char>, d: bool)
    requires
        p.len() > 0,
        is_digit(p[0]) == d,
        !is_digit(p.last()),
        z.len() > 0 ==> is_digit(z[0]),
    ensures
        run_len(p + z, d) == run_len(p, d),
    decreases p.len(),
{
    let a = p + z;
    assert(a[0] == p[0]);
    assert(a.drop_first() == p.drop_first() + z);
    if p.len() == 1 {
        assert(p.drop_first().len() == 0);
        assert(p.drop_first() + z == z);
        assert(p.last() == p[0]);
        assert(run_len(p.drop_first(), d) == 0);
        assert(run_len(z, d) == 0);
        assert(run_len(a, d) == 1 + run_len(a.drop_first(), d));
    } else if is_digit(p[1]) == d {
        assert(p.drop_first()[0] == p[1]);
        assert(p.drop_first().last() == p.last());
        lemma_run_prefix(p.drop_first(), z, d);
    } else {
        assert(p.drop_first()[0] == p[1]);
        assert((p.drop_first() + z)[0] == p[1]);
        assert(run_len(p.drop_first(), d) == 0);
        assert(run_len(p.drop_first() + z, d) == 0);
    }
}

/// Exchanging names flips the natural order.
pub proof fn lemma_natural_antisymmetric()
    ensures
        antisymmetric(|a: Seq<char>, b: Seq<char>| natural_order(a, b)),
{
    reveal(antisymmetric);
    assert forall|a: Seq<char>, b: Seq<char>| #[trigger] natural_order(a, b) == flip(
        natural_order(b, a),
    ) by {
        lemma_chunks_flip(chunks(b), chunks(a));
    }
}

/// The natural order chains.
pub proof fn lemma_natural_transitive()
    ensures
        transitive(|a: Seq<char>, b: Seq<char>| natural_order(a, b)),
{
    reveal(transitive);
    assert forall|a: Seq<char>, b: Seq<char>, c: Seq<char>|
        #[trigger] natural_order(a, b) != Ordering::Greater && #[trigger] natural_order(b, c)
            != Ordering::Greater implies natural_order(a, c) != Ordering::Greater by {
        lemma_chunks_transitive(chunks(a), chunks(b), chunks(c));
    }
}

/// Whether `a` comes strictly before `b` in the natural order.
fn natural_before(a: &String, b: &String) -> (r: bool)
    ensures
        r == (natural_order(a@, b@) == Ordering::Less),
{
    match compare_natural(a.as_str(), b.as_str()) {
        Ordering::Less => true,
        _ => false,
    }
}

/// Sorts names in natural order.
pub fn sort_natural(names: Vec<String>) -> (res: Vec<String>)
    ensures
        views(res@).to_multiset() == views(names@).to_multiset(),
        sorted_by_order(views(res@), |a: Seq<char>, b: Seq<char>| natural_order(a, b)),
        views(names@).no_duplicates() ==> strictly_sorted(
            views(res@),
            |a: Seq<char>, b: Seq<char>| natural_order(a, b),
        ),
{
    let ghost ord = |a: Seq<char>, b: Seq<char>| natural_order(a, b);
    proof {
        lemma_natural_antisymmetric();
        lemma_natural_transitive();
    }
    let ghost input = views(names@);
    let res = sort_strings(names, natural_before, Ghost(ord));
    proof {
        lemma_ascending_sorted(views(res@), ord);
        if input.no_duplicates() {
            assert forall|a: Seq<char>, b: Seq<char>| #[trigger] ord(a, b) == Ordering::Equal
                implies a == b by {
                lemma_natural_total_order(a, b, b);
            }
            lemma_sorted_strict(views(res@), input, ord);
        }
    }
    res
}

/// A `.txt` file name.
pub open spec fn is_txt_name(name: Seq<char>) -> bool {
    stem_and_extension(name).1 == Some(seq!['t', 'x', 't'])
}

/// Whether `name` has the extension `txt`.
fn has_txt_extension(name: &str) -> (b: bool)
    ensures
        b == is_txt_name(name@),
{
    let (_stem, ext) = split_extension(&chars_of(name));
    match ext {
        Some(e) => {
            let r = e.len() == 3 && e[0] == 't' && e[1] == 'x' && e[2] == 't';
            assert(r <==> e@ == seq!['t', 'x', 't']) by {
                if e@ == seq!['t', 'x', 't'] {
                    assert(e@[0] == 't' && e@[1] == 'x' && e@[2] == 't');
                }
                if r {
                    assert(e@ =~= seq!['t', 'x', 't']);
                }
            }
            r
        },
        None => false,
    }
}

/// The names listed in the index, in the order of `entries`: regular
/// `.txt` files other than the index itself.
pub open spec fn listed_names(es: Seq<(Seq<char>, bool)>) -> Seq<Seq<char>>
    decreases es.len(),
{
    if es.len() == 0 {
        seq![]
    } else {
        let rest = listed_names(es.drop_last());
        let e = es.last();
        if e.1 && is_txt_name(e.0) && e.0 != URLS_FILE_NAME@ {
            rest.push(e.0)
        } else {
            rest
        }
    }
}

/// A directory entry as plain values: its name and whether it is a file.
pub open spec fn listing_view(e: (String, bool)) -> (Seq<char>, bool) {
    (e.0@, e.1)
}

/// Picks, from the entries `(file name, is a regular file)` of the output
/// directory, the `.txt` files other than `urls.txt`, in natural order.
pub fn select_output_files(entries: Vec<(String, bool)>) -> (names: Vec<String>)
    ensures
        views(names@).to_multiset() == listed_names(
            entries@.map_values(|e: (String, bool)| listing_view(e)),
        ).to_multiset(),
        sorted_by_order(views(names@), |a: Seq<char>, b: Seq<char>| natural_order(a, b)),
        listed_names(entries@.map_values(|e: (String, bool)| listing_view(e))).no_duplicates()
            ==> strictly_sorted(views(names@), |a: Seq<char>, b: Seq<char>| natural_order(a, b)),
{
    let ghost es = entries@.map_values(|e: (String, bool)| listing_view(e));
    let n = entries.len();
    let mut rest = entries;
    let mut picked: Vec<String> = Vec::new();
    let mut i: usize = 0;
    let index_name = chars_of(URLS_FILE_NAME);
    proof {
        assert(es.take(0) =~= Seq::<(Seq<char>, bool)>::empty());
        assert(views(picked@) =~= listed_names(es.take(0)));
        assert(rest@.map_values(|e: (String, bool)| listing_view(e)) =~= es.skip(0));
    }
    while rest.len() > 0
        invariant
            es.len() == n,
            index_name@ == URLS_FILE_NAME@,
            i + rest@.len() == n,
            rest@.map_values(|e: (String, bool)| listing_view(e)) == es.skip(int_of(i)),
            views(picked@) == listed_names(es.take(int_of(i))),
        decreases rest.len(),
    {
        let ghost prior = rest@;
        let (name, is_file) = rest.remove(0);
        proof {
            assert(rest@ == prior.drop_first());
            let rv = rest@.map_values(|e: (String, bool)| listing_view(e));
            let pv = prior.map_values(|e: (String, bool)| listing_view(e));
            assert forall|k: int| 0 <= k < rv.len() implies rv[k] == es.skip(int_of(i) + 1)[k] by {
                assert(rv[k] == listing_view(prior[k + 1]));
                assert(pv[k + 1] == listing_view(prior[k + 1]));
                assert(pv[k + 1] == es.skip(int_of(i))[k + 1]);
            }
            assert(rv =~= es.skip(int_of(i) + 1));
            assert(pv[0] == es[int_of(i)]);
            assert(es.take(int_of(i) + 1).drop_last() == es.take(int_of(i)));
            assert(es.take(int_of(i) + 1).last() == es[int_of(i)]);
        }
        let name_chars = chars_of(name.as_str());
        let is_index = match compare_chars(&name_chars, &index_name) {
            Ordering::Equal => true,
            _ => false,
        };
        proof {
            lemma_lex_equal(name@, URLS_FILE_NAME@);
        }
        if is_file && has_txt_extension(name.as_str()) && !is_index {
            let ghost before = views(picked@);
            picked.push(name);
            assert(views(picked@) =~= before.push(es[int_of(i)].0));
        }
        i = i + 1;
    }
    assert(es.take(int_of(i)) =~= es);
    sort_natural(picked)
}

/// The text of the index: one direct link per name, each followed by
/// `'\n'`.
pub open spec fn index_text(names: Seq<Seq<char>>) -> Seq<char>
    decreases names.len(),
{
    if names.len() == 0 {
        seq![]
    } else {
        index_text(names.drop_last()) + raw_url(names.last()) + seq!['\n']
    }
}

/// The content of `urls.txt` for the given file names: one direct link per
/// line, every line ending with `'\n'`.
pub fn urls_index_content(names: &Vec<String>) -> (content: String)
    ensures
        content@ == index_text(views(names@)),
{
    let mut content = String::new();
    for i in 0..names.len()
        invariant
            content@ == index_text(views(names@).take(i as int)),
    {
        let url = raw_url_for(names[i].as_str());
        push_chars(&mut content, &chars_of(url.as_str()));
        push_char(&mut content, '\n');
        proof {
            let t = views(names@).take(i + 1);
            assert(t.drop_last() == views(names@).take(i as int));
            assert(t.last() == names@[i as int]@);
        }
    }
    assert(views(names@).take(names@.len() as int) == views(names@));
    content
}

/// Every file that a save writes for an id other than an empty one and
/// `urls` (its single file `{id}.txt` or a part `{id}-{n}.txt`) is a
/// `.txt` file that the index lists.
pub proof fn lemma_saved_files_listed(id: Seq<char>, index: nat)
    requires
        id.len() > 0,
        id != seq!['u', 'r', 'l', 's'],
    ensures
        is_txt_name(single_name(id)),
        single_name(id) != URLS_FILE_NAME@,
        is_txt_name(part_name(id, index)),
        part_name(id, index) != URLS_FILE_NAME@,
{
    reveal_strlit("urls.txt");
    let urls_name = seq!['u', 'r', 'l', 's', '.', 't', 'x', 't'];
    assert(URLS_FILE_NAME@ == urls_name);
    lemma_txt_name(id);
    let stem = id + seq!['-'] + decimal(index);
    assert(part_name(id, index) == stem + seq!['.', 't', 'x', 't']);
    lemma_txt_name(stem);
    lemma_txt_name(seq!['u', 'r', 'l', 's']);
    assert(seq!['u', 'r', 'l', 's'] + seq!['.', 't', 'x', 't'] == urls_name);
    if single_name(id) == urls_name {
        assert(id == seq!['u', 'r', 'l', 's']);
    }
    if part_name(id, index) == urls_name {
        assert(stem == seq!['u', 'r', 'l', 's']);
        assert(stem[id.len() as int] == '-');
    }
}

} // verus!
