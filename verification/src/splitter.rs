//! Splitting large config files into parts. Every line of a file is one
//! configuration (`vless://…`, `trojan://…`), so files are cut only at line
//! boundaries; joining the parts gives the content back.

use vstd::prelude::*;
use crate::order::{lex_order, sort_lexicographic, sorted_by_order, strictly_sorted};
use crate::text::{
    byte_len, char_byte_len, is_blank, is_whitespace, is_ws, lemma_byte_len_concat, push_char,
    push_decimal, decimal, str_byte_len, string_of, views, int_of,
};

verus! {

/// The largest size of one part in bytes (1 MiB).
pub const MAX_PART_BYTES: usize = 1024 * 1024;

/// The default number of configurations kept in one output file.
pub const DEFAULT_MAX_PER_FILE: usize = 500;

/// The length of the first line of `s`, its `'\n'` included (all of `s`
/// when it holds no `'\n'`).
pub open spec fn line_end(s: Seq<char>) -> nat
    decreases s.len(),
{
    if s.len() == 0 {
        0
    } else if s[0] == '\n' {
        1
    } else {
        1 + line_end(s.drop_first())
    }
}

/// The first line of a non-empty sequence is not empty and fits in it.
pub proof fn lemma_line_end_bounds(s: Seq<char>)
    ensures
        s.len() > 0 ==> 1 <= line_end(s) <= s.len(),
        s.len() == 0 ==> line_end(s) == 0,
    decreases s.len(),
{
    if s.len() > 0 {
        lemma_line_end_bounds(s.drop_first());
    }
}

/// The lines of `s`, each with its `'\n'`, the last one possibly without
/// (`str::split_inclusive('\n')`; no lines for empty `s`).
pub open spec fn lines(s: Seq<char>) -> Seq<Seq<char>>
    decreases s.len(),
{
    if s.len() == 0 {
        seq![]
    } else {
        proof {
            lemma_line_end_bounds(s);
        }
        seq![s.take(line_end(s) as int)] + lines(s.skip(line_end(s) as int))
    }
}

/// All parts joined together.
pub open spec fn concat(parts: Seq<Seq<char>>) -> Seq<char>
    decreases parts.len(),
{
    if parts.len() == 0 {
        seq![]
    } else {
        parts[0] + concat(parts.drop_first())
    }
}

/// Joining `seq![a] + r` puts `a` first.
pub proof fn lemma_concat_cons(a: Seq<char>, r: Seq<Seq<char>>)
    ensures
        concat(seq![a] + r) == a + concat(r),
{
    assert((seq![a] + r)[0] == a);
    assert((seq![a] + r).drop_first() == r);
}

/// Joining the lines of `s` gives `s`.
pub proof fn lemma_concat_lines(s: Seq<char>)
    ensures
        concat(lines(s)) == s,
    decreases s.len(),
{
    if s.len() > 0 {
        lemma_line_end_bounds(s);
        let e = line_end(s) as int;
        lemma_concat_lines(s.skip(e));
        lemma_concat_cons(s.take(e), lines(s.skip(e)));
        assert(s.take(e) + s.skip(e) == s);
    } else {
        assert(concat(lines(s)) =~= s);
    }
}

/// The end of the line that starts at `i` in `s`.
fn line_end_from(s: &Vec<char>, i: usize) -> (e: usize)
    requires
        i < s@.len(),
    ensures
        i < e <= s@.len(),
        e - i == line_end(s@.skip(i as int)),
{
    let n = s.len();
    let mut j: usize = i;
    proof {
        lemma_line_end_bounds(s@.skip(i as int));
    }
    while j < n && s[j] != '\n'
        invariant
            n == s@.len(),
            i <= j <= n,
            line_end(s@.skip(i as int)) == (j - i) + line_end(s@.skip(j as int)),
        decreases n - j,
    {
        assert(s@.skip(j as int).drop_first() == s@.skip(j + 1));
        j = j + 1;
    }
    if j < n {
        assert(s@.skip(j as int)[0] == '\n');
        j + 1
    } else {
        assert(s@.skip(j as int).len() == 0);
        j
    }
}

/// The number of bytes that `s[i..e]` takes in UTF-8.
fn bytes_between(s: &Vec<char>, i: usize, e: usize) -> (n: usize)
    requires
        i <= e <= s@.len(),
        byte_len(s@.subrange(i as int, e as int)) <= usize::MAX,
    ensures
        n == byte_len(s@.subrange(i as int, e as int)),
{
    let mut k: usize = i;
    let mut n: usize = 0;
    while k < e
        invariant
            i <= k <= e <= s@.len(),
            n == byte_len(s@.subrange(i as int, k as int)),
            byte_len(s@.subrange(i as int, e as int)) <= usize::MAX,
        decreases e - k,
    {
        let w = char_byte_len(s[k]);
        proof {
            assert(s@.subrange(i as int, k + 1) == s@.subrange(i as int, k as int) + seq![s@[k as int]]);
            lemma_byte_len_concat(s@.subrange(i as int, k as int), seq![s@[k as int]]);
            assert(s@.subrange(i as int, e as int) == s@.subrange(i as int, k + 1) + s@.subrange(k + 1, e as int));
            lemma_byte_len_concat(s@.subrange(i as int, k + 1), s@.subrange(k + 1, e as int));
        }
        n = n + w;
        k = k + 1;
    }
    n
}

/// Packs lines into parts greedily: a line joins the current part unless
/// that part is non-empty and would then exceed `max` bytes.
pub open spec fn pack_by_bytes(ls: Seq<Seq<char>>, cur: Seq<char>, max: nat) -> Seq<Seq<char>>
    decreases ls.len(),
{
    if ls.len() == 0 {
        seq![cur]
    } else if cur.len() > 0 && byte_len(cur) + byte_len(ls[0]) > max {
        seq![cur] + pack_by_bytes(ls.drop_first(), ls[0], max)
    } else {
        pack_by_bytes(ls.drop_first(), cur + ls[0], max)
    }
}

/// Packing loses and reorders nothing: the parts joined are the current
/// part followed by the lines.
pub proof fn lemma_pack_by_bytes_concat(ls: Seq<Seq<char>>, cur: Seq<char>, max: nat)
    ensures
        concat(pack_by_bytes(ls, cur, max)) == cur + concat(ls),
    decreases ls.len(),
{
    if ls.len() == 0 {
        lemma_concat_cons(cur, seq![]);
        assert(seq![cur] == seq![cur] + Seq::<Seq<char>>::empty());
        assert(concat(Seq::<Seq<char>>::empty()) == Seq::<char>::empty());
        assert(cur + Seq::<char>::empty() == cur);
    } else {
        lemma_pack_by_bytes_concat(ls.drop_first(), ls[0], max);
        lemma_pack_by_bytes_concat(ls.drop_first(), cur + ls[0], max);
        lemma_concat_cons(ls[0], ls.drop_first());
        assert(ls == seq![ls[0]] + ls.drop_first());
        if cur.len() > 0 && byte_len(cur) + byte_len(ls[0]) > max {
            lemma_concat_cons(cur, pack_by_bytes(ls.drop_first(), ls[0], max));
        }
        assert(cur + ls[0] + concat(ls.drop_first()) == cur + (ls[0] + concat(ls.drop_first())));
    }
}

/// Every part packed is within `max` bytes, or is one of the lines `all`
/// (a line too long to share a part).
pub proof fn lemma_pack_by_bytes_limit(
    ls: Seq<Seq<char>>,
    cur: Seq<char>,
    max: nat,
    all: Seq<Seq<char>>,
)
    requires
        byte_len(cur) <= max || all.contains(cur),
        forall|k: int| 0 <= k < ls.len() ==> all.contains(#[trigger] ls[k]),
    ensures
        forall|k: int|
            0 <= k < pack_by_bytes(ls, cur, max).len() ==> byte_len(
                #[trigger] pack_by_bytes(ls, cur, max)[k],
            ) <= max || all.contains(pack_by_bytes(ls, cur, max)[k]),
    decreases ls.len(),
{
    if ls.len() == 0 {
        assert(pack_by_bytes(ls, cur, max) == seq![cur]);
    } else {
        let rest = ls.drop_first();
        assert forall|k: int| 0 <= k < rest.len() implies all.contains(#[trigger] rest[k]) by {
            assert(rest[k] == ls[k + 1]);
        }
        assert(all.contains(ls[0]));
        if cur.len() > 0 && byte_len(cur) + byte_len(ls[0]) > max {
            lemma_pack_by_bytes_limit(rest, ls[0], max, all);
            let tail = pack_by_bytes(rest, ls[0], max);
            assert forall|k: int| 0 <= k < pack_by_bytes(ls, cur, max).len() implies byte_len(
                #[trigger] pack_by_bytes(ls, cur, max)[k],
            ) <= max || all.contains(pack_by_bytes(ls, cur, max)[k]) by {
                if k > 0 {
                    assert(pack_by_bytes(ls, cur, max)[k] == tail[k - 1]);
                } else {
                    assert(pack_by_bytes(ls, cur, max)[k] == cur);
                }
            }
        } else {
            if cur.len() == 0 {
                assert(cur + ls[0] == ls[0]);
            } else {
                lemma_byte_len_concat(cur, ls[0]);
            }
            lemma_pack_by_bytes_limit(rest, cur + ls[0], max, all);
            assert(pack_by_bytes(ls, cur, max) == pack_by_bytes(rest, cur + ls[0], max));
        }
    }
}

/// Packing gives at least one part.
pub proof fn lemma_pack_by_bytes_len(ls: Seq<Seq<char>>, cur: Seq<char>, max: nat)
    ensures
        pack_by_bytes(ls, cur, max).len() >= 1,
    decreases ls.len(),
{
    if ls.len() > 0 {
        lemma_pack_by_bytes_len(ls.drop_first(), ls[0], max);
        lemma_pack_by_bytes_len(ls.drop_first(), cur + ls[0], max);
    }
}

/// The first line of `s`, its `'\n'` included.
pub open spec fn first_line(s: Seq<char>) -> Seq<char> {
    s.take(line_end(s) as int)
}

/// The shape of packed parts: every part but the last ends with `'\n'`; no
/// part is empty when there was anything to pack; the first part starts with
/// `cur`; and a part is closed only when the first line of the next part no
/// longer fits beside it.
pub proof fn lemma_pack_shape(ls: Seq<Seq<char>>, cur: Seq<char>, max: nat)
    requires
        well_formed_lines(ls),
        cur.len() > 0 && ls.len() > 0 ==> cur.last() == '\n',
    ensures
        ({
            let p = pack_by_bytes(ls, cur, max);
            &&& forall|k: int| 0 <= k < p.len() - 1 ==> (#[trigger] p[k]).len() > 0 && p[k].last() == '\n'
            &&& cur.len() > 0 || ls.len() > 0 ==> forall|k: int| 0 <= k < p.len() ==> (#[trigger] p[k]).len() > 0
            &&& p[0].len() >= cur.len() && p[0].take(cur.len() as int) == cur
            &&& ls.len() == 0 ==> p[0] == cur
            &&& forall|k: int| 0 <= k < p.len() - 1 ==> byte_len(#[trigger] p[k]) + byte_len(first_line(p[k + 1])) > max
        }),
    decreases ls.len(),
{
    let p = pack_by_bytes(ls, cur, max);
    lemma_pack_by_bytes_len(ls, cur, max);
    if ls.len() == 0 {
        assert(p == seq![cur]);
        assert(cur.take(cur.len() as int) == cur);
    } else {
        let rest = ls.drop_first();
        let l0 = ls[0];
        assert(l0.len() > 0 && line_end(l0) == l0.len());
        assert(well_formed_lines(rest)) by {
            assert forall|k: int| 0 <= k < rest.len() implies (#[trigger] rest[k]).len() > 0
                && line_end(rest[k]) == rest[k].len() by {
                assert(rest[k] == ls[k + 1]);
            }
            assert forall|k: int| 0 <= k < rest.len() - 1 implies (#[trigger] rest[k]).last()
                == '\n' by {
                assert(rest[k] == ls[k + 1]);
            }
        }
        if cur.len() > 0 && byte_len(cur) + byte_len(l0) > max {
            let q = pack_by_bytes(rest, l0, max);
            lemma_pack_shape(rest, l0, max);
            lemma_pack_by_bytes_len(rest, l0, max);
            assert(p == seq![cur] + q);
            assert(p[0] == cur);
            assert(cur.take(cur.len() as int) == cur);
            assert forall|k: int| 0 < k < p.len() implies p[k] == q[k - 1] by {}
            // The first line of the part after `cur` is the line that did not fit.
            if rest.len() > 0 {
                assert(l0.last() == '\n');
                let tail = q[0].skip(l0.len() as int);
                assert(q[0] == l0 + tail);
                lemma_line_end_prefix(l0, tail);
            }
            assert(first_line(q[0]) == l0);
            assert forall|k: int| 0 <= k < p.len() - 1 implies byte_len(#[trigger] p[k]) + byte_len(
                first_line(p[k + 1]),
            ) > max by {
                if k > 0 {
                    assert(p[k] == q[k - 1] && p[k + 1] == q[k]);
                }
            }
            assert forall|k: int| 0 <= k < p.len() - 1 implies (#[trigger] p[k]).len() > 0 && p[k].last()
                == '\n' by {
                if k > 0 {
                    assert(p[k] == q[k - 1]);
                }
            }
            assert forall|k: int| 0 <= k < p.len() implies (#[trigger] p[k]).len() > 0 by {
                if k > 0 {
                    assert(p[k] == q[k - 1]);
                }
            }
        } else {
            let c2 = cur + l0;
            if rest.len() > 0 {
                assert(l0.last() == '\n');
                assert(c2.last() == l0.last());
            }
            lemma_pack_shape(rest, c2, max);
            assert(p == pack_by_bytes(rest, c2, max));
            assert(p[0].take(c2.len() as int) == c2);
            assert(p[0].take(cur.len() as int) =~= cur) by {
                assert forall|i: int| 0 <= i < cur.len() implies p[0].take(cur.len() as int)[i] == cur[i] by {
                    assert(p[0].take(c2.len() as int)[i] == c2[i]);
                }
            }
        }
    }
}

/// The byte limit actually applied: at least 1.
pub open spec fn effective_limit(max_bytes: nat) -> nat {
    if max_bytes == 0 {
        1
    } else {
        max_bytes
    }
}

/// The parts that `split_content` cuts `content` into.
pub open spec fn split_by_bytes(content: Seq<char>, max_bytes: nat) -> Seq<Seq<char>> {
    pack_by_bytes(lines(content), seq![], effective_limit(max_bytes))
}

/// The lines of `s[i..]` are the line at `i` followed by the lines after it.
proof fn lemma_lines_step(s: Seq<char>, i: int, e: int)
    requires
        0 <= i < e <= s.len(),
        e - i == line_end(s.skip(i)),
    ensures
        lines(s.skip(i)) == seq![s.subrange(i, e)] + lines(s.skip(e)),
{
    let t = s.skip(i);
    assert(t.take(e - i) == s.subrange(i, e));
    assert(t.skip(e - i) == s.skip(e));
}

/// Cuts `content` into parts of at most `max_bytes` bytes without breaking
/// lines.
///
/// - Empty content gives one empty part.
/// - A line longer than `max_bytes` is a part of its own (it cannot be cut).
/// - The parts joined give the content back.
pub fn split_content(content: &str, max_bytes: usize) -> (parts: Vec<String>)
    ensures
        views(parts@) == split_by_bytes(content@, max_bytes as nat),
        concat(views(parts@)) == content@,
        parts@.len() >= 1,
        content@.len() == 0 ==> parts@.len() == 1 && parts@[0]@.len() == 0,
        forall|k: int|
            0 <= k < parts@.len() ==> byte_len(#[trigger] parts@[k]@) <= effective_limit(
                max_bytes as nat,
            ) || lines(content@).contains(parts@[k]@),
        forall|k: int|
            0 <= k < parts@.len() - 1 ==> (#[trigger] parts@[k]@).len() > 0 && parts@[k]@.last()
                == '\n',
        content@.len() > 0 ==> forall|k: int| 0 <= k < parts@.len() ==> (#[trigger] parts@[k]@).len() > 0,
        forall|k: int|
            0 <= k < parts@.len() - 1 ==> byte_len(#[trigger] parts@[k]@) + byte_len(
                first_line(parts@[k + 1]@),
            ) > effective_limit(max_bytes as nat),
{
    // The content's size in bytes is a `usize`, so no byte count below overflows.
    let _size: usize = str_byte_len(content);
    let max: usize = if max_bytes == 0 { 1 } else { max_bytes };
    let s = crate::text::chars_of(content);
    let n = s.len();
    let mut parts: Vec<String> = Vec::new();
    let mut current: Vec<char> = Vec::new();
    let mut cur_bytes: usize = 0;
    let mut cur_start: usize = 0;
    let mut i: usize = 0;
    let ghost target = split_by_bytes(content@, max_bytes as nat);
    proof {
        assert(s@.skip(0) == s@);
        assert(views(parts@) =~= Seq::<Seq<char>>::empty());
        assert(s@.subrange(0, 0) =~= current@);
        assert(Seq::<Seq<char>>::empty() + pack_by_bytes(lines(s@), seq![], max as nat)
            == pack_by_bytes(lines(s@), seq![], max as nat));
    }
    while i < n
        invariant
            n == s@.len(),
            s@ == content@,
            max as nat == effective_limit(max_bytes as nat),
            target == split_by_bytes(content@, max_bytes as nat),
            byte_len(s@) <= usize::MAX,
            cur_start <= i <= n,
            current@ == s@.subrange(cur_start as int, i as int),
            cur_bytes == byte_len(current@),
            target == views(parts@) + pack_by_bytes(
                lines(s@.skip(i as int)),
                current@,
                max as nat,
            ),
        decreases n - i,
    {
        let e = line_end_from(&s, i);
        proof {
            lemma_lines_step(s@, i as int, e as int);
            assert(s@ == s@.subrange(0, cur_start as int) + s@.subrange(cur_start as int, e as int)
                + s@.skip(e as int));
            lemma_byte_len_concat(s@.subrange(0, cur_start as int), s@.subrange(cur_start as int, e as int));
            lemma_byte_len_concat(
                s@.subrange(0, cur_start as int) + s@.subrange(cur_start as int, e as int),
                s@.skip(e as int),
            );
            assert(s@.subrange(cur_start as int, e as int) == current@ + s@.subrange(i as int, e as int));
            lemma_byte_len_concat(current@, s@.subrange(i as int, e as int));
        }
        let lb = bytes_between(&s, i, e);
        let ghost line = s@.subrange(i as int, e as int);
        let ghost rest_lines = lines(s@.skip(e as int));
        assert(lines(s@.skip(i as int)).drop_first() == rest_lines);
        assert(lines(s@.skip(i as int))[0] == line);
        if current.len() > 0 && cur_bytes + lb > max {
            let ghost done = views(parts@);
            let ghost cur_view = current@;
            parts.push(string_of(&current));
            current = Vec::new();
            cur_bytes = 0;
            cur_start = i;
            proof {
                assert(views(parts@) =~= done.push(cur_view));
                assert(done + (seq![cur_view] + pack_by_bytes(rest_lines, line, max as nat))
                    =~= done.push(cur_view) + pack_by_bytes(rest_lines, line, max as nat));
            }
        }
        let mut k: usize = i;
        let ghost before = current@;
        while k < e
            invariant
                i <= k <= e <= n,
                n == s@.len(),
                current@ == before + s@.subrange(i as int, k as int),
            decreases e - k,
        {
            current.push(s[k]);
            assert(s@.subrange(i as int, k + 1) == s@.subrange(i as int, k as int).push(s@[k as int]));
            k = k + 1;
        }
        proof {
            lemma_byte_len_concat(before, line);
        }
        cur_bytes = cur_bytes + lb;
        i = e;
        assert(current@ == s@.subrange(cur_start as int, i as int));
    }
    proof {
        assert(s@.skip(n as int).len() == 0);
        assert(lines(s@.skip(n as int)) =~= Seq::<Seq<char>>::empty());
    }
    let ghost done = views(parts@);
    let ghost cur_view = current@;
    parts.push(string_of(&current));
    assert(views(parts@) =~= done.push(cur_view));
    proof {
        let pv = views(parts@);
        assert(pv == target);
        assert(target == pack_by_bytes(lines(content@), seq![], max as nat));
        lemma_pack_by_bytes_concat(lines(content@), seq![], max as nat);
        assert(concat(pv) == Seq::<char>::empty() + concat(lines(content@)));
        lemma_concat_lines(content@);
        assert(Seq::<char>::empty() + content@ == content@);
        assert(byte_len(Seq::<char>::empty()) == 0);
        assert forall|k: int| 0 <= k < lines(content@).len() implies lines(content@).contains(
            #[trigger] lines(content@)[k],
        ) by {}
        lemma_pack_by_bytes_limit(lines(content@), seq![], max as nat, lines(content@));
        lemma_pack_by_bytes_len(lines(content@), seq![], max as nat);
        assert forall|k: int| 0 <= k < parts@.len() implies byte_len(#[trigger] parts@[k]@)
            <= effective_limit(max_bytes as nat) || lines(content@).contains(parts@[k]@) by {
            assert(pv[k] == parts@[k]@);
        }
        if content@.len() == 0 {
            assert(pv =~= seq![Seq::<char>::empty()]);
            assert(pv[0] == parts@[0]@);
        }
        lemma_lines_shape(content@);
        lemma_pack_shape(lines(content@), seq![], max as nat);
        if content@.len() > 0 {
            lemma_line_end_bounds(content@);
            assert(lines(content@).len() > 0);
        }
        assert forall|k: int| 0 <= k < parts@.len() implies #[trigger] parts@[k]@ == pv[k] by {}
    }
    parts
}

/// A line that holds a configuration: anything besides whitespace.
pub open spec fn is_config(line: Seq<char>) -> bool {
    !is_blank(line)
}

/// How many of the lines `ls` hold a configuration.
pub open spec fn config_count(ls: Seq<Seq<char>>) -> nat
    decreases ls.len(),
{
    if ls.len() == 0 {
        0
    } else {
        (if is_config(ls[0]) {
            1nat
        } else {
            0nat
        }) + config_count(ls.drop_first())
    }
}

/// The number of configurations in `content`: its non-blank lines.
pub open spec fn configs_in(content: Seq<char>) -> nat {
    config_count(lines(content))
}

/// Whether `s[i..e]` is blank.
fn blank_between(s: &Vec<char>, i: usize, e: usize) -> (b: bool)
    requires
        i <= e <= s@.len(),
    ensures
        b == is_blank(s@.subrange(i as int, e as int)),
{
    let mut k: usize = i;
    while k < e
        invariant
            i <= k <= e <= s@.len(),
            forall|t: int| i <= t < k ==> is_ws(#[trigger] s@[t]),
        decreases e - k,
    {
        if !is_whitespace(s[k]) {
            assert(s@.subrange(i as int, e as int)[k - i] == s@[k as int]);
            return false;
        }
        k = k + 1;
    }
    assert forall|t: int| 0 <= t < e - i implies is_ws(#[trigger] s@.subrange(i as int, e as int)[t]) by {
        assert(s@.subrange(i as int, e as int)[t] == s@[i + t]);
    }
    true
}

/// Counts the configurations of `content`: lines that hold more than
/// whitespace.
pub fn count_configs(content: &str) -> (n: usize)
    ensures
        n == configs_in(content@),
{
    let s = crate::text::chars_of(content);
    let len = s.len();
    let mut i: usize = 0;
    let mut n: usize = 0;
    assert(s@.skip(0) == s@);
    while i < len
        invariant
            len == s@.len(),
            s@ == content@,
            i <= len,
            n <= i,
            configs_in(content@) == n + config_count(lines(s@.skip(i as int))),
        decreases len - i,
    {
        let e = line_end_from(&s, i);
        proof {
            lemma_lines_step(s@, i as int, e as int);
            assert(lines(s@.skip(i as int)).drop_first() == lines(s@.skip(e as int)));
        }
        if !blank_between(&s, i, e) {
            n = n + 1;
        }
        i = e;
    }
    assert(lines(s@.skip(len as int)) =~= Seq::<Seq<char>>::empty());
    n
}

/// Packs lines into parts by count: a configuration line starts a new part
/// when the current one already holds `max` configurations; blank lines
/// stay with the part before them.
pub open spec fn pack_by_configs(ls: Seq<Seq<char>>, cur: Seq<char>, n: nat, max: nat) -> Seq<
    Seq<char>,
>
    decreases ls.len(),
{
    if ls.len() == 0 {
        seq![cur]
    } else if is_config(ls[0]) && n >= max {
        seq![cur] + pack_by_configs(ls.drop_first(), ls[0], 1, max)
    } else {
        pack_by_configs(
            ls.drop_first(),
            cur + ls[0],
            n + if is_config(ls[0]) {
                1nat
            } else {
                0nat
            },
            max,
        )
    }
}

/// The parts that `split_by_config_count` cuts `content` into.
pub open spec fn split_by_configs(content: Seq<char>, max_per_file: nat) -> Seq<Seq<char>> {
    pack_by_configs(lines(content), seq![], 0, effective_limit(max_per_file))
}

/// Cuts `content` into parts of `max_per_file` configurations each (the
/// last part holds what remains) without breaking lines; the parts joined
/// give the content back.
pub fn split_by_config_count(content: &str, max_per_file: usize) -> (parts: Vec<String>)
    ensures
        views(parts@) == split_by_configs(content@, max_per_file as nat),
        concat(views(parts@)) == content@,
        forall|k: int|
            0 <= k < parts@.len() ==> configs_in(#[trigger] parts@[k]@) <= effective_limit(
                max_per_file as nat,
            ),
        forall|k: int|
            0 <= k < parts@.len() - 1 ==> configs_in(#[trigger] parts@[k]@) == effective_limit(
                max_per_file as nat,
            ),
        sum_configs(views(parts@)) == configs_in(content@),
        forall|k: int| 1 <= k < parts@.len() ==> configs_in(#[trigger] parts@[k]@) >= 1,
{
    let max: usize = if max_per_file == 0 { 1 } else { max_per_file };
    let s = crate::text::chars_of(content);
    let len = s.len();
    let mut parts: Vec<String> = Vec::new();
    let mut current: Vec<char> = Vec::new();
    let mut count: usize = 0;
    let mut i: usize = 0;
    let ghost target = split_by_configs(content@, max_per_file as nat);
    proof {
        assert(s@.skip(0) == s@);
        assert(views(parts@) =~= Seq::<Seq<char>>::empty());
        assert(Seq::<Seq<char>>::empty() + pack_by_configs(lines(s@), seq![], 0, max as nat)
            == pack_by_configs(lines(s@), seq![], 0, max as nat));
    }
    while i < len
        invariant
            len == s@.len(),
            s@ == content@,
            max as nat == effective_limit(max_per_file as nat),
            target == split_by_configs(content@, max_per_file as nat),
            i <= len,
            count <= max,
            target == views(parts@) + pack_by_configs(
                lines(s@.skip(i as int)),
                current@,
                count as nat,
                max as nat,
            ),
        decreases len - i,
    {
        let e = line_end_from(&s, i);
        proof {
            lemma_lines_step(s@, i as int, e as int);
        }
        let ghost line = s@.subrange(i as int, e as int);
        let ghost rest_lines = lines(s@.skip(e as int));
        assert(lines(s@.skip(i as int)).drop_first() == rest_lines);
        assert(lines(s@.skip(i as int))[0] == line);
        let config = !blank_between(&s, i, e);
        if config && count >= max {
            let ghost done = views(parts@);
            let ghost cur_view = current@;
            parts.push(string_of(&current));
            current = Vec::new();
            count = 0;
            proof {
                assert(views(parts@) =~= done.push(cur_view));
                assert(done + (seq![cur_view] + pack_by_configs(rest_lines, line, 1, max as nat))
                    =~= done.push(cur_view) + pack_by_configs(rest_lines, line, 1, max as nat));
                assert(current@ + line =~= line);
            }
        }
        let mut k: usize = i;
        let ghost before = current@;
        while k < e
            invariant
                i <= k <= e <= len,
                len == s@.len(),
                current@ == before + s@.subrange(i as int, k as int),
            decreases e - k,
        {
            current.push(s[k]);
            assert(s@.subrange(i as int, k + 1) == s@.subrange(i as int, k as int).push(s@[k as int]));
            k = k + 1;
        }
        if config {
            count = count + 1;
        }
        i = e;
    }
    assert(lines(s@.skip(len as int)) =~= Seq::<Seq<char>>::empty());
    let ghost done = views(parts@);
    let ghost cur_view = current@;
    parts.push(string_of(&current));
    assert(views(parts@) =~= done.push(cur_view));
    proof {
        let pv = views(parts@);
        assert(pv == target);
        assert(target == pack_by_configs(lines(content@), seq![], 0, max as nat));
        lemma_pack_by_configs_concat(lines(content@), seq![], 0, max as nat);
        lemma_concat_lines(content@);
        assert(concat(pv) == Seq::<char>::empty() + concat(lines(content@)));
        assert(Seq::<char>::empty() + content@ == content@);
        lemma_lines_shape(content@);
        assert(lines(Seq::<char>::empty()) =~= Seq::<Seq<char>>::empty());
        lemma_pack_by_configs_counts(lines(content@), seq![], 0, max as nat);
        assert forall|k: int| 0 <= k < parts@.len() implies configs_in(#[trigger] parts@[k]@)
            <= effective_limit(max_per_file as nat) by {
            assert(pv[k] == parts@[k]@);
        }
        assert forall|k: int| 0 <= k < parts@.len() - 1 implies configs_in(#[trigger] parts@[k]@)
            == effective_limit(max_per_file as nat) by {
            assert(pv[k] == parts@[k]@);
        }
        lemma_pack_by_configs_sum(lines(content@), seq![], 0, max as nat);
        assert(configs_in(Seq::<char>::empty()) == 0);
        assert forall|k: int| 1 <= k < parts@.len() implies configs_in(#[trigger] parts@[k]@) >= 1 by {
            assert(pv[k] == parts@[k]@);
        }
    }
    parts
}

/// A line that ends with `'\n'` ends the first line of anything it starts.
proof fn lemma_line_end_prefix(a: Seq<char>, b: Seq<char>)
    requires
        a.len() > 0,
        a.last() == '\n',
    ensures
        line_end(a + b) == line_end(a),
        line_end(a) <= a.len(),
    decreases a.len(),
{
    lemma_line_end_bounds(a);
    if a[0] != '\n' {
        assert(a.len() >= 2);
        assert(a.drop_first().last() == '\n');
        assert((a + b).drop_first() == a.drop_first() + b);
        lemma_line_end_prefix(a.drop_first(), b);
    }
}

/// Only the last line may lack its `'\n'`, and every line is a whole line.
pub proof fn lemma_lines_shape(s: Seq<char>)
    ensures
        forall|k: int|
            0 <= k < lines(s).len() ==> (#[trigger] lines(s)[k]).len() > 0 && line_end(
                lines(s)[k],
            ) == lines(s)[k].len(),
        forall|k: int| 0 <= k < lines(s).len() - 1 ==> (#[trigger] lines(s)[k]).last() == '\n',
    decreases s.len(),
{
    if s.len() > 0 {
        lemma_line_end_bounds(s);
        let e = line_end(s) as int;
        let t = s.take(e);
        lemma_line_end_take(s);
        lemma_lines_shape(s.skip(e));
        let rest = lines(s.skip(e));
        assert(lines(s) == seq![t] + rest);
        if e < s.len() {
            lemma_line_end_newline(s);
        } else {
            assert(s.skip(e).len() == 0);
        }
        assert forall|k: int| 0 <= k < lines(s).len() implies (#[trigger] lines(s)[k]).len() > 0
            && line_end(lines(s)[k]) == lines(s)[k].len() by {
            if k > 0 {
                assert(lines(s)[k] == rest[k - 1]);
            }
        }
        assert forall|k: int| 0 <= k < lines(s).len() - 1 implies (#[trigger] lines(s)[k]).last()
            == '\n' by {
            if k > 0 {
                assert(lines(s)[k] == rest[k - 1]);
            } else {
                assert(s.skip(e).len() > 0);
            }
        }
    }
}

/// The first line of `s` is a whole line.
proof fn lemma_line_end_take(s: Seq<char>)
    ensures
        line_end(s.take(line_end(s) as int)) == line_end(s),
    decreases s.len(),
{
    lemma_line_end_bounds(s);
    if s.len() > 0 && s[0] != '\n' {
        lemma_line_end_take(s.drop_first());
        lemma_line_end_bounds(s.drop_first());
        assert(s.take(line_end(s) as int).drop_first() == s.drop_first().take(
            line_end(s.drop_first()) as int,
        ));
    }
}

/// A first line shorter than `s` ends with `'\n'`.
proof fn lemma_line_end_newline(s: Seq<char>)
    requires
        line_end(s) < s.len(),
    ensures
        line_end(s) >= 1,
        s[line_end(s) - 1] == '\n',
    decreases s.len(),
{
    lemma_line_end_bounds(s);
    if s[0] != '\n' {
        lemma_line_end_newline(s.drop_first());
    }
}

/// Appending a whole line after text that ends a line adds just that line.
pub proof fn lemma_lines_append(cur: Seq<char>, l: Seq<char>)
    requires
        cur.len() == 0 || cur.last() == '\n',
        l.len() > 0,
        line_end(l) == l.len(),
    ensures
        lines(cur + l) == lines(cur).push(l),
    decreases cur.len(),
{
    if cur.len() == 0 {
        assert(cur + l == l);
        assert(l.take(l.len() as int) == l);
        assert(l.skip(l.len() as int).len() == 0);
        assert(lines(l.skip(l.len() as int)) =~= Seq::<Seq<char>>::empty());
        assert(lines(cur) =~= Seq::<Seq<char>>::empty());
        assert(lines(l) =~= seq![l]);
    } else {
        lemma_line_end_prefix(cur, l);
        lemma_line_end_bounds(cur);
        let e = line_end(cur) as int;
        let rest = cur.skip(e);
        assert((cur + l).take(e) == cur.take(e));
        assert((cur + l).skip(e) == rest + l);
        if rest.len() > 0 {
            assert(rest.last() == cur.last());
        }
        lemma_lines_append(rest, l);
        assert(lines(cur + l) == seq![cur.take(e)] + lines(rest + l));
        assert(lines(cur) == seq![cur.take(e)] + lines(rest));
        assert(seq![cur.take(e)] + lines(rest).push(l) == (seq![cur.take(e)] + lines(rest)).push(l));
    }
}

/// Counting over one more line.
proof fn lemma_config_count_push(ls: Seq<Seq<char>>, l: Seq<char>)
    ensures
        config_count(ls.push(l)) == config_count(ls) + if is_config(l) {
            1nat
        } else {
            0nat
        },
    decreases ls.len(),
{
    if ls.len() > 0 {
        assert(ls.push(l).drop_first() == ls.drop_first().push(l));
        assert(ls.push(l)[0] == ls[0]);
        lemma_config_count_push(ls.drop_first(), l);
    } else {
        assert(ls.push(l).drop_first() =~= Seq::<Seq<char>>::empty());
        assert(ls.push(l)[0] == l);
        assert(config_count(Seq::<Seq<char>>::empty()) == 0);
    }
}

/// A whole line holds one configuration or none.
proof fn lemma_configs_in_line(l: Seq<char>)
    requires
        l.len() > 0,
        line_end(l) == l.len(),
    ensures
        configs_in(l) == if is_config(l) {
            1nat
        } else {
            0nat
        },
{
    lemma_lines_append(Seq::<char>::empty(), l);
    assert(Seq::<char>::empty() + l == l);
    assert(lines(Seq::<char>::empty()) =~= Seq::<Seq<char>>::empty());
    lemma_config_count_push(Seq::<Seq<char>>::empty(), l);
    assert(Seq::<Seq<char>>::empty().push(l) == seq![l]);
}

/// Lines that can follow one another in some text: whole lines, all but the
/// last ending with `'\n'`.
pub open spec fn well_formed_lines(ls: Seq<Seq<char>>) -> bool {
    &&& forall|k: int|
        0 <= k < ls.len() ==> (#[trigger] ls[k]).len() > 0 && line_end(ls[k]) == ls[k].len()
    &&& forall|k: int| 0 <= k < ls.len() - 1 ==> (#[trigger] ls[k]).last() == '\n'
}

/// Every part packed holds at most `max` configurations, and every part but
/// the last holds exactly `max`.
pub proof fn lemma_pack_by_configs_counts(ls: Seq<Seq<char>>, cur: Seq<char>, n: nat, max: nat)
    requires
        max >= 1,
        n <= max,
        configs_in(cur) == n,
        well_formed_lines(ls),
        ls.len() > 0 ==> cur.len() == 0 || cur.last() == '\n',
    ensures
        forall|k: int|
            0 <= k < pack_by_configs(ls, cur, n, max).len() ==> configs_in(
                #[trigger] pack_by_configs(ls, cur, n, max)[k],
            ) <= max,
        forall|k: int|
            0 <= k < pack_by_configs(ls, cur, n, max).len() - 1 ==> configs_in(
                #[trigger] pack_by_configs(ls, cur, n, max)[k],
            ) == max,
    decreases ls.len(),
{
    let out = pack_by_configs(ls, cur, n, max);
    if ls.len() == 0 {
        assert(out == seq![cur]);
    } else {
        let l = ls[0];
        let rest = ls.drop_first();
        assert(l.len() > 0 && line_end(l) == l.len());
        assert(well_formed_lines(rest)) by {
            assert forall|k: int| 0 <= k < rest.len() implies (#[trigger] rest[k]).len() > 0
                && line_end(rest[k]) == rest[k].len() by {
                assert(rest[k] == ls[k + 1]);
            }
            assert forall|k: int| 0 <= k < rest.len() - 1 implies (#[trigger] rest[k]).last()
                == '\n' by {
                assert(rest[k] == ls[k + 1]);
            }
        }
        if rest.len() > 0 {
            assert(l.last() == '\n');
        }
        lemma_configs_in_line(l);
        if is_config(l) && n >= max {
            lemma_pack_by_configs_counts(rest, l, 1, max);
            let tail = pack_by_configs(rest, l, 1, max);
            assert(out == seq![cur] + tail);
            assert forall|k: int| 0 <= k < out.len() implies configs_in(#[trigger] out[k]) <= max by {
                if k > 0 {
                    assert(out[k] == tail[k - 1]);
                }
            }
            assert forall|k: int| 0 <= k < out.len() - 1 implies configs_in(#[trigger] out[k])
                == max by {
                if k > 0 {
                    assert(out[k] == tail[k - 1]);
                }
            }
        } else {
            let c: nat = if is_config(l) {
                1nat
            } else {
                0nat
            };
            lemma_lines_append(cur, l);
            lemma_config_count_push(lines(cur), l);
            assert(configs_in(cur + l) == n + c);
            if rest.len() > 0 {
                assert((cur + l).last() == l.last());
            }
            lemma_pack_by_configs_counts(rest, cur + l, n + c, max);
            assert(out == pack_by_configs(rest, cur + l, n + c, max));
        }
    }
}

/// Packing by count loses and reorders nothing.
pub proof fn lemma_pack_by_configs_concat(ls: Seq<Seq<char>>, cur: Seq<char>, n: nat, max: nat)
    ensures
        concat(pack_by_configs(ls, cur, n, max)) == cur + concat(ls),
    decreases ls.len(),
{
    if ls.len() == 0 {
        lemma_concat_cons(cur, seq![]);
        assert(seq![cur] == seq![cur] + Seq::<Seq<char>>::empty());
        assert(concat(Seq::<Seq<char>>::empty()) == Seq::<char>::empty());
        assert(cur + Seq::<char>::empty() == cur);
    } else {
        let c: nat = if is_config(ls[0]) {
            1nat
        } else {
            0nat
        };
        lemma_pack_by_configs_concat(ls.drop_first(), ls[0], 1, max);
        lemma_pack_by_configs_concat(ls.drop_first(), cur + ls[0], n + c, max);
        lemma_concat_cons(ls[0], ls.drop_first());
        assert(ls == seq![ls[0]] + ls.drop_first());
        if is_config(ls[0]) && n >= max {
            lemma_concat_cons(cur, pack_by_configs(ls.drop_first(), ls[0], 1, max));
        }
        assert(cur + ls[0] + concat(ls.drop_first()) == cur + (ls[0] + concat(ls.drop_first())));
    }
}

/// The configurations of all parts together.
pub open spec fn sum_configs(ps: Seq<Seq<char>>) -> nat
    decreases ps.len(),
{
    if ps.len() == 0 {
        0
    } else {
        configs_in(ps[0]) + sum_configs(ps.drop_first())
    }
}

/// Packing by count keeps every configuration: the parts hold the current
/// part's configurations and those of the lines; the first part holds at
/// least the current part's, and every later part starts with one.
pub proof fn lemma_pack_by_configs_sum(ls: Seq<Seq<char>>, cur: Seq<char>, n: nat, max: nat)
    requires
        max >= 1,
        configs_in(cur) == n,
        well_formed_lines(ls),
        ls.len() > 0 ==> cur.len() == 0 || cur.last() == '\n',
    ensures
        sum_configs(pack_by_configs(ls, cur, n, max)) == n + config_count(ls),
        configs_in(pack_by_configs(ls, cur, n, max)[0]) >= n,
        forall|k: int|
            1 <= k < pack_by_configs(ls, cur, n, max).len() ==> configs_in(
                #[trigger] pack_by_configs(ls, cur, n, max)[k],
            ) >= 1,
    decreases ls.len(),
{
    let out = pack_by_configs(ls, cur, n, max);
    if ls.len() == 0 {
        assert(out == seq![cur]);
        assert(out.drop_first().len() == 0);
        assert(sum_configs(out.drop_first()) == 0);
    } else {
        let l = ls[0];
        let rest = ls.drop_first();
        assert(l.len() > 0 && line_end(l) == l.len());
        assert(well_formed_lines(rest)) by {
            assert forall|k: int| 0 <= k < rest.len() implies (#[trigger] rest[k]).len() > 0
                && line_end(rest[k]) == rest[k].len() by {
                assert(rest[k] == ls[k + 1]);
            }
            assert forall|k: int| 0 <= k < rest.len() - 1 implies (#[trigger] rest[k]).last()
                == '\n' by {
                assert(rest[k] == ls[k + 1]);
            }
        }
        if rest.len() > 0 {
            assert(l.last() == '\n');
        }
        lemma_configs_in_line(l);
        if is_config(l) && n >= max {
            lemma_pack_by_configs_sum(rest, l, 1, max);
            let tail = pack_by_configs(rest, l, 1, max);
            assert(out == seq![cur] + tail);
            assert(out[0] == cur);
            assert(out.drop_first() == tail);
            assert forall|k: int| 1 <= k < out.len() implies configs_in(#[trigger] out[k]) >= 1 by {
                assert(out[k] == tail[k - 1]);
            }
        } else {
            let c: nat = if is_config(l) {
                1nat
            } else {
                0nat
            };
            lemma_lines_append(cur, l);
            lemma_config_count_push(lines(cur), l);
            assert(configs_in(cur + l) == n + c);
            if rest.len() > 0 {
                assert((cur + l).last() == l.last());
            }
            lemma_pack_by_configs_sum(rest, cur + l, n + c, max);
            assert(out == pack_by_configs(rest, cur + l, n + c, max));
        }
    }
}

/// Parts that all hold `m` configurations but the last hold `m` for each of
/// them and the last one's besides.
pub proof fn lemma_sum_configs_uniform(ps: Seq<Seq<char>>, m: nat)
    requires
        ps.len() >= 1,
        forall|k: int| 0 <= k < ps.len() - 1 ==> configs_in(#[trigger] ps[k]) == m,
    ensures
        sum_configs(ps) == (ps.len() - 1) * m + configs_in(ps.last()),
    decreases ps.len(),
{
    let rest = ps.drop_first();
    if ps.len() == 1 {
        assert(rest.len() == 0);
        assert(sum_configs(rest) == 0);
        assert(ps.last() == ps[0]);
    } else {
        assert forall|k: int| 0 <= k < rest.len() - 1 implies configs_in(#[trigger] rest[k]) == m by {
            assert(rest[k] == ps[k + 1]);
        }
        lemma_sum_configs_uniform(rest, m);
        assert(rest.last() == ps.last());
        assert(configs_in(ps[0]) == m);
        let j = rest.len() - 1;
        assert(m + j * m == (j + 1) * m) by (nonlinear_arith);
    }
}

/// The file name of part `index` of `id`: `{id}-{index}.txt`.
pub open spec fn part_name(id: Seq<char>, index: nat) -> Seq<char> {
    id + seq!['-'] + decimal(index) + seq!['.', 't', 'x', 't']
}

/// The file name of a part: `{id}-{index}.txt` (parts are numbered from 1).
pub fn part_file_name(id: &str, index: usize) -> (name: String)
    ensures
        name@ == part_name(id@, index as nat),
{
    let mut name = String::new();
    crate::text::push_chars(&mut name, &crate::text::chars_of(id));
    push_char(&mut name, '-');
    push_decimal(&mut name, index);
    push_char(&mut name, '.');
    push_char(&mut name, 't');
    push_char(&mut name, 'x');
    push_char(&mut name, 't');
    assert(name@ =~= part_name(id@, index as nat));
    name
}

/// The index of the last `'.'` in `name`, if any.
pub open spec fn last_dot(name: Seq<char>) -> Option<int>
    decreases name.len(),
{
    if name.len() == 0 {
        None
    } else if name.last() == '.' {
        Some(name.len() - 1)
    } else {
        last_dot(name.drop_last())
    }
}

/// The last dot lies inside the name.
proof fn lemma_last_dot_range(name: Seq<char>)
    ensures
        last_dot(name) matches Some(i) ==> 0 <= i < name.len(),
    decreases name.len(),
{
    if name.len() > 0 && name.last() != '.' {
        lemma_last_dot_range(name.drop_last());
    }
}

/// The stem and extension of a file name, as `Path::file_stem` and
/// `Path::extension` split it: at the last `'.'`, unless that dot starts the
/// name (or the name is `".."`), in which case there is no extension.
pub open spec fn stem_and_extension(name: Seq<char>) -> (Seq<char>, Option<Seq<char>>) {
    if name == seq!['.', '.'] {
        (name, None)
    } else {
        match last_dot(name) {
            None => (name, None),
            Some(i) => if i == 0 {
                (name, None)
            } else {
                (name.take(i), Some(name.skip(i + 1)))
            },
        }
    }
}

/// The index of the last `'.'` in `name`.
fn find_last_dot(name: &Vec<char>) -> (r: Option<usize>)
    ensures
        match last_dot(name@) {
            None => r is None,
            Some(i) => r == Some(i as usize),
        },
        r matches Some(i) ==> i < name@.len(),
{
    let mut j: usize = name.len();
    assert(name@.take(name@.len() as int) == name@);
    while j > 0 && name[j - 1] != '.'
        invariant
            j <= name@.len(),
            last_dot(name@) == last_dot(name@.take(j as int)),
        decreases j,
    {
        assert(name@.take(j as int).drop_last() == name@.take(j - 1));
        j = j - 1;
    }
    if j == 0 {
        assert(name@.take(0).len() == 0);
        None
    } else {
        assert(name@.take(j as int).last() == '.');
        Some(j - 1)
    }
}

/// A copy of `v`.
fn copy_chars(v: &Vec<char>) -> (r: Vec<char>)
    ensures
        r@ == v@,
{
    let mut r: Vec<char> = Vec::new();
    for i in 0..v.len()
        invariant
            r@ == v@.take(i as int),
    {
        r.push(v[i]);
        assert(v@.take(i + 1) == v@.take(i as int).push(v@[i as int]));
    }
    assert(v@.take(v@.len() as int) == v@);
    r
}

/// The stem and extension of the file name `name`.
pub fn split_extension(name: &Vec<char>) -> (r: (Vec<char>, Option<Vec<char>>))
    ensures
        r.0@ == stem_and_extension(name@).0,
        match stem_and_extension(name@).1 {
            None => r.1 is None,
            Some(e) => r.1 matches Some(v) && v@ == e,
        },
{
    if name.len() == 2 && name[0] == '.' && name[1] == '.' {
        assert(name@ =~= seq!['.', '.']);
        return (copy_chars(name), None);
    }
    assert(name@ != seq!['.', '.']);
    proof {
        lemma_last_dot_range(name@);
    }
    match find_last_dot(name) {
        None => (copy_chars(name), None),
        Some(i) => {
            if i == 0 {
                (copy_chars(name), None)
            } else {
                let mut stem: Vec<char> = Vec::new();
                let mut ext: Vec<char> = Vec::new();
                let mut k: usize = 0;
                assert(stem@ =~= name@.take(0));
                assert(ext@ =~= name@.subrange(i + 1, i + 1));
                while k < name.len()
                    invariant
                        i < name@.len(),
                        k <= name@.len(),
                        stem@ == name@.take(if k <= i { k as int } else { i as int }),
                        ext@ == name@.subrange(i + 1, if k <= i + 1 { i + 1 } else { k as int }),
                    decreases name@.len() - k,
                {
                    if k < i {
                        stem.push(name[k]);
                        assert(name@.take(k + 1) == name@.take(k as int).push(name@[k as int]));
                    } else if k > i {
                        ext.push(name[k]);
                        assert(name@.subrange(i + 1, k + 1) == name@.subrange(i + 1, k as int).push(
                            name@[k as int],
                        ));
                    }
                    k = k + 1;
                }
                assert(ext@ == name@.skip(i + 1));
                (stem, Some(ext))
            }
        },
    }
}

/// Whether `s` holds the character `c`.
pub open spec fn has_char(s: Seq<char>, c: char) -> bool {
    exists|i: int| 0 <= i < s.len() && s[i] == c
}

/// Whether `s` holds `c`.
fn holds_char(s: &Vec<char>, c: char) -> (b: bool)
    ensures
        b == has_char(s@, c),
{
    for i in 0..s.len()
        invariant
            forall|j: int| 0 <= j < i ==> s@[j] != c,
    {
        if s[i] == c {
            return true;
        }
    }
    false
}

/// A `.txt` file whose stem holds no `'-'`: an unsplit `{id}.txt`, not a
/// part `{id}-{n}.txt`.
pub open spec fn is_whole_output_name(name: Seq<char>) -> bool {
    let (stem, ext) = stem_and_extension(name);
    &&& ext == Some(seq!['t', 'x', 't'])
    &&& !has_char(stem, '-')
}

/// Whether `name` is an unsplit `{id}.txt` (not an already split part).
pub fn is_whole_output_file(name: &str) -> (b: bool)
    ensures
        b == is_whole_output_name(name@),
{
    let chars = crate::text::chars_of(name);
    let (stem, ext) = split_extension(&chars);
    let txt_ext = match ext {
        Some(e) => {
            let r = e.len() == 3 && e[0] == 't' && e[1] == 'x' && e[2] == 't';
            assert(r <==> e@ == seq!['t', 'x', 't']) by {
                if e@ == seq!['t', 'x', 't'] {
                    assert(e@[0] == 't' && e@[1] == 'x' && e@[2] == 't');
                }
                if r {
                    assert(e@ =~= seq!['t', 'x', 't']);
                }
            }
            r
        },
        None => false,
    };
    txt_ext && !holds_char(&stem, '-')
}

/// The names of the files to split: unsplit `{id}.txt` files (not parts)
/// larger than `max_bytes`, in the order of `entries`.
pub open spec fn large_names(es: Seq<(Seq<char>, u64)>, max_bytes: u64) -> Seq<Seq<char>>
    decreases es.len(),
{
    if es.len() == 0 {
        seq![]
    } else {
        let rest = large_names(es.drop_last(), max_bytes);
        let e = es.last();
        if is_whole_output_name(e.0) && e.1 > max_bytes {
            rest.push(e.0)
        } else {
            rest
        }
    }
}

/// A name is picked for splitting exactly when some entry of that name is
/// an unsplit `{id}.txt` file of more than `max_bytes` bytes.
pub proof fn lemma_large_names_members(es: Seq<(Seq<char>, u64)>, max_bytes: u64, name: Seq<char>)
    ensures
        large_names(es, max_bytes).contains(name) <==> exists|j: int|
            0 <= j < es.len() && (#[trigger] es[j]).0 == name && is_whole_output_name(name)
                && es[j].1 > max_bytes,
    decreases es.len(),
{
    if es.len() > 0 {
        let init = es.drop_last();
        let rest = large_names(init, max_bytes);
        lemma_large_names_members(init, max_bytes, name);
        let e = es.last();
        if exists|j: int|
            0 <= j < init.len() && (#[trigger] init[j]).0 == name && is_whole_output_name(name)
                && init[j].1 > max_bytes {
            let j = choose|j: int|
                0 <= j < init.len() && (#[trigger] init[j]).0 == name && is_whole_output_name(name)
                    && init[j].1 > max_bytes;
            assert(es[j] == init[j]);
        }
        if exists|j: int|
            0 <= j < es.len() && (#[trigger] es[j]).0 == name && is_whole_output_name(name)
                && es[j].1 > max_bytes {
            let j = choose|j: int|
                0 <= j < es.len() && (#[trigger] es[j]).0 == name && is_whole_output_name(name)
                    && es[j].1 > max_bytes;
            if j < es.len() - 1 {
                assert(init[j] == es[j]);
            } else {
                assert(e == es[j]);
            }
        }
        if is_whole_output_name(e.0) && e.1 > max_bytes {
            assert(rest.push(e.0)[rest.len() as int] == e.0);
            assert(forall|x: Seq<char>| rest.contains(x) ==> rest.push(e.0).contains(x)) by {
                assert forall|x: Seq<char>| rest.contains(x) implies rest.push(e.0).contains(x) by {
                    let k = choose|k: int| 0 <= k < rest.len() && rest[k] == x;
                    assert(rest.push(e.0)[k] == x);
                }
            }
            if rest.push(e.0).contains(name) && name != e.0 {
                let k = choose|k: int| 0 <= k < rest.len() + 1 && rest.push(e.0)[k] == name;
                assert(k < rest.len());
                assert(rest[k] == name);
            }
            if name == e.0 {
                assert(es[es.len() - 1] == e);
            }
        } else {
            if name == e.0 && is_whole_output_name(name) && e.1 > max_bytes {
                assert(false);
            }
        }
    }
}

/// A directory entry as plain values: its name and size.
pub open spec fn entry_view(e: (String, u64)) -> (Seq<char>, u64) {
    (e.0@, e.1)
}

/// Picks, from the entries `(file name, size)` of an output directory, the
/// unsplit `{id}.txt` files larger than `max_bytes`, sorted by name.
pub fn select_large_files(entries: Vec<(String, u64)>, max_bytes: u64) -> (names: Vec<String>)
    ensures
        views(names@).to_multiset() == large_names(
            entries@.map_values(|e: (String, u64)| entry_view(e)),
            max_bytes,
        ).to_multiset(),
        sorted_by_order(views(names@), |a: Seq<char>, b: Seq<char>| lex_order(a, b)),
        large_names(entries@.map_values(|e: (String, u64)| entry_view(e)), max_bytes).no_duplicates()
            ==> strictly_sorted(views(names@), |a: Seq<char>, b: Seq<char>| lex_order(a, b)),
        forall|k: int|
            0 <= k < names@.len() ==> exists|j: int|
                0 <= j < entries@.len() && (#[trigger] entries@[j]).0@ == (#[trigger] names@[k])@
                    && entries@[j].1 > max_bytes && is_whole_output_name(entries@[j].0@),
        forall|j: int|
            0 <= j < entries@.len() && is_whole_output_name((#[trigger] entries@[j]).0@)
                && entries@[j].1 > max_bytes ==> views(names@).contains(entries@[j].0@),
{
    let ghost es = entries@.map_values(|e: (String, u64)| entry_view(e));
    let n = entries.len();
    let mut rest = entries;
    let mut picked: Vec<String> = Vec::new();
    let mut i: usize = 0;
    proof {
        assert(es.take(0) =~= Seq::<(Seq<char>, u64)>::empty());
        assert(views(picked@) =~= large_names(es.take(0), max_bytes));
        assert(rest@.map_values(|e: (String, u64)| entry_view(e)) =~= es.skip(0));
    }
    while rest.len() > 0
        invariant
            es.len() == n,
            i + rest@.len() == n,
            rest@.map_values(|e: (String, u64)| entry_view(e)) == es.skip(int_of(i)),
            views(picked@) == large_names(es.take(int_of(i)), max_bytes),
        decreases rest.len(),
    {
        let ghost prior = rest@;
        let (name, size) = rest.remove(0);
        proof {
            assert(rest@ == prior.drop_first());
            let rv = rest@.map_values(|e: (String, u64)| entry_view(e));
            let pv = prior.map_values(|e: (String, u64)| entry_view(e));
            assert forall|k: int| 0 <= k < rv.len() implies rv[k] == es.skip(int_of(i) + 1)[k] by {
                assert(rv[k] == entry_view(prior[k + 1]));
                assert(pv[k + 1] == entry_view(prior[k + 1]));
                assert(pv[k + 1] == es.skip(int_of(i))[k + 1]);
            }
            assert(rv =~= es.skip(int_of(i) + 1));
            assert(pv[0] == es[int_of(i)]);
            assert(es.take(int_of(i) + 1).drop_last() == es.take(int_of(i)));
            assert(es.take(int_of(i) + 1).last() == es[int_of(i)]);
        }
        if is_whole_output_file(name.as_str()) && size > max_bytes {
            let ghost before = views(picked@);
            picked.push(name);
            assert(views(picked@) =~= before.push(es[int_of(i)].0));
        }
        i = i + 1;
    }
    assert(es.take(int_of(i)) =~= es);
    let names = sort_lexicographic(picked);
    proof {
        broadcast use vstd::seq_lib::group_to_multiset_ensures;

        let l = large_names(es, max_bytes);
        assert forall|k: int| 0 <= k < names@.len() implies exists|j: int|
            0 <= j < entries@.len() && (#[trigger] entries@[j]).0@ == (#[trigger] names@[k])@
                && entries@[j].1 > max_bytes && is_whole_output_name(entries@[j].0@) by {
            let nm = names@[k]@;
            assert(views(names@)[k] == nm);
            assert(views(names@).to_multiset().count(nm) > 0);
            assert(l.contains(nm));
            lemma_large_names_members(es, max_bytes, nm);
            let j = choose|j: int|
                0 <= j < es.len() && (#[trigger] es[j]).0 == nm && is_whole_output_name(nm)
                    && es[j].1 > max_bytes;
            assert(es[j] == entry_view(entries@[j]));
        }
        assert forall|j: int|
            0 <= j < entries@.len() && is_whole_output_name((#[trigger] entries@[j]).0@)
                && entries@[j].1 > max_bytes implies views(names@).contains(entries@[j].0@) by {
            let nm = entries@[j].0@;
            assert(es[j] == entry_view(entries@[j]));
            lemma_large_names_members(es, max_bytes, nm);
            assert(l.contains(nm));
            assert(l.to_multiset().count(nm) > 0);
        }
    }
    names
}

/// Whether a file of `size` bytes exceeds the part limit `max_bytes`.
pub fn needs_split(size: u64, max_bytes: usize) -> (b: bool)
    ensures
        b == (size > max_bytes),
{
    size > max_bytes as u64
}

/// The id of a file: the stem of its name, or `"output"` when it has no name.
pub open spec fn file_id(file_name: Option<Seq<char>>) -> Seq<char> {
    match file_name {
        Some(name) => stem_and_extension(name).0,
        None => seq!['o', 'u', 't', 'p', 'u', 't'],
    }
}

/// The parts that a large file `{id}.txt` is split into: for part `k` (from
/// 0) the file name `{id}-{k+1}.txt` and its content, cut from `content`
/// by `split_content` with the limit `max_bytes`.
pub fn plan_file_split(file_name: Option<&str>, content: &str, max_bytes: usize) -> (parts: Vec<
    (String, String),
>)
    ensures
        parts@.len() == split_by_bytes(content@, max_bytes as nat).len(),
        forall|k: int|
            0 <= k < parts@.len() ==> (#[trigger] parts@[k]).0@ == part_name(
                file_id(
                    match file_name {
                        Some(n) => Some(n@),
                        None => None,
                    },
                ),
                (k + 1) as nat,
            ) && parts@[k].1@ == split_by_bytes(content@, max_bytes as nat)[k],
        concat(parts@.map_values(|p: (String, String)| p.1@)) == content@,
{
    let ghost fname = match file_name {
        Some(n) => Some(n@),
        None => None,
    };
    let id: Vec<char> = match file_name {
        Some(n) => {
            let (stem, _ext) = split_extension(&crate::text::chars_of(n));
            stem
        },
        None => {
            let v: Vec<char> = vec!['o', 'u', 't', 'p', 'u', 't'];
            assert(v@ =~= seq!['o', 'u', 't', 'p', 'u', 't']);
            v
        },
    };
    assert(id@ == file_id(fname));
    let id_text = string_of(&id);
    let chunks = split_content(content, max_bytes);
    let ghost target = split_by_bytes(content@, max_bytes as nat);
    let mut parts: Vec<(String, String)> = Vec::new();
    let mut rest = chunks;
    let mut k: usize = 0;
    let total = rest.len();
    assert(views(rest@) == target.skip(0));
    while rest.len() > 0
        invariant
            total == target.len(),
            k + rest@.len() == total,
            id_text@ == file_id(fname),
            views(rest@) == target.skip(k as int),
            parts@.len() == k,
            forall|j: int|
                0 <= j < k ==> (#[trigger] parts@[j]).0@ == part_name(file_id(fname), (j + 1) as nat)
                    && parts@[j].1@ == target[j],
        decreases rest.len(),
    {
        let ghost prior = rest@;
        let chunk = rest.remove(0);
        proof {
            assert(rest@ == prior.drop_first());
            assert(views(prior)[0] == chunk@);
            assert forall|j: int| 0 <= j < views(rest@).len() implies views(rest@)[j] == target.skip(
                k + 1,
            )[j] by {
                assert(views(rest@)[j] == rest@[j]@);
                assert(views(prior)[j + 1] == prior[j + 1]@);
                assert(views(prior)[j + 1] == target.skip(k as int)[j + 1]);
            }
            assert(views(rest@) =~= target.skip(k + 1));
        }
        let name = part_file_name(id_text.as_str(), k + 1);
        parts.push((name, chunk));
        k = k + 1;
    }
    proof {
        assert(parts@.map_values(|p: (String, String)| p.1@) =~= target);
    }
    parts
}

/// `stem.txt` splits into `stem` and the extension `txt`.
pub proof fn lemma_txt_name(stem: Seq<char>)
    requires
        stem.len() > 0,
    ensures
        stem_and_extension(stem + seq!['.', 't', 'x', 't']) == (stem, Some(seq!['t', 'x', 't'])),
{
    let n = stem + seq!['.', 't', 'x', 't'];
    assert(n.len() >= 5);
    assert(n != seq!['.', '.']) by {
        if n == seq!['.', '.'] {
            assert(n.len() == 2);
        }
    }
    let n3 = n.drop_last();
    let n2 = n3.drop_last();
    let n1 = n2.drop_last();
    assert(n.last() == 't' && n3.last() == 'x' && n2.last() == 't' && n1.last() == '.');
    assert(n1.len() == stem.len() + 1);
    assert(last_dot(n1) == Some(stem.len() as int));
    assert(last_dot(n2) == last_dot(n1));
    assert(last_dot(n3) == last_dot(n2));
    assert(last_dot(n) == last_dot(n3));
    assert(n.take(stem.len() as int) == stem);
    assert(n.skip(stem.len() as int + 1) == seq!['t', 'x', 't']);
}

/// A part `{id}-{n}.txt` is never taken for splitting again, while an
/// unsplit `{id}.txt` is when its id holds no `'-'`.
pub proof fn lemma_parts_not_resplit(id: Seq<char>, index: nat)
    requires
        id.len() > 0,
    ensures
        !is_whole_output_name(part_name(id, index)),
        !has_char(id, '-') ==> is_whole_output_name(id + seq!['.', 't', 'x', 't']),
{
    let stem = id + seq!['-'] + decimal(index);
    assert(part_name(id, index) == stem + seq!['.', 't', 'x', 't']);
    lemma_txt_name(stem);
    assert(stem[id.len() as int] == '-');
    assert(has_char(stem, '-'));
    lemma_txt_name(id);
}

} // verus!
