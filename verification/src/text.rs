//! Character-level helpers shared by the other modules: whitespace, trimming,
//! decimal numbers, UTF-8 byte lengths and substring search.

use vstd::prelude::*;
use vstd::utf8::*;

verus! {

broadcast use vstd::string::group_string_axioms;

/// The text of each string.
pub open spec fn views(parts: Seq<String>) -> Seq<Seq<char>> {
    parts.map_values(|p: String| p@)
}

/// `n` as a mathematical integer.
pub open spec fn int_of(n: usize) -> int {
    n as int
}

/// Appends one character to a `String` (`String::push`).
#[verifier::external_body]
pub(crate) fn push_char(s: &mut String, c: char)
    ensures
        final(s)@ == old(s)@.push(c),
{
    s.push(c);
}

/// The characters of `s`, in order.
pub fn chars_of(s: &str) -> (res: Vec<char>)
    ensures
        res@ == s@,
{
    let mut res: Vec<char> = Vec::new();
    for c in it: s.chars()
        invariant
            res@ == it.seq().take(it.index() as int),
    {
        res.push(c);
    }
    res
}

/// A `String` holding exactly the given characters.
pub fn string_of(chars: &Vec<char>) -> (res: String)
    ensures
        res@ == chars@,
{
    let mut res = String::new();
    for i in 0..chars.len()
        invariant
            res@ == chars@.take(i as int),
    {
        push_char(&mut res, chars[i]);
        assert(chars@.take(i + 1) == chars@.take(i as int).push(chars@[i as int]));
    }
    assert(chars@.take(chars@.len() as int) == chars@);
    res
}

/// Appends the characters `v` to `s`.
pub fn push_chars(s: &mut String, v: &Vec<char>)
    ensures
        final(s)@ == old(s)@ + v@,
{
    let ghost start = s@;
    for i in 0..v.len()
        invariant
            s@ == start + v@.take(i as int),
    {
        push_char(s, v[i]);
        assert(v@.take(i + 1) == v@.take(i as int).push(v@[i as int]));
    }
    assert(v@.take(v@.len() as int) == v@);
}

/// Unicode `White_Space`, the set that `char::is_whitespace` tests.
pub open spec fn is_ws(c: char) -> bool {
    ||| c == ' '
    ||| ('\u{9}' <= c && c <= '\u{d}')
    ||| c == '\u{85}'
    ||| c == '\u{a0}'
    ||| c == '\u{1680}'
    ||| ('\u{2000}' <= c && c <= '\u{200a}')
    ||| c == '\u{2028}'
    ||| c == '\u{2029}'
    ||| c == '\u{202f}'
    ||| c == '\u{205f}'
    ||| c == '\u{3000}'
}

/// Whether `c` has the Unicode `White_Space` property, as
/// `char::is_whitespace` tests it.
pub fn is_whitespace(c: char) -> (b: bool)
    ensures
        b == is_ws(c),
{
    c == ' ' || ('\u{9}' <= c && c <= '\u{d}') || c == '\u{85}' || c == '\u{a0}' || c
        == '\u{1680}' || ('\u{2000}' <= c && c <= '\u{200a}') || c == '\u{2028}' || c
        == '\u{2029}' || c == '\u{202f}' || c == '\u{205f}' || c == '\u{3000}'
}

/// Every character of `s` is whitespace (so `s.trim()` is empty).
pub open spec fn is_blank(s: Seq<char>) -> bool {
    forall|i: int| 0 <= i < s.len() ==> is_ws(#[trigger] s[i])
}

/// Whether `s` is empty or whitespace only.
pub fn blank(s: &Vec<char>) -> (b: bool)
    ensures
        b == is_blank(s@),
{
    for i in 0..s.len()
        invariant
            forall|j: int| 0 <= j < i ==> is_ws(#[trigger] s@[j]),
    {
        if !is_whitespace(s[i]) {
            return false;
        }
    }
    true
}

/// `s` without its leading whitespace.
pub open spec fn trim_start(s: Seq<char>) -> Seq<char>
    decreases s.len(),
{
    if s.len() > 0 && is_ws(s[0]) {
        trim_start(s.drop_first())
    } else {
        s
    }
}

/// `s` without its trailing whitespace.
pub open spec fn trim_end(s: Seq<char>) -> Seq<char>
    decreases s.len(),
{
    if s.len() > 0 && is_ws(s.last()) {
        trim_end(s.drop_last())
    } else {
        s
    }
}

/// `s` without leading and trailing whitespace (`str::trim`).
pub open spec fn trim(s: Seq<char>) -> Seq<char> {
    trim_end(trim_start(s))
}

/// The characters of `s.trim()`.
pub fn trimmed(s: &Vec<char>) -> (res: Vec<char>)
    ensures
        res@ == trim(s@),
{
    let n = s.len();
    let mut i: usize = 0;
    assert(s@.skip(0) == s@);
    while i < n && is_whitespace(s[i])
        invariant
            n == s@.len(),
            i <= n,
            trim_start(s@) == trim_start(s@.skip(i as int)),
        decreases n - i,
    {
        assert(s@.skip(i as int).drop_first() == s@.skip(i + 1));
        i = i + 1;
    }
    assert(trim_start(s@) == s@.subrange(i as int, n as int));
    let mut j: usize = n;
    while j > i && is_whitespace(s[j - 1])
        invariant
            n == s@.len(),
            i <= j <= n,
            trim(s@) == trim_end(s@.subrange(i as int, j as int)),
        decreases j,
    {
        assert(s@.subrange(i as int, j as int).drop_last() == s@.subrange(i as int, j - 1));
        j = j - 1;
    }
    let mut res: Vec<char> = Vec::new();
    let mut k: usize = i;
    while k < j
        invariant
            n == s@.len(),
            i <= k <= j <= n,
            res@ == s@.subrange(i as int, k as int),
        decreases j - k,
    {
        res.push(s[k]);
        assert(s@.subrange(i as int, k + 1) == s@.subrange(i as int, k as int).push(s@[k as int]));
        k = k + 1;
    }
    res
}

/// An ASCII decimal digit.
pub open spec fn is_digit(c: char) -> bool {
    '0' <= c && c <= '9'
}

/// The value of an ASCII decimal digit.
pub open spec fn digit_value(c: char) -> nat {
    (c as u32 - '0' as u32) as nat
}

/// Every character of `s` is a decimal digit.
pub open spec fn all_digits(s: Seq<char>) -> bool {
    forall|i: int| 0 <= i < s.len() ==> is_digit(#[trigger] s[i])
}

/// The number that the decimal digits `s` spell (0 for no digits).
pub open spec fn digits_value(s: Seq<char>) -> nat
    decreases s.len(),
{
    if s.len() == 0 {
        0
    } else {
        digits_value(s.drop_last()) * 10 + digit_value(s.last())
    }
}

/// `s` without one leading `+`, as the unsigned `FromStr` impls accept it.
pub open spec fn unsigned_body(s: Seq<char>) -> Seq<char> {
    if s.len() > 0 && s[0] == '+' {
        s.drop_first()
    } else {
        s
    }
}

/// What `str::parse` gives for an unsigned integer type whose largest value
/// is `max`: an optional `+`, then one or more decimal digits whose value
/// does not exceed `max`.
#[verifier::opaque]
pub open spec fn parse_unsigned(s: Seq<char>, max: nat) -> Option<nat> {
    let body = unsigned_body(s);
    if body.len() > 0 && all_digits(body) && digits_value(body) <= max {
        Some(digits_value(body))
    } else {
        None
    }
}

/// A longer run of digits never spells a smaller number than its prefix.
pub proof fn lemma_digits_value_prefix(s: Seq<char>, k: int)
    requires
        0 <= k <= s.len(),
    ensures
        digits_value(s.take(k)) <= digits_value(s),
    decreases s.len(),
{
    if k < s.len() {
        assert(s.drop_last().take(k) == s.take(k));
        lemma_digits_value_prefix(s.drop_last(), k);
    } else {
        assert(s.take(k) == s);
    }
}

/// `10` to the power `n` (1 for `n <= 0`).
pub open spec fn pow10(n: int) -> int
    decreases n,
{
    if n <= 0 {
        1
    } else {
        10 * pow10(n - 1)
    }
}

/// Powers of ten grow with the exponent.
pub proof fn lemma_pow10_mono(i: int, j: int)
    requires
        0 <= i <= j,
    ensures
        1 <= pow10(i) <= pow10(j),
    decreases j,
{
    if j > i {
        lemma_pow10_mono(i, j - 1);
    } else if i > 0 {
        lemma_pow10_mono(0, i - 1);
    }
}

/// `n` digits spell a number below `10^n`.
pub proof fn lemma_digits_value_below(s: Seq<char>)
    requires
        all_digits(s),
    ensures
        digits_value(s) < pow10(s.len() as int),
    decreases s.len(),
{
    if s.len() > 0 {
        assert(is_digit(s[s.len() - 1]));
        assert(all_digits(s.drop_last()));
        lemma_digits_value_below(s.drop_last());
    }
}

/// `n` digits that do not start with `'0'` spell at least `10^(n-1)`.
pub proof fn lemma_digits_value_lead(s: Seq<char>)
    requires
        all_digits(s),
        s.len() > 0,
        s[0] != '0',
    ensures
        digits_value(s) >= pow10(s.len() - 1),
    decreases s.len(),
{
    assert(is_digit(s[0]));
    if s.len() > 1 {
        assert(all_digits(s.drop_last()));
        assert(s.drop_last()[0] == s[0]);
        lemma_digits_value_lead(s.drop_last());
    } else {
        assert(s.drop_last().len() == 0);
    }
}

/// Fewer digits spell a smaller number than more digits that do not start
/// with `'0'`.
pub proof fn lemma_shorter_digits_smaller(x: Seq<char>, y: Seq<char>)
    requires
        all_digits(x),
        all_digits(y),
        x.len() < y.len(),
        y[0] != '0',
    ensures
        digits_value(x) < digits_value(y),
{
    lemma_digits_value_below(x);
    lemma_digits_value_lead(y);
    lemma_pow10_mono(x.len() as int, y.len() - 1);
}

/// The value of digits read from the front: the first digit counts
/// `10^(n-1)` times.
pub proof fn lemma_digits_value_front(s: Seq<char>)
    requires
        s.len() > 0,
    ensures
        digits_value(s) == digit_value(s[0]) * pow10(s.len() - 1) + digits_value(s.drop_first()),
    decreases s.len(),
{
    if s.len() == 1 {
        assert(s.drop_last().len() == 0);
        assert(s.drop_first().len() == 0);
        assert(pow10(0) == 1);
        assert(s.last() == s[0]);
        assert(digits_value(s.drop_last()) == 0);
        assert(digits_value(s.drop_first()) == 0);
        assert(digits_value(s) == digit_value(s[0]));
        assert(digit_value(s[0]) * pow10(s.len() - 1) == digit_value(s[0]));
    } else {
        let t = s.drop_last();
        let u = s.drop_first();
        lemma_digits_value_front(t);
        assert(t[0] == s[0]);
        assert(t.drop_first() == u.drop_last());
        assert(u.last() == s.last());
        let d0 = digit_value(s[0]) as int;
        let p = pow10(s.len() - 2);
        let dl = digit_value(s.last()) as int;
        let x = digits_value(t.drop_first()) as int;
        assert(pow10(s.len() - 1) == 10 * p);
        assert(digits_value(t) == d0 * p + x);
        assert(digits_value(u) == x * 10 + dl);
        assert(digits_value(s) == digits_value(t) * 10 + dl);
        assert((d0 * p + x) * 10 + dl == d0 * (10 * p) + (x * 10 + dl)) by (nonlinear_arith);
    }
}

/// Parses `s` as `str::parse::<T>()` does for an unsigned `T` whose largest
/// value is `max`.
pub fn parse_unsigned_exec(s: &Vec<char>, max: u64) -> (res: Option<u64>)
    ensures
        res is Some <==> parse_unsigned(s@, max as nat) is Some,
        res matches Some(x) ==> parse_unsigned(s@, max as nat) == Some(x as nat) && x <= max,
{
    reveal(parse_unsigned);
    let n = s.len();
    let start: usize = if n > 0 && s[0] == '+' { 1 } else { 0 };
    let ghost body = unsigned_body(s@);
    assert(body == s@.skip(start as int));
    if start == n {
        return None;
    }
    let mut v: u64 = 0;
    let mut i: usize = start;
    while i < n
        invariant
            n == s@.len(),
            start <= i <= n,
            body == unsigned_body(s@),
            body == s@.skip(start as int),
            all_digits(body.take(i - start)),
            v as nat == digits_value(body.take(i - start)),
            v <= max,
        decreases n - i,
    {
        reveal(parse_unsigned);
        let c = s[i];
        let ghost k: int = i - start;
        assert(body.take(k + 1).drop_last() == body.take(k));
        assert(body[k] == c);
        if !('0' <= c && c <= '9') {
            assert(!is_digit(body[k]));
            assert(!all_digits(body));
            return None;
        }
        let d: u64 = (c as u32 - '0' as u32) as u64;
        assert(digits_value(body.take(k + 1)) == v * 10 + d);
        if d > max || v > (max - d) / 10 {
            assert(v * 10 + d > max) by (nonlinear_arith)
                requires
                    d > max || (d <= max && v > (max - d) / 10),
            ;
            proof {
                lemma_digits_value_prefix(body, k + 1);
            }
            return None;
        }
        assert(v * 10 + d <= max) by (nonlinear_arith)
            requires
                d <= max,
                v <= (max - d) / 10,
        ;
        v = v * 10 + d;
        i = i + 1;
    }
    assert(body.take(n - start) == body);
    Some(v)
}

/// Parses `s` as `str::parse::<u64>()` does.
pub fn parse_u64(s: &Vec<char>) -> (res: Option<u64>)
    ensures
        res is Some <==> parse_unsigned(s@, 18446744073709551615nat) is Some,
        res matches Some(x) ==> parse_unsigned(s@, 18446744073709551615nat)->0 == x,
{
    parse_unsigned_exec(s, u64::MAX)
}

/// The decimal digit character for `d < 10`.
pub open spec fn digit_char(d: nat) -> char {
    seq!['0', '1', '2', '3', '4', '5', '6', '7', '8', '9'][d as int]
}

/// The decimal representation of `n`, without leading zeros.
pub open spec fn decimal(n: nat) -> Seq<char>
    decreases n,
{
    if n < 10 {
        seq![digit_char(n)]
    } else {
        decimal(n / 10).push(digit_char(n % 10))
    }
}

/// The digit character for `d < 10` is a digit of value `d`.
proof fn lemma_digit_char(d: nat)
    requires
        d < 10,
    ensures
        is_digit(digit_char(d)),
        digit_value(digit_char(d)) == d,
{
    let t = seq!['0', '1', '2', '3', '4', '5', '6', '7', '8', '9'];
    if d == 0 {
        assert(t[0] == '0');
    } else if d == 1 {
        assert(t[1] == '1');
    } else if d == 2 {
        assert(t[2] == '2');
    } else if d == 3 {
        assert(t[3] == '3');
    } else if d == 4 {
        assert(t[4] == '4');
    } else if d == 5 {
        assert(t[5] == '5');
    } else if d == 6 {
        assert(t[6] == '6');
    } else if d == 7 {
        assert(t[7] == '7');
    } else if d == 8 {
        assert(t[8] == '8');
    } else {
        assert(t[9] == '9');
    }
}

/// The decimal representation of `n` is a non-empty run of digits that
/// spells `n`.
pub proof fn lemma_decimal_digits(n: nat)
    ensures
        decimal(n).len() > 0,
        all_digits(decimal(n)),
        digits_value(decimal(n)) == n,
    decreases n,
{
    if n < 10 {
        lemma_digit_char(n);
        let s = decimal(n);
        assert(s.drop_last().len() == 0);
        assert(digits_value(s.drop_last()) == 0);
    } else {
        lemma_decimal_digits(n / 10);
        lemma_digit_char(n % 10);
        let s = decimal(n);
        let h = decimal(n / 10);
        assert(s.drop_last() == h);
        assert(s.last() == digit_char(n % 10));
        assert forall|i: int| 0 <= i < s.len() implies is_digit(#[trigger] s[i]) by {
            if i < h.len() {
                assert(s[i] == h[i]);
            }
        }
    }
}

/// Any run of digits, with or without one leading `+`, parses to the
/// number it spells when that number is at most `max`, and to nothing when
/// it is larger; the number of digits does not matter.
pub proof fn lemma_parse_unsigned_digits(s: Seq<char>, max: nat)
    requires
        s.len() > 0,
        all_digits(s),
    ensures
        digits_value(s) <= max ==> parse_unsigned(s, max) == Some(digits_value(s)),
        digits_value(s) <= max ==> parse_unsigned(seq!['+'] + s, max) == Some(digits_value(s)),
        digits_value(s) > max ==> parse_unsigned(s, max) is None,
        digits_value(s) > max ==> parse_unsigned(seq!['+'] + s, max) is None,
{
    reveal(parse_unsigned);
    assert(is_digit(s[0]));
    assert(unsigned_body(s) == s);
    let t = seq!['+'] + s;
    assert(t[0] == '+');
    assert(t.drop_first() == s);
    assert(unsigned_body(t) == s);
}

/// Parsing gives back every number at most `max` from its decimal
/// representation.
pub proof fn lemma_parse_decimal(n: nat, max: nat)
    requires
        n <= max,
    ensures
        parse_unsigned(decimal(n), max) == Some(n),
{
    lemma_decimal_digits(n);
    lemma_parse_unsigned_digits(decimal(n), max);
}

/// Text that holds a character other than a digit after its optional `+`,
/// or nothing there, does not parse.
pub proof fn lemma_parse_unsigned_rejects(s: Seq<char>, max: nat)
    requires
        unsigned_body(s).len() == 0 || !all_digits(unsigned_body(s)),
    ensures
        parse_unsigned(s, max) is None,
{
    reveal(parse_unsigned);
}

/// Appends the decimal representation of `n` to `s`.
pub fn push_decimal(s: &mut String, n: usize)
    ensures
        final(s)@ == old(s)@ + decimal(n as nat),
    decreases n,
{
    let ghost start = s@;
    if n >= 10 {
        push_decimal(s, n / 10);
    }
    let d = n % 10;
    let digits: [char; 10] = ['0', '1', '2', '3', '4', '5', '6', '7', '8', '9'];
    let c = digits[d];
    assert(c == digit_char(d as nat));
    push_char(s, c);
    if n >= 10 {
        assert(s@ == start + decimal(n as nat));
    } else {
        assert(s@ == start + decimal(n as nat));
    }
}

/// The number of bytes that the UTF-8 encoding of `s` takes (`str::len`).
pub open spec fn byte_len(s: Seq<char>) -> nat {
    encode_utf8(s).len()
}

/// The number of bytes that `s` takes in UTF-8 (`str::len`); it fits in a
/// `usize`, as every string's length does.
pub fn str_byte_len(s: &str) -> (n: usize)
    ensures
        n == byte_len(s@),
{
    broadcast use vstd::slice::group_slice_axioms;

    s.as_bytes().len()
}

/// UTF-8 encodes a concatenation piecewise.
pub proof fn lemma_encode_concat(a: Seq<char>, b: Seq<char>)
    ensures
        encode_utf8(a + b) == encode_utf8(a) + encode_utf8(b),
    decreases a.len(),
{
    if a.len() == 0 {
        assert(a + b == b);
    } else {
        assert((a + b).drop_first() == a.drop_first() + b);
        lemma_encode_concat(a.drop_first(), b);
        assert(encode_utf8(a + b) == encode_scalar(a[0] as u32) + encode_utf8(a.drop_first() + b));
    }
}

/// Byte lengths add up over concatenation.
pub proof fn lemma_byte_len_concat(a: Seq<char>, b: Seq<char>)
    ensures
        byte_len(a + b) == byte_len(a) + byte_len(b),
{
    lemma_encode_concat(a, b);
}

/// The byte length of a one-character sequence.
pub proof fn lemma_byte_len_single(c: char)
    ensures
        byte_len(seq![c]) == encode_scalar(c as u32).len(),
{
    assert(seq![c].drop_first() == Seq::<char>::empty());
    assert(encode_utf8(Seq::<char>::empty()) == Seq::<u8>::empty());
    assert(encode_utf8(seq![c]) == encode_scalar(seq![c][0] as u32) + encode_utf8(
        seq![c].drop_first(),
    ));
    assert(encode_scalar(c as u32) + Seq::<u8>::empty() == encode_scalar(c as u32));
}

/// The number of bytes that `c` takes in UTF-8 (`char::len_utf8`).
pub fn char_byte_len(c: char) -> (n: usize)
    ensures
        n == byte_len(seq![c]),
        1 <= n <= 4,
{
    proof {
        lemma_byte_len_single(c);
    }
    let u = c as u32;
    if u <= 0x7f {
        1
    } else if u <= 0x7ff {
        2
    } else if u <= 0xffff {
        3
    } else {
        4
    }
}

/// `needle` occurs in `hay` starting at index `i`.
pub open spec fn occurs_at(hay: Seq<char>, needle: Seq<char>, i: int) -> bool {
    0 <= i && i + needle.len() <= hay.len() && hay.subrange(i, i + needle.len()) == needle
}

/// `needle` occurs somewhere in `hay` (`str::contains`).
pub open spec fn contains_seq(hay: Seq<char>, needle: Seq<char>) -> bool {
    exists|i: int| occurs_at(hay, needle, i)
}

/// Whether `needle` occurs in `hay`.
pub fn contains_chars(hay: &Vec<char>, needle: &Vec<char>) -> (b: bool)
    ensures
        b == contains_seq(hay@, needle@),
{
    let n = hay.len();
    let m = needle.len();
    if m > n {
        assert(forall|i: int| !occurs_at(hay@, needle@, i));
        return false;
    }
    let mut i: usize = 0;
    while i <= n - m
        invariant
            n == hay@.len(),
            m == needle@.len(),
            m <= n,
            i <= n - m + 1,
            forall|k: int| 0 <= k < i ==> !occurs_at(hay@, needle@, k),
        decreases n - m + 1 - i,
    {
        let mut j: usize = 0;
        let mut same = true;
        while j < m
            invariant
                n == hay@.len(),
                m == needle@.len(),
                i + m <= n,
                j <= m,
                same == (forall|t: int| 0 <= t < j ==> hay@[i + t] == needle@[t]),
            decreases m - j,
        {
            if hay[i + j] != needle[j] {
                same = false;
            }
            j = j + 1;
        }
        if same {
            assert(hay@.subrange(i as int, i + m) == needle@);
            assert(occurs_at(hay@, needle@, i as int));
            return true;
        }
        assert(!occurs_at(hay@, needle@, i as int)) by {
            if occurs_at(hay@, needle@, i as int) {
                let t = choose|t: int| 0 <= t < m && hay@[i + t] != needle@[t];
                assert(hay@.subrange(i as int, i + m)[t] == needle@[t]);
            }
        }
        i = i + 1;
    }
    assert forall|k: int| !occurs_at(hay@, needle@, k) by {
        if 0 <= k < i {
        } else if k >= i {
        }
    }
    false
}

} // verus!
