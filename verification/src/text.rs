//! Character-level helpers over `String` and `Vec<char>`, each proved
//! against a short statement over `Seq<char>`.

use vstd::prelude::*;

verus! {

/// Appends one character to a `String` (`String::push`).
///
/// Trusted: std documents `push` as appending the given char to the end of
/// the string; that is all the contract claims.
#[verifier::external_body]
pub(crate) fn push_char(s: &mut String, c: char)
    ensures
        final(s)@ == old(s)@.push(c),
{
    s.push(c);
}

/// The characters of `s`, in order.
pub fn chars_of(s: &str) -> (out: Vec<char>)
    ensures
        out@ == s@,
{
    let mut out: Vec<char> = Vec::new();
    for c in it: s.chars()
        invariant
            out@ == it.seq().take(it.index() as int),
    {
        out.push(c);
    }
    out
}

/// A `String` holding exactly the characters of `v`.
pub fn string_of(v: &Vec<char>) -> (out: String)
    ensures
        out@ == v@,
{
    let mut out = String::new();
    let mut i: usize = 0;
    while i < v.len()
        invariant
            i <= v.len(),
            out@ == v@.take(i as int),
        decreases v.len() - i,
    {
        push_char(&mut out, v[i]);
        assert(v@.take(i as int).push(v@[i as int]) =~= v@.take((i + 1) as int));
        i = i + 1;
    }
    assert(v@.take(v.len() as int) =~= v@);
    out
}


/// `c` is an ASCII decimal digit.
pub open spec fn is_digit(c: char) -> bool {
    '0' <= c <= '9'
}

/// The number that a string of decimal digits denotes.
pub open spec fn digits_value(d: Seq<char>) -> nat
    decreases d.len(),
{
    if d.len() == 0 {
        0
    } else {
        digits_value(d.drop_last()) * 10 + (d.last() as nat - '0' as nat) as nat
    }
}

/// The digits part of a `usize` literal: all after an optional leading `+`.
pub open spec fn unsigned_digits(k: Seq<char>) -> Seq<char> {
    if k.len() > 0 && k[0] == '+' { k.drop_first() } else { k }
}

/// Every character of `d` is a decimal digit.
pub open spec fn all_digits(d: Seq<char>) -> bool {
    forall|i: int| 0 <= i < d.len() ==> is_digit(#[trigger] d[i])
}

/// What `str::parse::<usize>` accepts: an optional `+`, then one or more
/// decimal digits denoting a value that fits in `usize`.
pub open spec fn parse_usize_spec(k: Seq<char>) -> Option<usize> {
    let d = unsigned_digits(k);
    if d.len() > 0 && all_digits(d) && digits_value(d) <= usize::MAX {
        Some(digits_value(d) as usize)
    } else {
        None
    }
}

/// A longer digit string never denotes a smaller number.
pub proof fn lemma_digits_value_grows(d: Seq<char>, i: int)
    requires
        0 <= i <= d.len(),
        forall|j: int| 0 <= j < d.len() ==> is_digit(#[trigger] d[j]),
    ensures
        digits_value(d.take(i)) <= digits_value(d),
    decreases d.len() - i,
{
    if i < d.len() {
        lemma_digits_value_grows(d, i + 1);
        let t = d.take(i + 1);
        assert(t.drop_last() =~= d.take(i));
        assert(is_digit(d[i]));
        assert(digits_value(t) == digits_value(d.take(i)) * 10 + (t.last() as nat - '0' as nat) as nat);
        assert(digits_value(d.take(i)) <= digits_value(t)) by (nonlinear_arith)
            requires
                digits_value(t) == digits_value(d.take(i)) * 10 + (t.last() as nat - '0' as nat) as nat,
        ;
    } else {
        assert(d.take(i) =~= d);
    }
}

/// Parses a string as `str::parse::<usize>` does.
pub fn parse_usize(k: &Vec<char>) -> (r: Option<usize>)
    ensures
        r == parse_usize_spec(k@),
{
    let start: usize = if k.len() > 0 && k[0] == '+' { 1 } else { 0 };
    let ghost d = unsigned_digits(k@);
    assert(d =~= k@.skip(start as int));
    if start >= k.len() {
        return None;
    }
    let mut value: usize = 0;
    let mut i: usize = start;
    while i < k.len()
        invariant
            start <= i <= k.len(),
            d =~= k@.skip(start as int),
            d == unsigned_digits(k@),
            d.len() > 0,
            forall|j: int| 0 <= j < i - start ==> is_digit(#[trigger] d[j]),
            value == digits_value(d.take(i - start)),
        decreases k.len() - i,
    {
        let c = k[i];
        if !('0' <= c && c <= '9') {
            assert(!is_digit(d[i - start]));
            assert(!all_digits(d));
            assert(parse_usize_spec(k@) == None::<usize>);
            return None;
        }
        let digit: usize = (c as u32 - '0' as u32) as usize;
        let ghost t = d.take(i - start + 1);
        assert(t.drop_last() =~= d.take(i - start));
        assert(t.last() == c);
        assert(digits_value(t) == value * 10 + digit);
        if value > (usize::MAX - digit) / 10 {
            proof {
                assert(value * 10 + digit > usize::MAX) by (nonlinear_arith)
                    requires
                        value > (usize::MAX - digit) / 10,
                        digit <= 9,
                ;
                if all_digits(d) {
                    lemma_digits_value_grows(d, i - start + 1);
                    assert(digits_value(d) > usize::MAX);
                }
                assert(parse_usize_spec(k@) == None::<usize>);
            }
            return None;
        }
        assert(value * 10 + digit <= usize::MAX) by (nonlinear_arith)
            requires
                value <= (usize::MAX - digit) / 10,
                digit <= 9,
        ;
        value = value * 10 + digit;
        i = i + 1;
    }
    assert(d.take(i - start) =~= d);
    Some(value)
}


/// The pieces of `s` between occurrences of `sep` (`str::split` with a
/// `char` pattern): there is always at least one piece.
pub open spec fn split_on(s: Seq<char>, sep: char) -> Seq<Seq<char>>
    decreases s.len(),
{
    if s.len() == 0 {
        seq![Seq::empty()]
    } else {
        let rest = split_on(s.drop_last(), sep);
        if s.last() == sep {
            rest.push(Seq::empty())
        } else {
            rest.update(rest.len() - 1, rest.last().push(s.last()))
        }
    }
}

/// `split_on` never yields an empty list of pieces.
pub proof fn lemma_split_on_nonempty(s: Seq<char>, sep: char)
    ensures
        split_on(s, sep).len() >= 1,
    decreases s.len(),
{
    if s.len() > 0 {
        lemma_split_on_nonempty(s.drop_last(), sep);
    }
}

/// The views of a sequence of strings.
pub open spec fn string_views(v: Seq<String>) -> Seq<Seq<char>> {
    v.map_values(|k: String| k@)
}

/// Splits `s` at every `sep`, as `s.split(sep).collect::<Vec<_>>()` does.
pub fn split_on_char(s: &str, sep: char) -> (out: Vec<String>)
    ensures
        string_views(out@) == split_on(s@, sep),
{
    let cs = chars_of(s);
    let mut out: Vec<String> = Vec::new();
    let mut cur = String::new();
    let mut i: usize = 0;
    while i < cs.len()
        invariant
            i <= cs.len(),
            cs@ == s@,
            string_views(out@).push(cur@) == split_on(cs@.take(i as int), sep),
        decreases cs.len() - i,
    {
        let c = cs[i];
        let ghost prev = split_on(cs@.take(i as int), sep);
        assert(cs@.take(i + 1).drop_last() =~= cs@.take(i as int));
        assert(cs@.take(i + 1).last() == c);
        if c == sep {
            let piece = cur;
            proof {
                assert(string_views(out@.push(piece)) =~= string_views(out@).push(piece@));
                assert(string_views(out@.push(piece)).push(Seq::<char>::empty()) =~= prev.push(Seq::empty()));
            }
            out.push(piece);
            cur = String::new();
        } else {
            push_char(&mut cur, c);
            assert(string_views(out@).push(cur@) =~= prev.update(prev.len() - 1, prev.last().push(c)));
        }
        i = i + 1;
    }
    let last = cur;
    proof {
        assert(cs@.take(cs.len() as int) =~= cs@);
        assert(string_views(out@.push(last)) =~= string_views(out@).push(last@));
    }
    out.push(last);
    out
}


/// Unicode `White_Space`, the characters that `char::is_whitespace` accepts.
pub open spec fn is_ws(c: char) -> bool {
    ||| '\u{9}' <= c <= '\u{d}'
    ||| c == ' '
    ||| c == '\u{85}'
    ||| c == '\u{a0}'
    ||| c == '\u{1680}'
    ||| '\u{2000}' <= c <= '\u{200a}'
    ||| c == '\u{2028}'
    ||| c == '\u{2029}'
    ||| c == '\u{202f}'
    ||| c == '\u{205f}'
    ||| c == '\u{3000}'
}

/// `char::is_whitespace`.
pub fn is_whitespace(c: char) -> (r: bool)
    ensures
        r == is_ws(c),
{
    ('\u{9}' <= c && c <= '\u{d}') || c == ' ' || c == '\u{85}' || c == '\u{a0}' || c == '\u{1680}'
        || ('\u{2000}' <= c && c <= '\u{200a}') || c == '\u{2028}' || c == '\u{2029}' || c
        == '\u{202f}' || c == '\u{205f}' || c == '\u{3000}'
}

/// The number of whitespace characters at the start of `s`.
pub open spec fn leading_ws(s: Seq<char>) -> nat
    decreases s.len(),
{
    if s.len() > 0 && is_ws(s[0]) {
        1 + leading_ws(s.drop_first())
    } else {
        0
    }
}

/// The number of whitespace characters at the end of `s`.
pub open spec fn trailing_ws(s: Seq<char>) -> nat
    decreases s.len(),
{
    if s.len() > 0 && is_ws(s.last()) {
        1 + trailing_ws(s.drop_last())
    } else {
        0
    }
}

/// `s` without its leading and trailing whitespace (`str::trim`).
pub open spec fn trim(s: Seq<char>) -> Seq<char> {
    let t = s.skip(leading_ws(s) as int);
    t.take(t.len() - trailing_ws(t))
}

/// `s` without its trailing carriage returns (`str::trim_end_matches('\r')`).
pub open spec fn strip_cr(s: Seq<char>) -> Seq<char>
    decreases s.len(),
{
    if s.len() > 0 && s.last() == '\r' {
        strip_cr(s.drop_last())
    } else {
        s
    }
}

pub proof fn lemma_leading_ws(s: Seq<char>)
    ensures
        leading_ws(s) <= s.len(),
        forall|i: int| 0 <= i < leading_ws(s) ==> is_ws(#[trigger] s[i]),
        leading_ws(s) < s.len() ==> !is_ws(s[leading_ws(s) as int]),
    decreases s.len(),
{
    if s.len() > 0 && is_ws(s[0]) {
        lemma_leading_ws(s.drop_first());
        assert forall|i: int| 0 <= i < leading_ws(s) implies is_ws(#[trigger] s[i]) by {
            if i > 0 {
                assert(s[i] == s.drop_first()[i - 1]);
            }
        }
    }
}

pub proof fn lemma_trailing_ws(s: Seq<char>)
    ensures
        trailing_ws(s) <= s.len(),
        forall|i: int| s.len() - trailing_ws(s) <= i < s.len() ==> is_ws(#[trigger] s[i]),
        trailing_ws(s) < s.len() ==> !is_ws(s[s.len() - trailing_ws(s) - 1]),
    decreases s.len(),
{
    if s.len() > 0 && is_ws(s.last()) {
        lemma_trailing_ws(s.drop_last());
        assert forall|i: int| s.len() - trailing_ws(s) <= i < s.len() implies is_ws(#[trigger] s[i]) by {
            if i < s.len() - 1 {
                assert(s[i] == s.drop_last()[i]);
            }
        }
    }
}

/// A sequence with no leading whitespace has `leading_ws` zero, and the
/// count is fixed by the first non-whitespace character.
proof fn lemma_leading_ws_of(s: Seq<char>, n: nat)
    requires
        n <= s.len(),
        forall|i: int| 0 <= i < n ==> is_ws(#[trigger] s[i]),
        n < s.len() ==> !is_ws(s[n as int]),
    ensures
        leading_ws(s) == n,
    decreases n,
{
    if n > 0 {
        assert forall|i: int| 0 <= i < n - 1 implies is_ws(#[trigger] s.drop_first()[i]) by {
            assert(s.drop_first()[i] == s[i + 1]);
        }
        lemma_leading_ws_of(s.drop_first(), (n - 1) as nat);
    }
}

proof fn lemma_trailing_ws_of(s: Seq<char>, n: nat)
    requires
        n <= s.len(),
        forall|i: int| s.len() - n <= i < s.len() ==> is_ws(#[trigger] s[i]),
        n < s.len() ==> !is_ws(s[s.len() - n - 1]),
    ensures
        trailing_ws(s) == n,
    decreases n,
{
    if n > 0 {
        assert(is_ws(s[s.len() - 1]));
        assert forall|i: int| s.drop_last().len() - (n - 1) <= i < s.drop_last().len() implies is_ws(
            #[trigger] s.drop_last()[i],
        ) by {
            assert(s.drop_last()[i] == s[i]);
        }
        lemma_trailing_ws_of(s.drop_last(), (n - 1) as nat);
    }
}

/// Trimming twice is trimming once.
pub proof fn lemma_trim_idempotent(s: Seq<char>)
    ensures
        trim(trim(s)) == trim(s),
{
    let t = s.skip(leading_ws(s) as int);
    lemma_leading_ws(s);
    lemma_trailing_ws(t);
    let r = trim(s);
    assert(r =~= t.take(t.len() - trailing_ws(t)));
    if r.len() > 0 {
        assert(r[0] == s[leading_ws(s) as int]);
        lemma_leading_ws_of(r, 0);
        assert(r[r.len() - 1] == t[t.len() - trailing_ws(t) - 1]);
        lemma_trailing_ws_of(r, 0);
    } else {
        lemma_leading_ws_of(r, 0);
        lemma_trailing_ws_of(r, 0);
    }
    assert(r.skip(0) =~= r);
    assert(r.take(r.len() as int) =~= r);
}

/// Trimming ignores whitespace added at the end.
pub proof fn lemma_trim_push_ws(x: Seq<char>, c: char)
    requires
        is_ws(c),
    ensures
        trim(x.push(c)) == trim(x),
{
    let y = x.push(c);
    lemma_leading_ws(x);
    let l = leading_ws(x);
    if l < x.len() {
        assert forall|i: int| 0 <= i < l implies is_ws(#[trigger] y[i]) by {
            assert(y[i] == x[i]);
        }
        assert(y[l as int] == x[l as int]);
        lemma_leading_ws_of(y, l);
        let t = x.skip(l as int);
        let u = y.skip(l as int);
        assert(u =~= t.push(c));
        assert(u.drop_last() =~= t);
        assert(trailing_ws(u) == 1 + trailing_ws(t));
        lemma_trailing_ws(t);
        assert(u.take(u.len() - trailing_ws(u)) =~= t.take(t.len() - trailing_ws(t)));
    } else {
        assert forall|i: int| 0 <= i < y.len() implies is_ws(#[trigger] y[i]) by {
            if i < x.len() {
                assert(y[i] == x[i]);
            }
        }
        lemma_leading_ws_of(y, y.len());
        assert(y.skip(y.len() as int) =~= Seq::<char>::empty());
        assert(x.skip(x.len() as int) =~= Seq::<char>::empty());
    }
}

/// A character that does not occur in `s` occurs in none of its pieces.
pub proof fn lemma_split_on_absent(s: Seq<char>, sep: char, c: char)
    requires
        forall|t: int| 0 <= t < s.len() ==> s[t] != c,
    ensures
        forall|i: int, k: int|
            0 <= i < split_on(s, sep).len() && 0 <= k < split_on(s, sep)[i].len() ==> #[trigger] split_on(s, sep)[i][k]
                != c,
    decreases s.len(),
{
    if s.len() > 0 {
        let d = s.drop_last();
        assert forall|t: int| 0 <= t < d.len() implies d[t] != c by {
            assert(d[t] == s[t]);
        }
        lemma_split_on_absent(d, sep, c);
        lemma_split_on_nonempty(d, sep);
        assert(s[s.len() - 1] != c);
    }
}

/// `v` without its leading and trailing whitespace.
pub fn trim_chars(v: &Vec<char>) -> (r: Vec<char>)
    ensures
        r@ == trim(v@),
{
    let mut i: usize = 0;
    while i < v.len() && is_whitespace(v[i])
        invariant
            i <= v.len(),
            forall|j: int| 0 <= j < i ==> is_ws(#[trigger] v@[j]),
        decreases v.len() - i,
    {
        i = i + 1;
    }
    proof {
        lemma_leading_ws_of(v@, i as nat);
    }
    let mut j: usize = v.len();
    while j > i && is_whitespace(v[j - 1])
        invariant
            i <= j <= v.len(),
            forall|q: int| j <= q < v.len() ==> is_ws(#[trigger] v@[q]),
        decreases j,
    {
        j = j - 1;
    }
    let ghost t = v@.skip(i as int);
    proof {
        assert forall|q: int| t.len() - (v.len() - j) <= q < t.len() implies is_ws(#[trigger] t[q]) by {
            assert(t[q] == v@[q + i]);
        }
        if v.len() - j < t.len() {
            assert(t[t.len() - (v.len() - j) - 1] == v@[j - 1]);
        }
        lemma_trailing_ws_of(t, (v.len() - j) as nat);
    }
    let mut r: Vec<char> = Vec::new();
    let mut q: usize = i;
    while q < j
        invariant
            i <= q <= j <= v.len(),
            r@ =~= v@.subrange(i as int, q as int),
        decreases j - q,
    {
        r.push(v[q]);
        q = q + 1;
    }
    assert(r@ =~= t.take(t.len() - trailing_ws(t)));
    r
}

/// `v` without its trailing carriage returns.
pub fn strip_cr_chars(v: Vec<char>) -> (r: Vec<char>)
    ensures
        r@ == strip_cr(v@),
{
    let mut v = v;
    let ghost orig = v@;
    while v.len() > 0 && v[v.len() - 1] == '\r'
        invariant
            strip_cr(v@) == strip_cr(orig),
        decreases v.len(),
    {
        let ghost before = v@;
        v.pop();
        assert(v@ =~= before.drop_last());
    }
    v
}


/// The decimal digit character for `d` (below ten).
pub open spec fn digit_char(d: nat) -> char {
    ('0' as nat + d) as char
}

/// The decimal representation of `n`, without leading zeros.
pub open spec fn decimal(n: nat) -> Seq<char>
    decreases n,
{
    if n < 10 {
        seq![digit_char(n)]
    } else {
        decimal(n / 10).push(digit_char(n % 10))
    }
}

/// The decimal representation of a signed number, with a leading `-` when
/// it is negative (what `Display` writes for integers).
pub open spec fn signed_decimal(n: int) -> Seq<char> {
    if n < 0 {
        seq!['-'] + decimal((-n) as nat)
    } else {
        decimal(n as nat)
    }
}

/// Appends the decimal representation of `n`.
pub fn push_decimal(s: &mut String, n: u64)
    ensures
        final(s)@ == old(s)@ + decimal(n as nat),
    decreases n,
{
    if n >= 10 {
        push_decimal(s, n / 10);
    }
    let d = n % 10;
    let c = if d == 0 {
        '0'
    } else if d == 1 {
        '1'
    } else if d == 2 {
        '2'
    } else if d == 3 {
        '3'
    } else if d == 4 {
        '4'
    } else if d == 5 {
        '5'
    } else if d == 6 {
        '6'
    } else if d == 7 {
        '7'
    } else if d == 8 {
        '8'
    } else {
        '9'
    };
    assert(c == digit_char((n % 10) as nat));
    push_char(s, c);
    if n >= 10 {
        assert(old(s)@ + decimal(n as nat) =~= old(s)@ + decimal((n / 10) as nat) + seq![digit_char((n % 10) as nat)]);
    } else {
        assert(old(s)@ + decimal(n as nat) =~= old(s)@.push(c));
    }
}

/// Appends the decimal representation of a signed number.
pub fn push_signed_decimal(s: &mut String, n: i64)
    ensures
        final(s)@ == old(s)@ + signed_decimal(n as int),
{
    if n < 0 {
        push_char(s, '-');
        let magnitude: u64 = if n == i64::MIN { 9223372036854775808u64 } else { (-n) as u64 };
        push_decimal(s, magnitude);
        assert(old(s)@ + signed_decimal(n as int) =~= old(s)@.push('-') + decimal(magnitude as nat));
    } else {
        push_decimal(s, n as u64);
    }
}

} // verus!
