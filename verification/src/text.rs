//! Character-level text helpers with exact specifications.

use vstd::prelude::*;
use vstd::utf8::*;
use vstd::string::StringSliceAdditionalSpecFns;

verus! {

/// `String::push`: appends one character.
#[verifier::external_body]
pub fn push_char(s: &mut String, c: char)
    ensures
        final(s)@ == old(s)@.push(c),
{
    s.push(c);
}

/// The characters of `s`, in order.
pub fn to_chars(s: &str) -> (r: Vec<char>)
    ensures
        r@ == s@,
{
    let mut r: Vec<char> = Vec::new();
    for c in it: s.chars()
        invariant
            r@ == it.seq().take(it.index() as int),
    {
        r.push(c);
    }
    r
}

/// Whether `c` occurs among `v[from..to]`.
pub fn contains_char(v: &Vec<char>, from: usize, to: usize, c: char) -> (r: bool)
    requires
        from <= to <= v@.len(),
    ensures
        r == v@.subrange(from as int, to as int).contains(c),
{
    let mut k = from;
    while k < to
        invariant
            from <= k <= to <= v@.len(),
            forall|j: int| from <= j < k ==> v@[j] != c,
        decreases to - k,
    {
        if v[k] == c {
            assert(v@.subrange(from as int, to as int)[k - from] == c);
            return true;
        }
        k = k + 1;
    }
    proof {
        let s = v@.subrange(from as int, to as int);
        assert forall|j: int| 0 <= j < s.len() implies s[j] != c by {
            assert(s[j] == v@[from + j]);
        }
    }
    false
}

/// Appends the characters `v[from..to]` to `s`.
pub fn append_chars(s: &mut String, v: &Vec<char>, from: usize, to: usize)
    requires
        from <= to <= v@.len(),
    ensures
        final(s)@ == old(s)@ + v@.subrange(from as int, to as int),
{
    let mut k = from;
    while k < to
        invariant
            from <= k <= to <= v@.len(),
            s@ == old(s)@ + v@.subrange(from as int, k as int),
        decreases to - k,
    {
        push_char(s, v[k]);
        k = k + 1;
        assert(s@ =~= old(s)@ + v@.subrange(from as int, k as int));
    }
}

/// Length in bytes of the UTF-8 encoding of `s`.
pub open spec fn utf8_len(s: Seq<char>) -> nat {
    encode_utf8(s).len()
}

/// UTF-8 encoding distributes over concatenation.
pub proof fn lemma_encode_concat(a: Seq<char>, b: Seq<char>)
    ensures
        encode_utf8(a + b) == encode_utf8(a) + encode_utf8(b),
    decreases a.len(),
{
    if a.len() == 0 {
        assert(a + b =~= b);
        assert(encode_utf8(a) =~= Seq::<u8>::empty());
        assert(encode_utf8(a) + encode_utf8(b) =~= encode_utf8(b));
    } else {
        assert((a + b).drop_first() =~= a.drop_first() + b);
        assert((a + b)[0] == a[0]);
        lemma_encode_concat(a.drop_first(), b);
        assert(encode_utf8(a + b) =~= encode_utf8(a) + encode_utf8(b));
    }
}

/// The encoding of a single character is the encoding of its scalar.
pub proof fn lemma_encode_single(c: char)
    ensures
        encode_utf8(seq![c]) == encode_scalar(c as u32),
{
    assert(seq![c].drop_first() =~= Seq::<char>::empty());
    assert(encode_utf8(seq![c].drop_first()) =~= Seq::<u8>::empty());
    assert(encode_utf8(seq![c]) =~= encode_scalar(c as u32) + Seq::<u8>::empty());
}

/// `utf8_len` of a prefix grows by the width of the next character.
pub proof fn lemma_utf8_len_step(s: Seq<char>, k: int)
    requires
        0 <= k < s.len(),
    ensures
        utf8_len(s.take(k + 1)) == utf8_len(s.take(k)) + encode_scalar(s[k] as u32).len(),
        utf8_len(s.take(k + 1)) <= utf8_len(s),
{
    assert(s.take(k + 1) =~= s.take(k) + seq![s[k]]);
    lemma_encode_concat(s.take(k), seq![s[k]]);
    lemma_encode_single(s[k]);
    assert(s =~= s.take(k + 1) + s.skip(k + 1));
    lemma_encode_concat(s.take(k + 1), s.skip(k + 1));
}

/// Whether two strings hold the same characters.
pub fn str_eq(a: &str, b: &str) -> (r: bool)
    ensures
        r == (a@ == b@),
{
    broadcast use encode_utf8_decode_utf8;

    let x = a.as_bytes();
    let y = b.as_bytes();
    if x.len() != y.len() {
        return false;
    }
    let mut k: usize = 0;
    while k < x.len()
        invariant
            x@ == encode_utf8(a@),
            y@ == encode_utf8(b@),
            x@.len() == y@.len(),
            k <= x@.len(),
            forall|j: int| 0 <= j < k ==> x@[j] == y@[j],
        decreases x@.len() - k,
    {
        if x[k] != y[k] {
            return false;
        }
        k = k + 1;
    }
    proof {
        assert(x@ =~= y@);
        assert(decode_utf8(encode_utf8(a@)) == a@);
        assert(decode_utf8(encode_utf8(b@)) == b@);
    }
    true
}

/// The ASCII digit for `d` (below ten).
pub open spec fn digit_char(d: nat) -> char {
    ((48 + d) as u8) as char
}

/// Decimal notation of `n`, without leading zeros.
pub open spec fn decimal(n: nat) -> Seq<char>
    decreases n,
{
    if n < 10 {
        seq![digit_char(n)]
    } else {
        decimal(n / 10).push(digit_char(n % 10))
    }
}

/// Appends the decimal notation of `n` to `s`.
pub fn push_decimal(s: &mut String, n: u64)
    ensures
        final(s)@ == old(s)@ + decimal(n as nat),
    decreases n,
{
    if n >= 10 {
        push_decimal(s, n / 10);
    }
    let d = (n % 10) as u8;
    push_char(s, (48u8 + d) as char);
    proof {
        assert(old(s)@ + decimal(n as nat) =~= final(s)@) by {
            if n >= 10 {
                assert(decimal(n as nat) == decimal((n / 10) as nat).push(digit_char((n % 10) as nat)));
            }
        }
    }
}

/// Decimal notation of `n`.
pub fn decimal_string(n: u64) -> (s: String)
    ensures
        s@ == decimal(n as nat),
{
    let mut s = String::new();
    push_decimal(&mut s, n);
    assert(s@ =~= decimal(n as nat));
    s
}

/// Decimal notation of a signed integer: a `-` before the digits of a
/// negative one.
pub open spec fn signed_decimal(n: int) -> Seq<char> {
    if n < 0 {
        seq!['-'] + decimal((-n) as nat)
    } else {
        decimal(n as nat)
    }
}

/// Appends the decimal notation of a signed integer to `s`.
pub fn push_signed_decimal(s: &mut String, n: i32)
    ensures
        final(s)@ == old(s)@ + signed_decimal(n as int),
{
    if n < 0 {
        push_char(s, '-');
        let m: i64 = n as i64;
        push_decimal(s, (-m) as u64);
        assert(final(s)@ =~= old(s)@ + signed_decimal(n as int));
    } else {
        push_decimal(s, n as u64);
    }
}

/// Unicode `White_Space`, the property behind `char::is_whitespace`.
pub open spec fn is_white_space(c: char) -> bool {
    ||| '\u{9}' <= c <= '\u{d}'
    ||| c == ' '
    ||| c == '\u{85}'
    ||| c == '\u{a0}'
    ||| c == '\u{1680}'
    ||| '\u{2000}' <= c <= '\u{200a}'
    ||| c == '\u{2028}'
    ||| c == '\u{2029}'
    ||| c == '\u{202f}'
    ||| c == '\u{205f}'
    ||| c == '\u{3000}'
}

/// Whether `c` is Unicode white space.
pub fn white_space(c: char) -> (r: bool)
    ensures
        r == is_white_space(c),
{
    ('\u{9}' <= c && c <= '\u{d}') || c == ' ' || c == '\u{85}' || c == '\u{a0}' || c
        == '\u{1680}' || ('\u{2000}' <= c && c <= '\u{200a}') || c == '\u{2028}' || c
        == '\u{2029}' || c == '\u{202f}' || c == '\u{205f}' || c == '\u{3000}'
}

/// `t` without leading white space.
pub open spec fn trim_start_spec(t: Seq<char>) -> Seq<char>
    decreases t.len(),
{
    if t.len() > 0 && is_white_space(t[0]) {
        trim_start_spec(t.drop_first())
    } else {
        t
    }
}

/// `t` without trailing white space.
pub open spec fn trim_end_spec(t: Seq<char>) -> Seq<char>
    decreases t.len(),
{
    if t.len() > 0 && is_white_space(t.last()) {
        trim_end_spec(t.drop_last())
    } else {
        t
    }
}

/// `t` without leading and trailing white space (`str::trim`).
pub open spec fn trim_spec(t: Seq<char>) -> Seq<char> {
    trim_end_spec(trim_start_spec(t))
}

proof fn lemma_trim_start_from(t: Seq<char>, a: int)
    requires
        0 <= a <= t.len(),
        forall|j: int| 0 <= j < a ==> is_white_space(#[trigger] t[j]),
        a == t.len() || !is_white_space(t[a]),
    ensures
        trim_start_spec(t) == t.skip(a),
    decreases a,
{
    if a == 0 {
        assert(t.skip(0) =~= t);
    } else {
        assert(is_white_space(t[0]));
        let d = t.drop_first();
        assert forall|j: int| 0 <= j < a - 1 implies is_white_space(#[trigger] d[j]) by {
            assert(d[j] == t[j + 1]);
        }
        lemma_trim_start_from(d, a - 1);
        assert(d.skip(a - 1) =~= t.skip(a));
    }
}

proof fn lemma_trim_end_to(t: Seq<char>, b: int)
    requires
        0 <= b <= t.len(),
        forall|j: int| b <= j < t.len() ==> is_white_space(#[trigger] t[j]),
        b == 0 || !is_white_space(t[b - 1]),
    ensures
        trim_end_spec(t) == t.take(b),
    decreases t.len() - b,
{
    if b == t.len() {
        assert(t.take(b) =~= t);
    } else {
        assert(is_white_space(t.last()));
        let d = t.drop_last();
        assert forall|j: int| b <= j < d.len() implies is_white_space(#[trigger] d[j]) by {
            assert(d[j] == t[j]);
        }
        lemma_trim_end_to(d, b);
        assert(d.take(b) =~= t.take(b));
    }
}

/// `text` without leading and trailing white space.
pub fn trim(text: &str) -> (r: String)
    ensures
        r@ == trim_spec(text@),
{
    let chars = to_chars(text);
    let n = chars.len();
    let mut a: usize = 0;
    while a < n && white_space(chars[a])
        invariant
            chars@ == text@,
            n == text@.len(),
            a <= n,
            forall|j: int| 0 <= j < a ==> is_white_space(#[trigger] text@[j]),
        decreases n - a,
    {
        a = a + 1;
    }
    let mut b: usize = n;
    while b > a && white_space(chars[b - 1])
        invariant
            chars@ == text@,
            n == text@.len(),
            a <= b <= n,
            forall|j: int| b <= j < n ==> is_white_space(#[trigger] text@[j]),
        decreases b - a,
    {
        b = b - 1;
    }
    let mut out = String::new();
    append_chars(&mut out, &chars, a, b);
    proof {
        lemma_trim_start_from(text@, a as int);
        let st = text@.skip(a as int);
        assert forall|j: int| b - a <= j < st.len() implies is_white_space(#[trigger] st[j]) by {
            assert(st[j] == text@[a + j]);
        }
        if b > a {
            assert(st[b - a - 1] == text@[b - 1]);
        }
        lemma_trim_end_to(st, b - a);
        assert(st.take(b - a) =~= text@.subrange(a as int, b as int));
    }
    out
}

/// Value of a hexadecimal digit byte (`0-9`, `a-f`, `A-F`).
pub open spec fn hex_value(b: u8) -> Option<u8> {
    if 48 <= b <= 57 {
        Some((b - 48) as u8)
    } else if 97 <= b <= 102 {
        Some((b - 87) as u8)
    } else if 65 <= b <= 70 {
        Some((b - 55) as u8)
    } else {
        None
    }
}

/// Value of a hexadecimal digit byte, as `char::to_digit(16)` gives it for
/// the byte taken as a character.
pub fn hex_digit_value(b: u8) -> (r: Option<u8>)
    ensures
        r == hex_value(b),
{
    if 48 <= b && b <= 57 {
        Some(b - 48)
    } else if 97 <= b && b <= 102 {
        Some(b - 87)
    } else if 65 <= b && b <= 70 {
        Some(b - 55)
    } else {
        None
    }
}

/// Lower-case hexadecimal digit for a value below 16.
pub open spec fn hex_char(v: int) -> char {
    if v < 10 {
        ((48 + v) as u8) as char
    } else {
        ((87 + v) as u8) as char
    }
}

/// Lower-case hexadecimal notation of bytes, two digits per byte.
pub open spec fn hex_lower(b: Seq<u8>) -> Seq<char> {
    Seq::new(
        2 * b.len(),
        |i: int|
            if i % 2 == 0 {
                hex_char((b[i / 2] / 16) as int)
            } else {
                hex_char((b[i / 2] % 16) as int)
            },
    )
}

/// Lower-case hexadecimal notation of the first `count` bytes of `b`.
pub fn hex_prefix(b: &[u8], count: usize) -> (r: String)
    requires
        count <= b@.len(),
    ensures
        r@ == hex_lower(b@).take(2 * count),
{
    let mut out = String::new();
    let mut k: usize = 0;
    while k < count
        invariant
            count <= b@.len(),
            k <= count,
            out@ == hex_lower(b@).take(2 * k),
        decreases count - k,
    {
        let hi = b[k] / 16;
        let lo = b[k] % 16;
        let ch = if hi < 10 { (48u8 + hi) as char } else { (87u8 + hi) as char };
        let cl = if lo < 10 { (48u8 + lo) as char } else { (87u8 + lo) as char };
        push_char(&mut out, ch);
        push_char(&mut out, cl);
        proof {
            assert((2 * k) / 2 == k);
            assert((2 * k + 1) / 2 == k);
            assert((2 * k) % 2 == 0);
            assert((2 * k + 1) % 2 == 1);
            assert(out@ =~= hex_lower(b@).take(2 * k + 2));
        }
        k = k + 1;
    }
    out
}

pub open spec fn is_ascii_digit(c: char) -> bool {
    '0' <= c <= '9'
}

/// Value of a string of decimal digits.
pub open spec fn digits_value(d: Seq<char>) -> nat
    decreases d.len(),
{
    if d.len() == 0 {
        0
    } else {
        digits_value(d.drop_last()) * 10 + ((d.last() as nat) - 48) as nat
    }
}

/// The digits of an unsigned number: the text after an optional `+`.
pub open spec fn unsigned_digits(s: Seq<char>) -> Seq<char> {
    if s.len() > 0 && s[0] == '+' {
        s.drop_first()
    } else {
        s
    }
}

/// How `str::parse` reads an unsigned integer no greater than `max`: an
/// optional `+` and at least one ASCII digit, whose value must not exceed
/// `max`; anything else is an error.
pub open spec fn parse_unsigned_spec(s: Seq<char>, max: nat) -> Option<nat> {
    let d = unsigned_digits(s);
    if d.len() > 0 && (forall|i: int| 0 <= i < d.len() ==> is_ascii_digit(#[trigger] d[i]))
        && digits_value(d) <= max {
        Some(digits_value(d))
    } else {
        None
    }
}

proof fn lemma_digits_prefix_monotone(d: Seq<char>, k: int)
    requires
        0 <= k <= d.len(),
        forall|i: int| 0 <= i < d.len() ==> is_ascii_digit(#[trigger] d[i]),
    ensures
        digits_value(d.take(k)) <= digits_value(d),
    decreases d.len() - k,
{
    if k == d.len() {
        assert(d.take(k) =~= d);
    } else {
        lemma_digits_prefix_monotone(d, k + 1);
        assert(d.take(k + 1).drop_last() =~= d.take(k));
    }
}

/// Reads an unsigned decimal integer no greater than `max` the way
/// `str::parse` does for unsigned types.
pub fn parse_unsigned(s: &str, max: u64) -> (r: Option<u64>)
    ensures
        match r {
            Some(v) => parse_unsigned_spec(s@, max as nat) == Some(v as nat),
            None => parse_unsigned_spec(s@, max as nat) is None,
        },
{
    let chars = to_chars(s);
    let n = chars.len();
    let start: usize = if n > 0 && chars[0] == '+' { 1 } else { 0 };
    let ghost d = unsigned_digits(s@);
    proof {
        assert(d =~= s@.skip(start as int));
    }
    if start == n {
        return None;
    }
    let mut acc: u128 = 0;
    let mut k: usize = start;
    while k < n
        invariant
            chars@ == s@,
            n == s@.len(),
            start <= k <= n,
            start < n,
            d == s@.skip(start as int),
            d == unsigned_digits(s@),
            acc <= max,
            acc == digits_value(d.take(k - start)),
            forall|i: int| 0 <= i < k - start ==> is_ascii_digit(#[trigger] d[i]),
        decreases n - k,
    {
        let c = chars[k];
        if !('0' <= c && c <= '9') {
            proof {
                assert(d[k - start] == c);
                assert(!is_ascii_digit(d[k - start]));
            }
            return None;
        }
        let v = (c as u32 - 48) as u128;
        proof {
            assert(d[k - start] == c);
            assert(d.take(k - start + 1).drop_last() =~= d.take(k - start));
            assert(d.take(k - start + 1).last() == c);
        }
        acc = acc * 10 + v;
        if acc > max as u128 {
            proof {
                assert(acc == digits_value(d.take(k - start + 1)));
                if forall|i: int| 0 <= i < d.len() ==> is_ascii_digit(#[trigger] d[i]) {
                    lemma_digits_prefix_monotone(d, k - start + 1);
                    assert(digits_value(d) > max);
                }
            }
            return None;
        }
        k = k + 1;
    }
    proof {
        assert(d.take(n - start) =~= d);
    }
    Some(acc as u64)
}

/// The value of a non-empty run of ASCII digits that fits in `u64`.
pub open spec fn digits_u64_spec(s: Seq<char>) -> Option<nat> {
    if s.len() > 0 && (forall|i: int| 0 <= i < s.len() ==> is_ascii_digit(#[trigger] s[i]))
        && digits_value(s) <= u64::MAX {
        Some(digits_value(s))
    } else {
        None
    }
}

/// Reads a non-empty run of ASCII digits as a `u64`.
pub fn parse_digits_u64(s: &str) -> (r: Option<u64>)
    ensures
        match r {
            Some(v) => digits_u64_spec(s@) == Some(v as nat),
            None => digits_u64_spec(s@) is None,
        },
{
    let chars = to_chars(s);
    if chars.len() > 0 && chars[0] == '+' {
        proof {
            assert(!is_ascii_digit(s@[0]));
        }
        return None;
    }
    proof {
        if s@.len() > 0 {
            assert(unsigned_digits(s@) == s@);
        } else {
            assert(unsigned_digits(s@) == s@);
        }
    }
    parse_unsigned(s, u64::MAX)
}

/// What `String::from_utf8_lossy` makes of bytes: the decoded text, with
/// each invalid sequence replaced by U+FFFD.
pub uninterp spec fn utf8_lossy(bytes: Seq<u8>) -> Seq<char>;

/// `String::from_utf8_lossy(..).into_owned()`. Claims that the result is
/// the named lossy decoding, and, as the documentation states, that valid
/// UTF-8 is decoded as it is.
#[verifier::external_body]
pub(crate) fn lossy_string(bytes: &[u8]) -> (r: String)
    ensures
        r@ == utf8_lossy(bytes@),
        valid_utf8(bytes@) ==> r@ == decode_utf8(bytes@),
{
    String::from_utf8_lossy(bytes).into_owned()
}

/// Index of the first `c` in `t`, or -1.
pub open spec fn first_index_of(t: Seq<char>, c: char) -> int
    decreases t.len(),
{
    if t.len() == 0 {
        -1
    } else if t[0] == c {
        0
    } else {
        let r = first_index_of(t.drop_first(), c);
        if r < 0 {
            -1
        } else {
            r + 1
        }
    }
}

/// Scanning lemma: the first `c` at or after `from` is at `k`, or there is
/// none.
pub proof fn lemma_first_index_scan(t: Seq<char>, c: char, k: int)
    requires
        0 <= k <= t.len(),
        forall|j: int| 0 <= j < k ==> #[trigger] t[j] != c,
    ensures
        k < t.len() && t[k] == c ==> first_index_of(t, c) == k,
        k == t.len() ==> first_index_of(t, c) == -1,
    decreases k,
{
    if k > 0 {
        let d = t.drop_first();
        assert forall|j: int| 0 <= j < k - 1 implies #[trigger] d[j] != c by {
            assert(d[j] == t[j + 1]);
        }
        lemma_first_index_scan(d, c, k - 1);
        if k < t.len() {
            assert(d[k - 1] == t[k]);
        }
    }
}

/// A line without its final carriage return, if any.
pub open spec fn strip_cr(line: Seq<char>) -> Seq<char> {
    if line.len() > 0 && line.last() == '\r' {
        line.drop_last()
    } else {
        line
    }
}

/// `str::lines`: the text split at each `\n`, a `\r` before the `\n`
/// dropped; a final line ending gives no empty last line.
pub open spec fn lines_spec(t: Seq<char>) -> Seq<Seq<char>>
    decreases t.len(),
{
    if t.len() == 0 {
        Seq::empty()
    } else {
        let k = first_index_of(t, '\n');
        if 0 <= k < t.len() {
            seq![strip_cr(t.take(k))] + lines_spec(t.skip(k + 1))
        } else {
            seq![t]
        }
    }
}

proof fn lemma_first_index_bound(t: Seq<char>, c: char)
    ensures
        -1 <= first_index_of(t, c) < t.len(),
        first_index_of(t, c) >= 0 ==> t[first_index_of(t, c)] == c,
    decreases t.len(),
{
    if t.len() > 0 {
        lemma_first_index_bound(t.drop_first(), c);
    }
}

proof fn lemma_first_index_props(t: Seq<char>, c: char)
    ensures
        -1 <= first_index_of(t, c) < t.len(),
        first_index_of(t, c) >= 0 ==> t[first_index_of(t, c)] == c,
        forall|j: int| 0 <= j < t.len() && (first_index_of(t, c) < 0 || j < first_index_of(t, c)) ==> #[trigger] t[j] != c,
    decreases t.len(),
{
    if t.len() > 0 {
        let d = t.drop_first();
        lemma_first_index_props(d, c);
        assert forall|j: int| 0 <= j < t.len() && (first_index_of(t, c) < 0 || j < first_index_of(t, c)) implies #[trigger] t[j] != c by {
            if j > 0 {
                assert(t[j] == d[j - 1]);
            }
        }
    }
}

/// Splitting into lines distributes over a concatenation whose first part
/// is empty or ends with a line break.
pub proof fn lemma_lines_concat(a: Seq<char>, b: Seq<char>)
    requires
        a.len() == 0 || a.last() == '\n',
    ensures
        lines_spec(a + b) == lines_spec(a) + lines_spec(b),
    decreases a.len(),
{
    if a.len() == 0 {
        assert(a + b =~= b);
        assert(lines_spec(a) + lines_spec(b) =~= lines_spec(b));
    } else {
        lemma_first_index_props(a, '\n');
        let k = first_index_of(a, '\n');
        assert(k >= 0) by {
            if k < 0 {
                assert(a[a.len() - 1] != '\n');
            }
        }
        let t = a + b;
        assert forall|j: int| 0 <= j < k implies #[trigger] t[j] != '\n' by {
            assert(t[j] == a[j]);
        }
        lemma_first_index_scan(t, '\n', k);
        let ra = a.skip(k + 1);
        assert(t.take(k) =~= a.take(k));
        assert(t.skip(k + 1) =~= ra + b);
        if ra.len() > 0 {
            assert(ra.last() == a.last());
        }
        lemma_lines_concat(ra, b);
        assert(lines_spec(t) =~= lines_spec(a) + lines_spec(b));
    }
}

/// The lines of `text` (`str::lines`).
pub fn split_lines(text: &str) -> (r: Vec<String>)
    ensures
        r@.len() == lines_spec(text@).len(),
        forall|i: int| 0 <= i < r@.len() ==> #[trigger] r@[i]@ == lines_spec(text@)[i],
{
    let chars = to_chars(text);
    let n = chars.len();
    let mut out: Vec<String> = Vec::new();
    let mut start: usize = 0;
    let mut i: usize = 0;
    let ghost mut done: Seq<Seq<char>> = Seq::empty();
    proof {
        assert(text@.skip(0) =~= text@);
    }
    while i < n
        invariant
            chars@ == text@,
            n == text@.len(),
            start <= i <= n,
            forall|j: int| start <= j < i ==> #[trigger] text@[j] != '\n',
            out@.len() == done.len(),
            forall|j: int| 0 <= j < done.len() ==> #[trigger] out@[j]@ == done[j],
            lines_spec(text@) == done + lines_spec(text@.skip(start as int)),
        decreases n - i,
    {
        if chars[i] == '\n' {
            let ghost t = text@.skip(start as int);
            let mut end = i;
            if end > start && chars[end - 1] == '\r' {
                end = end - 1;
            }
            let mut line = String::new();
            crate::text::append_chars(&mut line, &chars, start, end);
            proof {
                assert forall|j: int| 0 <= j < i - start implies #[trigger] t[j] != '\n' by {
                    assert(t[j] == text@[start + j]);
                }
                lemma_first_index_scan(t, '\n', i - start);
                assert(t.take(i - start) =~= text@.subrange(start as int, i as int));
                assert(line@ =~= strip_cr(t.take(i - start)));
                assert(t.skip(i - start + 1) =~= text@.skip(i + 1));
                done = done.push(line@);
                assert(done + lines_spec(text@.skip(i + 1)) =~= (done.drop_last() + (seq![line@]
                    + lines_spec(text@.skip(i + 1)))));
            }
            out.push(line);
            start = i + 1;
        }
        i = i + 1;
    }
    if start < n {
        let mut line = String::new();
        crate::text::append_chars(&mut line, &chars, start, n);
        proof {
            let t = text@.skip(start as int);
            assert forall|j: int| 0 <= j < n - start implies #[trigger] t[j] != '\n' by {
                assert(t[j] == text@[start + j]);
            }
            lemma_first_index_scan(t, '\n', n - start);
            assert(line@ =~= t);
            done = done.push(line@);
        }
        out.push(line);
    } else {
        proof {
            assert(text@.skip(start as int) =~= Seq::<char>::empty());
            assert(done + Seq::<Seq<char>>::empty() =~= done);
        }
    }
    out
}

/// Whether `p` occurs in `s` as a contiguous run.
pub open spec fn contains_seq(s: Seq<char>, p: Seq<char>) -> bool {
    exists|i: int| 0 <= i <= s.len() - p.len() && #[trigger] s.subrange(i, i + p.len()) == p
}

/// Whether `needle` occurs in `haystack` (`str::contains`).
pub fn contains_str(haystack: &str, needle: &str) -> (r: bool)
    ensures
        r == contains_seq(haystack@, needle@),
{
    let h = to_chars(haystack);
    let p = to_chars(needle);
    let hn = h.len();
    let pn = p.len();
    if pn > hn {
        return false;
    }
    let mut i: usize = 0;
    while i <= hn - pn
        invariant
            h@ == haystack@,
            p@ == needle@,
            hn == h@.len(),
            pn == p@.len(),
            pn <= hn,
            i <= hn - pn + 1,
            forall|k: int| 0 <= k < i ==> #[trigger] haystack@.subrange(k, k + pn) != needle@,
        decreases hn - pn + 1 - i,
    {
        let mut j: usize = 0;
        let mut same = true;
        while j < pn
            invariant
                h@ == haystack@,
                p@ == needle@,
                hn == h@.len(),
                pn == p@.len(),
                i + pn <= hn,
                j <= pn,
                same == forall|m: int| 0 <= m < j ==> h@[i + m] == p@[m],
            decreases pn - j,
        {
            if h[i + j] != p[j] {
                same = false;
            }
            j = j + 1;
        }
        if same {
            assert(haystack@.subrange(i as int, i + pn) =~= needle@);
            return true;
        }
        proof {
            assert(exists|m: int| 0 <= m < pn && h@[i + m] != p@[m]);
            let m = choose|m: int| 0 <= m < pn && h@[i + m] != p@[m];
            assert(haystack@.subrange(i as int, i + pn)[m] != needle@[m]);
        }
        i = i + 1;
    }
    false
}

/// Whether `s` begins with `p`.
pub open spec fn starts_with_seq(s: Seq<char>, p: Seq<char>) -> bool {
    p.len() <= s.len() && s.take(p.len() as int) == p
}

/// Whether `s` ends with `p`.
pub open spec fn ends_with_seq(s: Seq<char>, p: Seq<char>) -> bool {
    p.len() <= s.len() && s.skip(s.len() - p.len()) == p
}

/// Whether `s[from..]` begins with `p`.
pub fn starts_with_at(s: &Vec<char>, from: usize, p: &str) -> (r: bool)
    requires
        from <= s@.len(),
    ensures
        r == starts_with_seq(s@.skip(from as int), p@),
{
    let pc = to_chars(p);
    let pn = pc.len();
    let sn = s.len();
    if pn > sn - from {
        return false;
    }
    let mut j: usize = 0;
    while j < pn
        invariant
            sn == s@.len(),
            pc@ == p@,
            pn == p@.len(),
            from + pn <= s@.len(),
            j <= pn,
            forall|m: int| 0 <= m < j ==> s@[from + m] == pc@[m],
        decreases pn - j,
    {
        if s[from + j] != pc[j] {
            assert(s@.skip(from as int).take(pn as int)[j as int] != p@[j as int]);
            return false;
        }
        j = j + 1;
    }
    assert(s@.skip(from as int).take(pn as int) =~= p@);
    true
}

/// `PathBuf::push` on Unix: an absolute component replaces the path;
/// otherwise it is appended, with a `/` between unless the path is empty
/// or already ends with one.
pub open spec fn join_path_spec(base: Seq<char>, comp: Seq<char>) -> Seq<char> {
    if comp.len() > 0 && comp[0] == '/' {
        comp
    } else if base.len() == 0 || base.last() == '/' {
        base + comp
    } else {
        base + seq!['/'] + comp
    }
}

/// Joins a path component onto a path (see [`join_path_spec`]).
pub fn join_path(base: &str, comp: &str) -> (r: String)
    ensures
        r@ == join_path_spec(base@, comp@),
{
    let bc = to_chars(base);
    let cc = to_chars(comp);
    if cc.len() > 0 && cc[0] == '/' {
        return comp.to_owned();
    }
    let mut out = base.to_owned();
    if !(bc.len() == 0 || bc[bc.len() - 1] == '/') {
        push_char(&mut out, '/');
    }
    out.append(comp);
    out
}

/// Length of `s` in UTF-8 bytes.
pub fn byte_len(s: &str) -> (n: usize)
    ensures
        n == utf8_len(s@),
{
    s.as_bytes().len()
}

/// Every prefix encodes to at most as many bytes as the whole sequence.
pub proof fn lemma_prefix_len_bound(s: Seq<char>)
    ensures
        forall|k: int| 0 <= k <= s.len() ==> #[trigger] utf8_len(s.take(k)) <= utf8_len(s),
{
    assert forall|k: int| 0 <= k <= s.len() implies #[trigger] utf8_len(s.take(k)) <= utf8_len(
        s,
    ) by {
        assert(s =~= s.take(k) + s.skip(k));
        lemma_encode_concat(s.take(k), s.skip(k));
    }
}

/// The end of the encoding of a prefix is a character boundary.
pub proof fn lemma_prefix_boundary(a: Seq<char>, b: Seq<char>)
    ensures
        is_char_boundary(encode_utf8(a + b), encode_utf8(a).len() as int),
    decreases a.len(),
{
    broadcast use encode_utf8_valid_utf8;

    if a.len() == 0 {
    } else {
        let s = a + b;
        encode_utf8_first_scalar(s);
        assert(s[0] == a[0]);
        assert(pop_first_scalar(encode_utf8(s)) =~= encode_utf8(s.drop_first()));
        assert(s.drop_first() =~= a.drop_first() + b);
        lemma_prefix_boundary(a.drop_first(), b);
    }
}

/// Width in bytes of the UTF-8 encoding of `c`.
pub fn char_utf8_len(c: char) -> (n: usize)
    ensures
        n == encode_scalar(c as u32).len(),
        1 <= n <= 4,
{
    let v = c as u32;
    proof {
        char_is_scalar(c);
    }
    if v < 0x80 {
        1
    } else if v < 0x800 {
        2
    } else if v < 0x10000 {
        3
    } else {
        4
    }
}

/// Splits `s` after its first `k` characters; `byte_k` is the byte length
/// of those characters.
pub fn split_at_chars(s: &str, k: usize, byte_k: usize) -> (r: (&str, &str))
    requires
        k <= s@.len(),
        byte_k == utf8_len(s@.take(k as int)),
    ensures
        r.0@ == s@.take(k as int),
        r.1@ == s@.skip(k as int),
{
    broadcast use encode_utf8_decode_utf8;

    proof {
        assert(s@ =~= s@.take(k as int) + s@.skip(k as int));
        lemma_encode_concat(s@.take(k as int), s@.skip(k as int));
        lemma_prefix_boundary(s@.take(k as int), s@.skip(k as int));
    }
    let r = s.split_at(byte_k);
    proof {
        assert(r.0.spec_bytes() =~= encode_utf8(s@.take(k as int)));
        assert(r.1.spec_bytes() =~= encode_utf8(s@.skip(k as int)));
        assert(decode_utf8(encode_utf8(r.0@)) == r.0@);
        assert(decode_utf8(encode_utf8(r.1@)) == r.1@);
    }
    r
}

} // verus!
