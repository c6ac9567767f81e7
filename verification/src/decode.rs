//! Decoding of the textual form of a tracking identifier.
//!
//! The expected input is a string of exactly sixteen comma-separated
//! decimal byte values, each in 0..=255, each optionally surrounded by
//! whitespace. Decoding either yields a [`TrackingIdentifier`] holding the
//! sixteen bytes in order, or reports the first offending token
//! ([`DecodeError::InvalidByte`]) or a wrong token count
//! ([`DecodeError::WrongLength`]). There is no partial success.

use vstd::prelude::*;
use vstd::string::StrSliceExecFns;

verus! {

// ---------------------------------------------------------------------------
// Specification model: characters, tokens and token values
// ---------------------------------------------------------------------------

/// Characters stripped when a token (or the whole input) is trimmed.
pub open spec fn is_space(c: char) -> bool {
    c == ' ' || c == '\t' || c == '\n' || c == '\r' || c == '\u{c}'
}

/// Decimal digit characters.
pub open spec fn is_digit(c: char) -> bool {
    48 <= c as u32 && c as u32 <= 57
}

/// Numeric value of a single decimal digit character.
pub open spec fn digit_val(c: char) -> int {
    c as u32 - 48
}

pub open spec fn all_digits(s: Seq<char>) -> bool {
    forall|i: int| 0 <= i < s.len() ==> is_digit(s[i])
}

/// Value of a digit string read most-significant-first.
pub open spec fn digits_val(s: Seq<char>) -> int
    decreases s.len(),
{
    if s.len() == 0 {
        0
    } else {
        digits_val(s.drop_last()) * 10 + digit_val(s.last())
    }
}

/// A token parses as a byte when it is a nonempty digit string whose value
/// fits in 0..=255.
pub open spec fn token_ok(t: Seq<char>) -> bool {
    t.len() >= 1 && all_digits(t) && digits_val(t) <= 255
}

pub open spec fn token_byte(t: Seq<char>) -> u8 {
    digits_val(t) as u8
}

/// Why a token failed to parse as a byte, checked in this order.
pub open spec fn token_reason(t: Seq<char>) -> ByteParseReason {
    if t.len() == 0 {
        ByteParseReason::EmptyToken
    } else if !all_digits(t) {
        ByteParseReason::NonNumeric
    } else {
        ByteParseReason::OutOfRange
    }
}

// ---------------------------------------------------------------------------
// Specification model: trimming and splitting
// ---------------------------------------------------------------------------

pub open spec fn trim_start(s: Seq<char>) -> Seq<char>
    decreases s.len(),
{
    if s.len() > 0 && is_space(s[0]) {
        trim_start(s.drop_first())
    } else {
        s
    }
}

pub open spec fn trim_end(s: Seq<char>) -> Seq<char>
    decreases s.len(),
{
    if s.len() > 0 && is_space(s.last()) {
        trim_end(s.drop_last())
    } else {
        s
    }
}

/// The string with leading and trailing whitespace removed.
pub open spec fn trim(s: Seq<char>) -> Seq<char> {
    trim_end(trim_start(s))
}

/// Split on commas. The empty string has one (empty) token; in general the
/// token count is one more than the comma count.
pub open spec fn split_commas(s: Seq<char>) -> Seq<Seq<char>>
    decreases s.len(),
{
    if s.len() == 0 {
        seq![Seq::<char>::empty()]
    } else if s[0] == ',' {
        seq![Seq::<char>::empty()] + split_commas(s.drop_first())
    } else {
        let rest = split_commas(s.drop_first());
        seq![seq![s[0]] + rest[0]] + rest.drop_first()
    }
}

/// The comma-separated tokens of the input, each trimmed.
pub open spec fn trimmed_tokens(s: Seq<char>) -> Seq<Seq<char>> {
    split_commas(s).map_values(|t: Seq<char>| trim(t))
}

/// Index of the first token that does not parse as a byte, or -1 if all do.
pub open spec fn first_bad(toks: Seq<Seq<char>>) -> int
    decreases toks.len(),
{
    if toks.len() == 0 {
        -1
    } else if !token_ok(toks[0]) {
        0
    } else {
        let r = first_bad(toks.drop_first());
        if r < 0 {
            -1
        } else {
            1 + r
        }
    }
}

/// Byte values of a sequence of tokens (meaningful when every token is ok).
pub open spec fn token_bytes(toks: Seq<Seq<char>>) -> Seq<u8> {
    toks.map_values(|t: Seq<char>| token_byte(t))
}

/// Mathematical outcome of decoding an input string.
pub enum DecodeModel {
    /// All sixteen tokens parsed; `bytes` are their values in order.
    Valid { bytes: Seq<u8> },
    /// `token` is the first (trimmed) token that does not parse as a byte.
    BadToken { token: Seq<char>, reason: ByteParseReason },
    /// Every token parsed but there were `count` of them instead of 16;
    /// `bytes` are the values parsed.
    BadLength { count: int, bytes: Seq<u8> },
}

/// What `decode` must return for a given input.
pub open spec fn spec_decode(s: Seq<char>) -> DecodeModel {
    let toks = trimmed_tokens(s);
    let b = first_bad(toks);
    if b >= 0 {
        DecodeModel::BadToken { token: toks[b], reason: token_reason(toks[b]) }
    } else if toks.len() != 16 {
        DecodeModel::BadLength { count: toks.len() as int, bytes: token_bytes(toks) }
    } else {
        DecodeModel::Valid { bytes: token_bytes(toks) }
    }
}

// ---------------------------------------------------------------------------
// Lemmas about digit strings
// ---------------------------------------------------------------------------

pub open spec fn pow10(n: nat) -> int
    decreases n,
{
    if n == 0 {
        1
    } else {
        10 * pow10((n - 1) as nat)
    }
}

pub proof fn lemma_pow10_pos(n: nat)
    ensures
        pow10(n) >= 1,
    decreases n,
{
    if n > 0 {
        lemma_pow10_pos((n - 1) as nat);
    }
}

pub proof fn lemma_pow10_mono(a: nat, b: nat)
    requires
        a <= b,
    ensures
        pow10(a) <= pow10(b),
    decreases b,
{
    lemma_pow10_pos(a);
    if a < b {
        lemma_pow10_mono(a, (b - 1) as nat);
        lemma_pow10_pos((b - 1) as nat);
    }
}

/// The value of a digit string of length n lies below 10^n.
pub proof fn lemma_digits_val_bounds(s: Seq<char>)
    requires
        all_digits(s),
    ensures
        0 <= digits_val(s) < pow10(s.len()),
    decreases s.len(),
{
    if s.len() == 0 {
    } else {
        let dl = s.drop_last();
        assert forall|i: int| 0 <= i < dl.len() implies is_digit(dl[i]) by {
            assert(dl[i] == s[i]);
        }
        lemma_digits_val_bounds(dl);
        assert(is_digit(s[s.len() - 1]));
    }
}

/// A digit string starting with a nonzero digit is at least 10^(n-1).
pub proof fn lemma_digits_val_lower(s: Seq<char>)
    requires
        all_digits(s),
        s.len() >= 1,
        digit_val(s[0]) >= 1,
    ensures
        digits_val(s) >= pow10((s.len() - 1) as nat),
    decreases s.len(),
{
    assert(is_digit(s[s.len() - 1]));
    if s.len() == 1 {
        assert(s.drop_last() =~= Seq::<char>::empty());
        assert(digits_val(Seq::<char>::empty()) == 0);
        assert(s.last() == s[0]);
    } else {
        let dl = s.drop_last();
        assert forall|i: int| 0 <= i < dl.len() implies is_digit(dl[i]) by {
            assert(dl[i] == s[i]);
        }
        assert(dl[0] == s[0]);
        lemma_digits_val_lower(dl);
        assert(pow10((s.len() - 1) as nat) == 10 * pow10((s.len() - 2) as nat));
    }
}

/// Leading zero digits do not change the value of a digit string.
pub proof fn lemma_leading_zeros(s: Seq<char>, k: int)
    requires
        0 <= k <= s.len(),
        forall|i: int| 0 <= i < k ==> digit_val(s[i]) == 0,
    ensures
        digits_val(s) == digits_val(s.skip(k)),
    decreases s.len(),
{
    if k == 0 {
        assert(s.skip(0) =~= s);
    } else if s.len() == k {
        let dl = s.drop_last();
        assert(digit_val(s.last()) == 0);
        lemma_leading_zeros(dl, k - 1);
        assert(dl.skip(k - 1) =~= Seq::<char>::empty());
        assert(s.skip(k) =~= Seq::<char>::empty());
        assert(digits_val(s) == digits_val(dl) * 10 + digit_val(s.last()));
    } else {
        let dl = s.drop_last();
        lemma_leading_zeros(dl, k);
        let sk = s.skip(k);
        assert(sk.len() == s.len() - k >= 1);
        assert(sk.drop_last() =~= dl.skip(k));
        assert(sk.last() == s.last());
    }
}

// ---------------------------------------------------------------------------
// Lemmas about splitting and token scanning
// ---------------------------------------------------------------------------

pub proof fn lemma_split_len(s: Seq<char>)
    ensures
        split_commas(s).len() >= 1,
    decreases s.len(),
{
    if s.len() > 0 {
        lemma_split_len(s.drop_first());
    }
}

/// How the token list grows when one character is appended: a comma opens a
/// new empty token, any other character extends the last token.
pub proof fn lemma_split_push(s: Seq<char>, c: char)
    ensures
        c == ',' ==> split_commas(s.push(c)) == split_commas(s).push(Seq::<char>::empty()),
        c != ',' ==> split_commas(s.push(c)) == split_commas(s).update(
            split_commas(s).len() - 1,
            split_commas(s).last().push(c),
        ),
    decreases s.len(),
{
    lemma_split_len(s);
    let s2 = s.push(c);
    if s.len() == 0 {
        assert(s2.len() == 1 && s2[0] == c);
        assert(s2.drop_first() =~= Seq::<char>::empty());
        assert(split_commas(Seq::<char>::empty()) == seq![Seq::<char>::empty()]);
        if c == ',' {
            assert(split_commas(s2) =~~= split_commas(s).push(Seq::<char>::empty()));
        } else {
            assert(split_commas(s2) =~~= split_commas(s).update(
                split_commas(s).len() - 1,
                split_commas(s).last().push(c),
            ));
        }
    } else {
        let sdf = s.drop_first();
        lemma_split_len(sdf);
        lemma_split_push(sdf, c);
        assert(s2[0] == s[0]);
        assert(s2.drop_first() =~= sdf.push(c));
        let rest = split_commas(sdf);
        let rest2 = split_commas(sdf.push(c));
        if c == ',' {
            assert(rest2 == rest.push(Seq::<char>::empty()));
            if s[0] == ',' {
                assert(split_commas(s2) =~~= split_commas(s).push(Seq::<char>::empty()));
            } else {
                assert(rest2[0] == rest[0]);
                assert(rest2.drop_first() =~= rest.drop_first().push(Seq::<char>::empty()));
                assert(split_commas(s2) =~~= split_commas(s).push(Seq::<char>::empty()));
            }
        } else {
            assert(rest2 == rest.update(rest.len() - 1, rest.last().push(c)));
            if s[0] == ',' {
                assert(split_commas(s) == seq![Seq::<char>::empty()] + rest);
                assert(split_commas(s).last() == rest.last());
                assert(split_commas(s2) =~~= split_commas(s).update(
                    split_commas(s).len() - 1,
                    split_commas(s).last().push(c),
                ));
            } else {
                if rest.len() == 1 {
                    assert(rest2[0] == rest[0].push(c));
                    assert(split_commas(s2) =~~= split_commas(s).update(
                        split_commas(s).len() - 1,
                        split_commas(s).last().push(c),
                    ));
                } else {
                    assert(rest2[0] == rest[0]);
                    assert(rest2.drop_first() =~= rest.drop_first().update(
                        rest.len() - 2,
                        rest.last().push(c),
                    ));
                    assert(split_commas(s2) =~~= split_commas(s).update(
                        split_commas(s).len() - 1,
                        split_commas(s).last().push(c),
                    ));
                }
            }
        }
    }
}

pub proof fn lemma_first_bad_all_ok(toks: Seq<Seq<char>>)
    requires
        forall|j: int| 0 <= j < toks.len() ==> token_ok(toks[j]),
    ensures
        first_bad(toks) == -1,
    decreases toks.len(),
{
    if toks.len() > 0 {
        let d = toks.drop_first();
        assert forall|j: int| 0 <= j < d.len() implies token_ok(d[j]) by {
            assert(d[j] == toks[j + 1]);
        }
        lemma_first_bad_all_ok(d);
    }
}

pub proof fn lemma_first_bad_at(toks: Seq<Seq<char>>, i: int)
    requires
        0 <= i < toks.len(),
        forall|j: int| 0 <= j < i ==> token_ok(toks[j]),
        !token_ok(toks[i]),
    ensures
        first_bad(toks) == i,
    decreases toks.len(),
{
    if i > 0 {
        let d = toks.drop_first();
        assert forall|j: int| 0 <= j < i - 1 implies token_ok(d[j]) by {
            assert(d[j] == toks[j + 1]);
        }
        assert(d[i - 1] == toks[i]);
        lemma_first_bad_at(d, i - 1);
    }
}

// ---------------------------------------------------------------------------
// Lemmas about trimming
// ---------------------------------------------------------------------------

/// If the first `a` characters are whitespace and the one after them (if
/// any) is not, trimming the start drops exactly those `a` characters.
pub proof fn lemma_trim_start_skip(s: Seq<char>, a: int)
    requires
        0 <= a <= s.len(),
        forall|i: int| 0 <= i < a ==> is_space(s[i]),
        a < s.len() ==> !is_space(s[a]),
    ensures
        trim_start(s) == s.skip(a),
    decreases s.len(),
{
    if a == 0 {
        assert(s.skip(0) =~= s);
    } else {
        let d = s.drop_first();
        assert forall|i: int| 0 <= i < a - 1 implies is_space(d[i]) by {
            assert(d[i] == s[i + 1]);
        }
        lemma_trim_start_skip(d, a - 1);
        assert(d.skip(a - 1) =~= s.skip(a));
    }
}

/// If the characters from `b` on are whitespace and the one before `b` (if
/// any) is not, trimming the end keeps exactly the first `b` characters.
pub proof fn lemma_trim_end_take(s: Seq<char>, b: int)
    requires
        0 <= b <= s.len(),
        forall|i: int| b <= i < s.len() ==> is_space(s[i]),
        b > 0 ==> !is_space(s[b - 1]),
    ensures
        trim_end(s) == s.take(b),
    decreases s.len(),
{
    if b == s.len() {
        assert(s.take(b) =~= s);
    } else {
        let d = s.drop_last();
        assert(is_space(s[s.len() - 1]));
        lemma_trim_end_take(d, b);
        assert(d.take(b) =~= s.take(b));
    }
}

// ---------------------------------------------------------------------------
// Executable types
// ---------------------------------------------------------------------------

/// Why a single token failed to parse as a byte value.
#[derive(Debug, Clone, Copy, PartialEq, Eq, Structural)]
pub enum ByteParseReason {
    /// The token was empty after trimming.
    EmptyToken,
    /// The token contained a character that is not a decimal digit.
    NonNumeric,
    /// The token was numeric but its value exceeds 255.
    OutOfRange,
}

/// Why an input string failed to decode.
#[derive(Debug)]
pub enum DecodeError {
    /// `token` is the first trimmed token that does not parse as a byte.
    InvalidByte { token: String, reason: ByteParseReason },
    /// All tokens parsed as bytes, but there were `count` of them rather
    /// than sixteen; `bytes` holds the parsed values, for diagnostics.
    WrongLength { count: usize, bytes: Vec<u8> },
}

/// A sixteen-byte tracking identifier. Values are created only by
/// [`decode`], which guarantees exactly sixteen bytes.
#[derive(Debug, Clone)]
pub struct TrackingIdentifier {
    bytes: Vec<u8>,
}

impl View for TrackingIdentifier {
    type V = Seq<u8>;

    closed spec fn view(&self) -> Seq<u8> {
        self.bytes@
    }
}

impl TrackingIdentifier {
    /// A well-formed identifier holds exactly sixteen bytes.
    pub open spec fn wf(&self) -> bool {
        self@.len() == 16
    }

    /// The sixteen bytes, in the order they were decoded.
    pub fn as_bytes(&self) -> (r: &Vec<u8>)
        ensures
            r@ == self@,
    {
        &self.bytes
    }
}

// ---------------------------------------------------------------------------
// Executable helpers
// ---------------------------------------------------------------------------

/// The character views of a list of character vectors.
pub open spec fn views_of(ts: Seq<Vec<char>>) -> Seq<Seq<char>> {
    ts.map_values(|t: Vec<char>| t@)
}

pub fn is_space_char(c: char) -> (b: bool)
    ensures
        b == is_space(c),
{
    c == ' ' || c == '\t' || c == '\n' || c == '\r' || c == '\u{c}'
}

/// The characters of a string, in order.
pub fn to_chars(s: &str) -> (r: Vec<char>)
    ensures
        r@ == s@,
{
    let n = s.unicode_len();
    let mut r: Vec<char> = Vec::new();
    let mut i: usize = 0;
    while i < n
        invariant
            n == s@.len(),
            i <= n,
            r@ == s@.take(i as int),
        decreases n - i,
    {
        let c = s.get_char(i);
        r.push(c);
        proof {
            assert(s@.take(i as int).push(s@[i as int]) =~= s@.take(i as int + 1));
        }
        i += 1;
    }
    proof {
        assert(s@.take(n as int) =~= s@);
    }
    r
}

/// Relies on String::push: appends the given character at the end.
#[verifier::external_body]
fn push_char(s: &mut String, c: char)
    ensures
        final(s)@ == old(s)@.push(c),
{
    s.push(c);
}

/// A string holding exactly the given characters.
pub fn string_of_chars(v: &Vec<char>) -> (s: String)
    ensures
        s@ == v@,
{
    let mut s = String::new();
    let mut i: usize = 0;
    while i < v.len()
        invariant
            i <= v@.len(),
            s@ == v@.take(i as int),
        decreases v@.len() - i,
    {
        push_char(&mut s, v[i]);
        proof {
            assert(v@.take(i as int).push(v@[i as int]) =~= v@.take(i as int + 1));
        }
        i += 1;
    }
    proof {
        assert(v@.take(v@.len() as int) =~= v@);
    }
    s
}

/// The characters with leading and trailing whitespace removed.
pub fn trim_chars(v: &Vec<char>) -> (r: Vec<char>)
    ensures
        r@ == trim(v@),
{
    let n = v.len();
    let mut a: usize = 0;
    while a < n
        invariant
            a <= n,
            n == v@.len(),
            forall|i: int| 0 <= i < a ==> is_space(v@[i]),
        ensures
            a <= n,
            n == v@.len(),
            forall|i: int| 0 <= i < a ==> is_space(v@[i]),
            a < n ==> !is_space(v@[a as int]),
        decreases n - a,
    {
        if !is_space_char(v[a]) {
            break;
        }
        a += 1;
    }
    proof {
        lemma_trim_start_skip(v@, a as int);
    }
    let mut b: usize = n;
    while b > a
        invariant
            a <= b <= n,
            n == v@.len(),
            forall|i: int| b <= i < n ==> is_space(v@[i]),
        ensures
            a <= b <= n,
            n == v@.len(),
            forall|i: int| b <= i < n ==> is_space(v@[i]),
            b > a ==> !is_space(v@[b - 1]),
        decreases b,
    {
        if !is_space_char(v[b - 1]) {
            break;
        }
        b -= 1;
    }
    proof {
        let sk = v@.skip(a as int);
        assert forall|i: int| b - a <= i < sk.len() implies is_space(sk[i]) by {
            assert(sk[i] == v@[i + a]);
        }
        if b > a {
            assert(sk[b - a - 1] == v@[b - 1]);
        }
        lemma_trim_end_take(sk, b - a);
    }
    let mut r: Vec<char> = Vec::new();
    let mut i: usize = a;
    while i < b
        invariant
            a <= i <= b <= n,
            n == v@.len(),
            r@ == v@.subrange(a as int, i as int),
        decreases b - i,
    {
        r.push(v[i]);
        proof {
            assert(v@.subrange(a as int, i as int).push(v@[i as int]) =~= v@.subrange(
                a as int,
                i as int + 1,
            ));
        }
        i += 1;
    }
    proof {
        assert(v@.skip(a as int).take(b - a as int) =~= v@.subrange(a as int, b as int));
    }
    r
}

/// Parses one trimmed token as a byte value.
pub fn parse_token(t: &Vec<char>) -> (r: Result<u8, ByteParseReason>)
    ensures
        token_ok(t@) ==> r == Result::<u8, ByteParseReason>::Ok(token_byte(t@)),
        !token_ok(t@) ==> r == Result::<u8, ByteParseReason>::Err(token_reason(t@)),
{
    let n = t.len();
    if n == 0 {
        return Err(ByteParseReason::EmptyToken);
    }
    let mut i: usize = 0;
    while i < n
        invariant
            i <= n,
            n == t@.len(),
            forall|j: int| 0 <= j < i ==> is_digit(t@[j]),
        decreases n - i,
    {
        let u = t[i] as u32;
        if u < 48 || u > 57 {
            assert(!is_digit(t@[i as int]));
            return Err(ByteParseReason::NonNumeric);
        }
        i += 1;
    }
    assert(all_digits(t@));
    // Skip leading zeros so that long but small numerals still parse.
    let mut k: usize = 0;
    while k < n
        invariant
            k <= n,
            n == t@.len(),
            forall|j: int| 0 <= j < k ==> digit_val(t@[j]) == 0,
        ensures
            k <= n,
            n == t@.len(),
            forall|j: int| 0 <= j < k ==> digit_val(t@[j]) == 0,
            k < n ==> digit_val(t@[k as int]) != 0,
        decreases n - k,
    {
        if t[k] as u32 != 48 {
            break;
        }
        k += 1;
    }
    proof {
        lemma_leading_zeros(t@, k as int);
    }
    if k == n {
        proof {
            assert(t@.skip(n as int) =~= Seq::<char>::empty());
            assert(digits_val(t@) == 0);
        }
        return Ok(0);
    }
    let m = n - k;
    let ghost sk = t@.skip(k as int);
    proof {
        assert(sk.len() == m);
        assert(sk[0] == t@[k as int]);
        assert forall|j: int| 0 <= j < sk.len() implies is_digit(sk[j]) by {
            assert(sk[j] == t@[j + k]);
        }
    }
    if m > 3 {
        proof {
            assert(digit_val(sk[0]) >= 1);
            lemma_digits_val_lower(sk);
            lemma_pow10_mono(3, (m - 1) as nat);
            reveal_with_fuel(pow10, 4);
            assert(pow10(3) == 1000);
            assert(digits_val(t@) >= 1000);
        }
        return Err(ByteParseReason::OutOfRange);
    }
    let mut val: u32 = 0;
    let mut j: usize = k;
    while j < n
        invariant
            k <= j <= n,
            n == t@.len(),
            n - k <= 3,
            all_digits(t@),
            val == digits_val(t@.subrange(k as int, j as int)),
            val <= 999,
        decreases n - j,
    {
        let ghost pre = t@.subrange(k as int, j as int);
        proof {
            assert forall|q: int| 0 <= q < pre.len() implies is_digit(pre[q]) by {
                assert(pre[q] == t@[q + k]);
            }
            lemma_digits_val_bounds(pre);
            lemma_pow10_mono(pre.len() as nat, 2);
            reveal_with_fuel(pow10, 3);
            assert(pow10(2) == 100);
            assert(t@.subrange(k as int, j as int + 1).drop_last() =~= pre);
            assert(t@.subrange(k as int, j as int + 1).last() == t@[j as int]);
        }
        let u = t[j] as u32;
        val = val * 10 + (u - 48);
        j += 1;
    }
    proof {
        assert(t@.subrange(k as int, n as int) =~= t@.skip(k as int));
        assert(val == digits_val(t@));
    }
    if val > 255 {
        return Err(ByteParseReason::OutOfRange);
    }
    Ok(val as u8)
}

/// The comma-separated pieces of the input, untrimmed.
pub fn split_on_commas(chars: &Vec<char>) -> (toks: Vec<Vec<char>>)
    ensures
        views_of(toks@) == split_commas(chars@),
{
    let mut toks: Vec<Vec<char>> = Vec::new();
    let mut cur: Vec<char> = Vec::new();
    let mut i: usize = 0;
    proof {
        assert(chars@.take(0) =~= Seq::<char>::empty());
        assert(split_commas(Seq::<char>::empty()) == seq![Seq::<char>::empty()]);
        assert(views_of(toks@).push(cur@) =~~= split_commas(chars@.take(0)));
    }
    while i < chars.len()
        invariant
            i <= chars@.len(),
            split_commas(chars@.take(i as int)) == views_of(toks@).push(cur@),
        decreases chars@.len() - i,
    {
        let c = chars[i];
        proof {
            lemma_split_push(chars@.take(i as int), c);
            assert(chars@.take(i as int).push(chars@[i as int]) =~= chars@.take(i as int + 1));
        }
        let ghost old_toks = toks@;
        let ghost old_cur = cur@;
        if c == ',' {
            toks.push(cur);
            cur = Vec::new();
            proof {
                assert(views_of(toks@) =~~= views_of(old_toks).push(old_cur));
                assert(split_commas(chars@.take(i as int + 1)) =~~= views_of(toks@).push(cur@));
            }
        } else {
            cur.push(c);
            proof {
                let s = split_commas(chars@.take(i as int));
                assert(s.last() == old_cur);
                assert(split_commas(chars@.take(i as int + 1)) =~~= views_of(toks@).push(cur@));
            }
        }
        i += 1;
    }
    proof {
        assert(chars@.take(chars@.len() as int) =~= chars@);
    }
    let ghost old_toks = toks@;
    let ghost last = cur@;
    toks.push(cur);
    proof {
        assert(views_of(toks@) =~~= views_of(old_toks).push(last));
    }
    toks
}

// ---------------------------------------------------------------------------
// Decoding
// ---------------------------------------------------------------------------

/// Whether an executable decode result is the one the model prescribes.
pub open spec fn decode_result_matches(
    r: Result<TrackingIdentifier, DecodeError>,
    m: DecodeModel,
) -> bool {
    match m {
        DecodeModel::Valid { bytes } => match r {
            Result::Ok(id) => id@ == bytes && id.wf(),
            Result::Err(_) => false,
        },
        DecodeModel::BadToken { token, reason } => match r {
            Result::Err(DecodeError::InvalidByte { token: t, reason: re }) => t@ == token
                && re == reason,
            _ => false,
        },
        DecodeModel::BadLength { count, bytes } => match r {
            Result::Err(DecodeError::WrongLength { count: c, bytes: b }) => c as int == count
                && b@ == bytes,
            _ => false,
        },
    }
}

/// Decodes the textual form of a tracking identifier: exactly sixteen
/// comma-separated decimal byte values, each optionally surrounded by
/// whitespace. Returns the first bad token, or the wrong token count, or
/// the sixteen bytes in order — exactly as [`spec_decode`] prescribes.
pub fn decode(text: &str) -> (r: Result<TrackingIdentifier, DecodeError>)
    ensures
        decode_result_matches(r, spec_decode(text@)),
{
    let chars = to_chars(text);
    let toks = split_on_commas(&chars);
    let ghost tt = trimmed_tokens(text@);
    proof {
        assert(tt.len() == views_of(toks@).len());
    }
    let n = toks.len();
    let mut bytes: Vec<u8> = Vec::new();
    let mut i: usize = 0;
    while i < n
        invariant
            i <= n,
            n == toks@.len(),
            views_of(toks@) == split_commas(text@),
            tt == trimmed_tokens(text@),
            tt.len() == n,
            forall|j: int| 0 <= j < i ==> token_ok(tt[j]),
            bytes@ == token_bytes(tt.take(i as int)),
            bytes@.len() == i,
        decreases n - i,
    {
        let t = trim_chars(&toks[i]);
        proof {
            assert(views_of(toks@)[i as int] == toks@[i as int]@);
            assert(tt[i as int] == trim(toks@[i as int]@));
        }
        match parse_token(&t) {
            Ok(b) => {
                bytes.push(b);
                proof {
                    assert(tt.take(i as int).push(tt[i as int]) =~= tt.take(i as int + 1));
                    assert(token_bytes(tt.take(i as int)).push(token_byte(tt[i as int]))
                        =~= token_bytes(tt.take(i as int + 1)));
                }
            },
            Err(reason) => {
                proof {
                    lemma_first_bad_at(tt, i as int);
                }
                let token = string_of_chars(&t);
                return Err(DecodeError::InvalidByte { token, reason });
            },
        }
        i += 1;
    }
    proof {
        lemma_first_bad_all_ok(tt);
        assert(tt.take(n as int) =~= tt);
    }
    if bytes.len() != 16 {
        let count = bytes.len();
        return Err(DecodeError::WrongLength { count, bytes });
    }
    Ok(TrackingIdentifier { bytes })
}

// ---------------------------------------------------------------------------
// Laws of decoding
// ---------------------------------------------------------------------------

/// When the input holds exactly sixteen tokens and every trimmed token is a
/// valid byte numeral, decoding succeeds with exactly those byte values, in
/// order.
pub proof fn lemma_decode_success(s: Seq<char>)
    requires
        trimmed_tokens(s).len() == 16,
        forall|j: int| 0 <= j < 16 ==> token_ok(#[trigger] trimmed_tokens(s)[j]),
    ensures
        spec_decode(s) == (DecodeModel::Valid { bytes: token_bytes(trimmed_tokens(s)) }),
{
    lemma_first_bad_all_ok(trimmed_tokens(s));
}

/// When every trimmed token is a valid byte numeral but their number is not
/// sixteen, decoding fails with the actual count and the parsed values.
pub proof fn lemma_decode_wrong_length(s: Seq<char>)
    requires
        trimmed_tokens(s).len() != 16,
        forall|j: int|
            0 <= j < trimmed_tokens(s).len() ==> token_ok(#[trigger] trimmed_tokens(s)[j]),
    ensures
        spec_decode(s) == (DecodeModel::BadLength {
            count: trimmed_tokens(s).len() as int,
            bytes: token_bytes(trimmed_tokens(s)),
        }),
{
    lemma_first_bad_all_ok(trimmed_tokens(s));
}

/// When some trimmed token is not a valid byte numeral, decoding fails with
/// the first such token, whatever the token count.
pub proof fn lemma_decode_invalid_byte(s: Seq<char>, i: int)
    requires
        0 <= i < trimmed_tokens(s).len(),
        forall|j: int| 0 <= j < i ==> token_ok(#[trigger] trimmed_tokens(s)[j]),
        !token_ok(trimmed_tokens(s)[i]),
    ensures
        spec_decode(s) == (DecodeModel::BadToken {
            token: trimmed_tokens(s)[i],
            reason: token_reason(trimmed_tokens(s)[i]),
        }),
{
    lemma_first_bad_at(trimmed_tokens(s), i);
}

/// Whitespace tolerance: two inputs whose comma-separated tokens agree
/// after trimming decode to the same outcome.
pub proof fn lemma_whitespace_tolerant(s1: Seq<char>, s2: Seq<char>)
    requires
        trimmed_tokens(s1) == trimmed_tokens(s2),
    ensures
        spec_decode(s1) == spec_decode(s2),
{
}

/// A trailing whitespace character disappears under trimming.
pub proof fn lemma_trim_push_space(t: Seq<char>, c: char)
    requires
        is_space(c),
    ensures
        trim(t.push(c)) == trim(t),
    decreases t.len(),
{
    let p = t.push(c);
    if t.len() == 0 {
        assert(p[0] == c);
        assert(p.drop_first() =~= Seq::<char>::empty());
        assert(trim_start(Seq::<char>::empty()) == Seq::<char>::empty());
        assert(trim_start(p) == Seq::<char>::empty());
    } else if is_space(t[0]) {
        assert(p[0] == t[0]);
        assert(p.drop_first() =~= t.drop_first().push(c));
        lemma_trim_push_space(t.drop_first(), c);
        assert(trim(p) == trim(t.drop_first().push(c)));
        assert(trim(t) == trim_end(trim_start(t.drop_first())));
    } else {
        assert(trim_start(p) == p);
        assert(p.last() == c);
        assert(p.drop_last() =~= t);
        assert(trim_start(t) == t);
    }
}

/// Dropping whitespace at the very start of the input does not change its
/// trimmed tokens: the whitespace was part of the first token, which is
/// trimmed anyway.
pub proof fn lemma_tokens_trim_start(s: Seq<char>)
    ensures
        trimmed_tokens(trim_start(s)) == trimmed_tokens(s),
    decreases s.len(),
{
    if s.len() > 0 && is_space(s[0]) {
        let sdf = s.drop_first();
        let rest = split_commas(sdf);
        lemma_split_len(sdf);
        assert(s[0] != ',');
        let head = seq![s[0]] + rest[0];
        assert(trim_start(head) == trim_start(rest[0])) by {
            assert(head[0] == s[0]);
            assert(head.drop_first() =~= rest[0]);
        }
        assert(trimmed_tokens(s) =~= trimmed_tokens(sdf)) by {
            assert(split_commas(s) == seq![head] + rest.drop_first());
            assert forall|j: int| 0 <= j < trimmed_tokens(s).len() implies trimmed_tokens(s)[j]
                == trimmed_tokens(sdf)[j] by {
                if j == 0 {
                    assert(split_commas(s)[0] == head);
                    assert(trim(head) == trim(rest[0]));
                } else {
                    assert(split_commas(s)[j] == rest.drop_first()[j - 1]);
                    assert(rest.drop_first()[j - 1] == rest[j]);
                }
            }
        }
        lemma_tokens_trim_start(sdf);
        assert(trim_start(s) == trim_start(sdf));
    }
}

/// Dropping whitespace at the very end of the input does not change its
/// trimmed tokens: the whitespace was part of the last token, which is
/// trimmed anyway.
pub proof fn lemma_tokens_trim_end(s: Seq<char>)
    ensures
        trimmed_tokens(trim_end(s)) == trimmed_tokens(s),
    decreases s.len(),
{
    if s.len() > 0 && is_space(s.last()) {
        let dl = s.drop_last();
        let c = s.last();
        assert(c != ',');
        assert(dl.push(c) =~= s);
        lemma_split_push(dl, c);
        lemma_split_len(dl);
        let rest = split_commas(dl);
        let k = rest.len() - 1;
        assert(split_commas(s) == rest.update(k, rest[k].push(c)));
        lemma_trim_push_space(rest[k], c);
        assert(trimmed_tokens(s) =~= trimmed_tokens(dl)) by {
            assert forall|j: int| 0 <= j < trimmed_tokens(s).len() implies trimmed_tokens(s)[j]
                == trimmed_tokens(dl)[j] by {
                if j == k {
                    assert(split_commas(s)[j] == rest[k].push(c));
                } else {
                    assert(split_commas(s)[j] == rest[j]);
                }
            }
        }
        lemma_tokens_trim_end(dl);
        assert(trim_end(s) == trim_end(dl));
    }
}

/// Trimming the whole input before decoding changes nothing: outer
/// whitespace belongs to the first and last tokens, which are trimmed on
/// their own.
pub proof fn lemma_outer_trim_irrelevant(s: Seq<char>)
    ensures
        spec_decode(trim(s)) == spec_decode(s),
{
    lemma_tokens_trim_end(trim_start(s));
    lemma_tokens_trim_start(s);
}

} // verus!
