//! Character-level helpers: conversions between `String` and `Vec<char>`,
//! UTF-16 decoding, and the substring searches the schema layer needs.

use vstd::prelude::*;

verus! {

broadcast use vstd::string::group_string_axioms;

/// Builds a `String` holding exactly the given characters.
///
/// Trusted: calls std's `FromIterator<&char> for String`, which appends the
/// characters in order.
#[verifier::external_body]
pub(crate) fn string_from_chars(v: &Vec<char>) -> (s: String)
    ensures
        s@ == v@,
{
    v.iter().collect::<String>()
}

/// The characters of a string slice, in order.
pub fn chars_of(s: &str) -> (v: Vec<char>)
    ensures
        v@ == s@,
{
    let mut v: Vec<char> = Vec::new();
    for c in it: s.chars()
        invariant
            v@ == it.seq().take(it.index()),
            it.seq() == s@,
    {
        v.push(c);
    }
    v
}

/// Whether `v` is a Unicode scalar value (what a `char` may hold).
pub open spec fn is_scalar_value(v: u32) -> bool {
    v <= 0x10FFFF && !(0xD800 <= v <= 0xDFFF)
}

/// The character whose scalar value is `v`.
pub open spec fn scalar_char(v: u32) -> char {
    v as char
}

/// The character with scalar value `v`, if `v` is one.
///
/// Trusted: calls std's `char::from_u32`, documented to return `None` exactly
/// for surrogates and values above `char::MAX`.
#[verifier::external_body]
pub(crate) fn char_from_u32(v: u32) -> (r: Option<char>)
    ensures
        r is Some <==> is_scalar_value(v),
        r matches Some(c) ==> c == scalar_char(v),
{
    char::from_u32(v)
}


pub open spec fn is_high_surrogate(u: u16) -> bool {
    0xD800 <= u <= 0xDBFF
}

pub open spec fn is_low_surrogate(u: u16) -> bool {
    0xDC00 <= u <= 0xDFFF
}

/// Scalar value encoded by a surrogate pair.
pub open spec fn pair_value(hi: u16, lo: u16) -> u32 {
    (0x10000 + (hi - 0xD800) * 0x400 + (lo - 0xDC00)) as u32
}

/// Strict UTF-16 decoding: `None` as soon as a surrogate is unpaired.
pub open spec fn utf16_strict(u: Seq<u16>) -> Option<Seq<char>>
    decreases u.len(),
{
    if u.len() == 0 {
        Some(Seq::empty())
    } else if !is_high_surrogate(u[0]) && !is_low_surrogate(u[0]) {
        match utf16_strict(u.skip(1)) {
            Some(r) => Some(seq![scalar_char(u[0] as u32)] + r),
            None => None,
        }
    } else if is_high_surrogate(u[0]) && u.len() >= 2 && is_low_surrogate(u[1]) {
        match utf16_strict(u.skip(2)) {
            Some(r) => Some(seq![scalar_char(pair_value(u[0], u[1]))] + r),
            None => None,
        }
    } else {
        None
    }
}

/// Lossy UTF-16 decoding: each unpaired surrogate becomes U+FFFD.
pub open spec fn utf16_lossy(u: Seq<u16>) -> Seq<char>
    decreases u.len(),
{
    if u.len() == 0 {
        Seq::empty()
    } else if !is_high_surrogate(u[0]) && !is_low_surrogate(u[0]) {
        seq![scalar_char(u[0] as u32)] + utf16_lossy(u.skip(1))
    } else if is_high_surrogate(u[0]) && u.len() >= 2 && is_low_surrogate(u[1]) {
        seq![scalar_char(pair_value(u[0], u[1]))] + utf16_lossy(u.skip(2))
    } else {
        seq!['\u{FFFD}'] + utf16_lossy(u.skip(1))
    }
}

/// The 16-bit units of `b` read big-endian, pairwise; an odd last byte is ignored.
pub open spec fn be_units(b: Seq<u8>) -> Seq<u16> {
    Seq::new(b.len() / 2, |k: int| (b[2 * k] * 256 + b[2 * k + 1]) as u16)
}

/// The 16-bit units of `b` read little-endian, pairwise; an odd last byte is ignored.
pub open spec fn le_units(b: Seq<u8>) -> Seq<u16> {
    Seq::new(b.len() / 2, |k: int| (b[2 * k] + 256 * b[2 * k + 1]) as u16)
}

/// Groups bytes into 16-bit units (big-endian when `big` is set).
pub fn units_of(b: &[u8], big: bool) -> (r: Vec<u16>)
    ensures
        big ==> r@ == be_units(b@),
        !big ==> r@ == le_units(b@),
{
    let n = b.len() / 2;
    let mut r: Vec<u16> = Vec::new();
    let mut k: usize = 0;
    while k < n
        invariant
            n == b.len() / 2,
            k <= n,
            r@.len() == k,
            big ==> forall|j: int| 0 <= j < k ==> r@[j] == be_units(b@)[j],
            !big ==> forall|j: int| 0 <= j < k ==> r@[j] == le_units(b@)[j],
        decreases n - k,
    {
        let x = b[2 * k] as u16;
        let y = b[2 * k + 1] as u16;
        let u: u16 = if big { x * 256 + y } else { x + 256 * y };
        r.push(u);
        k = k + 1;
    }
    proof {
        if big { assert(r@ =~= be_units(b@)); } else { assert(r@ =~= le_units(b@)); }
    }
    r
}

proof fn lemma_skip_skip<T>(u: Seq<T>, i: int, j: int)
    requires
        0 <= i,
        0 <= j,
        i + j <= u.len(),
    ensures
        u.skip(i).skip(j) =~= u.skip(i + j),
{
}

/// Decodes the character starting at unit `i`: the character and the number of
/// units it took, or `None` for an unpaired surrogate.
fn decode_one(u: &Vec<u16>, i: usize) -> (r: Option<(char, usize)>)
    requires
        i < u@.len(),
    ensures
        ({
            let w = u@.skip(i as int);
            match r {
                Some((c, n)) => {
                    ||| !is_high_surrogate(w[0]) && !is_low_surrogate(w[0]) && n == 1 && c == scalar_char(w[0] as u32)
                    ||| is_high_surrogate(w[0]) && w.len() >= 2 && is_low_surrogate(w[1]) && n == 2
                        && c == scalar_char(pair_value(w[0], w[1]))
                },
                None => !(!is_high_surrogate(w[0]) && !is_low_surrogate(w[0])) && !(is_high_surrogate(w[0])
                    && w.len() >= 2 && is_low_surrogate(w[1])),
            }
        }),
{
    let x = u[i];
    if x < 0xD800 || x > 0xDFFF {
        let c = char_from_u32(x as u32);
        match c {
            Some(c) => {
                Some((c, 1))
            },
            None => None,
        }
    } else if x <= 0xDBFF && i < u.len() - 1 && u[i + 1] >= 0xDC00 && u[i + 1] <= 0xDFFF {
        let y = u[i + 1];
        let v: u32 = 0x10000 + ((x - 0xD800) as u32) * 0x400 + ((y - 0xDC00) as u32);
        let c = char_from_u32(v);
        match c {
            Some(c) => Some((c, 2)),
            None => None,
        }
    } else {
        None
    }
}

/// Strict UTF-16 decoding of a unit sequence.
pub fn utf16_decode_strict(u: &Vec<u16>) -> (r: Option<Vec<char>>)
    ensures
        match r {
            Some(v) => utf16_strict(u@) == Some(v@),
            None => utf16_strict(u@) is None,
        },
{
    let mut out: Vec<char> = Vec::new();
    let mut i: usize = 0;
    assert(u@.skip(0) =~= u@);
    while i < u.len()
        invariant
            i <= u@.len(),
            utf16_strict(u@) == match utf16_strict(u@.skip(i as int)) {
                Some(r) => Some(out@ + r),
                None => None::<Seq<char>>,
            },
        decreases u@.len() - i,
    {
        let ghost w = u@.skip(i as int);
        match decode_one(u, i) {
            Some((c, n)) => {
                proof {
                    lemma_skip_skip(u@, i as int, n as int);
                    match utf16_strict(u@.skip(i + n)) {
                        Some(r) => {
                            assert(out@ + (seq![c] + r) =~= out@.push(c) + r);
                        },
                        None => {},
                    }
                }
                out.push(c);
                i = i + n;
            },
            None => {
                return None;
            },
        }
    }
    assert(u@.skip(i as int) =~= Seq::<u16>::empty());
    assert(out@ + Seq::<char>::empty() =~= out@);
    Some(out)
}

/// Lossy UTF-16 decoding of a unit sequence (unpaired surrogates become U+FFFD).
pub fn utf16_decode_lossy(u: &Vec<u16>) -> (r: Vec<char>)
    ensures
        r@ == utf16_lossy(u@),
{
    let mut out: Vec<char> = Vec::new();
    let mut i: usize = 0;
    assert(u@.skip(0) =~= u@);
    while i < u.len()
        invariant
            i <= u@.len(),
            utf16_lossy(u@) == out@ + utf16_lossy(u@.skip(i as int)),
        decreases u@.len() - i,
    {
        let (c, n) = match decode_one(u, i) {
            Some(p) => p,
            None => ('\u{FFFD}', 1),
        };
        proof {
            lemma_skip_skip(u@, i as int, n as int);
            assert(out@ + (seq![c] + utf16_lossy(u@.skip(i + n))) =~= out@.push(c) + utf16_lossy(u@.skip(i + n)));
        }
        out.push(c);
        i = i + n;
    }
    assert(u@.skip(i as int) =~= Seq::<u16>::empty());
    assert(out@ + Seq::<char>::empty() =~= out@);
    out
}


/// The character of decimal digit `d` (0 to 9).
pub open spec fn digit_char(d: nat) -> char {
    ((48 + d) as u8) as char
}

/// Decimal representation of `n`, no leading zeros.
pub open spec fn dec(n: nat) -> Seq<char>
    decreases n,
{
    if n < 10 {
        seq![digit_char(n)]
    } else {
        dec(n / 10).push(digit_char(n % 10))
    }
}

/// Decimal representation of a signed integer, with a leading '-' when negative.
pub open spec fn int_dec(i: int) -> Seq<char> {
    if i < 0 {
        seq!['-'] + dec((-i) as nat)
    } else {
        dec(i as nat)
    }
}

/// Decimal digits of `n`.
pub fn dec_chars(n: u64) -> (r: Vec<char>)
    ensures
        r@ == dec(n as nat),
    decreases n,
{
    if n < 10 {
        let mut v: Vec<char> = Vec::new();
        v.push(((48 + n) as u8) as char);
        v
    } else {
        let mut v = dec_chars(n / 10);
        v.push(((48 + n % 10) as u8) as char);
        v
    }
}

/// Decimal text of a signed integer.
pub fn int_dec_chars(i: i64) -> (r: Vec<char>)
    ensures
        r@ == int_dec(i as int),
{
    if i < 0 {
        let m: u64 = ((-(i + 1)) as u64) + 1;
        let mut v: Vec<char> = Vec::new();
        v.push('-');
        let mut d = dec_chars(m);
        v.append(&mut d);
        v
    } else {
        dec_chars(i as u64)
    }
}

/// Whether two character sequences are equal.
pub fn chars_eq(a: &[char], b: &[char]) -> (r: bool)
    ensures
        r == (a@ == b@),
{
    if a.len() != b.len() {
        return false;
    }
    let mut i: usize = 0;
    while i < a.len()
        invariant
            a@.len() == b@.len(),
            i <= a@.len(),
            forall|j: int| 0 <= j < i ==> a@[j] == b@[j],
        decreases a@.len() - i,
    {
        if a[i] != b[i] {
            return false;
        }
        i += 1;
    }
    assert(a@ =~= b@);
    true
}


/// Name for what std's `String::from_utf8_lossy` returns on the given bytes
/// (invalid sequences each replaced by U+FFFD).
pub uninterp spec fn utf8_lossy(b: Seq<u8>) -> Seq<char>;

/// Decodes UTF-8, replacing invalid sequences with U+FFFD.
///
/// Trusted: calls std's `String::from_utf8_lossy`. The contract names its
/// result and states the one case its documentation spells out: valid UTF-8
/// decodes to exactly its characters.
#[verifier::external_body]
pub(crate) fn utf8_lossy_string(b: &[u8]) -> (s: String)
    ensures
        s@ == utf8_lossy(b@),
        vstd::utf8::valid_utf8(b@) ==> s@ == vstd::utf8::decode_utf8(b@),
{
    String::from_utf8_lossy(b).into_owned()
}

/// Latin-1 decoding: each byte is the character with that code.
pub open spec fn latin1(b: Seq<u8>) -> Seq<char> {
    b.map_values(|x: u8| x as char)
}

pub fn latin1_chars(b: &[u8]) -> (r: Vec<char>)
    ensures
        r@ == latin1(b@),
{
    let mut r: Vec<char> = Vec::new();
    let mut i: usize = 0;
    while i < b.len()
        invariant
            i <= b@.len(),
            r@ == latin1(b@.take(i as int)),
        decreases b@.len() - i,
    {
        r.push(b[i] as char);
        i += 1;
        assert(latin1(b@.take(i as int)) =~= latin1(b@.take(i - 1)).push(b@[i - 1] as char));
    }
    assert(b@.take(b@.len() as int) =~= b@);
    r
}


/// Whether `pat` occurs in `s` at position `k`.
pub open spec fn occurs_at(s: Seq<char>, pat: Seq<char>, k: int) -> bool {
    0 <= k && k + pat.len() <= s.len() && s.subrange(k, k + pat.len()) == pat
}

/// First position at or after `from` where `pat` occurs in `s`.
pub open spec fn find_from(s: Seq<char>, pat: Seq<char>, from: int) -> Option<int>
    decreases s.len() + 1 - from,
{
    if from < 0 || from + pat.len() > s.len() {
        None
    } else if s.subrange(from, from + pat.len()) == pat {
        Some(from)
    } else {
        find_from(s, pat, from + 1)
    }
}

/// Whether `pat` occurs anywhere in `s`.
pub open spec fn contains_seq(s: Seq<char>, pat: Seq<char>) -> bool {
    find_from(s, pat, 0) is Some
}

pub proof fn lemma_find_from(s: Seq<char>, pat: Seq<char>, from: int)
    requires
        0 <= from,
    ensures
        find_from(s, pat, from) matches Some(k) ==> from <= k && occurs_at(s, pat, k)
            && forall|j: int| from <= j < k ==> !occurs_at(s, pat, j),
        find_from(s, pat, from) is None ==> forall|j: int| from <= j ==> !occurs_at(s, pat, j),
    decreases s.len() + 1 - from,
{
    if from + pat.len() <= s.len() && s.subrange(from, from + pat.len()) != pat {
        lemma_find_from(s, pat, from + 1);
    }
}

fn occurs_at_exec(s: &[char], pat: &[char], k: usize) -> (r: bool)
    requires
        k + pat@.len() <= s@.len(),
    ensures
        r == (s@.subrange(k as int, k + pat@.len()) == pat@),
{
    let sl = s.len();
    let mut i: usize = 0;
    while i < pat.len()
        invariant
            sl == s@.len(),
            k + pat@.len() <= s@.len(),
            i <= pat@.len(),
            forall|j: int| 0 <= j < i ==> s@[k + j] == pat@[j],
        decreases pat@.len() - i,
    {
        if s[k + i] != pat[i] {
            assert(s@.subrange(k as int, k + pat@.len())[i as int] != pat@[i as int]);
            return false;
        }
        i += 1;
    }
    assert(s@.subrange(k as int, k + pat@.len()) =~= pat@);
    true
}

/// First position at or after `from` where `pat` occurs in `s`.
pub fn find_chars(s: &[char], pat: &[char], from: usize) -> (r: Option<usize>)
    ensures
        match r {
            Some(k) => find_from(s@, pat@, from as int) == Some(k as int),
            None => find_from(s@, pat@, from as int) is None,
        },
{
    if pat.len() > s.len() {
        return None;
    }
    let last = s.len() - pat.len();
    let mut k = from;
    while k <= last
        invariant
            last == s@.len() - pat@.len(),
            from <= k,
            find_from(s@, pat@, from as int) == find_from(s@, pat@, k as int),
        decreases last + 1 - k,
    {
        if occurs_at_exec(s, pat, k) {
            return Some(k);
        }
        if k == last {
            assert(find_from(s@, pat@, k + 1) is None);
            return None;
        }
        k += 1;
    }
    None
}

/// Whether `pat` occurs in `s`.
pub fn contains_chars(s: &[char], pat: &[char]) -> (r: bool)
    ensures
        r == contains_seq(s@, pat@),
{
    find_chars(s, pat, 0).is_some()
}

/// Name for what std's `str::to_lowercase` returns (Unicode lowercase
/// mapping of the whole string).
pub uninterp spec fn lowercase(s: Seq<char>) -> Seq<char>;

/// The Unicode lowercase form of a string.
///
/// Trusted: calls std's `str::to_lowercase`; the contract only names the
/// result (a function of the text alone).
#[verifier::external_body]
pub(crate) fn to_lowercase(s: &str) -> (r: String)
    ensures
        r@ == lowercase(s@),
{
    s.to_lowercase()
}

/// Characters with the Unicode White_Space property (what `char::is_whitespace` tests).
pub open spec fn is_ws(c: char) -> bool {
    let v = c as u32;
    (0x9 <= v <= 0xD) || v == 0x20 || v == 0x85 || v == 0xA0 || v == 0x1680 || (0x2000 <= v <= 0x200A)
        || v == 0x2028 || v == 0x2029 || v == 0x202F || v == 0x205F || v == 0x3000
}

pub fn is_whitespace(c: char) -> (r: bool)
    ensures
        r == is_ws(c),
{
    let v = c as u32;
    (0x9 <= v && v <= 0xD) || v == 0x20 || v == 0x85 || v == 0xA0 || v == 0x1680 || (0x2000 <= v
        && v <= 0x200A) || v == 0x2028 || v == 0x2029 || v == 0x202F || v == 0x205F || v == 0x3000
}

/// Value of digit `c` in base `radix` (10 or 16; both letter cases for hex).
pub open spec fn digit_value(c: char, radix: u32) -> Option<nat> {
    let v = c as u32;
    if 0x30 <= v <= 0x39 && (v - 0x30) < radix {
        Some((v - 0x30) as nat)
    } else if radix == 16 && 0x61 <= v <= 0x66 {
        Some((v - 0x61 + 10) as nat)
    } else if radix == 16 && 0x41 <= v <= 0x46 {
        Some((v - 0x41 + 10) as nat)
    } else {
        None
    }
}

/// Value of a digit string in base `radix`, `None` if any character is not a digit.
pub open spec fn digits_value(s: Seq<char>, radix: u32) -> Option<nat>
    decreases s.len(),
{
    if s.len() == 0 {
        Some(0)
    } else {
        match (digits_value(s.drop_last(), radix), digit_value(s.last(), radix)) {
            (Some(a), Some(d)) => Some(a * (radix as nat) + d),
            _ => None,
        }
    }
}

/// What `u32::from_str_radix` gives: an optional `+`, then at least one
/// digit; `None` on any other character or when the value exceeds `u32::MAX`.
pub open spec fn spec_parse_u32(s: Seq<char>, radix: u32) -> Option<u32> {
    let digits = if s.len() > 0 && s[0] == '+' { s.skip(1) } else { s };
    if digits.len() == 0 {
        None
    } else {
        match digits_value(digits, radix) {
            Some(v) => if v <= u32::MAX { Some(v as u32) } else { None },
            None => None,
        }
    }
}

/// What `str::parse::<i64>` gives: an optional sign, then at least one
/// decimal digit; `None` on any other character or when out of range.
pub open spec fn spec_parse_i64(s: Seq<char>) -> Option<i64> {
    let neg = s.len() > 0 && s[0] == '-';
    let digits = if s.len() > 0 && (s[0] == '+' || s[0] == '-') { s.skip(1) } else { s };
    if digits.len() == 0 {
        None
    } else {
        match digits_value(digits, 10) {
            Some(v) => {
                let val: int = if neg { -v } else { v as int };
                if i64::MIN <= val <= i64::MAX { Some(val as i64) } else { None }
            },
            None => None,
        }
    }
}

fn digit_of(c: char, radix: u32) -> (r: Option<u64>)
    requires
        radix == 10 || radix == 16,
    ensures
        match digit_value(c, radix) {
            Some(d) => r == Some(d as u64),
            None => r is None,
        },
{
    let v = c as u32;
    if 0x30 <= v && v <= 0x39 && (v - 0x30) < radix {
        Some((v - 0x30) as u64)
    } else if radix == 16 && 0x61 <= v && v <= 0x66 {
        Some((v - 0x61 + 10) as u64)
    } else if radix == 16 && 0x41 <= v && v <= 0x46 {
        Some((v - 0x41 + 10) as u64)
    } else {
        None
    }
}

proof fn lemma_digits_monotone(s: Seq<char>, radix: u32, n: int)
    requires
        radix == 10 || radix == 16,
        0 <= n <= s.len(),
        digits_value(s, radix) is Some,
    ensures
        digits_value(s.take(n), radix) is Some,
        digits_value(s.take(n), radix).unwrap() <= digits_value(s, radix).unwrap(),
    decreases s.len(),
{
    if n == s.len() {
        assert(s.take(n) =~= s);
    } else {
        lemma_digits_monotone(s.drop_last(), radix, n);
        assert(s.drop_last().take(n) =~= s.take(n));
        let a = digits_value(s.drop_last(), radix).unwrap();
        let d = digit_value(s.last(), radix).unwrap();
        assert(a <= a * radix + d) by (nonlinear_arith)
            requires radix >= 1;
    }
}

/// Value of the digit string `s`, or `None` if it has a non-digit or exceeds `limit`.
fn digits_up_to(s: &[char], radix: u32, limit: u64) -> (r: Option<u64>)
    requires
        radix == 10 || radix == 16,
    ensures
        match digits_value(s@, radix) {
            Some(v) => if v <= limit { r == Some(v as u64) } else { r is None },
            None => r is None,
        },
{
    let mut acc: u64 = 0;
    let mut i: usize = 0;
    let mut over = false;
    assert(s@.take(0) =~= Seq::<char>::empty());
    while i < s.len()
        invariant
            radix == 10 || radix == 16,
            i <= s@.len(),
            digits_value(s@.take(i as int), radix) is Some,
            !over ==> digits_value(s@.take(i as int), radix) == Some(acc as nat) && acc <= limit,
            over ==> digits_value(s@.take(i as int), radix).unwrap() > limit,
        decreases s@.len() - i,
    {
        assert(s@.take(i + 1).drop_last() =~= s@.take(i as int));
        assert(s@.take(i + 1).last() == s@[i as int]);
        let d = match digit_of(s[i], radix) {
            Some(d) => d,
            None => {
                proof {
                    if digits_value(s@, radix) is Some {
                        lemma_digits_monotone(s@, radix, i + 1);
                    }
                }
                return None;
            },
        };
        if !over {
            if d > limit {
                over = true;
                assert((acc as int) * radix + d > limit) by (nonlinear_arith)
                    requires d > limit, acc >= 0, radix >= 1;
            } else if acc > (limit - d) / (radix as u64) {
                over = true;
                assert((acc as int) * radix + d > limit) by (nonlinear_arith)
                    requires acc as int > (limit as int - d as int) / (radix as int), radix >= 1, d <= limit;
            } else {
                assert((acc as int) * radix + d <= limit) by (nonlinear_arith)
                    requires acc as int <= (limit as int - d as int) / (radix as int), radix >= 1, d <= limit;
                acc = acc * (radix as u64) + d;
            }
        } else {
            let ghost p = digits_value(s@.take(i as int), radix).unwrap();
            assert(p * radix + d > limit) by (nonlinear_arith)
                requires p > limit, radix >= 1;
        }
        i += 1;
    }
    assert(s@.take(s@.len() as int) =~= s@);
    if over {
        None
    } else {
        Some(acc)
    }
}

/// `u32::from_str_radix` for radix 10 or 16.
pub fn parse_u32_radix(s: &[char], radix: u32) -> (r: Option<u32>)
    requires
        radix == 10 || radix == 16,
    ensures
        r == spec_parse_u32(s@, radix),
{
    let digits = if s.len() > 0 && s[0] == '+' { crate::text::slice_chars(s, 1, s.len()) } else { s };
    assert(digits@ == (if s@.len() > 0 && s@[0] == '+' { s@.skip(1) } else { s@ }));
    if digits.len() == 0 {
        return None;
    }
    match digits_up_to(digits, radix, 0xFFFF_FFFF) {
        Some(v) => Some(v as u32),
        None => None,
    }
}

/// `str::parse::<i64>`.
pub fn parse_i64(s: &[char]) -> (r: Option<i64>)
    ensures
        r == spec_parse_i64(s@),
{
    let neg = s.len() > 0 && s[0] == '-';
    let digits = if s.len() > 0 && (s[0] == '+' || s[0] == '-') { slice_chars(s, 1, s.len()) } else { s };
    if digits.len() == 0 {
        return None;
    }
    let limit: u64 = if neg { 0x8000000000000000 } else { 0x7fffffffffffffff };
    match digits_up_to(digits, 10, limit) {
        Some(v) => {
            if neg {
                if v == 0x8000000000000000 {
                    Some(i64::MIN)
                } else {
                    Some(-(v as i64))
                }
            } else {
                Some(v as i64)
            }
        },
        None => None,
    }
}

/// The sub-slice `s[start..end]`.
pub fn slice_chars(s: &[char], start: usize, end: usize) -> (r: &[char])
    requires
        start <= end <= s@.len(),
    ensures
        r@ == s@.subrange(start as int, end as int),
{
    &s[start..end]
}


/// `s` without its trailing whitespace.
pub open spec fn trim_end_ws(s: Seq<char>) -> Seq<char>
    decreases s.len(),
{
    if s.len() > 0 && is_ws(s.last()) {
        trim_end_ws(s.drop_last())
    } else {
        s
    }
}

/// `s` without its leading whitespace.
pub open spec fn trim_start_ws(s: Seq<char>) -> Seq<char>
    decreases s.len(),
{
    if s.len() > 0 && is_ws(s[0]) {
        trim_start_ws(s.skip(1))
    } else {
        s
    }
}

/// `s` without leading and trailing whitespace (`str::trim`).
pub open spec fn trim_ws(s: Seq<char>) -> Seq<char> {
    trim_end_ws(trim_start_ws(s))
}

/// `s` without its trailing whitespace.
pub fn trim_end_chars(s: &[char]) -> (r: &[char])
    ensures
        r@ == trim_end_ws(s@),
{
    let mut end = s.len();
    assert(s@.take(end as int) =~= s@);
    while end > 0 && is_whitespace(s[end - 1])
        invariant
            end <= s@.len(),
            trim_end_ws(s@) == trim_end_ws(s@.take(end as int)),
        decreases end,
    {
        assert(s@.take(end as int).drop_last() =~= s@.take(end - 1));
        end -= 1;
    }
    assert(s@.take(end as int) =~= s@.subrange(0, end as int));
    slice_chars(s, 0, end)
}

/// `s` without its leading whitespace.
pub fn trim_start_chars(s: &[char]) -> (r: &[char])
    ensures
        r@ == trim_start_ws(s@),
{
    let mut start: usize = 0;
    assert(s@.skip(0) =~= s@);
    while start < s.len() && is_whitespace(s[start])
        invariant
            start <= s@.len(),
            trim_start_ws(s@) == trim_start_ws(s@.skip(start as int)),
        decreases s@.len() - start,
    {
        assert(s@.skip(start as int).skip(1) =~= s@.skip(start + 1));
        start += 1;
    }
    assert(s@.skip(start as int) =~= s@.subrange(start as int, s@.len() as int));
    slice_chars(s, start, s.len())
}

/// `s` without leading and trailing whitespace.
pub fn trim_chars(s: &[char]) -> (r: &[char])
    ensures
        r@ == trim_ws(s@),
{
    trim_end_chars(trim_start_chars(s))
}

/// Whether `s` begins with `p`.
pub open spec fn starts_with(s: Seq<char>, p: Seq<char>) -> bool {
    p.len() <= s.len() && s.take(p.len() as int) == p
}

/// Whether `s` ends with `p`.
pub open spec fn ends_with(s: Seq<char>, p: Seq<char>) -> bool {
    p.len() <= s.len() && s.skip(s.len() - p.len()) == p
}

pub fn starts_with_chars(s: &[char], p: &[char]) -> (r: bool)
    ensures
        r == starts_with(s@, p@),
{
    if p.len() > s.len() {
        return false;
    }
    let head = slice_chars(s, 0, p.len());
    assert(head@ =~= s@.take(p@.len() as int));
    chars_eq(head, p)
}

pub fn ends_with_chars(s: &[char], p: &[char]) -> (r: bool)
    ensures
        r == ends_with(s@, p@),
{
    if p.len() > s.len() {
        return false;
    }
    let tail = slice_chars(s, s.len() - p.len(), s.len());
    assert(tail@ =~= s@.skip(s@.len() - p@.len()));
    chars_eq(tail, p)
}

/// Decodes UTF-8; `None` when the bytes are not valid UTF-8.
///
/// Trusted: calls std's `str::from_utf8`, which accepts exactly the valid
/// UTF-8 byte strings and then holds their characters.
#[verifier::external_body]
pub(crate) fn utf8_decode(b: &[u8]) -> (r: Option<String>)
    ensures
        r is Some == vstd::utf8::valid_utf8(b@),
        r matches Some(s) ==> s@ == vstd::utf8::decode_utf8(b@),
{
    match std::str::from_utf8(b) {
        Ok(s) => Some(s.to_string()),
        Err(_) => None,
    }
}

/// The UTF-16 units of one character: one unit below U+10000, else a
/// surrogate pair.
pub open spec fn char_units(c: char) -> Seq<u16> {
    let v = c as u32;
    if v < 0x10000 {
        seq![v as u16]
    } else {
        seq![(0xD800 + (v - 0x10000) / 0x400) as u16, (0xDC00 + (v - 0x10000) % 0x400) as u16]
    }
}

/// UTF-16 encoding of a text.
pub open spec fn utf16_units(s: Seq<char>) -> Seq<u16>
    decreases s.len(),
{
    if s.len() == 0 {
        Seq::empty()
    } else {
        char_units(s[0]) + utf16_units(s.skip(1))
    }
}

/// The bytes of 16-bit units, each high byte first.
pub open spec fn be_bytes(u: Seq<u16>) -> Seq<u8> {
    Seq::new(2 * u.len(), |i: int| if i % 2 == 0 { (u[i / 2] / 256) as u8 } else { (u[i / 2] % 256) as u8 })
}

proof fn lemma_char_scalar(c: char)
    ensures
        is_scalar_value(c as u32),
        scalar_char(c as u32) == c,
{
}

/// Strict UTF-16 decoding gives back every encoded text.
pub proof fn lemma_utf16_round_trip(s: Seq<char>)
    ensures
        utf16_strict(utf16_units(s)) == Some(s),
    decreases s.len(),
{
    if s.len() > 0 {
        let c = s[0];
        let v = c as u32;
        let t = utf16_units(s.skip(1));
        let u = utf16_units(s);
        lemma_utf16_round_trip(s.skip(1));
        lemma_char_scalar(c);
        if v < 0x10000 {
            assert(u.skip(1) =~= t);
            assert(u[0] as u32 == v);
        } else {
            let hi = (0xD800 + (v - 0x10000) / 0x400) as u16;
            let lo = (0xDC00 + (v - 0x10000) % 0x400) as u16;
            assert(0 <= (v - 0x10000) / 0x400 < 0x400 && 0 <= (v - 0x10000) % 0x400 < 0x400);
            assert(u[0] == hi && u[1] == lo);
            assert(u.skip(2) =~= t);
            assert(is_high_surrogate(hi) && is_low_surrogate(lo));
            assert(pair_value(hi, lo) == v) by {
                assert(0x400 * ((v - 0x10000) / 0x400) + (v - 0x10000) % 0x400 == v - 0x10000);
            }
        }
        assert(seq![c] + s.skip(1) =~= s);
    }
}

/// Reading big-endian units back from their bytes gives the units.
pub proof fn lemma_be_round_trip(u: Seq<u16>)
    ensures
        be_bytes(u).len() == 2 * u.len(),
        be_units(be_bytes(u)) == u,
{
    let b = be_bytes(u);
    assert forall|k: int| 0 <= k < u.len() implies be_units(b)[k] == u[k] by {
        assert((2 * k) % 2 == 0 && (2 * k) / 2 == k);
        assert((2 * k + 1) % 2 == 1 && (2 * k + 1) / 2 == k);
        assert(256 * (u[k] / 256) + u[k] % 256 == u[k]);
    }
    assert(be_units(b) =~= u);
}

} // verus!
