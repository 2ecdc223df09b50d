//! Small helpers: millisecond epoch to UTC text, HTML fragment to plain text.

use vstd::prelude::*;
use crate::text::{digit_char, 
    dec, dec_chars, chars_eq, chars_of, char_from_u32, is_scalar_value, is_whitespace, is_ws, parse_u32_radix,
    scalar_char, slice_chars, spec_parse_u32, string_from_chars,
};

verus! {

/// Bytes `c` takes in UTF-8.
pub open spec fn utf8_width(c: char) -> nat {
    let v = c as u32;
    if v < 0x80 { 1 } else if v < 0x800 { 2 } else if v < 0x10000 { 3 } else { 4 }
}

/// Bytes `s` takes in UTF-8.
pub open spec fn utf8_len(s: Seq<char>) -> nat
    decreases s.len(),
{
    if s.len() == 0 { 0 } else { utf8_len(s.drop_last()) + utf8_width(s.last()) }
}

/// The text an entity name stands for: the named ones `nbsp amp lt gt quot
/// apos #39`, numeric ones `#N` and `#xH`/`#XH` (a valid scalar value), and
/// otherwise the entity as written: `&name;` when a `;` closed it, else `&name`.
pub open spec fn spec_decode_entity(ent: Seq<char>, closed: bool) -> Seq<char> {
    let fallback = seq!['&'] + ent + if closed { seq![';'] } else { Seq::empty() };
    if ent == "nbsp"@ {
        seq![' ']
    } else if ent == "amp"@ {
        seq!['&']
    } else if ent == "lt"@ {
        seq!['<']
    } else if ent == "gt"@ {
        seq!['>']
    } else if ent == "quot"@ {
        seq!['"']
    } else if ent == "apos"@ || ent == "#39"@ {
        seq!['\'']
    } else if ent.len() > 0 && ent[0] == '#' {
        let num = ent.skip(1);
        let code = if num.len() > 0 && (num[0] == 'x' || num[0] == 'X') {
            spec_parse_u32(num.skip(1), 16)
        } else {
            spec_parse_u32(num, 10)
        };
        match code {
            Some(c) => if is_scalar_value(c) { seq![scalar_char(c)] } else { fallback },
            None => fallback,
        }
    } else {
        fallback
    }
}

fn is_lit(ent: &Vec<char>, lit: &str) -> (r: bool)
    ensures
        r == (ent@ == lit@),
{
    let l = chars_of(lit);
    chars_eq(ent.as_slice(), l.as_slice())
}

/// Decodes one entity name (the text after `&`); `closed` tells whether a
/// `;` ended it.
pub fn decode_entity(ent: &Vec<char>, closed: bool) -> (r: Vec<char>)
    ensures
        r@ == spec_decode_entity(ent@, closed),
{
    let mut out: Vec<char> = Vec::new();
    if is_lit(ent, "nbsp") {
        out.push(' ');
    } else if is_lit(ent, "amp") {
        out.push('&');
    } else if is_lit(ent, "lt") {
        out.push('<');
    } else if is_lit(ent, "gt") {
        out.push('>');
    } else if is_lit(ent, "quot") {
        out.push('"');
    } else if is_lit(ent, "apos") || is_lit(ent, "#39") {
        out.push('\'');
    } else {
        let mut decoded = false;
        if ent.len() > 0 && ent[0] == '#' {
            let num = slice_chars(ent.as_slice(), 1, ent.len());
            assert(num@ == ent@.skip(1));
            let code = if num.len() > 0 && (num[0] == 'x' || num[0] == 'X') {
                let hex = slice_chars(num, 1, num.len());
                assert(hex@ == num@.skip(1));
                parse_u32_radix(hex, 16)
            } else {
                parse_u32_radix(num, 10)
            };
            match code {
                Some(c) => match char_from_u32(c) {
                    Some(ch) => {
                        out.push(ch);
                        decoded = true;
                    },
                    None => {},
                },
                None => {},
            }
        }
        if !decoded {
            out.push('&');
            let mut i: usize = 0;
            while i < ent.len()
                invariant
                    i <= ent@.len(),
                    out@ == seq!['&'] + ent@.take(i as int),
                decreases ent@.len() - i,
            {
                out.push(ent[i]);
                i += 1;
                assert(out@ =~= seq!['&'] + ent@.take(i as int));
            }
            if closed {
                out.push(';');
            }
            assert(ent@.take(ent@.len() as int) =~= ent@);
        }
    }
    assert(out@ =~= spec_decode_entity(ent@, closed));
    out
}


/// The entity name after an `&` at `i`: characters up to `;` (consumed), or
/// up to a `<` or `&`, the end, or once the name already holds more than ten
/// UTF-8 bytes (none of these consumed). Gives the name, where reading
/// resumes, and whether a `;` closed the name.
pub open spec fn collect_entity(s: Seq<char>, i: int, ent: Seq<char>) -> (Seq<char>, int, bool)
    decreases s.len() - i,
{
    if i < 0 || i >= s.len() {
        (ent, i, false)
    } else if s[i] == ';' {
        (ent, i + 1, true)
    } else if utf8_len(ent) > 10 || s[i] == '<' || s[i] == '&' {
        (ent, i, false)
    } else {
        collect_entity(s, i + 1, ent.push(s[i]))
    }
}

pub proof fn lemma_collect_entity(s: Seq<char>, i: int, ent: Seq<char>)
    requires
        0 <= i,
    ensures
        i <= collect_entity(s, i, ent).1,
        i <= s.len() ==> collect_entity(s, i, ent).1 <= s.len(),
    decreases s.len() - i,
{
    if 0 <= i < s.len() && s[i] != ';' && !(utf8_len(ent) > 10 || s[i] == '<' || s[i] == '&') {
        lemma_collect_entity(s, i + 1, ent.push(s[i]));
    }
}

/// The text of `s` from `i` on with tags (`<` to `>`) removed and entities
/// decoded; `in_tag` tells whether `i` lies inside a tag.
pub open spec fn strip_tags(s: Seq<char>, i: int, in_tag: bool) -> Seq<char>
    decreases s.len() - i,
{
    if i < 0 || i >= s.len() {
        Seq::empty()
    } else {
        let c = s[i];
        if c == '<' {
            strip_tags(s, i + 1, true)
        } else if c == '>' {
            strip_tags(s, i + 1, false)
        } else if in_tag {
            strip_tags(s, i + 1, true)
        } else if c == '&' {
            let (ent, j, closed) = collect_entity(s, i + 1, Seq::empty());
            proof {
                lemma_collect_entity(s, i + 1, Seq::empty());
            }
            spec_decode_entity(ent, closed) + strip_tags(s, j, false)
        } else {
            seq![c] + strip_tags(s, i + 1, false)
        }
    }
}

/// The maximal runs of non-whitespace characters of `s`, in order.
pub open spec fn words(s: Seq<char>) -> Seq<Seq<char>>
    decreases s.len(),
{
    if s.len() == 0 {
        Seq::empty()
    } else if is_ws(s.last()) {
        words(s.drop_last())
    } else if s.len() >= 2 && !is_ws(s[s.len() - 2]) {
        let w = words(s.drop_last());
        w.update(w.len() - 1, w.last().push(s.last()))
    } else {
        words(s.drop_last()).push(seq![s.last()])
    }
}

/// Words joined with single spaces.
pub open spec fn join_space(ws: Seq<Seq<char>>) -> Seq<char>
    decreases ws.len(),
{
    if ws.len() == 0 {
        Seq::empty()
    } else if ws.len() == 1 {
        ws[0]
    } else {
        join_space(ws.drop_last()) + seq![' '] + ws.last()
    }
}

/// Plain text of an HTML fragment: tags removed, entities decoded, runs of
/// whitespace collapsed to one space and trimmed at both ends.
pub open spec fn spec_html_to_text(html: Seq<char>) -> Seq<char> {
    join_space(words(strip_tags(html, 0, false)))
}

fn char_width(c: char) -> (r: usize)
    ensures
        r == utf8_width(c),
{
    let v = c as u32;
    if v < 0x80 { 1 } else if v < 0x800 { 2 } else if v < 0x10000 { 3 } else { 4 }
}

/// Splits into words (maximal runs of non-whitespace).
fn split_words(s: &Vec<char>) -> (r: Vec<Vec<char>>)
    ensures
        r@.map_values(|w: Vec<char>| w@) == words(s@),
{
    let mut out: Vec<Vec<char>> = Vec::new();
    let mut i: usize = 0;
    assert(s@.take(0) =~= Seq::<char>::empty());
    while i < s.len()
        invariant
            i <= s@.len(),
            out@.map_values(|w: Vec<char>| w@) == words(s@.take(i as int)),
            i > 0 && !is_ws(s@[i - 1]) ==> out@.len() > 0,
        decreases s@.len() - i,
    {
        let c = s[i];
        let ghost t = s@.take(i + 1);
        assert(t.drop_last() =~= s@.take(i as int));
        assert(t.last() == c);
        if is_whitespace(c) {
        } else if i > 0 && !is_whitespace(s[i - 1]) {
            assert(t[t.len() - 2] == s@[i - 1]);
            let last = out.len() - 1;
            let mut w = out[last].clone();
            w.push(c);
            out.set(last, w);
            assert(out@.map_values(|w: Vec<char>| w@) =~= words(t));
        } else {
            let mut w: Vec<char> = Vec::new();
            w.push(c);
            out.push(w);
            assert(out@.map_values(|w: Vec<char>| w@) =~= words(t));
        }
        i += 1;
    }
    assert(s@.take(s@.len() as int) =~= s@);
    out
}

fn join_words(ws: &Vec<Vec<char>>) -> (r: Vec<char>)
    ensures
        r@ == join_space(ws@.map_values(|w: Vec<char>| w@)),
{
    let ghost wv = ws@.map_values(|w: Vec<char>| w@);
    let mut out: Vec<char> = Vec::new();
    let mut i: usize = 0;
    assert(wv.take(0) =~= Seq::<Seq<char>>::empty());
    while i < ws.len()
        invariant
            i <= ws@.len(),
            wv == ws@.map_values(|w: Vec<char>| w@),
            out@ == join_space(wv.take(i as int)),
        decreases ws@.len() - i,
    {
        let ghost t = wv.take(i + 1);
        assert(t.drop_last() =~= wv.take(i as int));
        if i > 0 {
            out.push(' ');
        }
        let mut w = vstd::slice::slice_to_vec(ws[i].as_slice());
        out.append(&mut w);
        proof {
            if i == 0 {
                assert(out@ =~= t[0]);
            } else {
                assert(out@ =~= join_space(t.drop_last()) + seq![' '] + t.last());
            }
        }
        i += 1;
    }
    assert(wv.take(ws@.len() as int) =~= wv);
    out
}

/// Plain text of an HTML fragment: tags removed, basic and numeric entities
/// decoded, whitespace collapsed to single spaces and trimmed.
pub fn html_to_text(html: &str) -> (r: String)
    ensures
        r@ == spec_html_to_text(html@),
{
    let s = chars_of(html);
    let mut out: Vec<char> = Vec::new();
    let mut in_tag = false;
    let mut i: usize = 0;
    while i < s.len()
        invariant
            i <= s@.len(),
            strip_tags(s@, 0, false) == out@ + strip_tags(s@, i as int, in_tag),
        decreases s@.len() - i,
    {
        let c = s[i];
        if c == '<' {
            in_tag = true;
            i += 1;
        } else if c == '>' {
            in_tag = false;
            i += 1;
        } else if in_tag {
            i += 1;
        } else if c == '&' {
            let mut ent: Vec<char> = Vec::new();
            let mut ent_bytes: usize = 0;
            let mut j = i + 1;
            let ghost start = (i + 1) as int;
            let mut stop = false;
            let mut closed = false;
            while !stop && j < s.len()
                invariant
                    i < j <= s@.len(),
                    ent_bytes == utf8_len(ent@),
                    ent_bytes <= 14,
                    !stop ==> !closed,
                    !stop ==> collect_entity(s@, start, Seq::empty()) == collect_entity(s@, j as int, ent@),
                    stop ==> collect_entity(s@, start, Seq::empty()) == (ent@, j as int, closed),
                decreases s@.len() - j, if stop { 0int } else { 1int },
            {
                let nc = s[j];
                if nc == ';' {
                    j += 1;
                    stop = true;
                    closed = true;
                } else if ent_bytes > 10 || nc == '<' || nc == '&' {
                    stop = true;
                } else {
                    ent_bytes = ent_bytes + char_width(nc);
                    assert(ent@.push(nc).drop_last() =~= ent@);
                    ent.push(nc);
                    j += 1;
                }
            }
            let mut dec = decode_entity(&ent, closed);
            let ghost rest = strip_tags(s@, j as int, false);
            assert(out@ + (spec_decode_entity(ent@, closed) + rest) =~= (out@ + spec_decode_entity(ent@, closed)) + rest);
            out.append(&mut dec);
            i = j;
        } else {
            assert(out@ + (seq![c] + strip_tags(s@, i + 1, false)) =~= out@.push(c) + strip_tags(s@, i + 1, false));
            out.push(c);
            i += 1;
        }
    }
    assert(out@ + Seq::<char>::empty() =~= out@);
    let ws = split_words(&out);
    let joined = join_words(&ws);
    string_from_chars(&joined)
}


/// Gregorian leap year.
pub open spec fn is_leap(y: int) -> bool {
    (y % 4 == 0 && y % 100 != 0) || y % 400 == 0
}

/// Length of month `m` (1 to 12) of year `y`.
pub open spec fn days_in_month(y: int, m: int) -> int {
    if m == 2 {
        if is_leap(y) { 29 } else { 28 }
    } else if m == 4 || m == 6 || m == 9 || m == 11 {
        30
    } else {
        31
    }
}

/// Days of year `y` before the first of month `m` (1 to 12).
pub open spec fn days_before_month(y: int, m: int) -> int {
    let base: int = if m == 1 { 0 } else if m == 2 { 31 } else if m == 3 { 59 } else if m == 4 { 90 }
        else if m == 5 { 120 } else if m == 6 { 151 } else if m == 7 { 181 } else if m == 8 { 212 }
        else if m == 9 { 243 } else if m == 10 { 273 } else if m == 11 { 304 } else { 334 };
    base + if m > 2 && is_leap(y) { 1int } else { 0int }
}

/// Days from 0000-01-01 to the first of January of year `y` (proleptic
/// Gregorian calendar; each term counts the multiples of 4, 100, 400 below `y`).
pub open spec fn days_before_year(y: int) -> int {
    365 * y + (y + 3) / 4 - (y + 99) / 100 + (y + 399) / 400
}

/// Days from 1970-01-01 to the date `y-m-d`.
pub open spec fn day_number(y: int, m: int, d: int) -> int {
    days_before_year(y) + days_before_month(y, m) + d - 1 - 719528
}

/// Whether `y-m-d` is a calendar date.
pub open spec fn valid_date(y: int, m: int, d: int) -> bool {
    1 <= m <= 12 && 1 <= d <= days_in_month(y, m)
}

proof fn lemma_div_shift(a: int, q: int, d: int)
    requires
        d > 0,
    ensures
        (d * q + a) / d == q + a / d,
        (d * q + a) % d == a % d,
{
    vstd::arithmetic::div_mod::lemma_fundamental_div_mod(a, d);
    vstd::arithmetic::div_mod::lemma_mod_bound(a, d);
    assert(d * q + a == d * (q + a / d) + a % d) by (nonlinear_arith)
        requires a == d * (a / d) + a % d;
    vstd::arithmetic::div_mod::lemma_div_multiples_vanish_fancy(q + a / d, a % d, d);
    vstd::arithmetic::div_mod::lemma_mod_multiples_vanish(q, a, d);
}

proof fn lemma_era_identity(era: int, t: int)
    requires
        0 <= t <= 399,
    ensures
        days_before_year(400 * era + t) + (if is_leap(400 * era + t) { 1int } else { 0int }) - 1
            == 146097 * era + 365 * t + t / 4 - t / 100,
{
    let y = 400 * era + t;
    assert((y + 3) / 4 == 100 * era + (t + 3) / 4) by {
        lemma_div_shift(t + 3, 100 * era, 4);
    }
    assert((y + 99) / 100 == 4 * era + (t + 99) / 100) by {
        lemma_div_shift(t + 99, 4 * era, 100);
    }
    assert((y + 399) / 400 == era + (t + 399) / 400) by {
        lemma_div_shift(t + 399, era, 400);
    }
    assert(y % 4 == t % 4) by {
        lemma_div_shift(t, 100 * era, 4);
    }
    assert(y % 100 == t % 100) by {
        lemma_div_shift(t, 4 * era, 100);
    }
    assert(y % 400 == t % 400) by {
        lemma_div_shift(t, era, 400);
    }
}


/// Days of the era (400 years from March 1 of year 0 mod 400) before
/// March year `t`.
pub open spec fn era_days_before(t: int) -> int {
    365 * t + t / 4 - t / 100 + t / 400
}

proof fn lemma_yoe(doe: int)
    requires
        0 <= doe <= 146096,
    ensures
        ({
            let yoe = (doe - doe / 1460 + doe / 36524 - doe / 146096) / 365;
            &&& 0 <= yoe <= 399
            &&& era_days_before(yoe) <= doe < era_days_before(yoe + 1)
        }),
{
    let a = doe / 1460;
    let b = doe / 36524;
    let c = doe / 146096;
    let yoe = (doe - a + b - c) / 365;
    assert(0 <= yoe <= 399 && era_days_before(yoe) <= doe < era_days_before(yoe + 1)) by (nonlinear_arith)
        requires
            0 <= doe <= 146096,
            a == doe / 1460,
            b == doe / 36524,
            c == doe / 146096,
            yoe == (doe - a + b - c) / 365;
}


proof fn lemma_month(doy: int, long_year: bool)
    requires
        0 <= doy <= 365,
        doy == 365 ==> long_year,
    ensures
        ({
            let mp = (5 * doy + 2) / 153;
            let d = doy - (153 * mp + 2) / 5 + 1;
            let m = if mp < 10 { mp + 3 } else { mp - 9 };
            let feb = if long_year { 29int } else { 28int };
            &&& 0 <= mp <= 11
            &&& 1 <= d
            &&& (m == 2 ==> d <= feb)
            &&& (m != 2 ==> d <= (if m == 4 || m == 6 || m == 9 || m == 11 { 30int } else { 31int }))
            &&& (mp < 10 ==> (153 * mp + 2) / 5 == (if m == 3 { 0int } else if m == 4 { 31int } else if m == 5 { 61int }
                else if m == 6 { 92int } else if m == 7 { 122int } else if m == 8 { 153int } else if m == 9 { 184int }
                else if m == 10 { 214int } else if m == 11 { 245int } else { 275int }))
            &&& (mp == 10 ==> (153 * mp + 2) / 5 == 306)
            &&& (mp == 11 ==> (153 * mp + 2) / 5 == 337)
        }),
{
    let mp = (5 * doy + 2) / 153;
    assert(0 <= mp <= 11) by (nonlinear_arith)
        requires 0 <= doy <= 365, mp == (5 * doy + 2) / 153;
    assert(153 * mp <= 5 * doy + 2 < 153 * mp + 153) by (nonlinear_arith)
        requires mp == (5 * doy + 2) / 153, doy >= 0;
}

proof fn lemma_leap_shift(era: int, t: int)
    requires
        1 <= t <= 400,
    ensures
        is_leap(400 * era + t) <==> (t % 4 == 0 && (t % 100 != 0 || t == 400)),
        era_days_before(t) - era_days_before(t - 1) == 365 + (if t % 4 == 0 && (t % 100 != 0 || t == 400) { 1int } else { 0int }),
{
    lemma_div_shift(t, 100 * era, 4);
    lemma_div_shift(t, 4 * era, 100);
    lemma_div_shift(t, era, 400);
    assert(era_days_before(t) - era_days_before(t - 1) == 365 + (if t % 4 == 0 && (t % 100 != 0 || t == 400) { 1int } else { 0int })) by (nonlinear_arith)
        requires 1 <= t <= 400;
}

proof fn lemma_civil(era: int, yoe: int, doy: int)
    requires
        0 <= yoe <= 399,
        0 <= doy < era_days_before(yoe + 1) - era_days_before(yoe),
    ensures
        ({
            let mp = (5 * doy + 2) / 153;
            let d = doy - (153 * mp + 2) / 5 + 1;
            let m = if mp < 10 { mp + 3 } else { mp - 9 };
            let y = yoe + era * 400;
            let year = if m <= 2 { y + 1 } else { y };
            &&& valid_date(year, m, d)
            &&& day_number(year, m, d) == 146097 * era + era_days_before(yoe) + doy - 719468
        }),
{
    let y = yoe + era * 400;
    lemma_leap_shift(era, yoe + 1);
    let long_year = era_days_before(yoe + 1) - era_days_before(yoe) == 366;
    lemma_month(doy, long_year);
    lemma_era_identity(era, yoe);
    assert(era_days_before(yoe) == 365 * yoe + yoe / 4 - yoe / 100);
    let mp = (5 * doy + 2) / 153;
    let d = doy - (153 * mp + 2) / 5 + 1;
    let m = if mp < 10 { mp + 3 } else { mp - 9 };
    if mp >= 10 {
        assert(400 * era + yoe + 1 == y + 1);
        assert(days_before_year(y + 1) == days_before_year(y) + 365 + (if is_leap(y) { 1int } else { 0int })) by {
            assert(is_leap(y) <==> ((y % 4 == 0 && y % 100 != 0) || y % 400 == 0));
            assert(days_before_year(y + 1) - days_before_year(y) == 365 + (if is_leap(y) { 1int } else { 0int })) by (nonlinear_arith);
        }
    }
}

/// Calendar date of the day `z` days after 1970-01-01.
fn civil_from_days(z: i64) -> (r: (i64, i64, i64))
    requires
        -0x10000000000 <= z <= 0x10000000000,
    ensures
        valid_date(r.0 as int, r.1 as int, r.2 as int),
        day_number(r.0 as int, r.1 as int, r.2 as int) == z,
{
    let z = z + 719468;
    let era: i64 = if z >= 0 { z / 146097 } else { -((146096 - z) / 146097) };
    assert(era == z as int / 146097) by (nonlinear_arith)
        requires
            z >= 0 ==> era == z as int / 146097,
            z < 0 ==> era == -((146096 - z as int) / 146097);
    proof {
        vstd::arithmetic::div_mod::lemma_fundamental_div_mod(z as int, 146097);
        vstd::arithmetic::div_mod::lemma_mod_bound(z as int, 146097);
    }
    let doe = z - era * 146097;
    let yoe = (doe - doe / 1460 + doe / 36524 - doe / 146096) / 365;
    proof {
        lemma_yoe(doe as int);
    }
    let y = yoe + era * 400;
    let doy = doe - (365 * yoe + yoe / 4 - yoe / 100);
    proof {
        lemma_civil(era as int, yoe as int, doy as int);
    }
    let mp = (5 * doy + 2) / 153;
    let d = doy - (153 * mp + 2) / 5 + 1;
    let m = if mp < 10 { mp + 3 } else { mp - 9 };
    let year = if m <= 2 { y + 1 } else { y };
    (year, m, d)
}


/// Length of year `y`.
pub open spec fn year_len(y: int) -> int {
    if is_leap(y) { 366 } else { 365 }
}

proof fn lemma_year_step(y: int)
    ensures
        days_before_year(y + 1) == days_before_year(y) + year_len(y),
{
    assert(days_before_year(y + 1) - days_before_year(y) == year_len(y)) by (nonlinear_arith);
}

proof fn lemma_years_monotone(y1: int, y2: int)
    requires
        y1 <= y2,
    ensures
        days_before_year(y1) + 365 * (y2 - y1) <= days_before_year(y2),
    decreases y2 - y1,
{
    if y1 < y2 {
        lemma_years_monotone(y1, y2 - 1);
        lemma_year_step(y2 - 1);
    }
}

proof fn lemma_day_of_year(y: int, m: int, d: int)
    requires
        valid_date(y, m, d),
    ensures
        0 <= days_before_month(y, m) + d - 1 < year_len(y),
{
}

proof fn lemma_month_order(y: int, m1: int, d1: int, m2: int, d2: int)
    requires
        valid_date(y, m1, d1),
        valid_date(y, m2, d2),
        m1 < m2,
    ensures
        days_before_month(y, m1) + d1 < days_before_month(y, m2) + d2,
{
}

/// Distinct calendar dates have distinct day numbers.
pub proof fn lemma_day_number_injective(y1: int, m1: int, d1: int, y2: int, m2: int, d2: int)
    requires
        valid_date(y1, m1, d1),
        valid_date(y2, m2, d2),
        day_number(y1, m1, d1) == day_number(y2, m2, d2),
    ensures
        y1 == y2 && m1 == m2 && d1 == d2,
{
    lemma_day_of_year(y1, m1, d1);
    lemma_day_of_year(y2, m2, d2);
    if y1 < y2 {
        lemma_year_step(y1);
        lemma_years_monotone(y1 + 1, y2);
    } else if y2 < y1 {
        lemma_year_step(y2);
        lemma_years_monotone(y2 + 1, y1);
    } else {
        if m1 < m2 {
            lemma_month_order(y1, m1, d1, m2, d2);
        } else if m2 < m1 {
            lemma_month_order(y1, m2, d2, m1, d1);
        }
    }
}

/// The calendar date `z` days after 1970-01-01.
pub open spec fn date_of_day(z: int) -> (int, int, int) {
    choose|t: (int, int, int)| valid_date(t.0, t.1, t.2) && day_number(t.0, t.1, t.2) == z
}

/// `dec(n)` left-padded with zeros to `width` characters.
pub open spec fn zero_pad(n: nat, width: nat) -> Seq<char> {
    let t = dec(n);
    if t.len() >= width { t } else { Seq::new((width - t.len()) as nat, |i: int| '0') + t }
}

/// `y-m-d h:mi:s` with a year of at least four digits and two-digit fields.
pub open spec fn render_time(y: nat, m: nat, d: nat, h: nat, mi: nat, s: nat) -> Seq<char> {
    zero_pad(y, 4) + seq!['-'] + zero_pad(m, 2) + seq!['-'] + zero_pad(d, 2) + seq![' '] + zero_pad(h, 2)
        + seq![':'] + zero_pad(mi, 2) + seq![':'] + zero_pad(s, 2)
}

/// UTC text of a millisecond epoch time: empty for zero and negative times,
/// else `YYYY-MM-DD HH:MM:SS` of the calendar date and time of day it falls on.
pub open spec fn spec_format_epoch_ms(ms: i64) -> Seq<char> {
    if ms <= 0 {
        Seq::empty()
    } else {
        let secs = ms / 1000;
        let days = secs / 86400;
        let tod = secs % 86400;
        let date = date_of_day(days as int);
        render_time(date.0 as nat, date.1 as nat, date.2 as nat, (tod / 3600) as nat, ((tod % 3600) / 60) as nat,
            (tod % 60) as nat)
    }
}

fn push_padded(out: &mut Vec<char>, n: u64, width: usize)
    ensures
        final(out)@ == old(out)@ + zero_pad(n as nat, width as nat),
{
    let mut digits = dec_chars(n);
    let ghost t = digits@;
    let ghost start = out@;
    let mut k: usize = digits.len();
    while k < width
        invariant
            k >= t.len(),
            k <= width || t.len() > width,
            t.len() >= width ==> k == t.len(),
            out@ == start + Seq::new((k - t.len()) as nat, |i: int| '0'),
        decreases width - k,
    {
        out.push('0');
        k += 1;
        assert(out@ =~= start + Seq::new((k - t.len()) as nat, |i: int| '0'));
    }
    out.append(&mut digits);
    proof {
        if t.len() >= width {
            assert(Seq::new((k - t.len()) as nat, |i: int| '0') =~= Seq::<char>::empty());
            assert(out@ =~= start + t);
        } else {
            assert(out@ =~= start + (Seq::new((width - t.len()) as nat, |i: int| '0') + t));
        }
    }
}

/// Millisecond epoch time as UTC `YYYY-MM-DD HH:MM:SS`; zero and negative
/// times give an empty string.
pub fn format_epoch_ms(ms: i64) -> (r: String)
    ensures
        r@ == spec_format_epoch_ms(ms),
{
    if ms <= 0 {
        return string_from_chars(&Vec::new());
    }
    let secs = ms / 1000;
    let days = secs / 86400;
    let tod = secs % 86400;
    let (y, m, d) = civil_from_days(days);
    proof {
        let t = date_of_day(days as int);
        assert(valid_date(y as int, m as int, d as int) && day_number(y as int, m as int, d as int) == days);
        lemma_day_number_injective(t.0, t.1, t.2, y as int, m as int, d as int);
        assert(y >= 1970) by {
            if y < 1970 {
                lemma_years_monotone(y as int + 1, 1970);
                lemma_year_step(y as int);
                lemma_day_of_year(y as int, m as int, d as int);
                assert(days_before_year(1970) == 719528);
            }
        }
    }
    let mut out: Vec<char> = Vec::new();
    push_padded(&mut out, y as u64, 4);
    out.push('-');
    push_padded(&mut out, m as u64, 2);
    out.push('-');
    push_padded(&mut out, d as u64, 2);
    out.push(' ');
    push_padded(&mut out, (tod / 3600) as u64, 2);
    out.push(':');
    push_padded(&mut out, ((tod % 3600) / 60) as u64, 2);
    out.push(':');
    push_padded(&mut out, (tod % 60) as u64, 2);
    string_from_chars(&out)
}


proof fn lemma_date_exists(z: int)
    requires
        0 <= z,
    ensures
        valid_date(date_of_day(z).0, date_of_day(z).1, date_of_day(z).2),
        day_number(date_of_day(z).0, date_of_day(z).1, date_of_day(z).2) == z,
{
    let zz = z + 719468;
    let era = zz / 146097;
    vstd::arithmetic::div_mod::lemma_fundamental_div_mod(zz, 146097);
    vstd::arithmetic::div_mod::lemma_mod_bound(zz, 146097);
    let doe = zz - era * 146097;
    lemma_yoe(doe);
    let yoe = (doe - doe / 1460 + doe / 36524 - doe / 146096) / 365;
    let doy = doe - era_days_before(yoe);
    lemma_civil(era, yoe, doy);
    let mp = (5 * doy + 2) / 153;
    let d = doy - (153 * mp + 2) / 5 + 1;
    let m = if mp < 10 { mp + 3 } else { mp - 9 };
    let y = yoe + era * 400;
    let year = if m <= 2 { y + 1 } else { y };
    let w = (year, m, d);
    assert(valid_date(w.0, w.1, w.2) && day_number(w.0, w.1, w.2) == z);
}

/// `(y1, m1, d1)` comes before `(y2, m2, d2)`.
pub open spec fn date_before(a: (int, int, int), b: (int, int, int)) -> bool {
    a.0 < b.0 || (a.0 == b.0 && (a.1 < b.1 || (a.1 == b.1 && a.2 < b.2)))
}

proof fn lemma_day_order(a: (int, int, int), b: (int, int, int))
    requires
        valid_date(a.0, a.1, a.2),
        valid_date(b.0, b.1, b.2),
        date_before(a, b),
    ensures
        day_number(a.0, a.1, a.2) < day_number(b.0, b.1, b.2),
{
    lemma_day_of_year(a.0, a.1, a.2);
    lemma_day_of_year(b.0, b.1, b.2);
    if a.0 < b.0 {
        lemma_year_step(a.0);
        lemma_years_monotone(a.0 + 1, b.0);
    } else if a.1 < b.1 {
        lemma_month_order(a.0, a.1, a.2, b.1, b.2);
    }
}

/// The calendar dates of days are in the days' order.
proof fn lemma_dates_ordered(z1: int, z2: int)
    requires
        0 <= z1 < z2,
    ensures
        date_before(date_of_day(z1), date_of_day(z2)),
{
    lemma_date_exists(z1);
    lemma_date_exists(z2);
    let a = date_of_day(z1);
    let b = date_of_day(z2);
    if !date_before(a, b) {
        if a == b {
        } else {
            assert(date_before(b, a));
            lemma_day_order(b, a);
        }
    }
}

/// Years of days from 1970-01-01 up to the last day of 9999.
proof fn lemma_year_range(z: int)
    requires
        0 <= z < 2932897,
    ensures
        1970 <= date_of_day(z).0 <= 9999,
{
    lemma_date_exists(z);
    let t = date_of_day(z);
    lemma_day_of_year(t.0, t.1, t.2);
    assert(days_before_year(1970) == 719528);
    assert(days_before_year(10000) == 3652425);
    if t.0 < 1970 {
        lemma_years_monotone(t.0 + 1, 1970);
        lemma_year_step(t.0);
    }
    if t.0 > 9999 {
        lemma_years_monotone(10000, t.0);
    }
}


/// `10^w`.
pub open spec fn pow10(w: nat) -> nat
    decreases w,
{
    if w == 0 { 1 } else { 10 * pow10((w - 1) as nat) }
}

/// The last `w` decimal digits of `n`.
pub open spec fn fixed_digits(n: nat, w: nat) -> Seq<char>
    decreases w,
{
    if w == 0 {
        Seq::empty()
    } else {
        fixed_digits(n / 10, (w - 1) as nat).push(digit_char(n % 10))
    }
}

/// `a` comes before `b` in character order: at the first place where they
/// differ, `a` has the smaller character.
pub open spec fn text_before(a: Seq<char>, b: Seq<char>) -> bool {
    exists|i: int| 0 <= i < a.len() && i < b.len() && a.take(i) == b.take(i) && (a[i] as u32) < (b[i] as u32)
}

proof fn lemma_zeros(w: nat)
    ensures
        fixed_digits(0, w) == Seq::new(w, |i: int| '0'),
    decreases w,
{
    if w > 0 {
        lemma_zeros((w - 1) as nat);
        assert(digit_char(0) == '0');
        assert(fixed_digits(0, w) =~= Seq::new(w, |i: int| '0'));
    }
}

proof fn lemma_pad_fixed(n: nat, w: nat)
    requires
        1 <= w,
        n < pow10(w),
    ensures
        dec(n).len() <= w,
        zero_pad(n, w) == fixed_digits(n, w),
        fixed_digits(n, w).len() == w,
    decreases w,
{
    if n < 10 {
        lemma_zeros((w - 1) as nat);
        assert(n / 10 == 0);
        assert(zero_pad(n, w) =~= fixed_digits(n, w));
    } else {
        assert(w >= 2) by {
            if w == 1 {
                assert(pow10(1) == 10 * pow10(0));
            }
        }
        assert(n / 10 < pow10((w - 1) as nat)) by (nonlinear_arith)
            requires n < pow10(w), pow10(w) == 10 * pow10((w - 1) as nat);
        lemma_pad_fixed(n / 10, (w - 1) as nat);
        let t = dec(n / 10);
        assert(dec(n) == t.push(digit_char(n % 10)));
        assert(zero_pad(n, w) =~= zero_pad(n / 10, (w - 1) as nat).push(digit_char(n % 10)));
    }
}

proof fn lemma_digit_order(a: nat, b: nat)
    requires
        a < b < 10,
    ensures
        (digit_char(a) as u32) < (digit_char(b) as u32),
{
    assert(((48 + a) as u8) as int == 48 + a);
    assert(((48 + b) as u8) as int == 48 + b);
    assert(digit_char(a) as u32 == 48 + a && digit_char(b) as u32 == 48 + b);
}

proof fn lemma_fixed_order(a: nat, b: nat, w: nat)
    requires
        a < b < pow10(w),
    ensures
        text_before(fixed_digits(a, w), fixed_digits(b, w)),
        fixed_digits(a, w).len() == w,
        fixed_digits(b, w).len() == w,
    decreases w,
{
    if w == 0 {
        assert(false);
    } else {
        let w1 = (w - 1) as nat;
        assert(b / 10 < pow10(w1)) by (nonlinear_arith)
            requires b < pow10(w), pow10(w) == 10 * pow10(w1);
        lemma_fixed_len(a / 10, w1);
        lemma_fixed_len(b / 10, w1);
        let fa = fixed_digits(a, w);
        let fb = fixed_digits(b, w);
        if a / 10 < b / 10 {
            lemma_fixed_order(a / 10, b / 10, w1);
            let pa = fixed_digits(a / 10, w1);
            let pb = fixed_digits(b / 10, w1);
            let i = choose|i: int| 0 <= i < pa.len() && i < pb.len() && pa.take(i) == pb.take(i) && (pa[i] as u32) < (pb[i] as u32);
            assert(fa.take(i) =~= pa.take(i));
            assert(fb.take(i) =~= pb.take(i));
            assert(fa[i] == pa[i] && fb[i] == pb[i]);
        } else {
            assert(a / 10 == b / 10 && a % 10 < b % 10) by (nonlinear_arith)
                requires a < b, a / 10 >= b / 10;
            lemma_digit_order(a % 10, b % 10);
            let i = w1 as int;
            assert(fa.take(i) =~= fb.take(i));
        }
    }
}

proof fn lemma_fixed_len(n: nat, w: nat)
    ensures
        fixed_digits(n, w).len() == w,
    decreases w,
{
    if w > 0 {
        lemma_fixed_len(n / 10, (w - 1) as nat);
    }
}

proof fn lemma_text_extend(u1: Seq<char>, u2: Seq<char>, v1: Seq<char>, v2: Seq<char>)
    requires
        u1.len() == u2.len(),
        text_before(u1, u2),
    ensures
        text_before(u1 + v1, u2 + v2),
{
    let i = choose|i: int| 0 <= i < u1.len() && i < u2.len() && u1.take(i) == u2.take(i) && (u1[i] as u32) < (u2[i] as u32);
    assert((u1 + v1).take(i) =~= u1.take(i));
    assert((u2 + v2).take(i) =~= u2.take(i));
    assert((u1 + v1)[i] == u1[i] && (u2 + v2)[i] == u2[i]);
}

proof fn lemma_text_after_same(u: Seq<char>, v1: Seq<char>, v2: Seq<char>)
    requires
        text_before(v1, v2),
    ensures
        text_before(u + v1, u + v2),
{
    let i = choose|i: int| 0 <= i < v1.len() && i < v2.len() && v1.take(i) == v2.take(i) && (v1[i] as u32) < (v2[i] as u32);
    let j = u.len() + i;
    assert((u + v1).take(j) =~= u + v1.take(i));
    assert((u + v2).take(j) =~= u + v2.take(i));
    assert((u + v1)[j] == v1[i] && (u + v2)[j] == v2[i]);
}


/// The fields of a time text, right-nested.
spec fn right_render(y: Seq<char>, m: Seq<char>, d: Seq<char>, h: Seq<char>, mi: Seq<char>, s: Seq<char>) -> Seq<char> {
    y + (seq!['-'] + (m + (seq!['-'] + (d + (seq![' '] + (h + (seq![':'] + (mi + (seq![':'] + s)))))))))
}

proof fn lemma_right_order(
    y1: Seq<char>, m1: Seq<char>, d1: Seq<char>, h1: Seq<char>, i1: Seq<char>, s1: Seq<char>,
    y2: Seq<char>, m2: Seq<char>, d2: Seq<char>, h2: Seq<char>, i2: Seq<char>, s2: Seq<char>,
)
    requires
        y1.len() == y2.len(), m1.len() == m2.len(), d1.len() == d2.len(), h1.len() == h2.len(), i1.len() == i2.len(),
        y1 != y2 ==> text_before(y1, y2),
        y1 == y2 && m1 != m2 ==> text_before(m1, m2),
        y1 == y2 && m1 == m2 && d1 != d2 ==> text_before(d1, d2),
        y1 == y2 && m1 == m2 && d1 == d2 && h1 != h2 ==> text_before(h1, h2),
        y1 == y2 && m1 == m2 && d1 == d2 && h1 == h2 && i1 != i2 ==> text_before(i1, i2),
        y1 == y2 && m1 == m2 && d1 == d2 && h1 == h2 && i1 == i2 ==> text_before(s1, s2),
    ensures
        text_before(right_render(y1, m1, d1, h1, i1, s1), right_render(y2, m2, d2, h2, i2, s2)),
{
    let c = seq![':'];
    let sp = seq![' '];
    let dash = seq!['-'];
    let t5a = c + s1;
    let t5b = c + s2;
    let t4a = i1 + t5a;
    let t4b = i2 + t5b;
    if y1 == y2 && m1 == m2 && d1 == d2 && h1 == h2 {
        if i1 != i2 {
            lemma_text_extend(i1, i2, t5a, t5b);
        } else {
            lemma_text_after_same(c, s1, s2);
            lemma_text_after_same(i1, t5a, t5b);
        }
    }
    let t3a = c + t4a;
    let t3b = c + t4b;
    let t2a = h1 + t3a;
    let t2b = h2 + t3b;
    if y1 == y2 && m1 == m2 && d1 == d2 {
        if h1 != h2 {
            lemma_text_extend(h1, h2, t3a, t3b);
        } else {
            lemma_text_after_same(c, t4a, t4b);
            lemma_text_after_same(h1, t3a, t3b);
        }
    }
    let t1a = sp + t2a;
    let t1b = sp + t2b;
    let t0a = d1 + t1a;
    let t0b = d2 + t1b;
    if y1 == y2 && m1 == m2 {
        if d1 != d2 {
            lemma_text_extend(d1, d2, t1a, t1b);
        } else {
            lemma_text_after_same(sp, t2a, t2b);
            lemma_text_after_same(d1, t1a, t1b);
        }
    }
    let ua = dash + t0a;
    let ub = dash + t0b;
    let va = m1 + ua;
    let vb = m2 + ub;
    if y1 == y2 {
        if m1 != m2 {
            lemma_text_extend(m1, m2, ua, ub);
        } else {
            lemma_text_after_same(dash, t0a, t0b);
            lemma_text_after_same(m1, ua, ub);
        }
    }
    let wa = dash + va;
    let wb = dash + vb;
    if y1 != y2 {
        lemma_text_extend(y1, y2, wa, wb);
    } else {
        lemma_text_after_same(dash, va, vb);
        lemma_text_after_same(y1, wa, wb);
    }
}

/// Zero-padded fields of one width have that width, and compare as their
/// numbers do.
proof fn lemma_field(a: nat, b: nat, w: nat)
    requires
        1 <= w,
        a < pow10(w),
        b < pow10(w),
    ensures
        zero_pad(a, w).len() == w,
        zero_pad(b, w).len() == w,
        a < b ==> text_before(zero_pad(a, w), zero_pad(b, w)),
        a == b <==> zero_pad(a, w) == zero_pad(b, w),
{
    lemma_pad_fixed(a, w);
    lemma_pad_fixed(b, w);
    if a != b {
        let (lo, hi) = if a < b { (a, b) } else { (b, a) };
        lemma_fixed_order(lo, hi, w);
        let pl = fixed_digits(lo, w);
        let ph = fixed_digits(hi, w);
        let i = choose|i: int| 0 <= i < pl.len() && i < ph.len() && pl.take(i) == ph.take(i) && (pl[i] as u32) < (ph[i] as u32);
        assert(pl[i] != ph[i]);
    }
}

/// Law: from 1970 to the year 9999, the text of a millisecond time is 19
/// characters (`YYYY-MM-DD HH:MM:SS`), the texts of two times compare as
/// their seconds do, and they are equal exactly when the seconds are.
#[verifier::rlimit(40)]
pub proof fn lemma_format_order(a: i64, b: i64)
    requires
        0 < a <= b < 253402300800000,
    ensures
        spec_format_epoch_ms(a).len() == 19,
        spec_format_epoch_ms(b).len() == 19,
        a / 1000 == b / 1000 ==> spec_format_epoch_ms(a) == spec_format_epoch_ms(b),
        a / 1000 < b / 1000 ==> text_before(spec_format_epoch_ms(a), spec_format_epoch_ms(b)),
        a / 1000 <= b / 1000,
{
    assert(pow10(2) == 100 && pow10(4) == 10000) by {
        reveal_with_fuel(pow10, 5);
    }
    let sa = a / 1000;
    let sb = b / 1000;
    assert(sa <= sb) by (nonlinear_arith)
        requires a <= b, sa == a / 1000, sb == b / 1000, a > 0;
    let da = sa / 86400;
    let db = sb / 86400;
    let ta = sa % 86400;
    let tb = sb % 86400;
    assert(0 <= da <= db < 2932897 && 0 <= ta < 86400 && 0 <= tb < 86400) by (nonlinear_arith)
        requires 0 <= sa <= sb, sb == b / 1000, b < 253402300800000,
            da == sa / 86400, db == sb / 86400, ta == sa % 86400, tb == sb % 86400;
    lemma_date_exists(da as int);
    lemma_date_exists(db as int);
    lemma_year_range(da as int);
    lemma_year_range(db as int);
    let x = date_of_day(da as int);
    let z = date_of_day(db as int);
    let ha = ta / 3600;
    let ia = (ta % 3600) / 60;
    let ea = ta % 60;
    let hb = tb / 3600;
    let ib = (tb % 3600) / 60;
    let eb = tb % 60;
    assert(0 <= ha < 24 && 0 <= ia < 60 && 0 <= ea < 60 && 0 <= hb < 24 && 0 <= ib < 60 && 0 <= eb < 60);
    let (y1, m1, d1) = (x.0 as nat, x.1 as nat, x.2 as nat);
    let (y2, m2, d2) = (z.0 as nat, z.1 as nat, z.2 as nat);
    lemma_field(y1, y2, 4);
    lemma_field(m1, m2, 2);
    lemma_field(d1, d2, 2);
    lemma_field(ha as nat, hb as nat, 2);
    lemma_field(ia as nat, ib as nat, 2);
    lemma_field(ea as nat, eb as nat, 2);
    let (py1, pm1, pd1) = (zero_pad(y1, 4), zero_pad(m1, 2), zero_pad(d1, 2));
    let (ph1, pi1, pe1) = (zero_pad(ha as nat, 2), zero_pad(ia as nat, 2), zero_pad(ea as nat, 2));
    let (py2, pm2, pd2) = (zero_pad(y2, 4), zero_pad(m2, 2), zero_pad(d2, 2));
    let (ph2, pi2, pe2) = (zero_pad(hb as nat, 2), zero_pad(ib as nat, 2), zero_pad(eb as nat, 2));
    assert(spec_format_epoch_ms(a) =~= right_render(py1, pm1, pd1, ph1, pi1, pe1));
    assert(spec_format_epoch_ms(b) =~= right_render(py2, pm2, pd2, ph2, pi2, pe2));
    if sa == sb {
        assert(spec_format_epoch_ms(a) == spec_format_epoch_ms(b));
    } else {
        if da < db {
            lemma_dates_ordered(da as int, db as int);
        } else {
            assert(da == db);
            assert(ta < tb) by (nonlinear_arith)
                requires sa < sb, sa >= 0, da == sa / 86400, db == sb / 86400, ta == sa % 86400, tb == sb % 86400, da == db;
            assert(ha < hb || (ha == hb && (ia < ib || (ia == ib && ea < eb)))) by (nonlinear_arith)
                requires ta < tb, 0 <= ta, ha == ta / 3600, ia == (ta % 3600) / 60, ea == ta % 60,
                    hb == tb / 3600, ib == (tb % 3600) / 60, eb == tb % 60;
        }
        lemma_right_order(py1, pm1, pd1, ph1, pi1, pe1, py2, pm2, pd2, ph2, pi2, pe2);
    }
}

} // verus!
