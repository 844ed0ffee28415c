//! Parsing and resolving locations.
//!
//! A location string is either a decimal coordinate pair
//! (`"52.5,13.4"`, also with `/` or `.` as separator), a pair of
//! degree/minute/second axes (`"52°30'N 13°24'E"`), or — when neither
//! shape matches — an opaque place name to be resolved by a geocoding
//! lookup.
//!
//! Coordinate values are exact: a [`CoordValue`] holds an integer count
//! of 1/(3600 * 10^15) degree units, which represents every decimal
//! numeral of at most 15 fractional digits and every
//! degree/minute/second combination without rounding.

use vstd::prelude::*;

use crate::digits::all_digits;
use crate::digits::dec_digits_of;
use crate::digits::digits_val;
use crate::digits::digits_value;
use crate::digits::dre;
use crate::digits::is_digit;
use crate::digits::is_digit_char;
use crate::digits::lemma_digits_val_bounds;
use crate::digits::lemma_dre_props;
use crate::digits::lemma_dre_unique;
use crate::digits::lemma_pow10_adds;
use crate::digits::lemma_pow10_pos;
use crate::digits::pow10;
use crate::digits::scan_digits;

verus! {

// ---------------------------------------------------------------------------
// Character classes
// ---------------------------------------------------------------------------

/// Whitespace accepted around separators and at the ends of the input.
pub open spec fn is_space_char(c: char) -> bool {
    c == ' ' || c == '\t' || c == '\n' || c == '\r' || c as u32 == 11 || c as u32 == 12
}

/// Separator between the two numbers of a decimal coordinate pair.
pub open spec fn is_sep_char(c: char) -> bool {
    c == ',' || c == '.' || c == '/'
}

/// Sign of a decimal number.
pub open spec fn is_sign_char(c: char) -> bool {
    c == '+' || c == '-'
}

pub fn is_space(c: char) -> (r: bool)
    ensures
        r == is_space_char(c),
{
    c == ' ' || c == '\t' || c == '\n' || c == '\r' || c as u32 == 11 || c as u32 == 12
}

pub fn is_sep(c: char) -> (r: bool)
    ensures
        r == is_sep_char(c),
{
    c == ',' || c == '.' || c == '/'
}

// ---------------------------------------------------------------------------
// Whitespace runs and trimming
// ---------------------------------------------------------------------------

/// End of the run of whitespace starting at `i`.
pub open spec fn sre(s: Seq<char>, i: int) -> int
    decreases s.len() - i when 0 <= i <= s.len()
{
    if i < s.len() && is_space_char(s[i]) {
        sre(s, i + 1)
    } else {
        i
    }
}

pub proof fn lemma_sre_props(s: Seq<char>, i: int)
    requires
        0 <= i <= s.len(),
    ensures
        i <= sre(s, i) <= s.len(),
        forall|k: int| i <= k < sre(s, i) ==> is_space_char(#[trigger] s[k]),
        sre(s, i) < s.len() ==> !is_space_char(s[sre(s, i)]),
    decreases s.len() - i,
{
    if i < s.len() && is_space_char(s[i]) {
        lemma_sre_props(s, i + 1);
    }
}

pub proof fn lemma_sre_unique(s: Seq<char>, i: int, r: int)
    requires
        0 <= i <= r <= s.len(),
        forall|k: int| i <= k < r ==> is_space_char(#[trigger] s[k]),
        r < s.len() ==> !is_space_char(s[r]),
    ensures
        sre(s, i) == r,
{
    lemma_sre_props(s, i);
    if sre(s, i) < r {
        assert(is_space_char(s[sre(s, i)]));
    }
    if r < sre(s, i) {
        assert(is_space_char(s[r]));
    }
}

/// Scan to the end of a whitespace run.
pub fn scan_spaces(t: &Vec<char>, i: usize) -> (r: usize)
    requires
        i <= t@.len(),
    ensures
        r == sre(t@, i as int),
        i <= r <= t@.len(),
{
    let mut j = i;
    while j < t.len() && is_space(t[j])
        invariant
            i <= j <= t@.len(),
            forall|k: int| i <= k < j ==> is_space_char(#[trigger] t@[k]),
        decreases t@.len() - j,
    {
        j += 1;
    }
    proof {
        lemma_sre_unique(t@, i as int, j as int);
    }
    j
}

/// One past the last character that is not whitespace (0 when all are).
pub open spec fn trim_hi(s: Seq<char>) -> int
    decreases s.len(),
{
    if s.len() == 0 {
        0
    } else if is_space_char(s.last()) {
        trim_hi(s.drop_last())
    } else {
        s.len() as int
    }
}

pub proof fn lemma_trim_hi_props(s: Seq<char>)
    ensures
        0 <= trim_hi(s) <= s.len(),
        forall|k: int| trim_hi(s) <= k < s.len() ==> is_space_char(#[trigger] s[k]),
        trim_hi(s) > 0 ==> !is_space_char(s[trim_hi(s) - 1]),
    decreases s.len(),
{
    if s.len() > 0 && is_space_char(s.last()) {
        lemma_trim_hi_props(s.drop_last());
        assert(forall|k: int|
            0 <= k < s.len() - 1 ==> s.drop_last()[k] == #[trigger] s[k]);
    }
}

pub proof fn lemma_trim_hi_unique(s: Seq<char>, h: int)
    requires
        0 <= h <= s.len(),
        forall|k: int| h <= k < s.len() ==> is_space_char(#[trigger] s[k]),
        h > 0 ==> !is_space_char(s[h - 1]),
    ensures
        trim_hi(s) == h,
{
    lemma_trim_hi_props(s);
    if trim_hi(s) < h {
        assert(is_space_char(s[h - 1]));
    }
    if h < trim_hi(s) {
        assert(is_space_char(s[trim_hi(s) - 1]));
    }
}

/// The input with surrounding whitespace removed, as `str::trim` leaves it.
pub open spec fn trimmed(s: Seq<char>) -> Seq<char> {
    if trim_hi(s) <= sre(s, 0) {
        Seq::empty()
    } else {
        s.subrange(sre(s, 0), trim_hi(s))
    }
}

/// The characters of a string slice.
pub fn chars_of(s: &str) -> (r: Vec<char>)
    ensures
        r@ == s@,
{
    let n = s.unicode_len();
    let mut r: Vec<char> = Vec::new();
    let mut i: usize = 0;
    while i < n
        invariant
            i <= n,
            n == s@.len(),
            r@ == s@.subrange(0, i as int),
        decreases n - i,
    {
        let c = s.get_char(i);
        r.push(c);
        proof {
            assert(s@.subrange(0, i + 1) =~= s@.subrange(0, i as int).push(s@[i as int]));
        }
        i += 1;
    }
    proof {
        assert(s@.subrange(0, s@.len() as int) =~= s@);
    }
    r
}

/// Copy of the characters with surrounding whitespace removed.
pub fn trim_chars(v: &Vec<char>) -> (r: Vec<char>)
    ensures
        r@ == trimmed(v@),
{
    let lo = scan_spaces(v, 0);
    let mut hi = v.len();
    if lo == v.len() {
        proof {
            lemma_trim_hi_props(v@);
        }
        let r: Vec<char> = Vec::new();
        proof {
            assert(trim_hi(v@) <= sre(v@, 0));
            assert(r@ =~= trimmed(v@));
        }
        return r;
    }
    while hi > lo && is_space(v[hi - 1])
        invariant
            lo <= hi <= v@.len(),
            forall|k: int| hi <= k < v@.len() ==> is_space_char(#[trigger] v@[k]),
        decreases hi,
    {
        hi -= 1;
    }
    proof {
        lemma_sre_props(v@, 0);
        assert(!is_space_char(v@[lo as int]));
        if hi == lo {
            assert(is_space_char(v@[lo as int]));
        }
        assert(hi > lo);
        assert(!is_space_char(v@[hi - 1]));
        lemma_trim_hi_unique(v@, hi as int);
    }
    let mut r: Vec<char> = Vec::new();
    let mut k = lo;
    while k < hi
        invariant
            lo <= k <= hi <= v@.len(),
            r@ == v@.subrange(lo as int, k as int),
        decreases hi - k,
    {
        r.push(v[k]);
        proof {
            assert(v@.subrange(lo as int, k + 1)
                =~= v@.subrange(lo as int, k as int).push(v@[k as int]));
        }
        k += 1;
    }
    proof {
        assert(r@ =~= trimmed(v@));
    }
    r
}

// ---------------------------------------------------------------------------
// The decimal-pair grammar
// ---------------------------------------------------------------------------

/// A matched decimal numeral: sign, integer digits, fraction digits
/// (empty when the numeral has no fractional part).
#[verifier::ext_equal]
pub ghost struct DecNum {
    pub neg: bool,
    pub ip: Seq<char>,
    pub fp: Seq<char>,
}

/// End of the fractional part `.digits` starting at `d`, if present.
pub open spec fn frac_end(s: Seq<char>, d: int) -> Option<int> {
    if d + 1 < s.len() && s[d] == '.' && is_digit_char(s[d + 1]) {
        Some(dre(s, d + 1))
    } else {
        None
    }
}

/// Greedy match of an unsigned numeral `digits(.digits)?` at `i`:
/// the numeral and the position after it.
pub open spec fn num_at(s: Seq<char>, i: int) -> Option<(DecNum, int)> {
    let d = dre(s, i);
    if d == i {
        None
    } else {
        match frac_end(s, d) {
            Some(f) => Some((
                DecNum { neg: false, ip: s.subrange(i, d), fp: s.subrange(d + 1, f) },
                f,
            )),
            None => Some((DecNum { neg: false, ip: s.subrange(i, d), fp: Seq::empty() }, d)),
        }
    }
}

/// A signed numeral that covers the input from `i` to the very end.
pub open spec fn signed_dec_to_end(s: Seq<char>, i: int) -> Option<DecNum> {
    let has_sign = i < s.len() && is_sign_char(s[i]);
    let neg = i < s.len() && s[i] == '-';
    let i0: int = if has_sign { i + 1 } else { i };
    match num_at(s, i0) {
        Some((n, e)) => if e == s.len() {
            Some(DecNum { neg, ..n })
        } else {
            None
        },
        None => None,
    }
}

/// After the first number: optional whitespace, a separator, optional
/// whitespace, then a signed numeral reaching the end.
pub open spec fn pair_tail(s: Seq<char>, i: int) -> Option<DecNum> {
    let w1 = sre(s, i);
    if w1 < s.len() && is_sep_char(s[w1]) {
        signed_dec_to_end(s, sre(s, w1 + 1))
    } else {
        None
    }
}

/// The decimal coordinate pair grammar, with the same backtracking
/// preference as a leftmost-first regex match: the first numeral takes
/// its fractional part greedily and gives it up only when the rest of
/// the input cannot match otherwise (which matters when the separator
/// is itself a period).
pub open spec fn dec_pair_match(s: Seq<char>) -> Option<(DecNum, DecNum)> {
    let has_sign = s.len() > 0 && is_sign_char(s[0]);
    let neg = s.len() > 0 && s[0] == '-';
    let i0: int = if has_sign { 1 } else { 0 };
    match num_at(s, i0) {
        None => None,
        Some((n, f)) => {
            let with_frac: Option<(DecNum, DecNum)> = if n.fp.len() > 0 {
                match pair_tail(s, f) {
                    Some(lng) => Some((DecNum { neg, ..n }, lng)),
                    None => None,
                }
            } else {
                None
            };
            if with_frac is Some {
                with_frac
            } else {
                match pair_tail(s, dre(s, i0)) {
                    Some(lng) => Some((DecNum { neg, ip: n.ip, fp: Seq::empty() }, lng)),
                    None => None,
                }
            }
        },
    }
}

// ---------------------------------------------------------------------------
// Executable matching: spans into the character vector
// ---------------------------------------------------------------------------

/// A numeral found in the input: integer digits are `[start, dend)`;
/// when `end > dend` the fraction digits are `[dend + 1, end)`.
#[derive(Clone, Copy)]
pub struct NumSpan {
    pub start: usize,
    pub dend: usize,
    pub end: usize,
}

/// The numeral a span denotes.
pub open spec fn span_num(s: Seq<char>, sp: NumSpan) -> DecNum {
    DecNum {
        neg: false,
        ip: s.subrange(sp.start as int, sp.dend as int),
        fp: if sp.end > sp.dend {
            s.subrange(sp.dend + 1, sp.end as int)
        } else {
            Seq::empty()
        },
    }
}

/// Span well-formedness: in range, made of digits.
pub open spec fn span_ok(s: Seq<char>, sp: NumSpan) -> bool {
    &&& sp.start < sp.dend <= sp.end <= s.len()
    &&& (forall|k: int| sp.start <= k < sp.dend ==> is_digit_char(#[trigger] s[k]))
    &&& (sp.end > sp.dend ==> sp.end > sp.dend + 1
        && (forall|k: int| sp.dend + 1 <= k < sp.end ==> is_digit_char(#[trigger] s[k])))
}

/// Find the greedy unsigned numeral at `i`.
pub fn find_num(t: &Vec<char>, i: usize) -> (r: Option<NumSpan>)
    requires
        i <= t@.len(),
    ensures
        match r {
            Some(sp) => sp.start == i && sp.dend == dre(t@, i as int) && span_ok(t@, sp)
                && num_at(t@, i as int) == Some((span_num(t@, sp), sp.end as int)),
            None => num_at(t@, i as int) is None,
        },
{
    let d = scan_digits(t, i);
    proof {
        lemma_dre_props(t@, i as int);
    }
    if d == i {
        return None;
    }
    if d < t.len() && t[d] == '.' {
        if d + 1 < t.len() && is_digit(t[d + 1]) {
            let f = scan_digits(t, d + 1);
            proof {
                lemma_dre_props(t@, d + 1);
                assert(frac_end(t@, d as int) == Some(f as int));
            }
            return Some(NumSpan { start: i, dend: d, end: f });
        }
    }
    proof {
        assert(frac_end(t@, d as int) is None);
    }
    Some(NumSpan { start: i, dend: d, end: d })
}

/// Find a signed numeral covering the input from `i` to the end.
pub fn find_signed_to_end(t: &Vec<char>, i: usize) -> (r: Option<(bool, NumSpan)>)
    requires
        i <= t@.len(),
    ensures
        match r {
            Some((neg, sp)) => span_ok(t@, sp)
                && signed_dec_to_end(t@, i as int)
                    == Some(DecNum { neg, ..span_num(t@, sp) }),
            None => signed_dec_to_end(t@, i as int) is None,
        },
{
    let (neg, i0): (bool, usize) = if i < t.len() && (t[i] == '+' || t[i] == '-') {
        (t[i] == '-', i + 1)
    } else {
        (false, i)
    };
    match find_num(t, i0) {
        Some(sp) => {
            if sp.end == t.len() {
                Some((neg, sp))
            } else {
                None
            }
        },
        None => None,
    }
}

/// Match the tail of a decimal pair: whitespace, separator, whitespace,
/// then a signed numeral to the end.
pub fn find_pair_tail(t: &Vec<char>, i: usize) -> (r: Option<(bool, NumSpan)>)
    requires
        i <= t@.len(),
    ensures
        match r {
            Some((neg, sp)) => span_ok(t@, sp)
                && pair_tail(t@, i as int) == Some(DecNum { neg, ..span_num(t@, sp) }),
            None => pair_tail(t@, i as int) is None,
        },
{
    let w1 = scan_spaces(t, i);
    if w1 < t.len() && is_sep(t[w1]) {
        let w2 = scan_spaces(t, w1 + 1);
        find_signed_to_end(t, w2)
    } else {
        None
    }
}

/// Match the whole decimal coordinate pair grammar.
#[verifier::rlimit(50)]
pub fn match_dec_pair(t: &Vec<char>) -> (r: Option<(bool, NumSpan, bool, NumSpan)>)
    ensures
        match r {
            Some((neg1, sp1, neg2, sp2)) => span_ok(t@, sp1) && span_ok(t@, sp2)
                && dec_pair_match(t@) == Some((
                    DecNum { neg: neg1, ..span_num(t@, sp1) },
                    DecNum { neg: neg2, ..span_num(t@, sp2) },
                )),
            None => dec_pair_match(t@) is None,
        },
{
    let (neg, i0): (bool, usize) = if 0 < t.len() && (t[0] == '+' || t[0] == '-') {
        (t[0] == '-', 1)
    } else {
        (false, 0)
    };
    match find_num(t, i0) {
        None => None,
        Some(sp) => {
            if sp.end > sp.dend {
                match find_pair_tail(t, sp.end) {
                    Some((neg2, sp2)) => {
                        return Some((neg, sp, neg2, sp2));
                    },
                    None => {},
                }
            }
            let head = NumSpan { start: sp.start, dend: sp.dend, end: sp.dend };
            proof {
                assert(span_num(t@, head).ip == span_num(t@, sp).ip);
                assert(span_num(t@, head).fp =~= Seq::<char>::empty());
            }
            match find_pair_tail(t, sp.dend) {
                Some((neg2, sp2)) => Some((neg, head, neg2, sp2)),
                None => None,
            }
        },
    }
}

// ---------------------------------------------------------------------------
// The degree/minute/second grammar
// ---------------------------------------------------------------------------

/// Compass letter admitted after an axis: N/S for the first axis,
/// E/W for the second, either case.
pub open spec fn axis_letter_ok(c: char, north_south: bool) -> bool {
    if north_south {
        c == 'N' || c == 'n' || c == 'S' || c == 's'
    } else {
        c == 'E' || c == 'e' || c == 'W' || c == 'w'
    }
}

/// North and East keep the sign positive; South and West negate.
pub open spec fn letter_positive(c: char) -> bool {
    c == 'N' || c == 'n' || c == 'E' || c == 'e'
}

/// One matched axis of the degree/minute/second grammar.
#[verifier::ext_equal]
pub ghost struct AxisNums {
    pub deg: DecNum,
    pub min: Option<DecNum>,
    pub sec: Option<DecNum>,
    pub positive: bool,
    pub end: int,
}

/// After degrees (and the minutes group, when present): an optional
/// seconds numeral with an optional quote, then the compass letter.
pub open spec fn axis_after_min(s: Seq<char>, k: int, north_south: bool) -> Option<(
    Option<DecNum>,
    bool,
    int,
)> {
    match num_at(s, k) {
        Some((sc, e3)) => {
            let l: int = if e3 < s.len() && s[e3] == '"' {
                e3 + 1
            } else {
                e3
            };
            if l < s.len() && axis_letter_ok(s[l], north_south) {
                Some((Some(sc), letter_positive(s[l]), l + 1))
            } else {
                None
            }
        },
        None => if k < s.len() && axis_letter_ok(s[k], north_south) {
            Some((None, letter_positive(s[k]), k + 1))
        } else {
            None
        },
    }
}

/// One axis: degrees and a degree sign, an optional minutes numeral
/// closed by an apostrophe, an optional seconds numeral with an
/// optional quote, then the compass letter.
pub open spec fn axis_match(s: Seq<char>, i: int, north_south: bool) -> Option<AxisNums> {
    match num_at(s, i) {
        None => None,
        Some((deg, e1)) => {
            if e1 < s.len() && s[e1] == '°' {
                let j = e1 + 1;
                let min_r: Option<(DecNum, int)> = match num_at(s, j) {
                    Some((m, e2)) => if e2 < s.len() && s[e2] == '\'' {
                        Some((m, e2 + 1))
                    } else {
                        None
                    },
                    None => None,
                };
                match min_r {
                    Some((m, k)) => match axis_after_min(s, k, north_south) {
                        Some((sec, pos, end)) => Some(
                            AxisNums { deg, min: Some(m), sec, positive: pos, end },
                        ),
                        None => None,
                    },
                    None => match axis_after_min(s, j, north_south) {
                        Some((sec, pos, end)) => Some(
                            AxisNums { deg, min: None, sec, positive: pos, end },
                        ),
                        None => None,
                    },
                }
            } else {
                None
            }
        },
    }
}

/// The whole degree/minute/second grammar: a north/south axis,
/// optional whitespace, an east/west axis, nothing after.
pub open spec fn dms_match(s: Seq<char>) -> Option<(AxisNums, AxisNums)> {
    match axis_match(s, 0, true) {
        Some(a1) => match axis_match(s, sre(s, a1.end), false) {
            Some(a2) => if a2.end == s.len() {
                Some((a1, a2))
            } else {
                None
            },
            None => None,
        },
        None => None,
    }
}

/// Spans of one matched axis.
#[derive(Clone, Copy)]
pub struct AxisSpan {
    pub deg: NumSpan,
    pub min: Option<NumSpan>,
    pub sec: Option<NumSpan>,
    pub positive: bool,
    pub end: usize,
}

/// The axis a span set denotes.
pub open spec fn span_axis(s: Seq<char>, a: AxisSpan) -> AxisNums {
    AxisNums {
        deg: span_num(s, a.deg),
        min: match a.min {
            Some(sp) => Some(span_num(s, sp)),
            None => None,
        },
        sec: match a.sec {
            Some(sp) => Some(span_num(s, sp)),
            None => None,
        },
        positive: a.positive,
        end: a.end as int,
    }
}

/// All spans of the axis are well-formed digit spans.
pub open spec fn axis_span_ok(s: Seq<char>, a: AxisSpan) -> bool {
    &&& span_ok(s, a.deg)
    &&& (a.min matches Some(sp) ==> span_ok(s, sp))
    &&& (a.sec matches Some(sp) ==> span_ok(s, sp))
}

/// Match one axis of the degree/minute/second grammar.
#[verifier::rlimit(50)]
pub fn match_axis(t: &Vec<char>, i: usize, north_south: bool) -> (r: Option<AxisSpan>)
    requires
        i <= t@.len(),
    ensures
        match r {
            Some(a) => axis_span_ok(t@, a) && a.end <= t@.len()
                && axis_match(t@, i as int, north_south) == Some(span_axis(t@, a)),
            None => axis_match(t@, i as int, north_south) is None,
        },
{
    let deg = match find_num(t, i) {
        Some(sp) => sp,
        None => {
            return None;
        },
    };
    if !(deg.end < t.len() && t[deg.end] == '°') {
        return None;
    }
    let j = deg.end + 1;
    let min_span: Option<NumSpan> = match find_num(t, j) {
        Some(m) => {
            if m.end < t.len() && t[m.end] == '\'' {
                Some(m)
            } else {
                None
            }
        },
        None => None,
    };
    let k: usize = match min_span {
        Some(m) => m.end + 1,
        None => j,
    };
    // seconds group, optional quote, then the compass letter
    let sec_found = find_num(t, k);
    let (sec_span, l): (Option<NumSpan>, usize) = match sec_found {
        Some(sc) => {
            if sc.end < t.len() && t[sc.end] == '"' {
                (Some(sc), sc.end + 1)
            } else {
                (Some(sc), sc.end)
            }
        },
        None => (None, k),
    };
    if !(l < t.len()) {
        return None;
    }
    let c = t[l];
    let letter_ok = if north_south {
        c == 'N' || c == 'n' || c == 'S' || c == 's'
    } else {
        c == 'E' || c == 'e' || c == 'W' || c == 'w'
    };
    if !letter_ok {
        return None;
    }
    let positive = c == 'N' || c == 'n' || c == 'E' || c == 'e';
    Some(AxisSpan { deg, min: min_span, sec: sec_span, positive, end: l + 1 })
}

/// Match the whole degree/minute/second grammar.
pub fn match_dms(t: &Vec<char>) -> (r: Option<(AxisSpan, AxisSpan)>)
    ensures
        match r {
            Some((a1, a2)) => axis_span_ok(t@, a1) && axis_span_ok(t@, a2)
                && dms_match(t@) == Some((span_axis(t@, a1), span_axis(t@, a2))),
            None => dms_match(t@) is None,
        },
{
    let a1 = match match_axis(t, 0, true) {
        Some(a) => a,
        None => {
            return None;
        },
    };
    let w = scan_spaces(t, a1.end);
    let a2 = match match_axis(t, w, false) {
        Some(a) => a,
        None => {
            return None;
        },
    };
    if a2.end == t.len() {
        Some((a1, a2))
    } else {
        None
    }
}

// ---------------------------------------------------------------------------
// Values
// ---------------------------------------------------------------------------

/// 10^15: the scale of a parsed decimal numeral's magnitude.
pub const DEC_SCALE: u128 = 1_000_000_000_000_000;

/// 3600 * 10^15: the scale of a coordinate value. One unit is
/// 1/(3600 * 10^15) of a degree, so decimal numerals of at most 15
/// fractional digits and minute/second fractions are both exact.
pub const UNIT_SCALE: u128 = 3_600_000_000_000_000_000;

/// Bound on coordinate units; parsed values stay well below it.
pub const MAX_UNITS: u128 = 10_000_000_000_000_000_000_000_000_000_000_000;

/// A numeral fits when its integer part is below 10^15 and it has at
/// most 15 fraction digits; anything larger is rejected as a numeric
/// conversion error.
pub open spec fn dec_fits(n: DecNum) -> bool {
    digits_val(n.ip) < pow10(15) && n.fp.len() <= 15
}

/// Magnitude of a numeral, scaled by 10^15.
pub open spec fn dec_scaled(n: DecNum) -> int {
    digits_val(n.ip) * pow10(15) + digits_val(n.fp) * pow10((15 - n.fp.len()) as nat)
}

/// A fitting numeral's scaled magnitude is below 10^30.
pub proof fn lemma_dec_scaled_bound(n: DecNum)
    requires
        dec_fits(n),
        all_digits(n.ip),
        all_digits(n.fp),
    ensures
        0 <= dec_scaled(n) < pow10(30),
        dec_scaled(n) < 1000000000000000000000000000000int,
{
    lemma_digits_val_bounds(n.ip);
    lemma_digits_val_bounds(n.fp);
    lemma_pow10_pos((15 - n.fp.len()) as nat);
    lemma_pow10_adds(15, 15);
    lemma_pow10_adds(n.fp.len(), (15 - n.fp.len()) as nat);
    assert(pow10(15) == 1000000000000000int) by {
        reveal_with_fuel(pow10, 16);
    }
    let ipv = digits_val(n.ip);
    let fpv = digits_val(n.fp);
    let q = pow10((15 - n.fp.len()) as nat);
    assert(ipv * pow10(15) <= (pow10(15) - 1) * pow10(15)) by (nonlinear_arith)
        requires
            0 <= ipv <= pow10(15) - 1,
            pow10(15) > 0,
    ;
    assert(fpv * q <= (pow10(n.fp.len()) - 1) * q) by (nonlinear_arith)
        requires
            0 <= fpv <= pow10(n.fp.len()) - 1,
            q > 0,
    ;
    assert((pow10(n.fp.len()) - 1) * q == pow10(n.fp.len()) * q - q) by (nonlinear_arith);
    assert(0 <= fpv * q) by (nonlinear_arith)
        requires
            0 <= fpv,
            q > 0,
    ;
    assert(0 <= ipv * pow10(15)) by (nonlinear_arith)
        requires
            0 <= ipv,
            pow10(15) > 0,
    ;
    assert((pow10(15) - 1) * pow10(15) == pow10(30) - pow10(15)) by (nonlinear_arith)
        requires
            pow10(30) == pow10(15) * pow10(15),
    ;
}

/// Scaled magnitude of a spanned numeral, or `None` when it does not fit.
pub fn span_value(t: &Vec<char>, sp: NumSpan) -> (r: Option<u128>)
    requires
        span_ok(t@, sp),
    ensures
        match r {
            Some(x) => dec_fits(span_num(t@, sp)) && x as int == dec_scaled(span_num(t@, sp))
                && x < 1000000000000000000000000000000u128,
            None => !dec_fits(span_num(t@, sp)),
        },
{
    proof {
        assert(pow10(15) == 1000000000000000int) by {
            reveal_with_fuel(pow10, 16);
        }
    }
    let ghost n = span_num(t@, sp);
    let ipv = match digits_value(t, sp.start, sp.dend) {
        Some(x) => x,
        None => {
            return None;
        },
    };
    if sp.end > sp.dend {
        let flen = sp.end - (sp.dend + 1);
        if flen > 15 {
            return None;
        }
        let fpv = match digits_value(t, sp.dend + 1, sp.end) {
            Some(x) => x,
            None => {
                proof {
                    assert(all_digits(n.fp));
                    lemma_digits_val_bounds(n.fp);
                    crate::digits::lemma_pow10_mono(n.fp.len(), 15);
                    assert(false);
                }
                return None;
            },
        };
        let scale = crate::digits::pow10_u128(15 - flen);
        proof {
            assert(all_digits(n.ip));
            assert(all_digits(n.fp));
            lemma_dec_scaled_bound(n);
            assert(n.fp.len() == flen);
            lemma_digits_val_bounds(n.fp);
            lemma_pow10_adds(n.fp.len(), (15 - n.fp.len()) as nat);
            lemma_pow10_pos((15 - flen) as nat);
            assert(fpv * scale <= (pow10(flen as nat) - 1) * pow10((15 - flen) as nat))
                by (nonlinear_arith)
                requires
                    0 <= fpv as int <= pow10(flen as nat) - 1,
                    scale as int == pow10((15 - flen) as nat),
                    scale > 0,
            ;
            assert((pow10(flen as nat) - 1) * pow10((15 - flen) as nat)
                == pow10(15) - pow10((15 - flen) as nat)) by (nonlinear_arith)
                requires
                    pow10(flen as nat) * pow10((15 - flen) as nat) == pow10(15),
            ;
            lemma_pow10_pos((15 - flen) as nat);
            assert(ipv * 1000000000000000 <= (1000000000000000int - 1) * 1000000000000000)
                by (nonlinear_arith)
                requires
                    0 <= ipv as int <= 1000000000000000int - 1,
            ;
        }
        Some(ipv * DEC_SCALE + fpv * scale)
    } else {
        proof {
            assert(n.fp =~= Seq::<char>::empty());
            assert(digits_val(n.fp) == 0);
            assert(ipv * 1000000000000000 <= (1000000000000000int - 1) * 1000000000000000)
                by (nonlinear_arith)
                requires
                    0 <= ipv as int <= 1000000000000000int - 1,
            ;
            assert(dec_scaled(n) == digits_val(n.ip) * pow10(15));
        }
        Some(ipv * DEC_SCALE)
    }
}

// ---------------------------------------------------------------------------
// Location values and errors
// ---------------------------------------------------------------------------

/// One coordinate axis value: `units / (3600 * 10^15)` degrees,
/// negated when `neg` is set. Zero is canonically non-negative.
#[derive(Clone, Copy, Debug, PartialEq, Eq, Structural)]
pub struct CoordValue {
    pub neg: bool,
    pub units: u128,
}

impl CoordValue {
    /// Bounded, and zero only with a positive sign.
    pub open spec fn wf(self) -> bool {
        self.units <= MAX_UNITS && (self.units == 0 ==> !self.neg)
    }

    /// The value as a signed count of units.
    pub open spec fn signed_units(self) -> int {
        if self.neg {
            -(self.units as int)
        } else {
            self.units as int
        }
    }
}

/// Possible errors when creating or resolving a location.
#[derive(Clone, Copy, Debug, PartialEq, Eq, Structural)]
pub enum LocationError {
    /// A pattern matched but a structurally required part was absent.
    Malformed,
    /// A captured numeral cannot be held as an exact coordinate value.
    ParseFloatError,
    /// The geocoding request failed at the transport layer.
    ReqwestError,
    /// The geocoding service knows no coordinates for the name.
    Unresolveable,
}

/// A coordinate location, latitude and longitude.
#[derive(Clone, Copy, Debug, PartialEq, Eq, Structural)]
pub struct CoordinateLocation {
    /// Longitude.
    pub long: CoordValue,
    /// Latitude.
    pub lat: CoordValue,
}

impl CoordinateLocation {
    pub open spec fn wf(self) -> bool {
        self.lat.wf() && self.long.wf()
    }
}

/// A place, either as coordinates or as a name still to be resolved.
#[derive(Clone, Debug)]
pub enum Location {
    /// An explicit coordinate pair.
    Coordinates(CoordinateLocation),
    /// Anything else, kept verbatim for a later geocoding lookup.
    Named(String),
}

/// The coordinate value a matched decimal numeral denotes.
pub open spec fn coord_of_dec(n: DecNum) -> CoordValue {
    let u = dec_scaled(n) * 3600;
    CoordValue { neg: n.neg && u != 0, units: u as u128 }
}

/// Scaled magnitude of an optional numeral (0 when absent).
pub open spec fn opt_scaled(o: Option<DecNum>) -> int {
    match o {
        Some(n) => dec_scaled(n),
        None => 0,
    }
}

pub open spec fn opt_fits(o: Option<DecNum>) -> bool {
    match o {
        Some(n) => dec_fits(n),
        None => true,
    }
}

/// Units of one degree/minute/second axis:
/// degrees + minutes/60 + seconds/3600, all scaled exactly.
pub open spec fn axis_units(a: AxisNums) -> int {
    dec_scaled(a.deg) * 3600 + opt_scaled(a.min) * 60 + opt_scaled(a.sec)
}

pub open spec fn axis_fits(a: AxisNums) -> bool {
    dec_fits(a.deg) && opt_fits(a.min) && opt_fits(a.sec)
}

/// The coordinate value a matched axis denotes.
pub open spec fn coord_of_axis(a: AxisNums) -> CoordValue {
    let u = axis_units(a);
    CoordValue { neg: !a.positive && u != 0, units: u as u128 }
}

/// Units of a spanned axis, or `None` when some numeral does not fit.
fn axis_value(t: &Vec<char>, a: AxisSpan) -> (r: Option<u128>)
    requires
        axis_span_ok(t@, a),
    ensures
        match r {
            Some(x) => axis_fits(span_axis(t@, a)) && x as int == axis_units(span_axis(t@, a))
                && x <= 3661000000000000000000000000000000u128,
            None => !axis_fits(span_axis(t@, a)),
        },
{
    let d = match span_value(t, a.deg) {
        Some(x) => x,
        None => {
            return None;
        },
    };
    let m: u128 = match a.min {
        Some(sp) => match span_value(t, sp) {
            Some(x) => x,
            None => {
                return None;
            },
        },
        None => 0,
    };
    let sc: u128 = match a.sec {
        Some(sp) => match span_value(t, sp) {
            Some(x) => x,
            None => {
                return None;
            },
        },
        None => 0,
    };
    Some(d * 3600 + m * 60 + sc)
}

/// Build the coordinate value for a sign and a unit magnitude.
fn signed_coord(neg: bool, units: u128) -> (r: CoordValue)
    requires
        units <= MAX_UNITS,
    ensures
        r == (CoordValue { neg: neg && units != 0, units }),
        r.wf(),
{
    CoordValue { neg: neg && units != 0, units }
}

/// What parsing a location string must return: the decimal-pair
/// grammar decides first; otherwise the degree/minute/second grammar;
/// otherwise the original string is kept as a name. A matched numeral
/// that cannot be held exactly is a `ParseFloatError`.
pub open spec fn parse_result_spec(s: Seq<char>, r: Result<Location, LocationError>) -> bool {
    let t = trimmed(s);
    match dec_pair_match(t) {
        Some((a, b)) => if dec_fits(a) && dec_fits(b) {
            r == Ok::<Location, LocationError>(
                Location::Coordinates(
                    CoordinateLocation { lat: coord_of_dec(a), long: coord_of_dec(b) },
                ),
            )
        } else {
            r == Err::<Location, LocationError>(LocationError::ParseFloatError)
        },
        None => match dms_match(t) {
            Some((a, b)) => if axis_fits(a) && axis_fits(b) {
                r == Ok::<Location, LocationError>(
                    Location::Coordinates(
                        CoordinateLocation { lat: coord_of_axis(a), long: coord_of_axis(b) },
                    ),
                )
            } else {
                r == Err::<Location, LocationError>(LocationError::ParseFloatError)
            },
            None => match r {
                Ok(Location::Named(n)) => n@ == s,
                _ => false,
            },
        },
    }
}

impl Location {
    /// Parse a location string.
    ///
    /// The decimal-pair grammar is tried first, then the
    /// degree/minute/second grammar; a string matching neither becomes
    /// a `Named` location holding the original string unchanged.
    /// A matched numeral that cannot be held exactly (integer part at
    /// least 10^15, or more than 15 fraction digits) is a
    /// `ParseFloatError`.
    pub fn from_str(raw_loc: &str) -> (r: Result<Location, LocationError>)
        ensures
            parse_result_spec(raw_loc@, r),
            r matches Ok(Location::Coordinates(c)) ==> c.wf(),
            r is Err ==> r == Err::<Location, LocationError>(LocationError::ParseFloatError),
    {
        let v = chars_of(raw_loc);
        let t = trim_chars(&v);
        if let Some((neg1, sp1, neg2, sp2)) = match_dec_pair(&t) {
            let x = span_value(&t, sp1);
            let y = span_value(&t, sp2);
            match (x, y) {
                (Some(x), Some(y)) => {
                    let lat = signed_coord(neg1, x * 3600);
                    let long = signed_coord(neg2, y * 3600);
                    Ok(Location::Coordinates(CoordinateLocation { lat, long }))
                },
                _ => Err(LocationError::ParseFloatError),
            }
        } else if let Some((ax1, ax2)) = match_dms(&t) {
            let x = axis_value(&t, ax1);
            let y = axis_value(&t, ax2);
            match (x, y) {
                (Some(x), Some(y)) => {
                    let lat = signed_coord(!ax1.positive, x);
                    let long = signed_coord(!ax2.positive, y);
                    Ok(Location::Coordinates(CoordinateLocation { lat, long }))
                },
                _ => Err(LocationError::ParseFloatError),
            }
        } else {
            Ok(Location::Named(raw_loc.to_owned()))
        }
    }
}

// ---------------------------------------------------------------------------
// Compass directions and the sexagesimal converter
// ---------------------------------------------------------------------------

/// Possible compass directions.
#[derive(Clone, Copy, Debug, PartialEq, Eq, Structural)]
pub enum CompassDirection {
    North,
    East,
    South,
    West,
}

/// Code point with lower-case ASCII letters folded to upper case.
pub open spec fn upnorm(c: char) -> u32 {
    if 97 <= c as u32 && c as u32 <= 122 {
        (c as u32 - 32) as u32
    } else {
        c as u32
    }
}

/// Case-insensitive comparison with a fixed word.
pub open spec fn token_matches(s: Seq<char>, w: Seq<char>) -> bool {
    s.len() == w.len() && forall|i: int| 0 <= i < s.len() ==> upnorm(#[trigger] s[i]) == upnorm(w[i])
}

/// The direction a compass token denotes: the single letters and full
/// words N/NORTH, E/EAST, S/SOUTH, W/WEST, in either case.
pub open spec fn compass_of(s: Seq<char>) -> Option<CompassDirection> {
    if token_matches(s, seq!['N']) || token_matches(s, seq!['N', 'O', 'R', 'T', 'H']) {
        Some(CompassDirection::North)
    } else if token_matches(s, seq!['E']) || token_matches(s, seq!['E', 'A', 'S', 'T']) {
        Some(CompassDirection::East)
    } else if token_matches(s, seq!['S']) || token_matches(s, seq!['S', 'O', 'U', 'T', 'H']) {
        Some(CompassDirection::South)
    } else if token_matches(s, seq!['W']) || token_matches(s, seq!['W', 'E', 'S', 'T']) {
        Some(CompassDirection::West)
    } else {
        None
    }
}

/// Executable case folding.
fn upnorm_exec(c: char) -> (r: u32)
    ensures
        r == upnorm(c),
{
    let u = c as u32;
    if 97 <= u && u <= 122 {
        u - 32
    } else {
        u
    }
}

/// Does the token spell the given word, ignoring case?
fn word_eq(v: &Vec<char>, w: &Vec<char>) -> (r: bool)
    ensures
        r == token_matches(v@, w@),
{
    if v.len() != w.len() {
        return false;
    }
    let mut i: usize = 0;
    while i < v.len()
        invariant
            i <= v@.len(),
            v@.len() == w@.len(),
            forall|k: int| 0 <= k < i ==> upnorm(#[trigger] v@[k]) == upnorm(w@[k]),
        decreases v@.len() - i,
    {
        if upnorm_exec(v[i]) != upnorm_exec(w[i]) {
            return false;
        }
        i += 1;
    }
    true
}

impl CompassDirection {
    /// Read a compass token. Unlike a plain mapping, an unknown token is
    /// a reported `Malformed` error, not an unreachable program state.
    pub fn from_token(dir: &str) -> (r: Result<CompassDirection, LocationError>)
        ensures
            match compass_of(dir@) {
                Some(d) => r == Ok::<CompassDirection, LocationError>(d),
                None => r == Err::<CompassDirection, LocationError>(LocationError::Malformed),
            },
    {
        let v = chars_of(dir);
        let single_n: Vec<char> = vec!['N'];
        let word_north: Vec<char> = vec!['N', 'O', 'R', 'T', 'H'];
        let single_e: Vec<char> = vec!['E'];
        let word_east: Vec<char> = vec!['E', 'A', 'S', 'T'];
        let single_s: Vec<char> = vec!['S'];
        let word_south: Vec<char> = vec!['S', 'O', 'U', 'T', 'H'];
        let single_w: Vec<char> = vec!['W'];
        let word_west: Vec<char> = vec!['W', 'E', 'S', 'T'];
        if word_eq(&v, &single_n) || word_eq(&v, &word_north) {
            Ok(CompassDirection::North)
        } else if word_eq(&v, &single_e) || word_eq(&v, &word_east) {
            Ok(CompassDirection::East)
        } else if word_eq(&v, &single_s) || word_eq(&v, &word_south) {
            Ok(CompassDirection::South)
        } else if word_eq(&v, &single_w) || word_eq(&v, &word_west) {
            Ok(CompassDirection::West)
        } else {
            Err(LocationError::Malformed)
        }
    }

    /// North and East keep a coordinate positive; South and West negate it.
    pub fn sign_positive(&self) -> (r: bool)
        ensures
            r == (*self == CompassDirection::North || *self == CompassDirection::East),
    {
        match self {
            CompassDirection::North | CompassDirection::East => true,
            CompassDirection::South | CompassDirection::West => false,
        }
    }
}

/// An unsigned decimal magnitude, scaled by 10^15.
#[derive(Clone, Copy, Debug, PartialEq, Eq, Structural)]
pub struct UDecimal {
    pub units: u128,
}

impl UDecimal {
    /// Below 10^15 whole units, the range every parsed numeral stays in.
    pub open spec fn wf(self) -> bool {
        self.units < 1000000000000000000000000000000u128
    }

    /// The magnitude of a whole number.
    pub fn from_int(n: u64) -> (r: UDecimal)
        requires
            n < 1000000000000000u64,
        ensures
            r.units == n as u128 * DEC_SCALE,
            r.wf(),
    {
        let units = (n as u128) * DEC_SCALE;
        proof {
            assert((n as u128) * DEC_SCALE < 1000000000000000000000000000000u128)
                by (nonlinear_arith)
                requires
                    n < 1000000000000000u64,
                    DEC_SCALE == 1000000000000000u128,
            ;
        }
        UDecimal { units }
    }
}

pub open spec fn opt_units(o: Option<UDecimal>) -> int {
    match o {
        Some(u) => u.units as int,
        None => 0,
    }
}

pub open spec fn opt_udec_wf(o: Option<UDecimal>) -> bool {
    match o {
        Some(u) => u.wf(),
        None => true,
    }
}

/// Convert a sexagesimal coordinate to a decimal one:
/// degrees + minutes/60 + seconds/3600, exactly. Missing minutes or
/// seconds contribute zero; the sign is applied afterwards by the
/// compass direction, never here.
pub fn sexagesimal_to_decimal(
    degree: UDecimal,
    minutes: Option<UDecimal>,
    seconds: Option<UDecimal>,
) -> (r: CoordValue)
    requires
        degree.wf(),
        opt_udec_wf(minutes),
        opt_udec_wf(seconds),
    ensures
        r.units as int == degree.units * 3600 + opt_units(minutes) * 60 + opt_units(seconds),
        !r.neg,
        r.wf(),
{
    let m: u128 = match minutes {
        Some(u) => u.units,
        None => 0,
    };
    let s: u128 = match seconds {
        Some(u) => u.units,
        None => 0,
    };
    CoordValue { neg: false, units: degree.units * 3600 + m * 60 + s }
}

// ---------------------------------------------------------------------------
// Resolution
// ---------------------------------------------------------------------------

/// One entry of a geocoding search response: latitude and longitude,
/// as the service sends them — strings, not numbers.
#[derive(Clone, Debug)]
pub struct OSMLocation {
    /// Latitude.
    pub lat: String,
    /// Longitude.
    pub lon: String,
}

impl CoordValue {
    /// Read a plain signed decimal numeral (the whole string, no
    /// surrounding whitespace) as a coordinate value.
    pub fn parse_decimal(s: &str) -> (r: Result<CoordValue, LocationError>)
        ensures
            match signed_dec_to_end(s@, 0) {
                Some(n) => if dec_fits(n) {
                    r == Ok::<CoordValue, LocationError>(coord_of_dec(n))
                } else {
                    r == Err::<CoordValue, LocationError>(LocationError::ParseFloatError)
                },
                None => r == Err::<CoordValue, LocationError>(LocationError::ParseFloatError),
            },
            r matches Ok(v) ==> v.wf(),
    {
        let t = chars_of(s);
        match find_signed_to_end(&t, 0) {
            Some((neg, sp)) => match span_value(&t, sp) {
                Some(x) => Ok(signed_coord(neg, x * 3600)),
                None => Err(LocationError::ParseFloatError),
            },
            None => Err(LocationError::ParseFloatError),
        }
    }
}

/// What resolving the first search result must yield: both numerals
/// read as plain signed decimals, or a numeric conversion error.
pub open spec fn resolve_first_spec(o: OSMLocation) -> Result<CoordinateLocation, LocationError> {
    match signed_dec_to_end(o.lat@, 0) {
        Some(a) => if !dec_fits(a) {
            Err(LocationError::ParseFloatError)
        } else {
            match signed_dec_to_end(o.lon@, 0) {
                Some(b) => if dec_fits(b) {
                    Ok(CoordinateLocation { lat: coord_of_dec(a), long: coord_of_dec(b) })
                } else {
                    Err(LocationError::ParseFloatError)
                },
                None => Err(LocationError::ParseFloatError),
            }
        },
        None => Err(LocationError::ParseFloatError),
    }
}

impl Location {
    /// The name that a geocoding lookup must resolve, if any.
    /// A location that is already a coordinate needs no lookup — and
    /// so no network traffic at all.
    pub fn lookup_name(&self) -> (r: Option<&String>)
        ensures
            match self {
                Location::Coordinates(_) => r is None,
                Location::Named(n) => r matches Some(m) && m@ == n@,
            },
    {
        match self {
            Location::Coordinates(_) => None,
            Location::Named(n) => Some(n),
        }
    }

    /// Resolve this location given the geocoding search results for its
    /// name. A coordinate location resolves to itself and ignores the
    /// results; a named location takes the first result only, an empty
    /// result list being `Unresolveable`.
    pub fn resolve_from_search(&self, results: &Vec<OSMLocation>) -> (r: Result<
        CoordinateLocation,
        LocationError,
    >)
        ensures
            self matches Location::Coordinates(c) ==> r == Ok::<
                CoordinateLocation,
                LocationError,
            >(*c),
            self is Named && results@.len() == 0 ==> r == Err::<
                CoordinateLocation,
                LocationError,
            >(LocationError::Unresolveable),
            self is Named && results@.len() > 0 ==> r == resolve_first_spec(results@[0]),
    {
        match self {
            Location::Coordinates(c) => Ok(*c),
            Location::Named(_) => {
                if results.len() == 0 {
                    Err(LocationError::Unresolveable)
                } else {
                    let first = &results[0];
                    match CoordValue::parse_decimal(first.lat.as_str()) {
                        Ok(lat) => match CoordValue::parse_decimal(first.lon.as_str()) {
                            Ok(long) => Ok(CoordinateLocation { lat, long }),
                            Err(e) => Err(e),
                        },
                        Err(e) => Err(e),
                    }
                }
            },
        }
    }
}

// ---------------------------------------------------------------------------
// Rendering
// ---------------------------------------------------------------------------

/// `s` left-padded with '0' to length `n`.
pub open spec fn zero_pad(s: Seq<char>, n: nat) -> Seq<char>
    decreases n - s.len() when s.len() <= n
{
    if s.len() >= n {
        s
    } else {
        zero_pad(seq!['0'] + s, n)
    }
}

/// `s` with every trailing '0' removed.
pub open spec fn strip_zeros(s: Seq<char>) -> Seq<char>
    decreases s.len(),
{
    if s.len() > 0 && s.last() == '0' {
        strip_zeros(s.drop_last())
    } else {
        s
    }
}

/// The canonical decimal rendering of a coordinate value of the given
/// sign and unit count: sign, whole degrees, then the first 18
/// fraction digits with trailing zeros removed. 18 digits suffice for
/// every exactly-representable decimal (at most 15 digits) and give
/// minute/second fractions three guard digits.
pub open spec fn render_units_spec(neg: bool, units: int) -> Seq<char> {
    let scale = UNIT_SCALE as int;
    let ip = dec_digits_of(units / scale);
    let f18 = ((units % scale) * pow10(18)) / scale;
    let fr = strip_zeros(zero_pad(dec_digits_of(f18), 18));
    (if neg {
        seq!['-']
    } else {
        Seq::<char>::empty()
    }) + ip + (if fr.len() > 0 {
        seq!['.'] + fr
    } else {
        Seq::<char>::empty()
    })
}

/// Render the value as characters.
pub fn render_units(neg: bool, units: u128) -> (r: Vec<char>)
    requires
        units <= MAX_UNITS,
    ensures
        r@ == render_units_spec(neg, units as int),
{
    proof {
        assert(pow10(18) == 1000000000000000000int) by {
            reveal_with_fuel(pow10, 19);
        }
    }
    let ip = crate::digits::u128_to_digits(units / UNIT_SCALE);
    let rem = units % UNIT_SCALE;
    let f18 = rem * 1_000_000_000_000_000_000u128 / UNIT_SCALE;
    let mut fr = crate::digits::u128_to_digits(f18);
    proof {
        assert(f18 as int == ((units as int % (UNIT_SCALE as int)) * pow10(18)) / (
        UNIT_SCALE as int));
        crate::digits::lemma_dec_digits_props(f18 as int);
        assert(fr@.len() <= 18) by {
            if fr@.len() > 18 {
                crate::digits::lemma_digits_val_lower(fr@);
                crate::digits::lemma_pow10_mono(18, (fr@.len() - 1) as nat);
                assert(f18 < 1000000000000000000u128);
            }
        }
    }
    while fr.len() < 18
        invariant
            fr@.len() <= 18,
            zero_pad(fr@, 18) == zero_pad(crate::digits::dec_digits_of(f18 as int), 18),
        decreases 18 - fr.len(),
    {
        let ghost before_pad = fr@;
        fr.insert(0, '0');
        proof {
            assert(fr@ =~= seq!['0'] + before_pad);
            assert(zero_pad(before_pad, 18) == zero_pad(seq!['0'] + before_pad, 18));
        }
    }
    proof {
        assert(zero_pad(fr@, 18) == fr@);
    }
    while fr.len() > 0 && fr[fr.len() - 1] == '0'
        invariant
            crate::digits::dec_digits_of(f18 as int).len() <= 18,
            strip_zeros(fr@) == strip_zeros(zero_pad(crate::digits::dec_digits_of(f18 as int), 18)),
        decreases fr.len(),
    {
        let ghost before = fr@;
        fr.pop();
        proof {
            assert(fr@ =~= before.drop_last());
        }
    }
    proof {
        assert(strip_zeros(fr@) == fr@);
    }
    let mut out: Vec<char> = Vec::new();
    if neg {
        out.push('-');
    }
    let mut i: usize = 0;
    while i < ip.len()
        invariant
            i <= ip@.len(),
            out@ == (if neg {
                seq!['-']
            } else {
                Seq::<char>::empty()
            }) + ip@.subrange(0, i as int),
        decreases ip@.len() - i,
    {
        out.push(ip[i]);
        proof {
            assert(ip@.subrange(0, i + 1) =~= ip@.subrange(0, i as int).push(ip@[i as int]));
        }
        i += 1;
    }
    proof {
        assert(ip@.subrange(0, ip@.len() as int) =~= ip@);
    }
    if fr.len() > 0 {
        out.push('.');
        let mut k: usize = 0;
        while k < fr.len()
            invariant
                k <= fr@.len(),
                out@ == (if neg {
                    seq!['-']
                } else {
                    Seq::<char>::empty()
                }) + ip@ + seq!['.'] + fr@.subrange(0, k as int),
            decreases fr@.len() - k,
        {
            out.push(fr[k]);
            proof {
                assert(fr@.subrange(0, k + 1) =~= fr@.subrange(0, k as int).push(fr@[k as int]));
            }
            k += 1;
        }
        proof {
            assert(fr@.subrange(0, fr@.len() as int) =~= fr@);
            assert(out@ =~= render_units_spec(neg, units as int));
        }
    } else {
        proof {
            assert(out@ =~= render_units_spec(neg, units as int));
        }
    }
    out
}

/// A static string holding exactly the given rendering character.
fn char_str(c: char) -> (r: &'static str)
    requires
        is_digit_char(c) || c == '-' || c == '.' || c == ',',
    ensures
        r@ == seq![c],
{
    if c == '-' {
        proof {
            reveal_strlit("-");
            assert("-"@ =~= seq![c]);
        }
        "-"
    } else if c == '.' {
        proof {
            reveal_strlit(".");
            assert("."@ =~= seq![c]);
        }
        "."
    } else if c == ',' {
        proof {
            reveal_strlit(",");
            assert(","@ =~= seq![c]);
        }
        ","
    } else if c == '0' {
        proof {
            reveal_strlit("0");
            assert("0"@ =~= seq![c]);
        }
        "0"
    } else if c == '1' {
        proof {
            reveal_strlit("1");
            assert("1"@ =~= seq![c]);
        }
        "1"
    } else if c == '2' {
        proof {
            reveal_strlit("2");
            assert("2"@ =~= seq![c]);
        }
        "2"
    } else if c == '3' {
        proof {
            reveal_strlit("3");
            assert("3"@ =~= seq![c]);
        }
        "3"
    } else if c == '4' {
        proof {
            reveal_strlit("4");
            assert("4"@ =~= seq![c]);
        }
        "4"
    } else if c == '5' {
        proof {
            reveal_strlit("5");
            assert("5"@ =~= seq![c]);
        }
        "5"
    } else if c == '6' {
        proof {
            reveal_strlit("6");
            assert("6"@ =~= seq![c]);
        }
        "6"
    } else if c == '7' {
        proof {
            reveal_strlit("7");
            assert("7"@ =~= seq![c]);
        }
        "7"
    } else if c == '8' {
        proof {
            reveal_strlit("8");
            assert("8"@ =~= seq![c]);
        }
        "8"
    } else {
        proof {
            assert(c as u32 == 57);
            crate::digits::lemma_char_eq(c, '9');
            reveal_strlit("9");
            assert("9"@ =~= seq![c]);
        }
        "9"
    }
}

/// Build a string from rendering characters.
fn string_of_chars(v: &Vec<char>) -> (r: String)
    requires
        forall|i: int|
            0 <= i < v@.len() ==> is_digit_char(#[trigger] v@[i]) || v@[i] == '-' || v@[i] == '.'
                || v@[i] == ',',
    ensures
        r@ == v@,
{
    let mut s = String::new();
    let mut i: usize = 0;
    while i < v.len()
        invariant
            i <= v@.len(),
            s@ == v@.subrange(0, i as int),
            forall|k: int|
                0 <= k < v@.len() ==> is_digit_char(#[trigger] v@[k]) || v@[k] == '-' || v@[k]
                    == '.' || v@[k] == ',',
        decreases v@.len() - i,
    {
        let piece = char_str(v[i]);
        s.append(piece);
        proof {
            assert(v@.subrange(0, i + 1) =~= v@.subrange(0, i as int) + seq![v@[i as int]]);
        }
        i += 1;
    }
    proof {
        assert(v@.subrange(0, v@.len() as int) =~= v@);
    }
    s
}

/// The characters of a rendering are rendering characters.
pub proof fn lemma_render_chars(neg: bool, units: int)
    requires
        units >= 0,
    ensures
        forall|i: int|
            0 <= i < render_units_spec(neg, units).len() ==> is_digit_char(
                #[trigger] render_units_spec(neg, units)[i],
            ) || render_units_spec(neg, units)[i] == '-' || render_units_spec(neg, units)[i]
                == '.',
{
    let scale = UNIT_SCALE as int;
    let ip = dec_digits_of(units / scale);
    let f18 = ((units % scale) * pow10(18)) / scale;
    let padded = zero_pad(dec_digits_of(f18), 18);
    let fr = strip_zeros(padded);
    crate::digits::lemma_dec_digits_props(units / scale);
    lemma_pow10_pos(18);
    assert(f18 >= 0) by {
        assert((units % scale) * pow10(18) >= 0) by (nonlinear_arith)
            requires
                units % scale >= 0,
                pow10(18) > 0,
        ;
    }
    assert(f18 < pow10(18)) by {
        assert(((units % scale) * pow10(18)) / scale < pow10(18)) by (nonlinear_arith)
            requires
                0 <= units % scale < scale,
                scale > 0,
                pow10(18) > 0,
        ;
    }
    crate::digits::lemma_dec_digits_props(f18);
    assert(dec_digits_of(f18).len() <= 18) by {
        if dec_digits_of(f18).len() > 18 {
            crate::digits::lemma_digits_val_lower(dec_digits_of(f18));
            crate::digits::lemma_pow10_mono(18, (dec_digits_of(f18).len() - 1) as nat);
        }
    }
    lemma_zero_pad_digits(dec_digits_of(f18), 18);
    lemma_strip_zeros_facts(padded);
    assert(forall|i: int| 0 <= i < fr.len() ==> is_digit_char(#[trigger] fr[i])) by {
        assert(all_digits(padded));
        assert(forall|i: int| 0 <= i < fr.len() ==> fr[i] == padded[i]);
    }
}

/// Padding keeps every character a digit and the value unchanged.
pub proof fn lemma_zero_pad_digits(s: Seq<char>, n: nat)
    requires
        all_digits(s),
        s.len() <= n,
    ensures
        all_digits(zero_pad(s, n)),
        zero_pad(s, n).len() == n,
        digits_val(zero_pad(s, n)) == digits_val(s),
    decreases n - s.len(),
{
    if s.len() < n {
        let s2 = seq!['0'] + s;
        assert(all_digits(s2)) by {
            assert(forall|i: int| 0 <= i < s2.len() ==> is_digit_char(#[trigger] s2[i])) by {
                assert(s2[0] == '0');
                assert(forall|i: int| 1 <= i < s2.len() ==> s2[i] == s[i - 1]);
            }
        }
        crate::digits::lemma_digits_val_append(seq!['0'], s);
        assert(digits_val(seq!['0']) == 0) by {
            let z = seq!['0'];
            assert(z.drop_last() =~= Seq::<char>::empty());
            assert(digits_val(Seq::<char>::empty()) == 0);
            assert(z.last() == '0');
            assert(digits_val(z) == digits_val(z.drop_last()) * 10 + crate::digits::digit_val(z.last()));
        }
        lemma_zero_pad_digits(s2, n);
    }
}

/// Stripping removes only zeros: the prefix is unchanged, the value is
/// divided by 10 per removed digit, and nothing strippable remains.
pub proof fn lemma_strip_zeros_facts(s: Seq<char>)
    requires
        all_digits(s),
    ensures
        strip_zeros(s).len() <= s.len(),
        strip_zeros(s) == s.subrange(0, strip_zeros(s).len() as int),
        forall|i: int| 0 <= i < strip_zeros(s).len() ==> strip_zeros(s)[i] == s[i],
        all_digits(strip_zeros(s)),
        strip_zeros(s).len() > 0 ==> strip_zeros(s).last() != '0',
        digits_val(s) == digits_val(strip_zeros(s)) * pow10((s.len() - strip_zeros(s).len()) as nat),
    decreases s.len(),
{
    if s.len() > 0 && s.last() == '0' {
        assert(all_digits(s.drop_last())) by {
            assert(forall|i: int|
                0 <= i < s.len() - 1 ==> is_digit_char(#[trigger] s.drop_last()[i]));
        }
        lemma_strip_zeros_facts(s.drop_last());
        let st = strip_zeros(s);
        assert(st == strip_zeros(s.drop_last()));
        assert(s.drop_last().subrange(0, st.len() as int) =~= s.subrange(0, st.len() as int));
        assert(crate::digits::digit_val(s.last()) == 0);
        assert(digits_val(s) == digits_val(s.drop_last()) * 10 + crate::digits::digit_val(s.last()));
        assert(digits_val(s) == digits_val(s.drop_last()) * 10);
        let k = (s.len() - 1 - st.len()) as nat;
        assert(digits_val(s.drop_last()) == digits_val(st) * pow10(k));
        assert(pow10(k + 1) == pow10(k) * 10) by {
            lemma_pow10_adds(k, 1);
            assert(pow10(1nat) == 10) by {
                reveal_with_fuel(pow10, 3);
            }
        }
        assert((digits_val(st) * pow10(k)) * 10 == digits_val(st) * (pow10(k) * 10))
            by (nonlinear_arith);
        assert(digits_val(s) == digits_val(st) * pow10(k + 1));
        assert((s.len() - strip_zeros(s).len()) as nat == k + 1);
    } else {
        assert(strip_zeros(s) == s);
        assert(s.subrange(0, s.len() as int) =~= s);
        assert(pow10(0nat) == 1);
        assert((s.len() - strip_zeros(s).len()) as nat == 0);
        assert(digits_val(s) * 1 == digits_val(s));
    }
}

impl CoordinateLocation {
    /// The textual form `"<latitude>,<longitude>"`.
    pub fn display_string(&self) -> (r: String)
        requires
            self.wf(),
        ensures
            r@ == render_units_spec(self.lat.neg, self.lat.units as int) + seq![',']
                + render_units_spec(self.long.neg, self.long.units as int),
    {
        let mut chars = render_units(self.lat.neg, self.lat.units);
        chars.push(',');
        let tail = render_units(self.long.neg, self.long.units);
        let mut k: usize = 0;
        let ghost head = chars@;
        while k < tail.len()
            invariant
                k <= tail@.len(),
                chars@ == head + tail@.subrange(0, k as int),
            decreases tail@.len() - k,
        {
            chars.push(tail[k]);
            proof {
                assert(tail@.subrange(0, k + 1) =~= tail@.subrange(0, k as int).push(
                    tail@[k as int],
                ));
            }
            k += 1;
        }
        proof {
            assert(tail@.subrange(0, tail@.len() as int) =~= tail@);
            lemma_render_chars(self.lat.neg, self.lat.units as int);
            lemma_render_chars(self.long.neg, self.long.units as int);
            assert(chars@ =~= render_units_spec(self.lat.neg, self.lat.units as int) + seq![',']
                + render_units_spec(self.long.neg, self.long.units as int));
        }
        string_of_chars(&chars)
    }
}

impl Location {
    /// Valid coordinate values, when the location holds any.
    pub open spec fn wf(self) -> bool {
        match self {
            Location::Coordinates(c) => c.wf(),
            Location::Named(_) => true,
        }
    }

    /// The textual form: a name verbatim, a coordinate pair as
    /// `"<latitude>,<longitude>"`.
    pub fn display_string(&self) -> (r: String)
        requires
            self.wf(),
        ensures
            self matches Location::Named(n) ==> r@ == n@,
            self matches Location::Coordinates(c) ==> r@ == render_units_spec(
                c.lat.neg,
                c.lat.units as int,
            ) + seq![','] + render_units_spec(c.long.neg, c.long.units as int),
    {
        match self {
            Location::Named(n) => n.clone(),
            Location::Coordinates(c) => c.display_string(),
        }
    }
}

// ---------------------------------------------------------------------------
// Laws: composition of renderings and parses
// ---------------------------------------------------------------------------

/// Matching a signed numeral against the end of the input only looks
/// at the suffix.
pub proof fn lemma_signed_dec_shift(s: Seq<char>, i: int)
    requires
        0 <= i <= s.len(),
    ensures
        signed_dec_to_end(s, i) == signed_dec_to_end(s.subrange(i, s.len() as int), 0),
{
    let b = s.subrange(i, s.len() as int);
    assert(forall|k: int| 0 <= k < b.len() ==> b[k] == s[i + k]);
    let has_sign = i < s.len() && is_sign_char(s[i]);
    let i0: int = if has_sign {
        i + 1
    } else {
        i
    };
    let j0: int = i0 - i;
    lemma_dre_props(s, i0);
    let d = dre(s, i0);
    assert(dre(b, j0) == d - i) by {
        lemma_dre_props(s, i0);
        lemma_dre_unique(b, j0, d - i);
    }
    if d == i0 {
    } else {
        assert(s.subrange(i0, d) =~= b.subrange(j0, d - i));
        if d + 1 < s.len() && s[d] == '.' && is_digit_char(s[d + 1]) {
            let f = dre(s, d + 1);
            lemma_dre_props(s, d + 1);
            assert(dre(b, d - i + 1) == f - i) by {
                lemma_dre_unique(b, d - i + 1, f - i);
            }
            assert(s.subrange(d + 1, f) =~= b.subrange(d - i + 1, f - i));
            assert(frac_end(b, d - i) == Some(f - i));
            if f == s.len() {
                assert(f - i == b.len());
            }
        } else {
            assert(frac_end(b, d - i) is None);
        }
    }
}

/// The decimal-pair grammar matches the concatenation of a signed
/// numeral, a separator with optional surrounding whitespace, and a
/// second signed numeral — and captures exactly those numerals.
///
/// When the separator is a period, the greedy fractional part of the
/// first numeral can steal the separator; the last premise keeps such
/// inputs (an integer first numeral with a fractional second one, as
/// in `"52.5.3"`) out.
#[verifier::rlimit(80)]
pub proof fn lemma_dec_pair_compose(s: Seq<char>, mid: int, b0: int, a: DecNum, b: DecNum)
    requires
        0 < mid < s.len(),
        mid < b0 <= s.len(),
        is_sep_char(s[mid]),
        forall|k: int| mid < k < b0 ==> is_space_char(#[trigger] s[k]),
        signed_dec_to_end(s.subrange(0, mid), 0) == Some(a),
        signed_dec_to_end(s, b0) == Some(b),
        s[mid] == '.' ==> a.fp.len() > 0 || b.fp.len() == 0,
    ensures
        dec_pair_match(s) == Some((a, b)),
{
    let aa = s.subrange(0, mid);
    assert(forall|k: int| 0 <= k < mid ==> aa[k] == s[k]);
    let has_sign = is_sign_char(s[0]);
    let i0: int = if has_sign {
        1
    } else {
        0
    };
    // structure of the first numeral inside `aa`
    lemma_dre_props(aa, i0);
    let da = dre(aa, i0);
    assert(num_at(aa, i0) is Some);
    assert(da > i0);
    // the digit run is the same in `s`: the separator is no digit
    assert(!is_digit_char(s[mid]));
    lemma_dre_props(s, i0);
    assert(dre(s, i0) == da) by {
        lemma_dre_unique(s, i0, da);
    }
    // b0 starts the second numeral, which is nonempty, so b0 < s.len()
    assert(b0 < s.len()) by {
        if b0 == s.len() {
            assert(dre(s, b0) == b0);
        }
    }
    // the character at b0 is a sign or a digit, never whitespace
    assert(!is_space_char(s[b0])) by {
        if !(b0 < s.len() && is_sign_char(s[b0])) {
            lemma_dre_props(s, b0);
            assert(num_at(s, b0) is Some) by {
                if num_at(s, b0) is None {
                    assert(signed_dec_to_end(s, b0) is None);
                }
            }
            assert(dre(s, b0) != b0);
            assert(is_digit_char(s[b0]));
        }
    }
    // the whitespace after the separator runs exactly to b0
    assert(sre(s, mid + 1) == b0) by {
        lemma_sre_unique(s, mid + 1, b0);
    }
    assert(!is_space_char(s[mid]));
    assert(sre(s, mid) == mid) by {
        lemma_sre_unique(s, mid, mid);
    }
    assert(pair_tail(s, mid) == Some(b));
    let na = num_at(aa, i0)->Some_0.0;
    let ea = num_at(aa, i0)->Some_0.1;
    assert(ea == mid);
    assert(a == (DecNum { neg: s[0] == '-', ..na }));
    match frac_end(aa, da) {
        Some(fa) => {
            // the first numeral has a fractional part ending at `mid`
            assert(fa == mid);
            assert(aa[da] == '.');
            assert(is_digit_char(aa[da + 1]));
            lemma_dre_props(aa, da + 1);
            assert(dre(s, da + 1) == mid) by {
                lemma_dre_unique(s, da + 1, mid);
            }
            assert(frac_end(s, da) == Some(mid));
            let ns = num_at(s, i0)->Some_0.0;
            assert(ns.ip =~= na.ip);
            assert(ns.fp =~= na.fp);
            assert(ns.fp.len() > 0);
            assert(num_at(s, i0) == Some((ns, mid)));
            assert(dec_pair_match(s) == Some((DecNum { neg: s[0] == '-', ..ns }, b)));
            assert((DecNum { neg: s[0] == '-', ..ns }) =~= a);
        },
        None => {
            // no fractional part: the numeral ends at the separator
            assert(da == mid);
            assert(na.fp =~= Seq::<char>::empty());
            assert(a.fp.len() == 0);
            if s[mid] == '.' && mid + 1 < s.len() && is_digit_char(s[mid + 1]) {
                // the second numeral starts right after the period and
                // is all digits; the greedy fraction takes it and then
                // fails, falling back to the separator reading
                assert(b0 == mid + 1);
                assert(!is_sign_char(s[b0]));
                assert(num_at(s, b0) is Some) by {
                    if num_at(s, b0) is None {
                        assert(signed_dec_to_end(s, b0) is None);
                    }
                }
                let db = dre(s, b0);
                lemma_dre_props(s, b0);
                assert(db > b0);
                let nb = num_at(s, b0)->Some_0.0;
                let eb = num_at(s, b0)->Some_0.1;
                assert(eb == s.len());
                assert(b == (DecNum { neg: false, ..nb }));
                assert(b.fp.len() == 0);
                assert(frac_end(s, db) is None) by {
                    if frac_end(s, db) is Some {
                        assert(nb.fp.len() > 0);
                    }
                }
                assert(db == s.len());
                assert(frac_end(s, mid) == Some(s.len() as int)) by {
                    lemma_dre_unique(s, mid + 1, s.len() as int);
                }
                let ns = num_at(s, i0)->Some_0.0;
                assert(num_at(s, i0) == Some((ns, s.len() as int)));
                assert(ns.fp.len() > 0);
                // the greedy reading reaches the end, so no tail fits
                assert(sre(s, s.len() as int) == s.len());
                assert(pair_tail(s, s.len() as int) is None);
                assert(dec_pair_match(s) == Some((DecNum { neg: s[0] == '-', ip: ns.ip, fp: Seq::<char>::empty() }, b)));
                assert((DecNum { neg: s[0] == '-', ip: ns.ip, fp: Seq::<char>::empty() }) =~= a);
            } else {
                assert(frac_end(s, mid) is None);
                let ns = num_at(s, i0)->Some_0.0;
                assert(num_at(s, i0) == Some((ns, mid)));
                assert(ns.fp.len() == 0);
                assert(dec_pair_match(s) == Some((DecNum { neg: s[0] == '-', ip: ns.ip, fp: Seq::<char>::empty() }, b)));
                assert((DecNum { neg: s[0] == '-', ip: ns.ip, fp: Seq::<char>::empty() }) =~= a);
            }
        },
    }
}

/// For every valid decimal pair text — a signed numeral, a separator
/// with optional surrounding whitespace, a second signed numeral —
/// whose numerals fit, parsing yields exactly the coordinates as
/// written. The premise on a period separator is as in
/// [`lemma_dec_pair_compose`].
pub proof fn lemma_decimal_pair_parse(s: Seq<char>, mid: int, b0: int, a: DecNum, b: DecNum)
    requires
        0 < mid < s.len(),
        mid < b0 <= s.len(),
        is_sep_char(s[mid]),
        forall|k: int| mid < k < b0 ==> is_space_char(#[trigger] s[k]),
        signed_dec_to_end(s.subrange(0, mid), 0) == Some(a),
        signed_dec_to_end(s, b0) == Some(b),
        s[mid] == '.' ==> a.fp.len() > 0 || b.fp.len() == 0,
        dec_fits(a),
        dec_fits(b),
    ensures
        forall|r: Result<Location, LocationError>|
            parse_result_spec(s, r) ==> r == Ok::<Location, LocationError>(
                Location::Coordinates(
                    CoordinateLocation { lat: coord_of_dec(a), long: coord_of_dec(b) },
                ),
            ),
{
    lemma_dec_pair_compose(s, mid, b0, a, b);
    // the text begins with a sign or a digit
    let aa = s.subrange(0, mid);
    assert(!is_space_char(s[0])) by {
        if !is_sign_char(aa[0]) {
            assert(num_at(aa, 0) is Some) by {
                if num_at(aa, 0) is None {
                    assert(signed_dec_to_end(aa, 0) is None);
                }
            }
            lemma_dre_props(aa, 0);
            assert(dre(aa, 0) != 0);
            assert(is_digit_char(aa[0]));
        }
    }
    // and ends with a digit
    assert(is_digit_char(s[s.len() - 1])) by {
        let has_sign = b0 < s.len() && is_sign_char(s[b0]);
        let i0: int = if has_sign {
            b0 + 1
        } else {
            b0
        };
        assert(num_at(s, i0) is Some) by {
            if num_at(s, i0) is None {
                assert(signed_dec_to_end(s, b0) is None);
            }
        }
        let d = dre(s, i0);
        lemma_dre_props(s, i0);
        match frac_end(s, d) {
            Some(f) => {
                assert(f == s.len());
                lemma_dre_props(s, d + 1);
                assert(f > d + 1);
            },
            None => {
                assert(d == s.len());
            },
        }
    }
    // so trimming is the identity
    assert(trimmed(s) == s) by {
        lemma_sre_unique(s, 0, 0);
        lemma_trim_hi_unique(s, s.len() as int);
        assert(s.subrange(0, s.len() as int) =~= s);
    }
}

/// A rendering of a value whose units are a multiple of 3600 — that
/// is, a value with an exact decimal form, as every decimal-parsed
/// coordinate is — reads back as a signed numeral denoting the same
/// value.
#[verifier::rlimit(80)]
pub proof fn lemma_render_parses(neg: bool, units: int)
    requires
        0 <= units,
        units == 0 ==> !neg,
        units % 3600 == 0,
        units < 3600000000000000000000000000000000int,
    ensures
        signed_dec_to_end(render_units_spec(neg, units), 0) matches Some(n) && n.neg == neg
            && dec_fits(n) && dec_scaled(n) * 3600 == units,
{
    let scale = UNIT_SCALE as int;
    let r = render_units_spec(neg, units);
    let q = units / scale;
    let rem = units % scale;
    let ip = dec_digits_of(q);
    let f18 = (rem * pow10(18)) / scale;
    let padded = zero_pad(dec_digits_of(f18), 18);
    let fr = strip_zeros(padded);
    vstd::arithmetic::div_mod::lemma_fundamental_div_mod(units, scale);
    assert(0 <= rem < scale) by {
        vstd::arithmetic::div_mod::lemma_mod_bound(units, scale);
    }
    assert(0 <= q) by {
        vstd::arithmetic::div_mod::lemma_div_pos_is_pos(units, scale);
    }
    assert(pow10(15) == 1000000000000000int) by {
        reveal_with_fuel(pow10, 16);
    }
    assert(pow10(18) == 1000000000000000000int) by {
        reveal_with_fuel(pow10, 19);
    }
    assert(pow10(3) == 1000int) by {
        reveal_with_fuel(pow10, 4);
    }
    // whole degrees fit in 15 digits
    assert(q < pow10(15)) by {
        if q >= pow10(15) {
            assert(q * scale >= pow10(15) * scale) by (nonlinear_arith)
                requires
                    q >= pow10(15),
                    scale > 0,
            ;
        }
    }
    crate::digits::lemma_dec_digits_props(q);
    // the fraction: rem is a multiple of 3600, so f18 == m * 1000 exactly
    let m = rem / 3600;
    assert(rem == 3600 * m && m >= 0) by {
        vstd::arithmetic::div_mod::lemma_fundamental_div_mod(rem, 3600);
        vstd::arithmetic::div_mod::lemma_div_pos_is_pos(rem, 3600);
        assert(rem % 3600 == 0) by {
            let qq = units / scale;
            assert(rem == units - qq * scale);
            assert((units - qq * scale) % 3600 == 0) by (nonlinear_arith)
                requires
                    units % 3600 == 0,
                    scale == 3600 * 1000000000000000int,
            ;
        }
    }
    assert(f18 == m * 1000) by {
        assert(rem * pow10(18) == (m * 1000) * scale) by (nonlinear_arith)
            requires
                rem == 3600 * m,
                pow10(18) == 1000000000000000000int,
                scale == 3600000000000000000int,
        ;
        vstd::arithmetic::div_mod::lemma_div_multiples_vanish(m * 1000, scale);
    }
    assert(0 <= f18 < pow10(18)) by {
        assert((rem * pow10(18)) / scale < pow10(18)) by (nonlinear_arith)
            requires
                0 <= rem < scale,
                scale > 0,
                pow10(18) > 0,
        ;
        assert(f18 * 1 >= 0) by (nonlinear_arith)
            requires
                f18 == m * 1000,
                m >= 0,
        ;
    }
    crate::digits::lemma_dec_digits_props(f18);
    assert(dec_digits_of(f18).len() <= 18) by {
        if dec_digits_of(f18).len() > 18 {
            crate::digits::lemma_digits_val_lower(dec_digits_of(f18));
            crate::digits::lemma_pow10_mono(18, (dec_digits_of(f18).len() - 1) as nat);
        }
    }
    lemma_zero_pad_digits(dec_digits_of(f18), 18);
    lemma_strip_zeros_facts(padded);
    let flen = fr.len();
    let removed = (18 - flen) as nat;
    assert(digits_val(fr) * pow10(removed) == f18);
    // at most 15 fraction digits survive: f18 ends in three zeros
    assert(flen <= 15) by {
        if flen > 15 {
            assert(removed < 3);
            assert(fr.last() != '0');
            let dv = digits_val(fr);
            assert(dv % 10 == 0) by {
                if removed == 0 {
                    assert(dv * 1 == m * 1000) by (nonlinear_arith)
                        requires
                            dv * pow10(0nat) == m * 1000,
                            pow10(0nat) == 1,
                    ;
                    assert(dv % 10 == 0) by (nonlinear_arith)
                        requires
                            dv == m * 1000,
                    ;
                } else if removed == 1 {
                    assert(pow10(1nat) == 10) by {
                        reveal_with_fuel(pow10, 3);
                    }
                    assert(dv == m * 100) by (nonlinear_arith)
                        requires
                            dv * 10 == m * 1000,
                    ;
                    assert(dv % 10 == 0) by (nonlinear_arith)
                        requires
                            dv == m * 100,
                    ;
                } else {
                    assert(removed == 2);
                    assert(pow10(2nat) == 100) by {
                        reveal_with_fuel(pow10, 4);
                    }
                    assert(dv == m * 10) by (nonlinear_arith)
                        requires
                            dv * 100 == m * 1000,
                    ;
                    assert(dv % 10 == 0) by (nonlinear_arith)
                        requires
                            dv == m * 10,
                    ;
                }
            }
            crate::digits::lemma_digits_val_mod10(fr);
        }
    }
    // now read the rendering back
    let sign_len: int = if neg {
        1
    } else {
        0
    };
    assert(r.len() == sign_len + ip.len() + (if flen > 0 {
        1 + flen
    } else {
        0
    }));
    assert(forall|k: int| 0 <= k < ip.len() ==> r[sign_len + k] == ip[k]);
    if neg {
        assert(r[0] == '-');
    } else {
        assert(r[0] == ip[0]);
        assert(!is_sign_char(r[0]));
    }
    let i0 = sign_len;
    let d = i0 + ip.len();
    assert(dre(r, i0) == d) by {
        if d < r.len() {
            assert(r[d] == '.');
        }
        lemma_dre_unique(r, i0, d);
    }
    assert(r.subrange(i0, d) =~= ip);
    if flen > 0 {
        assert(forall|k: int| 0 <= k < flen ==> r[d + 1 + k] == fr[k]);
        assert(r[d] == '.');
        assert(is_digit_char(r[d + 1]));
        assert(dre(r, d + 1) == r.len()) by {
            lemma_dre_unique(r, d + 1, r.len() as int);
        }
        assert(frac_end(r, d) == Some(r.len() as int));
        assert(r.subrange(d + 1, r.len() as int) =~= fr);
        let n = num_at(r, i0)->Some_0.0;
        assert(n.ip =~= ip);
        assert(n.fp =~= fr);
        assert(signed_dec_to_end(r, 0) == Some(DecNum { neg: neg, ..n }));
    } else {
        assert(d == r.len());
        assert(frac_end(r, d) is None);
        let n = num_at(r, i0)->Some_0.0;
        assert(n.ip =~= ip);
        assert(n.fp =~= Seq::<char>::empty());
        assert(signed_dec_to_end(r, 0) == Some(DecNum { neg: neg, ..n }));
    }
    let n = signed_dec_to_end(r, 0)->Some_0;
    assert(n.neg == neg);
    assert(digits_val(n.ip) == q);
    assert(digits_val(n.fp) == digits_val(fr));
    assert(n.fp.len() == flen);
    assert(dec_fits(n));
    // the value: dv(fr) * 10^(15 - flen) == m, so scaling by 3600
    // recovers the units
    assert(dec_scaled(n) * 3600 == units) by {
        let x = digits_val(fr);
        assert(x * pow10(removed) == m * 1000);
        lemma_pow10_adds(3, (15 - flen) as nat);
        assert(removed == 3 + (15 - flen));
        assert(x * (1000 * pow10((15 - flen) as nat)) == (x * pow10((15 - flen) as nat)) * 1000)
            by (nonlinear_arith);
        assert(x * pow10((15 - flen) as nat) == m) by (nonlinear_arith)
            requires
                (x * pow10((15 - flen) as nat)) * 1000 == m * 1000,
        ;
        assert((q * pow10(15) + m) * 3600 == q * scale + 3600 * m) by (nonlinear_arith)
            requires
                scale == pow10(15) * 3600,
        ;
        assert(units == q * scale + rem);
    }
}

/// Rendering a coordinate pair to its textual form and parsing that
/// text again yields an equal coordinate, whenever both values have an
/// exact decimal form (units divisible by 3600 and below 10^15
/// degrees) — which every decimal-parsed coordinate has.
pub proof fn lemma_coordinate_round_trip(c: CoordinateLocation, s: Seq<char>)
    requires
        c.wf(),
        c.lat.units % 3600 == 0,
        c.long.units % 3600 == 0,
        c.lat.units < 3600000000000000000000000000000000u128,
        c.long.units < 3600000000000000000000000000000000u128,
        s == render_units_spec(c.lat.neg, c.lat.units as int) + seq![','] + render_units_spec(
            c.long.neg,
            c.long.units as int,
        ),
    ensures
        forall|r: Result<Location, LocationError>|
            parse_result_spec(s, r) ==> r == Ok::<Location, LocationError>(
                Location::Coordinates(c),
            ),
{
    let rl = render_units_spec(c.lat.neg, c.lat.units as int);
    let rg = render_units_spec(c.long.neg, c.long.units as int);
    let mid = rl.len() as int;
    lemma_render_parses(c.lat.neg, c.lat.units as int);
    lemma_render_parses(c.long.neg, c.long.units as int);
    lemma_render_chars(c.lat.neg, c.lat.units as int);
    lemma_render_chars(c.long.neg, c.long.units as int);
    let a = signed_dec_to_end(rl, 0)->Some_0;
    let b = signed_dec_to_end(rg, 0)->Some_0;
    assert(rl.len() > 0) by {
        if rl.len() == 0 {
            assert(num_at(rl, 0) is None) by {
                lemma_dre_props(rl, 0);
            }
        }
    }
    assert(rg.len() > 0) by {
        if rg.len() == 0 {
            assert(num_at(rg, 0) is None) by {
                lemma_dre_props(rg, 0);
            }
        }
    }
    assert(s.len() == mid + 1 + rg.len());
    assert(s[mid] == ',');
    assert(forall|k: int| 0 <= k < mid ==> s[k] == rl[k]);
    assert(forall|k: int| 0 <= k < rg.len() ==> s[mid + 1 + k] == rg[k]);
    // no character of the rendering is whitespace, so trimming is the
    // identity
    assert(forall|k: int| 0 <= k < s.len() ==> !is_space_char(#[trigger] s[k])) by {
        assert(forall|k: int|
            0 <= k < rl.len() ==> is_digit_char(#[trigger] rl[k]) || rl[k] == '-' || rl[k]
                == '.');
        assert(forall|k: int|
            0 <= k < rg.len() ==> is_digit_char(#[trigger] rg[k]) || rg[k] == '-' || rg[k]
                == '.');
    }
    assert(trimmed(s) == s) by {
        lemma_sre_unique(s, 0, 0);
        lemma_trim_hi_unique(s, s.len() as int);
        assert(s.subrange(0, s.len() as int) =~= s);
    }
    // the two halves parse in context
    assert(s.subrange(0, mid) =~= rl);
    assert(s.subrange(mid + 1, s.len() as int) =~= rg);
    lemma_signed_dec_shift(s, mid + 1);
    lemma_dec_pair_compose(s, mid, mid + 1, a, b);
    // the captured numerals denote exactly the two coordinate values
    assert(coord_of_dec(a) == c.lat) by {
        assert(dec_scaled(a) * 3600 == c.lat.units);
    }
    assert(coord_of_dec(b) == c.long) by {
        assert(dec_scaled(b) * 3600 == c.long.units);
    }
}

// ---------------------------------------------------------------------------
// Plain decimal rendering of unsigned magnitudes
// ---------------------------------------------------------------------------

/// The canonical decimal rendering of an unsigned magnitude: whole
/// part, then the fraction digits with trailing zeros removed.
pub open spec fn udec_chars(u: UDecimal) -> Seq<char> {
    let ip = dec_digits_of((u.units / DEC_SCALE) as int);
    let fr = strip_zeros(zero_pad(dec_digits_of((u.units % DEC_SCALE) as int), 15));
    ip + if fr.len() > 0 {
        seq!['.'] + fr
    } else {
        Seq::<char>::empty()
    }
}

/// Every character of the rendering is a digit or a period.
pub proof fn lemma_udec_chars(u: UDecimal)
    ensures
        forall|i: int|
            0 <= i < udec_chars(u).len() ==> is_digit_char(#[trigger] udec_chars(u)[i])
                || udec_chars(u)[i] == '.',
{
    let ip = dec_digits_of((u.units / DEC_SCALE) as int);
    let rem = (u.units % DEC_SCALE) as int;
    let padded = zero_pad(dec_digits_of(rem), 15);
    let fr = strip_zeros(padded);
    crate::digits::lemma_dec_digits_props((u.units / DEC_SCALE) as int);
    crate::digits::lemma_dec_digits_props(rem);
    assert(dec_digits_of(rem).len() <= 15) by {
        if dec_digits_of(rem).len() > 15 {
            crate::digits::lemma_digits_val_lower(dec_digits_of(rem));
            crate::digits::lemma_pow10_mono(15, (dec_digits_of(rem).len() - 1) as nat);
            assert(pow10(15) == 1000000000000000int) by {
                reveal_with_fuel(pow10, 16);
            }
        }
    }
    lemma_zero_pad_digits(dec_digits_of(rem), 15);
    lemma_strip_zeros_facts(padded);
    assert(forall|i: int| 0 <= i < fr.len() ==> is_digit_char(#[trigger] fr[i])) by {
        assert(all_digits(padded));
        assert(forall|i: int| 0 <= i < fr.len() ==> fr[i] == padded[i]);
    }
}

/// Render an unsigned magnitude.
pub fn udec_string(u: UDecimal) -> (r: Vec<char>)
    ensures
        r@ == udec_chars(u),
{
    let ip = crate::digits::u128_to_digits(u.units / DEC_SCALE);
    let rem = u.units % DEC_SCALE;
    let mut fr = crate::digits::u128_to_digits(rem);
    proof {
        crate::digits::lemma_dec_digits_props(rem as int);
        assert(fr@.len() <= 15) by {
            if fr@.len() > 15 {
                crate::digits::lemma_digits_val_lower(fr@);
                crate::digits::lemma_pow10_mono(15, (fr@.len() - 1) as nat);
                assert(pow10(15) == 1000000000000000int) by {
                    reveal_with_fuel(pow10, 16);
                }
            }
        }
    }
    while fr.len() < 15
        invariant
            fr@.len() <= 15,
            zero_pad(fr@, 15) == zero_pad(crate::digits::dec_digits_of(rem as int), 15),
        decreases 15 - fr.len(),
    {
        let ghost before_pad = fr@;
        fr.insert(0, '0');
        proof {
            assert(fr@ =~= seq!['0'] + before_pad);
            assert(zero_pad(before_pad, 15) == zero_pad(seq!['0'] + before_pad, 15));
        }
    }
    proof {
        assert(zero_pad(fr@, 15) == fr@);
    }
    while fr.len() > 0 && fr[fr.len() - 1] == '0'
        invariant
            crate::digits::dec_digits_of(rem as int).len() <= 15,
            strip_zeros(fr@) == strip_zeros(
                zero_pad(crate::digits::dec_digits_of(rem as int), 15),
            ),
        decreases fr.len(),
    {
        let ghost before = fr@;
        fr.pop();
        proof {
            assert(fr@ =~= before.drop_last());
        }
    }
    proof {
        assert(strip_zeros(fr@) == fr@);
    }
    let mut out = ip;
    if fr.len() > 0 {
        out.push('.');
        let mut k: usize = 0;
        let ghost head = out@;
        while k < fr.len()
            invariant
                k <= fr@.len(),
                out@ == head + fr@.subrange(0, k as int),
            decreases fr@.len() - k,
        {
            out.push(fr[k]);
            proof {
                assert(fr@.subrange(0, k + 1) =~= fr@.subrange(0, k as int).push(fr@[k as int]));
            }
            k += 1;
        }
        proof {
            assert(fr@.subrange(0, fr@.len() as int) =~= fr@);
            assert(out@ =~= udec_chars(u));
        }
    } else {
        proof {
            assert(out@ =~= udec_chars(u));
        }
    }
    out
}

/// Build a string from digit, sign, period and comma characters.
pub fn string_of_render(v: &Vec<char>) -> (r: String)
    requires
        forall|i: int|
            0 <= i < v@.len() ==> is_digit_char(#[trigger] v@[i]) || v@[i] == '-' || v@[i] == '.'
                || v@[i] == ',',
    ensures
        r@ == v@,
{
    string_of_chars(v)
}

impl LocationError {
    /// The error's report text, as debug formatting would print it.
    pub fn message(&self) -> (r: String)
        ensures
            *self == LocationError::Malformed ==> r@ == "Malformed"@,
            *self == LocationError::ParseFloatError ==> r@ == "ParseFloatError"@,
            *self == LocationError::ReqwestError ==> r@ == "ReqwestError"@,
            *self == LocationError::Unresolveable ==> r@ == "Unresolveable"@,
    {
        match self {
            LocationError::Malformed => String::from_str("Malformed"),
            LocationError::ParseFloatError => String::from_str("ParseFloatError"),
            LocationError::ReqwestError => String::from_str("ReqwestError"),
            LocationError::Unresolveable => String::from_str("Unresolveable"),
        }
    }
}

} // verus!
