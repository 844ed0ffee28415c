//! Decimal digit sequences: their numeric value, scanning and rendering.

use vstd::prelude::*;

verus! {

/// Is `c` one of the characters '0' through '9'?
pub open spec fn is_digit_char(c: char) -> bool {
    48 <= c as u32 && c as u32 <= 57
}

/// Numeric value of a digit character.
pub open spec fn digit_val(c: char) -> int {
    c as u32 - 48
}

/// Every character of `s` is a decimal digit.
pub open spec fn all_digits(s: Seq<char>) -> bool {
    forall|i: int| 0 <= i < s.len() ==> is_digit_char(#[trigger] s[i])
}

/// Value of a digit sequence read as a base-10 numeral.
pub open spec fn digits_val(s: Seq<char>) -> int
    decreases s.len(),
{
    if s.len() == 0 {
        0
    } else {
        digits_val(s.drop_last()) * 10 + digit_val(s.last())
    }
}

/// 10 to the power `n`.
pub open spec fn pow10(n: nat) -> int
    decreases n,
{
    if n == 0 {
        1
    } else {
        10 * pow10((n - 1) as nat)
    }
}

pub proof fn lemma_pow10_pos(n: nat)
    ensures
        pow10(n) >= 1,
    decreases n,
{
    if n > 0 {
        lemma_pow10_pos((n - 1) as nat);
    }
}

pub proof fn lemma_pow10_adds(a: nat, b: nat)
    ensures
        pow10(a + b) == pow10(a) * pow10(b),
    decreases a,
{
    if a == 0 {
    } else {
        lemma_pow10_adds((a - 1) as nat, b);
        assert(pow10(a + b) == 10 * pow10((a + b - 1) as nat));
        assert(10 * (pow10((a - 1) as nat) * pow10(b)) == (10 * pow10((a - 1) as nat)) * pow10(b))
            by (nonlinear_arith);
    }
}

pub proof fn lemma_pow10_mono(a: nat, b: nat)
    requires
        a <= b,
    ensures
        pow10(a) <= pow10(b),
    decreases b,
{
    if a < b {
        lemma_pow10_mono(a, (b - 1) as nat);
        lemma_pow10_pos((b - 1) as nat);
    }
}

/// A digit sequence's value is non-negative and below 10^len.
pub proof fn lemma_digits_val_bounds(s: Seq<char>)
    requires
        all_digits(s),
    ensures
        0 <= digits_val(s) < pow10(s.len()),
    decreases s.len(),
{
    if s.len() > 0 {
        assert(all_digits(s.drop_last())) by {
            assert(forall|i: int|
                0 <= i < s.len() - 1 ==> is_digit_char(#[trigger] s.drop_last()[i]));
        }
        lemma_digits_val_bounds(s.drop_last());
        assert(pow10(s.len()) == 10 * pow10((s.len() - 1) as nat));
    }
}

/// Characters casting to the same code point are the same character.
pub proof fn lemma_char_eq(a: char, b: char)
    requires
        a as u32 == b as u32,
    ensures
        a == b,
{
}

/// Splitting a numeral: the left part is scaled by 10^(length of the right part).
pub proof fn lemma_digits_val_append(a: Seq<char>, b: Seq<char>)
    ensures
        digits_val(a + b) == digits_val(a) * pow10(b.len()) + digits_val(b),
    decreases b.len(),
{
    if b.len() == 0 {
        assert(a + b =~= a);
    } else {
        lemma_digits_val_append(a, b.drop_last());
        assert((a + b).drop_last() =~= a + b.drop_last());
        assert((a + b).last() == b.last());
        let p = pow10((b.len() - 1) as nat);
        assert(digits_val(a + b) == digits_val(a + b.drop_last()) * 10 + digit_val(b.last()));
        assert(digits_val(a + b.drop_last()) == digits_val(a) * p + digits_val(b.drop_last()));
        assert((digits_val(a) * p + digits_val(b.drop_last())) * 10
            == digits_val(a) * (10 * p) + digits_val(b.drop_last()) * 10) by (nonlinear_arith);
        assert(pow10(b.len()) == 10 * p);
        assert(digits_val(b) == digits_val(b.drop_last()) * 10 + digit_val(b.last()));
    }
}

/// A numeral with a leading non-zero digit is at least 10^(len-1).
pub proof fn lemma_digits_val_lower(s: Seq<char>)
    requires
        all_digits(s),
        s.len() >= 1,
        s[0] != '0',
    ensures
        digits_val(s) >= pow10((s.len() - 1) as nat),
    decreases s.len(),
{
    if s.len() == 1 {
        assert(s.drop_last() =~= Seq::<char>::empty());
        assert(s.last() == s[0]);
        assert(digits_val(s) == digit_val(s[0]));
        if s[0] as u32 == 48 {
            lemma_char_eq(s[0], '0');
        }
    } else {
        assert(all_digits(s.drop_last())) by {
            assert(forall|i: int|
                0 <= i < s.len() - 1 ==> is_digit_char(#[trigger] s.drop_last()[i]));
        }
        lemma_digits_val_lower(s.drop_last());
        lemma_digits_val_bounds(s);
        assert(digits_val(s) == digits_val(s.drop_last()) * 10 + digit_val(s.last()));
        assert(pow10((s.len() - 1) as nat) == 10 * pow10((s.len() - 2) as nat));
    }
}

/// A numeral whose value is a multiple of 10 ends in '0'.
pub proof fn lemma_digits_val_mod10(s: Seq<char>)
    requires
        all_digits(s),
        s.len() >= 1,
        digits_val(s) % 10 == 0,
    ensures
        s.last() == '0',
{
    assert(digits_val(s) == digits_val(s.drop_last()) * 10 + digit_val(s.last()));
    assert(all_digits(s.drop_last())) by {
        assert(forall|i: int|
            0 <= i < s.len() - 1 ==> is_digit_char(#[trigger] s.drop_last()[i]));
    }
    lemma_digits_val_bounds(s.drop_last());
    assert(0 <= digit_val(s.last()) < 10);
    assert((digits_val(s.drop_last()) * 10 + digit_val(s.last())) % 10 == digit_val(s.last())) by (nonlinear_arith)
        requires 0 <= digit_val(s.last()) < 10;
    assert(s.last() as u32 == 48);
    lemma_char_eq(s.last(), '0');
}

/// Canonical decimal numeral of a non-negative integer.
pub open spec fn digit_char(d: int) -> char {
    if d == 0 { '0' }
    else if d == 1 { '1' }
    else if d == 2 { '2' }
    else if d == 3 { '3' }
    else if d == 4 { '4' }
    else if d == 5 { '5' }
    else if d == 6 { '6' }
    else if d == 7 { '7' }
    else if d == 8 { '8' }
    else { '9' }
}

pub open spec fn dec_digits_of(n: int) -> Seq<char>
    decreases n,
{
    if n <= 0 {
        seq!['0']
    } else if n < 10 {
        seq![digit_char(n)]
    } else {
        dec_digits_of(n / 10).push(digit_char(n % 10))
    }
}

pub proof fn lemma_dec_digits_props(n: int)
    requires
        n >= 0,
    ensures
        all_digits(dec_digits_of(n)),
        dec_digits_of(n).len() >= 1,
        digits_val(dec_digits_of(n)) == n,
        dec_digits_of(n).len() > 1 ==> dec_digits_of(n)[0] != '0',
    decreases n,
{
    if n < 10 {
        let s = dec_digits_of(n);
        assert(s =~= seq![digit_char(n)]);
        assert(s.len() == 1);
        assert(s[0] == digit_char(n));
        assert(is_digit_char(s[0]));
        assert(digit_val(digit_char(n)) == n);
        assert(s.drop_last() =~= Seq::<char>::empty());
        assert(digits_val(Seq::<char>::empty()) == 0);
        assert(s.last() == s[0]);
        assert(digits_val(s) == digits_val(s.drop_last()) * 10 + digit_val(s.last()));
    } else {
        lemma_dec_digits_props(n / 10);
        let s = dec_digits_of(n);
        let p = dec_digits_of(n / 10);
        assert(s == p.push(digit_char(n % 10)));
        assert(s.drop_last() =~= p);
        assert(s.last() == digit_char(n % 10));
        assert(digits_val(s) == digits_val(p) * 10 + digit_val(digit_char(n % 10)));
        assert(digit_val(digit_char(n % 10)) == n % 10);
        assert((n / 10) * 10 + n % 10 == n);
        assert(s[0] == p[0]);
        if n / 10 >= 10 {
            assert(p == dec_digits_of(n / 10 / 10).push(digit_char((n / 10) % 10)));
            lemma_dec_digits_props(n / 10 / 10);
            assert(p.len() >= 2);
        }
        if n / 10 < 10 {
            assert(p =~= seq![digit_char(n / 10)]);
            assert(p[0] == digit_char(n / 10));
            assert(n / 10 >= 1);
            assert(digit_val(p[0]) == n / 10);
            assert(p[0] != '0') by {
                if p[0] == '0' {
                    assert(digit_val(p[0]) == 0);
                }
            }
        }
        assert(forall|i: int| 0 <= i < s.len() ==> is_digit_char(#[trigger] s[i])) by {
            assert(forall|i: int| 0 <= i < p.len() ==> is_digit_char(#[trigger] p[i]));
        }
    }
}

/// Executable digit test.
pub fn is_digit(c: char) -> (r: bool)
    ensures
        r == is_digit_char(c),
{
    let u = c as u32;
    48 <= u && u <= 57
}

/// Executable digit value.
pub fn digit_of(c: char) -> (d: u8)
    requires
        is_digit_char(c),
    ensures
        d as int == digit_val(c),
{
    (c as u32 - 48) as u8
}

/// Executable digit character.
pub fn char_of_digit(d: u8) -> (c: char)
    requires
        d < 10,
    ensures
        c == digit_char(d as int),
{
    if d == 0 { '0' }
    else if d == 1 { '1' }
    else if d == 2 { '2' }
    else if d == 3 { '3' }
    else if d == 4 { '4' }
    else if d == 5 { '5' }
    else if d == 6 { '6' }
    else if d == 7 { '7' }
    else if d == 8 { '8' }
    else { '9' }
}

/// Render a number as its canonical decimal numeral.
pub fn u128_to_digits(v: u128) -> (r: Vec<char>)
    ensures
        r@ == dec_digits_of(v as int),
{
    if v == 0 {
        let mut r: Vec<char> = Vec::new();
        r.push('0');
        assert(r@ =~= dec_digits_of(0));
        return r;
    }
    let mut acc: Vec<char> = Vec::new();
    let mut cur: u128 = v;
    while cur > 0
        invariant
            cur > 0 ==> dec_digits_of(v as int) == dec_digits_of(cur as int) + acc@,
            cur == 0 ==> dec_digits_of(v as int) == acc@,
            v > 0,
        decreases cur,
    {
        let d: u8 = (cur % 10) as u8;
        let c = char_of_digit(d);
        acc.insert(0, c);
        proof {
            let prev = (cur as int);
            if prev >= 10 {
                assert(dec_digits_of(prev) == dec_digits_of(prev / 10).push(digit_char(prev % 10)));
                assert(dec_digits_of(prev) + acc@.drop_first()
                    =~= dec_digits_of(prev / 10) + acc@);
            } else {
                assert(dec_digits_of(prev) =~= seq![digit_char(prev % 10)]);
                assert(dec_digits_of(prev) + acc@.drop_first() =~= acc@);
            }
        }
        cur = cur / 10;
    }
    acc
}

/// Executable power of ten.
pub fn pow10_u128(n: usize) -> (r: u128)
    requires
        n <= 30,
    ensures
        r as int == pow10(n as nat),
{
    let mut r: u128 = 1;
    let mut k: usize = 0;
    while k < n
        invariant
            k <= n <= 30,
            r as int == pow10(k as nat),
        decreases n - k,
    {
        proof {
            lemma_pow10_mono((k + 1) as nat, 30);
            lemma_pow10_pos(k as nat);
            assert(pow10(30nat) == 1000000000000000000000000000000int) by {
                reveal_with_fuel(pow10, 31);
            }
        }
        r = r * 10;
        k += 1;
    }
    r
}

/// End of the run of digits starting at `i`.
pub open spec fn dre(s: Seq<char>, i: int) -> int
    decreases s.len() - i when 0 <= i <= s.len()
{
    if i < s.len() && is_digit_char(s[i]) {
        dre(s, i + 1)
    } else {
        i
    }
}

pub proof fn lemma_dre_props(s: Seq<char>, i: int)
    requires
        0 <= i <= s.len(),
    ensures
        i <= dre(s, i) <= s.len(),
        forall|k: int| i <= k < dre(s, i) ==> is_digit_char(#[trigger] s[k]),
        dre(s, i) < s.len() ==> !is_digit_char(s[dre(s, i)]),
    decreases s.len() - i,
{
    if i < s.len() && is_digit_char(s[i]) {
        lemma_dre_props(s, i + 1);
    }
}

/// The run end is the unique index with the run properties.
pub proof fn lemma_dre_unique(s: Seq<char>, i: int, r: int)
    requires
        0 <= i <= r <= s.len(),
        forall|k: int| i <= k < r ==> is_digit_char(#[trigger] s[k]),
        r < s.len() ==> !is_digit_char(s[r]),
    ensures
        dre(s, i) == r,
{
    lemma_dre_props(s, i);
    if dre(s, i) < r {
        assert(is_digit_char(s[dre(s, i)]));
    }
    if r < dre(s, i) {
        assert(is_digit_char(s[r]));
    }
}

/// Scan to the end of a digit run.
pub fn scan_digits(t: &Vec<char>, i: usize) -> (r: usize)
    requires
        i <= t@.len(),
    ensures
        r == dre(t@, i as int),
        i <= r <= t@.len(),
{
    let mut j = i;
    while j < t.len() && is_digit(t[j])
        invariant
            i <= j <= t@.len(),
            forall|k: int| i <= k < j ==> is_digit_char(#[trigger] t@[k]),
        decreases t@.len() - j,
    {
        j += 1;
    }
    proof {
        lemma_dre_unique(t@, i as int, j as int);
    }
    j
}

/// Value of the digit run `t[i..j]`, or `None` when it is 10^15 or more.
pub fn digits_value(t: &Vec<char>, i: usize, j: usize) -> (r: Option<u128>)
    requires
        i <= j <= t@.len(),
        forall|k: int| i <= k < j ==> is_digit_char(#[trigger] t@[k]),
    ensures
        match r {
            Some(x) => x as int == digits_val(t@.subrange(i as int, j as int))
                && x < 1_000_000_000_000_000u128,
            None => digits_val(t@.subrange(i as int, j as int)) >= 1_000_000_000_000_000int,
        },
{
    let whole = Ghost(t@.subrange(i as int, j as int));
    let mut acc: u128 = 0;
    let mut k = i;
    while k < j
        invariant
            i <= k <= j <= t@.len(),
            forall|q: int| i <= q < j ==> is_digit_char(#[trigger] t@[q]),
            whole@ == t@.subrange(i as int, j as int),
            acc as int == digits_val(t@.subrange(i as int, k as int)),
            acc < 1_000_000_000_000_000u128,
        decreases j - k,
    {
        proof {
            assert(all_digits(whole@));
        }
        if acc >= 100_000_000_000_000 {
            proof {
                let pre = t@.subrange(i as int, k as int);
                let rest = t@.subrange(k as int, j as int);
                assert(whole@ =~= pre + rest);
                lemma_digits_val_append(pre, rest);
                assert(all_digits(rest)) by {
                    assert(forall|q: int| 0 <= q < rest.len()
                        ==> is_digit_char(#[trigger] rest[q]));
                }
                lemma_digits_val_bounds(rest);
                lemma_pow10_pos(rest.len());
                assert(rest.len() >= 1);
                assert(pow10(rest.len()) >= 10) by {
                    lemma_pow10_mono(1, rest.len());
                }
                assert(digits_val(pre) * pow10(rest.len()) >= digits_val(pre) * 10)
                    by (nonlinear_arith)
                    requires digits_val(pre) >= 0, pow10(rest.len()) >= 10;
            }
            return None;
        }
        let d = digit_of(t[k]);
        proof {
            let pre = t@.subrange(i as int, k as int);
            let nxt = t@.subrange(i as int, k as int + 1);
            assert(nxt.drop_last() =~= pre);
            assert(nxt.last() == t@[k as int]);
        }
        acc = acc * 10 + d as u128;
        k += 1;
    }
    Some(acc)
}

} // verus!
