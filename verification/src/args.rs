//! Validation of the configuration values the application is started
//! with: the update interval and the search radius.

use vstd::prelude::*;

use crate::digits::dec_digits_of;
use crate::digits::digits_val;
use crate::digits::is_digit_char;
use crate::digits::lemma_digits_val_append;
use crate::digits::lemma_digits_val_bounds;
use crate::digits::lemma_pow10_pos;
use crate::digits::pow10;
use crate::locator::chars_of;
use crate::locator::dec_fits;
use crate::locator::dec_scaled;
use crate::locator::find_signed_to_end;
use crate::locator::signed_dec_to_end;
use crate::locator::span_value;
use crate::locator::string_of_render;
use crate::locator::udec_chars;
use crate::locator::udec_string;
use crate::locator::UDecimal;

verus! {

/// The value of an unsigned integer numeral with an optional leading
/// plus sign, as `u64::from_str` reads it — or nothing when the text
/// is not such a numeral.
pub open spec fn uint_of(s: Seq<char>) -> Option<int> {
    let i0: int = if s.len() > 0 && s[0] == '+' {
        1
    } else {
        0
    };
    if s.len() > i0 && (forall|k: int| i0 <= k < s.len() ==> is_digit_char(#[trigger] s[k])) {
        Some(digits_val(s.subrange(i0, s.len() as int)))
    } else {
        None
    }
}

/// What validating the update interval must return: the number of
/// seconds when it is a valid integer of at least five minutes, and
/// the exact complaint otherwise.
pub open spec fn update_time_result(s: Seq<char>, r: Result<u64, String>) -> bool {
    match uint_of(s) {
        Some(v) => if v > u64::MAX {
            r matches Err(m) && m@ == "Your update time is not a valid (unsigned) integer!"@
        } else if v >= 300 {
            r matches Ok(t) && t == v
        } else {
            r matches Err(m) && m@ == "Your update cycle "@ + dec_digits_of(v)
                + " is shorter than five minutes. You have to use at least five minutes (300s) to comply with the Tankerkönig API Terms."@
        },
        None => r matches Err(m) && m@
            == "Your update time is not a valid (unsigned) integer!"@,
    }
}

/// Validate the update timing: at least five minutes (300 s).
pub fn arg_validate_update_time(time: &str) -> (r: Result<u64, String>)
    ensures
        update_time_result(time@, r),
{
    let v = chars_of(time);
    let i0: usize = if v.len() > 0 && v[0] == '+' {
        1
    } else {
        0
    };
    let d = crate::digits::scan_digits(&v, i0);
    if i0 >= v.len() || d < v.len() {
        proof {
            crate::digits::lemma_dre_props(v@, i0 as int);
            if i0 < v.len() && d < v.len() {
                assert(!is_digit_char(v@[d as int]));
            }
        }
        return Err(String::from_str("Your update time is not a valid (unsigned) integer!"));
    }
    let ghost digits = v@.subrange(i0 as int, v@.len() as int);
    proof {
        crate::digits::lemma_dre_props(v@, i0 as int);
        assert(crate::digits::all_digits(digits));
        assert(uint_of(v@) == Some(digits_val(digits)));
    }
    let mut acc: u128 = 0;
    let mut k = i0;
    while k < v.len()
        invariant
            i0 <= k <= v@.len(),
            digits == v@.subrange(i0 as int, v@.len() as int),
            uint_of(time@) == Some(digits_val(digits)),
            crate::digits::all_digits(digits),
            forall|q: int| i0 <= q < v@.len() ==> is_digit_char(#[trigger] v@[q]),
            acc as int == digits_val(v@.subrange(i0 as int, k as int)),
            acc <= 0xFFFF_FFFF_FFFF_FFFFu128,
        decreases v@.len() - k,
    {
        let dg = crate::digits::digit_of(v[k]);
        let next = acc * 10 + dg as u128;
        proof {
            let pre = v@.subrange(i0 as int, k as int);
            let nxt = v@.subrange(i0 as int, k as int + 1);
            assert(nxt.drop_last() =~= pre);
            assert(nxt.last() == v@[k as int]);
        }
        if next > 0xFFFF_FFFF_FFFF_FFFF {
            proof {
                let nxt = v@.subrange(i0 as int, k as int + 1);
                let rest = v@.subrange(k as int + 1, v@.len() as int);
                assert(digits =~= nxt + rest);
                lemma_digits_val_append(nxt, rest);
                assert(crate::digits::all_digits(rest)) by {
                    assert(forall|q: int|
                        0 <= q < rest.len() ==> is_digit_char(#[trigger] rest[q]));
                }
                lemma_digits_val_bounds(rest);
                lemma_pow10_pos(rest.len());
                assert(digits_val(nxt) * pow10(rest.len()) >= digits_val(nxt))
                    by (nonlinear_arith)
                    requires
                        digits_val(nxt) >= 0,
                        pow10(rest.len()) >= 1,
                ;
                assert(digits_val(nxt) == next as int);
                assert(digits_val(digits) == digits_val(nxt) * pow10(rest.len()) + digits_val(
                    rest,
                ));
                assert(digits_val(digits) > 0xFFFF_FFFF_FFFF_FFFFint);
            }
            return Err(String::from_str("Your update time is not a valid (unsigned) integer!"));
        }
        acc = next;
        k += 1;
    }
    proof {
        assert(v@.subrange(i0 as int, v@.len() as int) =~= digits);
    }
    if acc >= 300 {
        Ok(acc as u64)
    } else {
        let mut m = String::from_str("Your update cycle ");
        let num = crate::digits::u128_to_digits(acc);
        proof {
            crate::digits::lemma_dec_digits_props(acc as int);
        }
        let num_s = string_of_render(&num);
        m.append(num_s.as_str());
        m.append(
            " is shorter than five minutes. You have to use at least five minutes (300s) to comply with the Tankerkönig API Terms.",
        );
        proof {
            assert(m@ =~= "Your update cycle "@ + dec_digits_of(acc as int)
                + " is shorter than five minutes. You have to use at least five minutes (300s) to comply with the Tankerkönig API Terms."@);
        }
        Err(m)
    }
}

/// What validating the radius must return: the magnitude when the text
/// is a decimal numeral between 0 and 25, and the exact complaint
/// otherwise. A numeral too large to hold exactly is reported as not a
/// valid number.
pub open spec fn radius_result(s: Seq<char>, r: Result<UDecimal, String>) -> bool {
    match signed_dec_to_end(s, 0) {
        Some(n) => if !dec_fits(n) {
            r matches Err(m) && m@ == "The radius is not a valid floating point number!"@
        } else if n.neg && dec_scaled(n) != 0 {
            r matches Err(m) && m@ == "The provided radius -"@ + udec_chars(
                UDecimal { units: dec_scaled(n) as u128 },
            ) + " is less than 0!"@
        } else if dec_scaled(n) <= 25 * pow10(15) {
            r matches Ok(u) && u.units == dec_scaled(n)
        } else {
            r matches Err(m) && m@ == "The provided radius "@ + udec_chars(
                UDecimal { units: dec_scaled(n) as u128 },
            )
                + " is larger than 25km, which is not allowed by the Tankerkönig API. Please choose a radius <= 25."@
        },
        None => r matches Err(m) && m@ == "The radius is not a valid floating point number!"@,
    }
}

/// Make sure the provided radius conforms to the price service's
/// limitations: a number, not negative, at most 25 km.
pub fn arg_validate_radius(radius: &str) -> (r: Result<UDecimal, String>)
    ensures
        radius_result(radius@, r),
{
    let v = chars_of(radius);
    let parsed = find_signed_to_end(&v, 0);
    let (neg, sp) = match parsed {
        Some(p) => p,
        None => {
            return Err(String::from_str("The radius is not a valid floating point number!"));
        },
    };
    let x = match span_value(&v, sp) {
        Some(x) => x,
        None => {
            return Err(String::from_str("The radius is not a valid floating point number!"));
        },
    };
    proof {
        assert(pow10(15) == 1000000000000000int) by {
            reveal_with_fuel(pow10, 16);
        }
    }
    if neg && x > 0 {
        let mut m = String::from_str("The provided radius -");
        let num = udec_string(UDecimal { units: x });
        proof {
            crate::locator::lemma_udec_chars(UDecimal { units: x });
        }
        let num_s = string_of_render(&num);
        m.append(num_s.as_str());
        m.append(" is less than 0!");
        proof {
            assert(m@ =~= "The provided radius -"@ + udec_chars(UDecimal { units: x })
                + " is less than 0!"@);
        }
        Err(m)
    } else if x <= 25_000_000_000_000_000 {
        Ok(UDecimal { units: x })
    } else {
        let mut m = String::from_str("The provided radius ");
        let num = udec_string(UDecimal { units: x });
        proof {
            crate::locator::lemma_udec_chars(UDecimal { units: x });
        }
        let num_s = string_of_render(&num);
        m.append(num_s.as_str());
        m.append(
            " is larger than 25km, which is not allowed by the Tankerkönig API. Please choose a radius <= 25.",
        );
        proof {
            assert(m@ =~= "The provided radius "@ + udec_chars(UDecimal { units: x })
                + " is larger than 25km, which is not allowed by the Tankerkönig API. Please choose a radius <= 25."@);
        }
        Err(m)
    }
}

} // verus!
