//! Hexadecimal code points: the uppercase-hex digit class the data tables
//! use, the numeric value of a digit run, Unicode scalar values, and the
//! scanner that turns one hex run into a character.

use vstd::prelude::*;

verus! {

/// An uppercase hexadecimal digit, the only digit form the data tables use.
pub open spec fn is_hex_digit(c: char) -> bool {
    (48 <= c as u32 && c as u32 <= 57) || (65 <= c as u32 && c as u32 <= 70)
}

/// Numeric value of one hexadecimal digit.
pub open spec fn hex_digit_val(c: char) -> nat {
    if 48 <= c as u32 && c as u32 <= 57 {
        (c as u32 - 48) as nat
    } else {
        (c as u32 - 55) as nat
    }
}

/// Every character of `s` is an uppercase hexadecimal digit.
pub open spec fn all_hex(s: Seq<char>) -> bool {
    forall|i: int| 0 <= i < s.len() ==> is_hex_digit(s[i])
}

/// Numeric value of a run of hexadecimal digits, most significant first.
pub open spec fn hex_value(s: Seq<char>) -> nat
    decreases s.len(),
{
    if s.len() == 0 {
        0
    } else {
        hex_value(s.drop_last()) * 16 + hex_digit_val(s.last())
    }
}

/// A Unicode scalar value: any code point outside the surrogate block and at
/// most 0x10FFFF.
pub open spec fn is_scalar_value(v: int) -> bool {
    (0 <= v && v < 0xD800) || (0xE000 <= v && v <= 0x10FFFF)
}

/// Relies on std's `char::from_u32`: returns `Some` exactly on Unicode
/// scalar values (code points outside the surrogate block and at most
/// 0x10FFFF), and the returned character has the given code point.
pub assume_specification[ char::from_u32 ](v: u32) -> (r: Option<char>)
    ensures
        r is Some <==> is_scalar_value(v as int),
        r matches Some(c) ==> c as u32 == v,
;

/// Whether `c` is an uppercase hexadecimal digit.
pub fn is_hex_digit_char(c: char) -> (b: bool)
    ensures
        b == is_hex_digit(c),
{
    let u = c as u32;
    (u >= 48 && u <= 57) || (u >= 65 && u <= 70)
}

/// Whether every character of `v[from..to]` is an uppercase hex digit.
pub fn check_all_hex(v: &Vec<char>, from: usize, to: usize) -> (b: bool)
    requires
        from <= to <= v@.len(),
    ensures
        b == all_hex(v@.subrange(from as int, to as int)),
{
    let ghost s = v@.subrange(from as int, to as int);
    let mut j: usize = from;
    while j < to
        invariant
            from <= j <= to <= v@.len(),
            s == v@.subrange(from as int, to as int),
            forall|m: int| from <= m < j ==> is_hex_digit(v@[m]),
        decreases to - j,
    {
        if !is_hex_digit_char(v[j]) {
            proof {
                assert(s[j - from] == v@[j as int]);
                assert(!all_hex(s));
            }
            return false;
        }
        j = j + 1;
    }
    proof {
        assert forall|i: int| 0 <= i < s.len() implies is_hex_digit(s[i]) by {
            assert(s[i] == v@[from + i]);
        }
    }
    true
}

/// Scans `v[from..to]` as one uppercase-hex code point and converts it to a
/// character: `Some` exactly when the run is non-empty, all hex, and names a
/// Unicode scalar value.
pub fn scan_hex_scalar(v: &Vec<char>, from: usize, to: usize) -> (r: Option<char>)
    requires
        from <= to <= v@.len(),
    ensures
        ({
            let s = v@.subrange(from as int, to as int);
            &&& (r is Some <==> s.len() > 0 && all_hex(s) && is_scalar_value(hex_value(s) as int))
            &&& (r matches Some(c) ==> c as u32 == hex_value(s))
        }),
{
    let ghost s = v@.subrange(from as int, to as int);
    if from == to {
        return None;
    }
    let mut acc: u32 = 0;
    let mut i: usize = from;
    while i < to
        invariant
            from <= i <= to <= v@.len(),
            s == v@.subrange(from as int, to as int),
            forall|m: int| from <= m < i ==> is_hex_digit(v@[m]),
            acc as nat == if hex_value(s.take(i - from)) <= 0x10FFFF {
                hex_value(s.take(i - from))
            } else {
                0x110000 as nat
            },
        decreases to - i,
    {
        let c = v[i];
        let u = c as u32;
        let d: u32;
        if u >= 48 && u <= 57 {
            d = u - 48;
        } else if u >= 65 && u <= 70 {
            d = u - 55;
        } else {
            proof {
                assert(s[i - from] == v@[i as int]);
                assert(!all_hex(s));
            }
            return None;
        }
        proof {
            let pre = s.take(i - from);
            let ext = s.take(i - from + 1);
            assert(ext.drop_last() =~= pre);
            assert(ext.last() == v@[i as int]);
            assert(hex_value(ext) == hex_value(pre) * 16 + hex_digit_val(v@[i as int]));
            assert(d as nat == hex_digit_val(v@[i as int]));
            if hex_value(pre) > 0x10FFFF {
                assert(hex_value(pre) * 16 >= hex_value(pre)) by (nonlinear_arith);
                assert(hex_value(ext) > 0x10FFFF);
            }
        }
        let next = acc * 16 + d;
        if next > 0x10FFFF {
            acc = 0x110000;
        } else {
            acc = next;
        }
        i = i + 1;
    }
    proof {
        assert(s.take(to - from) =~= s);
        assert forall|k: int| 0 <= k < s.len() implies is_hex_digit(s[k]) by {
            assert(s[k] == v@[from + k]);
        }
    }
    if acc > 0x10FFFF {
        return None;
    }
    char::from_u32(acc)
}

} // verus!
