use vstd::prelude::*;
use vstd::string::*;

verus! {

/// Is `c` an ASCII hexadecimal digit?
pub open spec fn is_hex_digit(c: char) -> bool {
    (48 <= c as u32 && c as u32 <= 57) || (97 <= c as u32 && c as u32 <= 102) || (65 <= c as u32
        && c as u32 <= 70)
}

/// Value of one hexadecimal digit.
pub open spec fn hex_digit_val(c: char) -> int {
    if 48 <= c as u32 && c as u32 <= 57 {
        c as u32 - 48
    } else if 97 <= c as u32 && c as u32 <= 102 {
        c as u32 - 87
    } else {
        c as u32 - 55
    }
}

/// Value of a hexadecimal numeral, most significant digit first.
pub open spec fn hex_value(s: Seq<char>) -> int
    decreases s.len(),
{
    if s.len() == 0 {
        0
    } else {
        16 * hex_value(s.drop_last()) + hex_digit_val(s.last())
    }
}

/// A non-empty string of hexadecimal digits.
pub open spec fn is_hex_string(s: Seq<char>) -> bool {
    s.len() >= 1 && forall|i: int| 0 <= i < s.len() ==> is_hex_digit(s[i])
}

/// A Unicode scalar value: a code point outside the surrogate range.
pub open spec fn is_scalar_value(v: int) -> bool {
    (0 <= v && v < 0xD800) || (0xE000 <= v && v <= 0x10FFFF)
}

/// An asset file's base name names a glyph when it is a hexadecimal
/// numeral whose value fits in 32 bits and is a Unicode scalar value.
pub open spec fn names_glyph(stem: Seq<char>) -> bool {
    is_hex_string(stem) && hex_value(stem) <= 0xFFFF_FFFF && is_scalar_value(hex_value(stem))
}

/// Relies on char::from_u32: `Some` exactly when the value is a Unicode
/// scalar value (not a surrogate, at most 0x10FFFF), holding the char
/// with that value.
#[verifier::external_body]
fn char_from_u32(v: u32) -> (r: Option<char>)
    ensures
        r is Some <==> is_scalar_value(v as int),
        r matches Some(c) ==> c as u32 == v,
{
    char::from_u32(v)
}

proof fn lemma_hex_value_nonneg(s: Seq<char>)
    requires
        forall|i: int| 0 <= i < s.len() ==> is_hex_digit(s[i]),
    ensures
        hex_value(s) >= 0,
    decreases s.len(),
{
    if s.len() > 0 {
        assert forall|k: int| 0 <= k < s.drop_last().len() implies is_hex_digit(
            s.drop_last()[k],
        ) by {
            assert(s.drop_last()[k] == s[k]);
        }
        lemma_hex_value_nonneg(s.drop_last());
        assert(is_hex_digit(s.last()));
        assert(hex_digit_val(s.last()) >= 0);
    }
}

/// The value of a prefix never exceeds the value of the whole numeral.
proof fn lemma_hex_value_prefix_le(s: Seq<char>, i: int)
    requires
        0 <= i <= s.len(),
        forall|k: int| 0 <= k < s.len() ==> is_hex_digit(s[k]),
    ensures
        hex_value(s.take(i)) <= hex_value(s),
    decreases s.len() - i,
{
    if i == s.len() {
        assert(s.take(i) =~= s);
    } else {
        assert(s.take(i + 1).drop_last() =~= s.take(i));
        assert(s.take(i + 1).last() == s[i]);
        assert forall|k: int| 0 <= k < s.take(i).len() implies is_hex_digit(s.take(i)[k]) by {
            assert(s.take(i)[k] == s[k]);
        }
        lemma_hex_value_nonneg(s.take(i));
        assert(hex_value(s.take(i + 1)) == 16 * hex_value(s.take(i)) + hex_digit_val(s[i]));
        assert(is_hex_digit(s[i]));
        assert(hex_digit_val(s[i]) >= 0);
        assert(hex_value(s.take(i)) <= hex_value(s.take(i + 1)));
        lemma_hex_value_prefix_le(s, i + 1);
    }
}

/// Parses a glyph identifier from an asset file's base name: a hexadecimal
/// numeral read as a Unicode scalar value.
pub fn parse_id(stem: &str) -> (r: Option<char>)
    ensures
        r is Some <==> names_glyph(stem@),
        r matches Some(c) ==> c as u32 == hex_value(stem@),
{
    let len = stem.unicode_len();
    if len == 0 {
        return None;
    }
    let mut acc: u32 = 0;
    let mut i: usize = 0;
    while i < len
        invariant
            0 < len,
            len == stem@.len(),
            i <= len,
            forall|k: int| 0 <= k < i ==> is_hex_digit(stem@[k]),
            acc as int == hex_value(stem@.take(i as int)),
        decreases len - i,
    {
        let ch = stem.get_char(i);
        let v = ch as u32;
        let d: u32;
        if 48 <= v && v <= 57 {
            d = v - 48;
        } else if 97 <= v && v <= 102 {
            d = v - 87;
        } else if 65 <= v && v <= 70 {
            d = v - 55;
        } else {
            proof {
                assert(!is_hex_digit(stem@[i as int]));
            }
            return None;
        }
        proof {
            assert(is_hex_digit(stem@[i as int]));
            assert(d as int == hex_digit_val(stem@[i as int]));
        }
        if acc > (0xFFFF_FFFFu32 - d) / 16 {
            proof {
                assert(stem@.take(i as int + 1).drop_last() =~= stem@.take(i as int));
                assert(stem@.take(i as int + 1).last() == stem@[i as int]);
                assert(hex_value(stem@.take(i as int + 1)) == 16 * (acc as int) + d as int);
                assert(16 * (acc as int) + d as int > 0xFFFF_FFFF) by (nonlinear_arith)
                    requires
                        acc as int > (0xFFFF_FFFF - d as int) / 16,
                        0 <= d as int <= 102,
                ;
                if is_hex_string(stem@) {
                    lemma_hex_value_prefix_le(stem@, i as int + 1);
                }
            }
            return None;
        }
        proof {
            assert(16 * (acc as int) + d as int <= 0xFFFF_FFFF) by (nonlinear_arith)
                requires
                    acc as int <= (0xFFFF_FFFF - d as int) / 16,
                    0 <= d as int <= 102,
            ;
        }
        let next = acc * 16 + d;
        proof {
            assert(stem@.take(i as int + 1).drop_last() =~= stem@.take(i as int));
            assert(stem@.take(i as int + 1).last() == stem@[i as int]);
        }
        acc = next;
        i += 1;
    }
    proof {
        assert(stem@.take(len as int) =~= stem@);
    }
    char_from_u32(acc)
}

} // verus!
