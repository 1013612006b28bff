//! Colors written as `#rrggbb` hex strings, decoded to channel bytes.
use vstd::prelude::*;

use crate::strutil::chars_of;

verus! {

/// A hexadecimal digit.
pub open spec fn is_hex_digit(c: char) -> bool {
    (48 <= (c as u32) <= 57) || (97 <= (c as u32) <= 102) || (65 <= (c as u32) <= 70)
}

pub open spec fn hex_digit_val(c: char) -> int {
    if 48 <= (c as u32) <= 57 {
        (c as u32) - 48
    } else if 97 <= (c as u32) <= 102 {
        (c as u32) - 87
    } else {
        (c as u32) - 55
    }
}

/// The value of a hex numeral, read left to right.
pub open spec fn hex_val(s: Seq<char>) -> int
    decreases s,
{
    if s.len() == 0 {
        0
    } else {
        hex_val(s.drop_last()) * 16 + hex_digit_val(s.last())
    }
}

pub open spec fn all_hex_digits(s: Seq<char>) -> bool {
    forall|i: int| 0 <= i < s.len() ==> is_hex_digit(#[trigger] s[i])
}

/// The characters left when every leading `#` has been stripped.
pub open spec fn strip_hash(s: Seq<char>) -> Seq<char>
    decreases s,
{
    if s.len() >= 1 && s[0] == '#' {
        strip_hash(s.drop_first())
    } else {
        s
    }
}

/// The packed value of a color string: its characters with every leading
/// `#` stripped, read as a hex numeral.  Nothing when what is left is
/// empty, holds a non-digit, or does not fit in 32 bits.
pub open spec fn color_value(s: Seq<char>) -> Option<u32> {
    let t = strip_hash(s);
    if t.len() > 0 && all_hex_digits(t) && hex_val(t) <= u32::MAX {
        Some(hex_val(t) as u32)
    } else {
        None
    }
}

/// The red, green and blue channel bytes of a packed color value.
pub open spec fn channels_of(c: u32) -> (u8, u8, u8) {
    (((c >> 16) as u8) & 0xFF, ((c >> 8) as u8) & 0xFF, (c as u8) & 0xFF)
}

proof fn lemma_hex_val_nonneg(s: Seq<char>)
    requires
        all_hex_digits(s),
    ensures
        hex_val(s) >= 0,
    decreases s,
{
    if s.len() > 0 {
        assert(all_hex_digits(s.drop_last()));
        lemma_hex_val_nonneg(s.drop_last());
    }
}

proof fn lemma_hex_val_grow(s: Seq<char>, i: int)
    requires
        all_hex_digits(s),
        0 <= i <= s.len(),
    ensures
        hex_val(s) >= hex_val(s.take(i)),
    decreases s.len() - i,
{
    if i < s.len() {
        lemma_hex_val_grow(s, i + 1);
        assert(s.take(i + 1).drop_last() =~= s.take(i));
        assert(s.take(i + 1).last() == s[i]);
        assert(all_hex_digits(s.take(i)));
        lemma_hex_val_nonneg(s.take(i));
    } else {
        assert(s.take(i) =~= s);
    }
}

/// Reads a color string such as `#ffcc00` as its packed 32-bit value.
pub fn parse_color(s: &str) -> (r: Option<u32>)
    ensures
        r == color_value(s@),
{
    let cs = chars_of(s);
    let n = cs.len();
    let mut start: usize = 0;
    proof {
        assert(cs@.skip(0) =~= cs@);
    }
    while start < n && cs[start] == '#'
        invariant
            cs@ == s@,
            n == cs@.len(),
            start <= n,
            strip_hash(cs@.skip(start as int)) == strip_hash(s@),
        decreases n - start,
    {
        proof {
            let t = cs@.skip(start as int);
            assert(t[0] == cs@[start as int]);
            assert(t.drop_first() =~= cs@.skip(start as int + 1));
        }
        start = start + 1;
    }
    let ghost t = strip_hash(s@);
    proof {
        assert(cs@.skip(start as int) == t);
    }
    if start == n {
        return None;
    }
    let mut value: u32 = 0;
    let mut i: usize = start;
    proof {
        assert(t.take(0) =~= Seq::<char>::empty());
    }
    while i < n
        invariant
            cs@ == s@,
            n == cs@.len(),
            start <= i <= n,
            start < n,
            t == strip_hash(s@),
            t == cs@.skip(start as int),
            all_hex_digits(t.take(i - start)),
            value == hex_val(t.take(i - start)),
        decreases n - i,
    {
        let c = cs[i];
        let u = c as u32;
        let d: u32 = if 48 <= u && u <= 57 {
            u - 48
        } else if 97 <= u && u <= 102 {
            u - 87
        } else if 65 <= u && u <= 70 {
            u - 55
        } else {
            proof {
                assert(t[i - start] == cs@[i as int]);
                assert(!is_hex_digit(t[i - start]));
            }
            return None;
        };
        proof {
            assert(t[i - start] == cs@[i as int]);
            assert(is_hex_digit(t[i - start]));
            assert(d as int == hex_digit_val(t[i - start]));
            assert(t.take(i - start + 1).drop_last() =~= t.take(i - start));
            assert(t.take(i - start + 1).last() == t[i - start]);
        }
        let next = match value.checked_mul(16) {
            Some(v) => v.checked_add(d),
            None => None,
        };
        match next {
            Some(v) => {
                value = v;
            },
            None => {
                proof {
                    if all_hex_digits(t) {
                        lemma_hex_val_grow(t, i - start + 1);
                        lemma_hex_val_nonneg(t.take(i - start));
                        assert(hex_val(t) > u32::MAX);
                    }
                }
                return None;
            },
        }
        i = i + 1;
    }
    proof {
        assert(t.take(n - start) =~= t);
    }
    Some(value)
}

/// The channel bytes of a packed color value: alpha is always opaque and
/// is not returned.
pub fn color_channels(c: u32) -> (r: (u8, u8, u8))
    ensures
        r == channels_of(c),
{
    (((c >> 16) as u8) & 0xFF, ((c >> 8) as u8) & 0xFF, (c as u8) & 0xFF)
}

} // verus!
