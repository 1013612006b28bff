//! Verified helpers on characters and strings: whitespace classification,
//! character extraction, equality, prefix tests and decimal digits.
use vstd::prelude::*;

verus! {

/// The characters with the Unicode `White_Space` property, which is what
/// `char::is_whitespace` recognises.
pub open spec fn is_space_char(c: char) -> bool {
    (c as u32) == 0x20 || (c as u32) == 0x09 || (c as u32) == 0x0a || (c as u32) == 0x0b || (
    c as u32) == 0x0c || (c as u32) == 0x0d || (c as u32) == 0x85 || (c as u32) == 0xa0 || (
    c as u32) == 0x1680 || (0x2000 <= (c as u32) && (c as u32) <= 0x200a) || (c as u32) == 0x2028
        || (c as u32) == 0x2029 || (c as u32) == 0x202f || (c as u32) == 0x205f || (c as u32)
        == 0x3000
}

pub fn is_space(c: char) -> (r: bool)
    ensures
        r == is_space_char(c),
{
    let u = c as u32;
    u == 0x20 || u == 0x09 || u == 0x0a || u == 0x0b || u == 0x0c || u == 0x0d || u == 0x85 || u
        == 0xa0 || u == 0x1680 || (0x2000 <= u && u <= 0x200a) || u == 0x2028 || u == 0x2029 || u
        == 0x202f || u == 0x205f || u == 0x3000
}

/// The characters of a string, in order, as a vector.
pub fn chars_of(s: &str) -> (r: Vec<char>)
    ensures
        r@ == s@,
{
    let n = s.unicode_len();
    let mut r: Vec<char> = Vec::new();
    let mut i: usize = 0;
    while i < n
        invariant
            n == s@.len(),
            i <= n,
            r@ == s@.take(i as int),
        decreases n - i,
    {
        let c = s.get_char(i);
        r.push(c);
        i = i + 1;
    }
    proof {
        assert(s@.take(n as int) =~= s@);
    }
    r
}

/// Relies on `String::push`: appends one character at the end of the string.
#[verifier::external_body]
pub(crate) fn push_char(s: &mut String, c: char)
    ensures
        final(s)@ == old(s)@.push(c),
{
    s.push(c);
}

/// A fresh string holding the characters `cs[from..to]`.
pub fn string_from_range(cs: &Vec<char>, from: usize, to: usize) -> (r: String)
    requires
        from <= to <= cs@.len(),
    ensures
        r@ == cs@.subrange(from as int, to as int),
{
    let mut r = String::new();
    let mut i: usize = from;
    while i < to
        invariant
            from <= i <= to <= cs@.len(),
            r@ == cs@.subrange(from as int, i as int),
        decreases to - i,
    {
        push_char(&mut r, cs[i]);
        proof {
            assert(cs@.subrange(from as int, i as int).push(cs@[i as int]) =~= cs@.subrange(
                from as int,
                (i + 1) as int,
            ));
        }
        i = i + 1;
    }
    r
}

/// Character-for-character string equality.
pub fn str_eq(a: &str, b: &str) -> (r: bool)
    ensures
        r == (a@ == b@),
{
    let na = a.unicode_len();
    let nb = b.unicode_len();
    if na != nb {
        return false;
    }
    let mut i: usize = 0;
    while i < na
        invariant
            na == a@.len(),
            na == b@.len(),
            i <= na,
            forall|j: int| 0 <= j < i ==> a@[j] == b@[j],
        decreases na - i,
    {
        if a.get_char(i) != b.get_char(i) {
            return false;
        }
        i = i + 1;
    }
    proof {
        assert(a@ =~= b@);
    }
    true
}

/// Whether `p` is a prefix of `k`.
pub open spec fn is_prefix(p: Seq<char>, k: Seq<char>) -> bool {
    p.len() <= k.len() && k.subrange(0, p.len() as int) == p
}

pub fn starts_with_str(k: &str, p: &str) -> (r: bool)
    ensures
        r == is_prefix(p@, k@),
{
    let np = p.unicode_len();
    let nk = k.unicode_len();
    if np > nk {
        return false;
    }
    let mut i: usize = 0;
    while i < np
        invariant
            np == p@.len(),
            nk == k@.len(),
            np <= nk,
            i <= np,
            forall|j: int| 0 <= j < i ==> k@[j] == p@[j],
        decreases np - i,
    {
        if k.get_char(i) != p.get_char(i) {
            proof {
                assert(k@.subrange(0, np as int)[i as int] != p@[i as int]);
            }
            return false;
        }
        i = i + 1;
    }
    proof {
        assert(k@.subrange(0, np as int) =~= p@);
    }
    true
}

/// Ancestor names joined with `:` between them.
pub open spec fn join_names(ns: Seq<Seq<char>>) -> Seq<char>
    decreases ns,
{
    if ns.len() == 0 {
        Seq::empty()
    } else if ns.len() == 1 {
        ns[0]
    } else {
        join_names(ns.drop_last()) + seq![':'] + ns.last()
    }
}

/// Joins names with `:` between them.
pub fn join_colon(names: &Vec<String>) -> (r: String)
    ensures
        r@ == join_names(names.deep_view()),
{
    let ghost ns = names.deep_view();
    let n = names.len();
    let mut r = String::new();
    let mut i: usize = 0;
    while i < n
        invariant
            ns == names.deep_view(),
            n == names@.len(),
            i <= n,
            r@ == join_names(ns.take(i as int)),
        decreases n - i,
    {
        proof {
            assert(ns.take(i as int + 1).drop_last() =~= ns.take(i as int));
            assert(ns.take(i as int + 1).last() == ns[i as int]);
            assert(ns[i as int] == names@[i as int]@);
        }
        if i > 0 {
            push_char(&mut r, ':');
        }
        r.append(names[i].as_str());
        proof {
            if i == 0 {
                assert(join_names(ns.take(1)) == ns[0]);
                assert(r@ =~= join_names(ns.take(1)));
            } else {
                assert(r@ =~= join_names(ns.take(i as int)) + seq![':'] + ns[i as int]);
            }
        }
        i = i + 1;
    }
    proof {
        assert(ns.take(n as int) =~= ns);
    }
    r
}

/// Joining one more name appends a separator and the name.
pub proof fn lemma_join_push(ns: Seq<Seq<char>>, x: Seq<char>)
    ensures
        join_names(ns.push(x)) == if ns.len() == 0 {
            x
        } else {
            join_names(ns) + seq![':'] + x
        },
{
    let p = ns.push(x);
    assert(p.last() == x);
    assert(p.drop_last() =~= ns);
    if ns.len() == 0 {
        assert(p.len() == 1);
        assert(p[0] == x);
    }
}

/// The decimal digit character for a value below ten.
pub open spec fn dec_digit(d: int) -> char {
    ((48 + d) as u8) as char
}

/// The decimal numeral of a non-negative number, most significant digit
/// first.
pub open spec fn dec_str(n: int) -> Seq<char>
    decreases n,
{
    if n < 0 {
        Seq::empty()
    } else if n < 10 {
        seq![dec_digit(n)]
    } else {
        dec_str(n / 10).push(dec_digit(n % 10))
    }
}

/// The decimal numeral of a number.
pub fn usize_to_string(n: usize) -> (r: String)
    ensures
        r@ == dec_str(n as int),
    decreases n,
{
    let d = (n % 10) as u8 + 48;
    let c = d as char;
    proof {
        assert(c == dec_digit(n as int % 10));
    }
    if n < 10 {
        let mut s = String::new();
        push_char(&mut s, c);
        proof {
            assert(s@ =~= dec_str(n as int));
        }
        s
    } else {
        let mut s = usize_to_string(n / 10);
        push_char(&mut s, c);
        proof {
            assert(s@ =~= dec_str(n as int));
        }
        s
    }
}

/// A decimal digit.
pub open spec fn is_digit(c: char) -> bool {
    48 <= (c as u32) <= 57
}

pub open spec fn digit_val(c: char) -> int {
    (c as u32) - 48
}

pub open spec fn all_digits(s: Seq<char>) -> bool {
    forall|i: int| 0 <= i < s.len() ==> is_digit(#[trigger] s[i])
}

/// The value of a numeral, read left to right.
pub open spec fn digits_val(s: Seq<char>) -> int
    decreases s,
{
    if s.len() == 0 {
        0
    } else {
        digits_val(s.drop_last()) * 10 + digit_val(s.last())
    }
}

proof fn lemma_digits_val_nonneg(s: Seq<char>)
    requires
        all_digits(s),
    ensures
        digits_val(s) >= 0,
    decreases s,
{
    if s.len() > 0 {
        assert(all_digits(s.drop_last()));
        lemma_digits_val_nonneg(s.drop_last());
    }
}

/// With more digits behind it, a numeral's value only grows.
proof fn lemma_digits_val_grow(s: Seq<char>, i: int)
    requires
        all_digits(s),
        0 <= i <= s.len(),
    ensures
        digits_val(s) >= digits_val(s.take(i)),
    decreases s.len() - i,
{
    if i < s.len() {
        lemma_digits_val_grow(s, i + 1);
        assert(s.take(i + 1).drop_last() =~= s.take(i));
        assert(s.take(i + 1).last() == s[i]);
        assert(all_digits(s.take(i)));
        lemma_digits_val_nonneg(s.take(i));
    } else {
        assert(s.take(i) =~= s);
    }
}

/// The characters left when every trailing `px` has been stripped.
pub open spec fn strip_px(s: Seq<char>) -> Seq<char>
    decreases s,
{
    if s.len() >= 2 && s[s.len() - 2] == 'p' && s[s.len() - 1] == 'x' {
        strip_px(s.subrange(0, s.len() - 2))
    } else {
        s
    }
}

/// The numeric pixel value of an override string: its characters with every
/// trailing `px` stripped, read as a decimal numeral.  Nothing when what is
/// left is empty, holds a non-digit, or does not fit.  Spacing is measured
/// in whole units, so a fractional form such as `12.5px` is not a pixel
/// number here and yields nothing.
pub open spec fn px_value(s: Seq<char>) -> Option<u32> {
    let t = strip_px(s);
    if t.len() > 0 && all_digits(t) && digits_val(t) <= u32::MAX {
        Some(digits_val(t) as u32)
    } else {
        None
    }
}

/// Reads an override string such as `12px` as a number of pixels.
pub fn parse_px(s: &str) -> (r: Option<u32>)
    ensures
        r == px_value(s@),
{
    let cs = chars_of(s);
    let n = cs.len();
    let mut end: usize = n;
    proof {
        assert(cs@.take(n as int) =~= cs@);
    }
    while end >= 2 && cs[end - 2] == 'p' && cs[end - 1] == 'x'
        invariant
            cs@ == s@,
            n == cs@.len(),
            end <= n,
            strip_px(cs@.take(end as int)) == strip_px(s@),
        decreases end,
    {
        proof {
            let t = cs@.take(end as int);
            assert(t[t.len() - 2] == 'p' && t[t.len() - 1] == 'x');
            assert(t.subrange(0, t.len() - 2) =~= cs@.take(end as int - 2));
        }
        end = end - 2;
    }
    let ghost t = strip_px(s@);
    proof {
        assert(cs@.take(end as int) == t);
    }
    if end == 0 {
        return None;
    }
    let mut value: u32 = 0;
    let mut i: usize = 0;
    while i < end
        invariant
            cs@ == s@,
            n == cs@.len(),
            0 < end <= n,
            t == strip_px(s@),
            t == cs@.take(end as int),
            i <= end,
            all_digits(t.take(i as int)),
            value == digits_val(t.take(i as int)),
        decreases end - i,
    {
        let c = cs[i];
        let u = c as u32;
        proof {
            assert(t[i as int] == cs@[i as int]);
            assert(t.take(i as int + 1).drop_last() =~= t.take(i as int));
            assert(t.take(i as int + 1).last() == t[i as int]);
        }
        if u < 48 || u > 57 {
            return None;
        }
        let d = u - 48;
        let next = match value.checked_mul(10) {
            Some(v) => v.checked_add(d),
            None => None,
        };
        match next {
            Some(v) => {
                value = v;
            },
            None => {
                proof {
                    if all_digits(t) {
                        lemma_digits_val_grow(t, i as int + 1);
                        lemma_digits_val_nonneg(t.take(i as int));
                        assert(digits_val(t.take(i as int + 1)) > u32::MAX);
                        assert(digits_val(t) > u32::MAX);
                    }
                }
                return None;
            },
        }
        i = i + 1;
    }
    proof {
        assert(t.take(end as int) =~= t);
    }
    Some(value)
}

} // verus!
