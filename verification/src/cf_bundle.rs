//! Bundle entry points: the packed version number.
//!
//! The bundle lookup itself — main bundle, URLs, the info dictionary — is
//! dynamic-dispatch glue; what is computed here is the packing of the
//! `CFBundleVersion` string, of up to three dot-separated decimal parts,
//! into the guest's packed binary-coded version word.

use vstd::prelude::*;

verus! {

/// An ASCII decimal digit.
pub open spec fn is_digit(c: u8) -> bool {
    48 <= c <= 57
}

/// Every byte is a decimal digit.
pub open spec fn all_digits(s: Seq<u8>) -> bool {
    forall|i: int| 0 <= i < s.len() ==> is_digit(#[trigger] s[i])
}

/// Value of a decimal digit string.
pub open spec fn dec_value(s: Seq<u8>) -> int
    decreases s.len(),
{
    if s.len() == 0 {
        0
    } else {
        dec_value(s.drop_last()) * 10 + (s.last() - 48)
    }
}

/// Index of the first dot at or after `i`, `-1` when there is none.
pub open spec fn first_dot_from(s: Seq<u8>, i: int) -> int
    decreases s.len() - i,
{
    if i < 0 || i >= s.len() {
        -1
    } else if s[i] == 46 {
        i
    } else {
        first_dot_from(s, i + 1)
    }
}

/// The dot-separated parts of a byte string.
pub open spec fn split_dots(s: Seq<u8>) -> Seq<Seq<u8>>
    decreases s.len(),
    via split_dots_dec
{
    let d = first_dot_from(s, 0);
    if d == -1 {
        seq![s]
    } else {
        seq![s.take(d)] + split_dots(s.skip(d + 1))
    }
}

#[via_fn]
proof fn split_dots_dec(s: Seq<u8>) {
    lemma_first_dot_from(s, 0);
}

/// A split always yields at least one part.
proof fn lemma_split_dots_len(s: Seq<u8>)
    ensures
        split_dots(s).len() >= 1,
    decreases s.len(),
{
    let d = first_dot_from(s, 0);
    if d != -1 {
        lemma_first_dot_from(s, 0);
        lemma_split_dots_len(s.skip(d + 1));
    }
}

/// A well-formed version string: one to three non-empty decimal parts, the
/// major part at most 99 and the minor and bug-fix parts at most 9.
pub open spec fn spec_version_ok(s: Seq<u8>) -> bool {
    let parts = split_dots(s);
    &&& 1 <= parts.len() <= 3
    &&& forall|k: int|
        0 <= k < parts.len() ==> (#[trigger] parts[k]).len() > 0 && all_digits(parts[k])
    &&& dec_value(parts[0]) <= 99
    &&& parts.len() >= 2 ==> dec_value(parts[1]) <= 9
    &&& parts.len() == 3 ==> dec_value(parts[2]) <= 9
}

/// The packed version word: a set bit below the fields, the major part in
/// two binary-coded decimal digits, then the minor and bug-fix digits.
pub open spec fn spec_version_number(s: Seq<u8>) -> u32 {
    let parts = split_dots(s);
    let major = dec_value(parts[0]);
    let minor: int = if parts.len() >= 2 {
        dec_value(parts[1])
    } else {
        0
    };
    let bug_fix: int = if parts.len() == 3 {
        dec_value(parts[2])
    } else {
        0
    };
    ((0x8000 + (major / 10) * 0x10000000 + (major % 10) * 0x1000000 + minor * 0x100000 + bug_fix
        * 0x10000) as u32)
}

/// What `first_dot_from` finds.
proof fn lemma_first_dot_from(s: Seq<u8>, i: int)
    requires
        0 <= i,
    ensures
        first_dot_from(s, i) == -1 ==> (forall|k: int| i <= k < s.len() ==> #[trigger] s[k] != 46),
        first_dot_from(s, i) != -1 ==> i <= first_dot_from(s, i) < s.len() && s[first_dot_from(
            s,
            i,
        )] == 46 && (forall|k: int| i <= k < first_dot_from(s, i) ==> #[trigger] s[k] != 46),
    decreases s.len() - i,
{
    if i < s.len() && s[i] != 46 {
        lemma_first_dot_from(s, i + 1);
    }
}

/// Scanning a suffix finds the same dot, shifted.
proof fn lemma_first_dot_skip(s: Seq<u8>, m: int, i: int)
    requires
        0 <= m <= s.len(),
        0 <= i,
    ensures
        first_dot_from(s, m + i) == -1 ==> first_dot_from(s.skip(m), i) == -1,
        first_dot_from(s, m + i) != -1 ==> first_dot_from(s.skip(m), i) == first_dot_from(
            s,
            m + i,
        ) - m,
    decreases s.len() - i - m,
{
    if i < s.skip(m).len() {
        assert(s.skip(m)[i] == s[m + i]);
        if s[m + i] != 46 {
            lemma_first_dot_skip(s, m, i + 1);
        }
    }
}

/// A digit string's value is never negative.
proof fn lemma_dec_value_nonneg(s: Seq<u8>)
    requires
        all_digits(s),
    ensures
        dec_value(s) >= 0,
    decreases s.len(),
{
    if s.len() > 0 {
        assert forall|i: int| 0 <= i < s.drop_last().len() implies is_digit(
            #[trigger] s.drop_last()[i],
        ) by {
            assert(s.drop_last()[i] == s[i]);
        }
        lemma_dec_value_nonneg(s.drop_last());
        assert(is_digit(s.last()));
        assert(dec_value(s.drop_last()) * 10 + (s.last() - 48) >= 0) by (nonlinear_arith)
            requires
                dec_value(s.drop_last()) >= 0,
                is_digit(s.last()),
        ;
    }
}

/// Digit strings have non-negative values that only grow as digits are
/// appended.
proof fn lemma_dec_value_bounds(s: Seq<u8>, k: int)
    requires
        all_digits(s),
        0 <= k <= s.len(),
    ensures
        0 <= dec_value(s.take(k)) <= dec_value(s),
    decreases s.len() - k,
{
    if k == s.len() {
        assert(s.take(k) =~= s);
        lemma_dec_value_nonneg(s);
    } else {
        lemma_dec_value_bounds(s, k + 1);
        assert(s.take(k + 1).drop_last() =~= s.take(k));
        assert(s.take(k + 1).last() == s[k]);
        assert(dec_value(s.take(k + 1)) == dec_value(s.take(k)) * 10 + (s[k] - 48));
        assert(is_digit(s[k]));
        assert(0 <= dec_value(s.take(k)) ==> dec_value(s.take(k)) <= dec_value(s.take(k + 1)))
            by (nonlinear_arith)
            requires
                dec_value(s.take(k + 1)) == dec_value(s.take(k)) * 10 + (s[k] - 48),
                is_digit(s[k]),
        ;
        assert(dec_value(s.take(k)) < 0 ==> dec_value(s.take(k + 1)) < 0) by (nonlinear_arith)
            requires
                dec_value(s.take(k + 1)) == dec_value(s.take(k)) * 10 + (s[k] - 48),
                is_digit(s[k]),
        ;
    }
}

/// Parse the decimal run `vers[start..end)`.
fn parse_decimal(vers: &Vec<u8>, start: usize, end: usize) -> (r: u32)
    requires
        start <= end <= vers@.len(),
        all_digits(vers@.subrange(start as int, end as int)),
        dec_value(vers@.subrange(start as int, end as int)) <= 99,
    ensures
        r == dec_value(vers@.subrange(start as int, end as int)),
{
    let ghost part = vers@.subrange(start as int, end as int);
    let mut acc: u32 = 0;
    let mut j: usize = start;
    proof {
        assert(part.take(0) =~= Seq::<u8>::empty());
    }
    while j < end
        invariant
            start <= j <= end <= vers@.len(),
            part == vers@.subrange(start as int, end as int),
            all_digits(part),
            dec_value(part) <= 99,
            acc == dec_value(part.take(j - start)),
            0 <= acc <= 99,
        decreases end - j,
    {
        let c = vers[j];
        proof {
            assert(part[j - start] == vers@[j as int]);
            assert(is_digit(c));
            lemma_dec_value_bounds(part, j - start + 1);
            lemma_dec_value_bounds(part, j - start);
            assert(part.take(j - start + 1).drop_last() =~= part.take(j - start));
            assert(part.take(j - start + 1).last() == part[j - start]);
        }
        acc = acc * 10 + ((c - 48) as u32);
        j = j + 1;
    }
    proof {
        assert(part.take(end - start) =~= part);
    }
    acc
}

/// Index of the first dot at or after `start`, or the length when none.
fn find_dot(vers: &Vec<u8>, start: usize) -> (r: usize)
    requires
        start <= vers@.len(),
    ensures
        start <= r <= vers@.len(),
        first_dot_from(vers@, start as int) == -1 ==> r == vers@.len(),
        first_dot_from(vers@, start as int) != -1 ==> r == first_dot_from(vers@, start as int),
        r < vers@.len() ==> vers@[r as int] == 46,
    decreases vers@.len() - start,
{
    let n = vers.len();
    let mut i: usize = start;
    while i < n
        invariant
            start <= i <= n,
            n == vers@.len(),
            first_dot_from(vers@, start as int) == first_dot_from(vers@, i as int),
        decreases n - i,
    {
        if vers[i] == 46 {
            return i;
        }
        i = i + 1;
    }
    n
}

/// Pack a `CFBundleVersion` string of up to three dot-separated decimal
/// parts into the guest's packed version word: two binary-coded decimal
/// digits of the major part, one of the minor and one of the bug-fix part,
/// above a single always-set marker bit.
pub fn CFBundleGetVersionNumber(vers: &Vec<u8>) -> (r: u32)
    requires
        spec_version_ok(vers@),
    ensures
        r == spec_version_number(vers@),
{
    let ghost s = vers@;
    let ghost parts = split_dots(s);
    let n = vers.len();
    let d1 = find_dot(vers, 0);
    proof {
        lemma_first_dot_from(s, 0);
    }
    let major: u32;
    let mut minor: u32 = 0;
    let mut bug_fix: u32 = 0;
    let ghost nparts: int = parts.len() as int;
    if d1 == n {
        // a single part
        proof {
            assert(first_dot_from(s, 0) == -1);
            assert(parts =~= seq![s]);
            assert(s.subrange(0, n as int) =~= s);
        }
        major = parse_decimal(vers, 0, n);
        proof {
            assert(major == dec_value(parts[0]));
            assert(parts.len() == 1);
        }
    } else {
        proof {
            assert(first_dot_from(s, 0) == d1 as int);
            let tail = s.skip(d1 as int + 1);
            assert(parts =~= seq![s.take(d1 as int)] + split_dots(tail));
            assert(parts[0] == s.take(d1 as int));
            assert(s.subrange(0, d1 as int) =~= s.take(d1 as int));
        }
        major = parse_decimal(vers, 0, d1);
        let d2 = find_dot(vers, d1 + 1);
        proof {
            let tail = s.skip(d1 as int + 1);
            lemma_first_dot_skip(s, d1 as int + 1, 0);
            lemma_first_dot_from(s, d1 as int + 1);
            if d2 == n {
                assert(first_dot_from(tail, 0) == -1);
                assert(split_dots(tail) =~= seq![tail]);
                assert(parts[1] == tail);
                assert(s.subrange(d1 as int + 1, n as int) =~= tail);
                assert(parts.len() == 2);
            } else {
                assert(first_dot_from(s, d1 as int + 1) == d2 as int);
                assert(first_dot_from(tail, 0) == d2 as int - (d1 as int + 1));
                let tail2 = tail.skip(d2 as int - d1 as int);
                assert(split_dots(tail) =~= seq![tail.take(d2 as int - (d1 as int + 1))]
                    + split_dots(tail2));
                assert(parts[1] == tail.take(d2 as int - (d1 as int + 1)));
                assert(s.subrange(d1 as int + 1, d2 as int) =~= tail.take(
                    d2 as int - (d1 as int + 1),
                ));
                // the third part must hold no further dot: three parts at most
                assert(tail2 =~= s.skip(d2 as int + 1));
                lemma_first_dot_skip(s, d2 as int + 1, 0);
                lemma_first_dot_from(s, d2 as int + 1);
                if first_dot_from(tail2, 0) != -1 {
                    lemma_split_dots_len(tail2.skip(first_dot_from(tail2, 0) + 1));
                    assert(split_dots(tail2).len() >= 2);
                    assert(parts.len() >= 4);
                    assert(false);
                }
                assert(split_dots(tail2) =~= seq![tail2]);
                assert(parts[2] == tail2);
                assert(s.subrange(d2 as int + 1, n as int) =~= tail2);
                assert(parts.len() == 3);
            }
        }
        if d2 == n {
            minor = parse_decimal(vers, d1 + 1, n);
            proof {
                assert(minor == dec_value(parts[1]));
            }
        } else {
            minor = parse_decimal(vers, d1 + 1, d2);
            bug_fix = parse_decimal(vers, d2 + 1, n);
            proof {
                assert(minor == dec_value(parts[1]));
                assert(bug_fix == dec_value(parts[2]));
            }
        }
    }
    let mut result: u32 = 0x8000;
    let a = major / 10;
    let b = major % 10;
    result = result | (a << 28u32);
    result = result | (b << 24u32);
    result = result | (minor << 20u32);
    result = result | (bug_fix << 16u32);
    proof {
        assert(a < 16 && b < 16 && minor < 16 && bug_fix < 16);
        assert((0x8000u32 | (a << 28u32) | (b << 24u32) | (minor << 20u32) | (bug_fix << 16u32))
            == (0x8000 + a * 0x10000000 + b * 0x1000000 + minor * 0x100000 + bug_fix
            * 0x10000) as u32) by (bit_vector)
            requires
                a < 16u32 && b < 16u32 && minor < 16u32 && bug_fix < 16u32,
        ;
        assert(a == dec_value(parts[0]) / 10 && b == dec_value(parts[0]) % 10);
    }
    result
}

} // verus!
