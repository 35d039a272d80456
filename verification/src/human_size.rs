//! Human-readable file sizes for the catalog listing.
//!
//! A size is shown as its value divided down by 1024 at most three times —
//! stopping as soon as it falls under 1024 — with the matching suffix:
//! bytes, kilobytes, megabytes or gigabytes.

use vstd::arithmetic::div_mod::lemma_div_denominator;
use vstd::prelude::*;
use vstd::string::StringExecFns;

verus! {

/// The decimal digit character for `d`.
pub open spec fn dec_digit(d: int) -> char {
    if d == 0 {
        '0'
    } else if d == 1 {
        '1'
    } else if d == 2 {
        '2'
    } else if d == 3 {
        '3'
    } else if d == 4 {
        '4'
    } else if d == 5 {
        '5'
    } else if d == 6 {
        '6'
    } else if d == 7 {
        '7'
    } else if d == 8 {
        '8'
    } else {
        '9'
    }
}

/// The decimal digits of `x`, most significant first, no leading zeros
/// (a lone zero for zero).
pub open spec fn dec_str(x: nat) -> Seq<char>
    decreases x,
{
    if x < 10 {
        seq![dec_digit(x as int)]
    } else {
        dec_str(x / 10) + seq![dec_digit((x % 10) as int)]
    }
}

/// Which suffix a size gets: 0 bytes, 1 kilobytes, 2 megabytes,
/// 3 gigabytes.
pub open spec fn size_bucket(x: u64) -> int {
    if x < 1024 {
        0
    } else if x < 1048576 {
        1
    } else if x < 1073741824 {
        2
    } else {
        3
    }
}

/// 1024 raised to the bucket.
pub open spec fn bucket_unit(b: int) -> u64 {
    if b == 0 {
        1u64
    } else if b == 1 {
        1024u64
    } else if b == 2 {
        1048576u64
    } else {
        1073741824u64
    }
}

/// The suffix characters of a bucket.
pub open spec fn suffix_chars(b: int) -> Seq<char> {
    if b == 0 {
        seq!['B']
    } else if b == 1 {
        seq!['K', 'B']
    } else if b == 2 {
        seq!['M', 'B']
    } else {
        seq!['G', 'B']
    }
}

/// The characters `format_size` shows for `x`: the size divided by its
/// bucket's unit, in decimal, then the bucket's suffix.
pub open spec fn format_size_spec(x: u64) -> Seq<char> {
    dec_str((x / bucket_unit(size_bucket(x))) as nat) + suffix_chars(size_bucket(x))
}

/// One decimal digit as text.
fn digit_str(d: u64) -> (r: &'static str)
    requires
        d < 10,
    ensures
        r@ == seq![dec_digit(d as int)],
{
    let r: &'static str = if d == 0 {
        "0"
    } else if d == 1 {
        "1"
    } else if d == 2 {
        "2"
    } else if d == 3 {
        "3"
    } else if d == 4 {
        "4"
    } else if d == 5 {
        "5"
    } else if d == 6 {
        "6"
    } else if d == 7 {
        "7"
    } else if d == 8 {
        "8"
    } else {
        "9"
    };
    proof {
        reveal_strlit("0");
        reveal_strlit("1");
        reveal_strlit("2");
        reveal_strlit("3");
        reveal_strlit("4");
        reveal_strlit("5");
        reveal_strlit("6");
        reveal_strlit("7");
        reveal_strlit("8");
        reveal_strlit("9");
        assert(r@ =~= seq![dec_digit(d as int)]);
    }
    r
}

/// Append the decimal digits of `x`.
fn push_decimal(out: &mut String, x: u64)
    ensures
        final(out)@ == old(out)@ + dec_str(x as nat),
    decreases x,
{
    if x >= 10 {
        push_decimal(out, x / 10);
    }
    let s = digit_str(x % 10);
    out.append(s);
    proof {
        assert(out@ =~= old(out)@ + dec_str(x as nat));
    }
}

/// A size as text: the value divided down by 1024 at most three times,
/// then `B`, `KB`, `MB` or `GB`.
pub fn format_size(x: u64) -> (r: String)
    ensures
        r@ == format_size_spec(x),
{
    let mut v = x;
    let mut current: usize = 0;
    while current + 1 < 4 && v >= 1024
        invariant
            current <= 3,
            v == x / bucket_unit(current as int),
            current as int <= size_bucket(x),
        decreases 3 - current,
    {
        proof {
            if current as int >= size_bucket(x) {
                assert(x / bucket_unit(current as int) < 1024) by (nonlinear_arith)
                    requires
                        x < 1024 * bucket_unit(current as int),
                        bucket_unit(current as int) >= 1,
                ;
                assert(false);
            }
            lemma_div_denominator(x as int, bucket_unit(current as int) as int, 1024);
            assert(bucket_unit(current as int) * 1024 == bucket_unit(current as int + 1));
        }
        v = v / 1024;
        current = current + 1;
    }
    proof {
        if (current as int) < size_bucket(x) {
            assert(x / bucket_unit(current as int) >= 1024) by (nonlinear_arith)
                requires
                    x >= 1024 * bucket_unit(current as int),
                    bucket_unit(current as int) >= 1,
            ;
            assert(false);
        }
    }
    let mut r = String::new();
    push_decimal(&mut r, v);
    let suffix: &'static str = if current == 0 {
        "B"
    } else if current == 1 {
        "KB"
    } else if current == 2 {
        "MB"
    } else {
        "GB"
    };
    proof {
        reveal_strlit("B");
        reveal_strlit("KB");
        reveal_strlit("MB");
        reveal_strlit("GB");
        assert(suffix@ =~= suffix_chars(current as int));
    }
    r.append(suffix);
    proof {
        assert(r@ =~= format_size_spec(x));
    }
    r
}

} // verus!
