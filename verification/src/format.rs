//! Human-readable byte sizes: `1023 B`, `1.5 KB`, `2.0 MB`, `3.4 GB`, with
//! one decimal place above the byte range.

use vstd::prelude::*;

verus! {

/// The decimal digits of `n`, most significant first.
pub open spec fn spec_dec_digits64(n: nat) -> Seq<u8>
    decreases n,
{
    if n < 10 {
        seq![(48 + n) as u8]
    } else {
        spec_dec_digits64(n / 10).push((48 + n % 10) as u8)
    }
}

fn dec_digits64(n: u64) -> (r: Vec<u8>)
    ensures
        r@ == spec_dec_digits64(n as nat),
{
    let mut rev: Vec<u8> = Vec::new();
    let mut m: u64 = n;
    loop
        invariant_except_break
            spec_dec_digits64(n as nat) == spec_dec_digits64(m as nat) + rev@.reverse(),
        ensures
            rev@.reverse() == spec_dec_digits64(n as nat),
        decreases m,
    {
        let d: u8 = (m % 10) as u8;
        let m2: u64 = m / 10;
        let ghost prev = rev@;
        rev.push(48 + d);
        proof {
            assert(rev@.reverse() =~= seq![(48 + d) as u8] + prev.reverse());
        }
        if m2 == 0 {
            proof {
                assert(spec_dec_digits64(m as nat) =~= seq![(48 + d) as u8]);
                assert(spec_dec_digits64(n as nat) =~= rev@.reverse());
            }
            break;
        }
        proof {
            assert(spec_dec_digits64(m as nat) =~= spec_dec_digits64(m2 as nat) + seq![
                (48 + d) as u8,
            ]);
            assert(spec_dec_digits64(n as nat) =~= spec_dec_digits64(m2 as nat)
                + rev@.reverse());
        }
        m = m2;
    }
    let mut out: Vec<u8> = Vec::new();
    let mut i: usize = rev.len();
    while i > 0
        invariant
            0 <= i <= rev@.len(),
            out@ == rev@.subrange(i as int, rev@.len() as int).reverse(),
        decreases i,
    {
        i -= 1;
        let b = rev[i];
        out.push(b);
        proof {
            assert(rev@.subrange(i as int, rev@.len() as int).reverse() =~= rev@.subrange(
                i + 1,
                rev@.len() as int,
            ).reverse().push(rev@[i as int]));
        }
    }
    proof {
        assert(rev@.subrange(0, rev@.len() as int) =~= rev@);
    }
    out
}

/// The value in tenths of a unit: `bytes * 10 / unit`, exact.
pub open spec fn spec_tenths(bytes: nat, unit: nat) -> int {
    (bytes * 10) as int / (unit as int)
}

/// A size with one decimal place and a unit suffix: the digits of the whole
/// part, a dot, one fractional digit, a space and the suffix.
pub open spec fn spec_scaled(bytes: nat, unit: nat, suffix: Seq<u8>) -> Seq<u8> {
    spec_dec_digits64((spec_tenths(bytes, unit) / 10) as nat) + seq![46u8] + seq![
        (48 + spec_tenths(bytes, unit) % 10) as u8,
    ] + seq![32u8] + suffix
}

/// The rendering of a byte count: plain bytes below one KB, else one
/// decimal place of KB, MB or GB.
pub open spec fn spec_format_size(bytes: nat) -> Seq<u8> {
    if bytes < 1024 {
        spec_dec_digits64(bytes) + seq![32u8, 66u8]
    } else if bytes < 0x100000 {
        spec_scaled(bytes, 1024, seq![75u8, 66u8])
    } else if bytes < 0x40000000 {
        spec_scaled(bytes, 0x100000, seq![77u8, 66u8])
    } else {
        spec_scaled(bytes, 0x40000000, seq![71u8, 66u8])
    }
}

/// Computes `bytes * 10 / unit` without overflowing, by splitting the
/// division.
fn tenths(bytes: u64, unit: u64) -> (r: u64)
    requires
        1 <= unit <= 0x4000_0000,
        bytes as int * 10 / (unit as int) <= u64::MAX,
    ensures
        r as int == spec_tenths(bytes as nat, unit as nat),
{
    let q = bytes / unit;
    let rem = bytes % unit;
    proof {
        assert(rem * 10 < unit * 10) by (nonlinear_arith)
            requires
                rem < unit && unit >= 1,
        ;
        assert((q * unit + rem) * 10 == q * 10 * unit + rem * 10) by (nonlinear_arith);
        assert(bytes == q * unit + rem) by (nonlinear_arith)
            requires
                q == bytes / unit && rem == bytes % unit && unit >= 1,
        ;
        assert((bytes as int * 10) / (unit as int) == q * 10 + (rem * 10) / (unit as int))
            by (nonlinear_arith)
            requires
                unit >= 1 && bytes == q * unit + rem && 0 <= rem < unit,
        ;
        assert(q * 10 <= bytes as int * 10 / (unit as int)) by (nonlinear_arith)
            requires
                unit >= 1 && (bytes as int * 10) / (unit as int) == q * 10 + (rem * 10) / (
                unit as int) && 0 <= rem,
        ;
    }
    q * 10 + (rem * 10) / unit
}

/// Renders a byte count for people: `{n} B` under a KB, else `{x.y} KB`,
/// `MB` or `GB`.
#[verifier::rlimit(100)]
pub fn format_size(bytes: u64) -> (r: Vec<u8>)
    ensures
        r@ == spec_format_size(bytes as nat),
{
    if bytes < 1024 {
        let mut out = dec_digits64(bytes);
        out.push(32);
        out.push(66);
        proof {
            assert(out@ =~= spec_format_size(bytes as nat));
        }
        out
    } else {
        let unit: u64 = if bytes < 0x100000 {
            1024
        } else if bytes < 0x40000000 {
            0x100000
        } else {
            0x40000000
        };
        proof {
            assert(bytes as int * 10 / (unit as int) <= u64::MAX) by (nonlinear_arith)
                requires
                    unit >= 1024 && bytes <= u64::MAX,
            ;
        }
        let t = tenths(bytes, unit);
        let mut out = dec_digits64(t / 10);
        out.push(46);
        out.push(48 + (t % 10) as u8);
        out.push(32);
        if unit == 1024 {
            out.push(75);
        } else if unit == 0x100000 {
            out.push(77);
        } else {
            out.push(71);
        }
        out.push(66);
        proof {
            assert(t as int / 10 == spec_tenths(bytes as nat, unit as nat) / 10);
            assert(out@ =~= spec_format_size(bytes as nat));
        }
        out
    }
}

} // verus!
