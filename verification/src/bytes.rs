//! Small verified helpers on byte slices and byte vectors: comparison,
//! prefix and substring tests, lexicographic order, and decimal and hex
//! rendering. The rest of the library treats text as bytes, so these stand
//! in for the `str` helpers of std.

use vstd::prelude::*;

verus! {

/// True when the two slices hold the same bytes.
pub fn bytes_eq(a: &[u8], b: &[u8]) -> (r: bool)
    ensures
        r <==> a@ == b@,
{
    if a.len() != b.len() {
        assert(a@.len() != b@.len());
        return false;
    }
    let mut i: usize = 0;
    while i < a.len()
        invariant
            0 <= i <= a@.len(),
            a@.len() == b@.len(),
            forall|j: int| 0 <= j < i ==> a@[j] == b@[j],
        decreases a@.len() - i,
    {
        if a[i] != b[i] {
            return false;
        }
        i += 1;
    }
    assert(a@ =~= b@);
    true
}

/// `p` is a prefix of `a`.
pub open spec fn spec_starts_with(a: Seq<u8>, p: Seq<u8>) -> bool {
    p.len() <= a.len() && a.subrange(0, p.len() as int) == p
}

pub fn starts_with(a: &[u8], p: &[u8]) -> (r: bool)
    ensures
        r <==> spec_starts_with(a@, p@),
{
    if p.len() > a.len() {
        return false;
    }
    let mut i: usize = 0;
    while i < p.len()
        invariant
            0 <= i <= p@.len() <= a@.len(),
            forall|j: int| 0 <= j < i ==> a@[j] == p@[j],
        decreases p@.len() - i,
    {
        if a[i] != p[i] {
            assert(a@.subrange(0, p@.len() as int)[i as int] != p@[i as int]);
            return false;
        }
        i += 1;
    }
    assert(a@.subrange(0, p@.len() as int) =~= p@);
    true
}

/// `s` occurs as a contiguous run inside `a`.
pub open spec fn spec_has_sub(a: Seq<u8>, s: Seq<u8>) -> bool {
    exists|i: int|
        0 <= i && i + s.len() <= a.len() && #[trigger] a.subrange(i, i + s.len() as int) == s
}

/// Substring search by scanning every start position.
pub fn has_sub(a: &[u8], s: &[u8]) -> (r: bool)
    ensures
        r <==> spec_has_sub(a@, s@),
{
    let alen: usize = a.len();
    let slen: usize = s.len();
    if slen > alen {
        return false;
    }
    if slen == 0 {
        assert(spec_has_sub(a@, s@)) by {
            assert(a@.subrange(0, 0 + s@.len() as int) =~= s@);
        }
        return true;
    }
    let mut i: usize = 0;
    let last: usize = alen - slen;
    while i <= last
        invariant
            0 <= i <= last + 1,
            1 <= slen,
            slen == s@.len(),
            alen == a@.len(),
            last + slen == alen,
            forall|k: int|
                0 <= k < i ==> #[trigger] a@.subrange(k, k + s@.len() as int) != s@,
        decreases last + 1 - i,
    {
        let mut j: usize = 0;
        let mut hit = true;
        while j < slen
            invariant
                0 <= j <= slen,
                0 <= i <= last,
                1 <= slen,
                slen == s@.len(),
                alen == a@.len(),
                last + slen == alen,
                hit ==> forall|t: int| 0 <= t < j ==> a@[i + t] == s@[t],
                !hit ==> a@.subrange(i as int, i + s@.len() as int) != s@,
            decreases slen - j,
        {
            if a[i + j] != s[j] {
                assert(a@.subrange(i as int, i + s@.len() as int)[j as int] != s@[j as int]);
                hit = false;
                j = slen;
            } else {
                j += 1;
            }
        }
        if hit {
            assert(a@.subrange(i as int, i + s@.len() as int) =~= s@);
            return true;
        }
        i += 1;
    }
    false
}

/// Strict lexicographic byte order, the order used to break ranking ties.
pub open spec fn spec_lex_lt(a: Seq<u8>, b: Seq<u8>) -> bool
    decreases a.len(),
{
    if b.len() == 0 {
        false
    } else if a.len() == 0 {
        true
    } else if a[0] != b[0] {
        a[0] < b[0]
    } else {
        spec_lex_lt(a.skip(1), b.skip(1))
    }
}

pub fn lex_lt(a: &[u8], b: &[u8]) -> (r: bool)
    ensures
        r <==> spec_lex_lt(a@, b@),
{
    let mut i: usize = 0;
    proof {
        assert(a@.skip(0) =~= a@);
        assert(b@.skip(0) =~= b@);
    }
    loop
        invariant
            0 <= i <= a@.len(),
            0 <= i <= b@.len(),
            forall|j: int| 0 <= j < i ==> a@[j] == b@[j],
            spec_lex_lt(a@, b@) == spec_lex_lt(a@.skip(i as int), b@.skip(i as int)),
        decreases a@.len() - i,
    {
        if i >= b.len() {
            assert(b@.skip(i as int).len() == 0);
            return false;
        }
        if i >= a.len() {
            assert(a@.skip(i as int).len() == 0 && b@.skip(i as int).len() > 0);
            return true;
        }
        let x = a[i];
        let y = b[i];
        assert(a@.skip(i as int)[0] == a@[i as int] && b@.skip(i as int)[0] == b@[i as int]);
        if x != y {
            return x < y;
        }
        assert(a@.skip(i as int).skip(1) =~= a@.skip(i + 1));
        assert(b@.skip(i as int).skip(1) =~= b@.skip(i + 1));
        i += 1;
    }
}

/// Copy of the byte range `[from, to)` of a slice.
pub fn sub_vec(a: &[u8], from: usize, to: usize) -> (r: Vec<u8>)
    requires
        0 <= from <= to <= a@.len(),
    ensures
        r@ == a@.subrange(from as int, to as int),
{
    let s = vstd::slice::slice_subrange(a, from, to);
    vstd::slice::slice_to_vec(s)
}

/// Append every byte of `src` to `dst`.
pub fn push_all(dst: &mut Vec<u8>, src: &[u8])
    ensures
        final(dst)@ == old(dst)@ + src@,
{
    dst.extend_from_slice(src);
    assert(final(dst)@ =~= old(dst)@ + src@);
}

/// The decimal digits of `n`, most significant first.
pub open spec fn spec_dec_digits(n: nat) -> Seq<u8>
    decreases n,
{
    if n < 10 {
        seq![(48 + n) as u8]
    } else {
        spec_dec_digits(n / 10).push((48 + n % 10) as u8)
    }
}

/// Render `n` in decimal ASCII.
pub fn dec_digits(n: u32) -> (r: Vec<u8>)
    ensures
        r@ == spec_dec_digits(n as nat),
{
    let mut rev: Vec<u8> = Vec::new();
    let mut m: u32 = n;
    loop
        invariant_except_break
            spec_dec_digits(n as nat) == spec_dec_digits(m as nat) + rev@.reverse(),
        ensures
            rev@.reverse() == spec_dec_digits(n as nat),
        decreases m,
    {
        let d: u8 = (m % 10) as u8;
        let m2: u32 = m / 10;
        let ghost prev = rev@;
        rev.push(48 + d);
        proof {
            assert(rev@.reverse() =~= seq![(48 + d) as u8] + prev.reverse());
        }
        if m2 == 0 {
            proof {
                assert(spec_dec_digits(m as nat) =~= seq![(48 + d) as u8]);
                assert(spec_dec_digits(n as nat) =~= rev@.reverse());
            }
            break;
        }
        proof {
            assert(spec_dec_digits(m as nat) =~= spec_dec_digits(m2 as nat) + seq![
                (48 + d) as u8,
            ]);
            assert(spec_dec_digits(n as nat) =~= spec_dec_digits(m2 as nat) + rev@.reverse());
        }
        m = m2;
    }
    let mut out: Vec<u8> = Vec::new();
    let mut i: usize = rev.len();
    while i > 0
        invariant
            0 <= i <= rev@.len(),
            out@ == rev@.subrange(i as int, rev@.len() as int).reverse(),
        decreases i,
    {
        i -= 1;
        let b = rev[i];
        out.push(b);
        proof {
            assert(rev@.subrange(i as int, rev@.len() as int).reverse() =~= rev@.subrange(
                i + 1,
                rev@.len() as int,
            ).reverse().push(rev@[i as int]));
        }
    }
    proof {
        assert(rev@.subrange(0, rev@.len() as int) =~= rev@);
    }
    out
}

/// The lowercase hex digit for a value below 16.
pub open spec fn spec_hex_digit(n: u8) -> u8 {
    if n < 10 {
        (48 + n) as u8
    } else {
        (87 + n) as u8
    }
}

/// Lowercase hex rendering, two digits per byte.
pub open spec fn spec_hex_of(s: Seq<u8>) -> Seq<u8>
    decreases s.len(),
{
    if s.len() == 0 {
        Seq::empty()
    } else {
        seq![spec_hex_digit(s[0] / 16), spec_hex_digit(s[0] % 16)] + spec_hex_of(s.skip(1))
    }
}

pub proof fn lemma_hex_of_len(s: Seq<u8>)
    ensures
        spec_hex_of(s).len() == 2 * s.len(),
    decreases s.len(),
{
    if s.len() > 0 {
        lemma_hex_of_len(s.skip(1));
    }
}

/// Render bytes as lowercase hex.
pub fn to_hex(b: &[u8]) -> (r: Vec<u8>)
    ensures
        r@ == spec_hex_of(b@),
{
    let mut out: Vec<u8> = Vec::new();
    let mut i: usize = 0;
    proof {
        assert(b@.skip(0) =~= b@);
    }
    while i < b.len()
        invariant
            0 <= i <= b@.len(),
            spec_hex_of(b@) == out@ + spec_hex_of(b@.skip(i as int)),
        decreases b@.len() - i,
    {
        let x = b[i];
        let hi: u8 = x / 16;
        let lo: u8 = x % 16;
        let hic: u8 = if hi < 10 {
            48 + hi
        } else {
            87 + hi
        };
        let loc: u8 = if lo < 10 {
            48 + lo
        } else {
            87 + lo
        };
        proof {
            let t = b@.skip(i as int);
            assert(t[0] == b@[i as int]);
            assert(t.skip(1) =~= b@.skip(i + 1));
            assert(spec_hex_of(t) == seq![spec_hex_digit(t[0] / 16), spec_hex_digit(t[0] % 16)]
                + spec_hex_of(b@.skip(i + 1)));
            assert(out@ + spec_hex_of(t) =~= (out@ + seq![
                spec_hex_digit(t[0] / 16),
                spec_hex_digit(t[0] % 16),
            ]) + spec_hex_of(b@.skip(i + 1)));
            assert(out@.push(hic).push(loc) =~= out@ + seq![hic, loc]);
        }
        out.push(hic);
        out.push(loc);
        i += 1;
    }
    proof {
        assert(b@.skip(b@.len() as int) =~= Seq::<u8>::empty());
        assert(out@ + Seq::<u8>::empty() =~= out@);
    }
    out
}

} // verus!
