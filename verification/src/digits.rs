use vstd::prelude::*;

verus! {

/// The decimal digits of `n`, most significant first, as ASCII bytes.
pub open spec fn dec_u(n: nat) -> Seq<u8>
    decreases n,
{
    if n < 10 {
        seq![(48 + n) as u8]
    } else {
        dec_u(n / 10) + seq![(48 + n % 10) as u8]
    }
}

/// The decimal form of a signed number: a leading `-` for negatives.
pub open spec fn dec_i(n: int) -> Seq<u8> {
    if n < 0 {
        seq![45u8] + dec_u((-n) as nat)
    } else {
        dec_u(n as nat)
    }
}

/// `k` ASCII zero bytes.
pub open spec fn zeros(k: nat) -> Seq<u8> {
    Seq::new(k, |i: int| 48u8)
}

/// `s` left-padded with ASCII zeros to width `w` (unchanged when already
/// that wide).
pub open spec fn zpad(s: Seq<u8>, w: nat) -> Seq<u8> {
    if s.len() >= w {
        s
    } else {
        zeros((w - s.len()) as nat) + s
    }
}

/// `n` in decimal, zero-padded to width `w`.
pub open spec fn dec_pad(n: nat, w: nat) -> Seq<u8> {
    zpad(dec_u(n), w)
}

/// Every byte of the decimal form is an ASCII digit.
pub proof fn lemma_dec_u_digits(n: nat)
    ensures
        forall|i: int| 0 <= i < dec_u(n).len() ==> 48 <= #[trigger] dec_u(n)[i] <= 57,
        dec_u(n).len() >= 1,
    decreases n,
{
    if n >= 10 {
        lemma_dec_u_digits(n / 10);
    }
}

/// Append `k` ASCII zero bytes to `out`.
pub fn push_zeros(out: &mut Vec<u8>, k: usize)
    ensures
        final(out)@ == old(out)@ + zeros(k as nat),
{
    let mut i: usize = 0;
    while i < k
        invariant
            i <= k,
            out@ =~= old(out)@ + zeros(i as nat),
        decreases k - i,
    {
        out.push(48);
        assert(out@ =~= old(out)@ + zeros((i + 1) as nat));
        i = i + 1;
    }
}

/// A byte-for-byte copy of `b`.
pub fn copy_bytes(b: &Vec<u8>) -> (r: Vec<u8>)
    ensures
        r@ == b@,
{
    let mut r: Vec<u8> = Vec::new();
    let mut i: usize = 0;
    while i < b.len()
        invariant
            i <= b@.len(),
            r@ =~= b@.take(i as int),
        decreases b@.len() - i,
    {
        r.push(b[i]);
        assert(r@ =~= b@.take(i + 1));
        i = i + 1;
    }
    assert(r@ =~= b@);
    r
}

/// The decimal digits of `n`, as an exec value.
pub fn fmt_u64(n: u64) -> (r: Vec<u8>)
    ensures
        r@ == dec_u(n as nat),
    decreases n,
{
    if n < 10 {
        let mut v: Vec<u8> = Vec::new();
        v.push(48 + (n as u8));
        assert(v@ =~= dec_u(n as nat));
        v
    } else {
        let mut v = fmt_u64(n / 10);
        v.push(48 + ((n % 10) as u8));
        assert(v@ =~= dec_u(n as nat));
        v
    }
}

/// The decimal form of a signed 64-bit number.
pub fn fmt_i64(n: i64) -> (r: Vec<u8>)
    ensures
        r@ == dec_i(n as int),
{
    if n >= 0 {
        fmt_u64(n as u64)
    } else {
        let m: u64 = (-(n as i128)) as u64;
        let mut v: Vec<u8> = Vec::new();
        v.push(45);
        let mut ds = fmt_u64(m);
        v.append(&mut ds);
        assert(v@ =~= dec_i(n as int));
        v
    }
}

/// `n` in decimal, zero-padded to width `w`, as an exec value.
pub fn fmt_pad(n: u64, w: usize) -> (r: Vec<u8>)
    ensures
        r@ == dec_pad(n as nat, w as nat),
{
    let mut ds = fmt_u64(n);
    if ds.len() >= w {
        return ds;
    }
    let mut r: Vec<u8> = Vec::new();
    let pad: usize = w - ds.len();
    let mut i: usize = 0;
    while i < pad
        invariant
            i <= pad,
            r@ =~= zeros(i as nat),
        decreases pad - i,
    {
        r.push(48);
        assert(r@ =~= zeros((i + 1) as nat));
        i = i + 1;
    }
    r.append(&mut ds);
    assert(r@ =~= dec_pad(n as nat, w as nat));
    r
}

} // verus!
