use vstd::prelude::*;

use crate::digits::copy_bytes;
use crate::digits::push_zeros;
use crate::digits::zeros;

verus! {

pub open spec fn is_digit(b: u8) -> bool {
    48 <= b && b <= 57
}

pub open spec fn all_digits(s: Seq<u8>) -> bool {
    forall|i: int| 0 <= i < s.len() ==> is_digit(#[trigger] s[i])
}

/// Length of the sign prefix of a decimal text: one byte for `-`, else none.
pub open spec fn sign_len(b: Seq<u8>) -> int {
    if b.len() > 0 && b[0] == 45 {
        1int
    } else {
        0int
    }
}

/// `d` is the position of the decimal point in the unsigned body `s`:
/// at least one digit on each side, digits only elsewhere.
pub open spec fn dot_at(s: Seq<u8>, d: int) -> bool {
    &&& 1 <= d
    &&& d + 1 < s.len()
    &&& s[d] == 46
    &&& all_digits(s.take(d))
    &&& all_digits(s.skip(d + 1))
}

pub open spec fn is_int_text(s: Seq<u8>) -> bool {
    s.len() > 0 && all_digits(s)
}

/// The texts the precision rule applies to: an optional `-`, then digits,
/// optionally a decimal point and more digits.  Anything else (the special
/// tokens for not-a-number and the infinities) passes through verbatim.
pub open spec fn is_plain_decimal(b: Seq<u8>) -> bool {
    let s = b.skip(sign_len(b));
    is_int_text(s) || exists|d: int| dot_at(s, d)
}

/// The digit string `ds` plus one, with carry; an all-nines string grows by
/// one byte.
pub open spec fn inc_digits(ds: Seq<u8>) -> Seq<u8>
    decreases ds.len(),
{
    if ds.len() == 0 {
        seq![49u8]
    } else if ds.last() == 57 {
        inc_digits(ds.drop_last()) + seq![48u8]
    } else {
        ds.update(ds.len() - 1, (ds.last() + 1) as u8)
    }
}

pub proof fn lemma_inc_digits_len(ds: Seq<u8>)
    ensures
        ds.len() <= inc_digits(ds).len() <= ds.len() + 1,
    decreases ds.len(),
{
    if ds.len() > 0 && ds.last() == 57 {
        lemma_inc_digits_len(ds.drop_last());
    }
}

/// Incrementing a digit string yields a digit string.
pub proof fn lemma_inc_digits_all(ds: Seq<u8>)
    requires
        all_digits(ds),
    ensures
        all_digits(inc_digits(ds)),
        inc_digits(ds).len() >= 1,
    decreases ds.len(),
{
    if ds.len() == 0 {
        assert(is_digit(49));
    } else if ds.last() == 57 {
        lemma_inc_digits_all(ds.drop_last());
        assert(is_digit(48));
        assert forall|i: int| 0 <= i < inc_digits(ds).len() implies is_digit(
            #[trigger] inc_digits(ds)[i],
        ) by {
            if i < inc_digits(ds.drop_last()).len() {
                assert(inc_digits(ds)[i] == inc_digits(ds.drop_last())[i]);
            } else {
                assert(inc_digits(ds)[i] == 48);
            }
        }
    } else {
        assert(is_digit(ds.last()));
        assert forall|i: int| 0 <= i < inc_digits(ds).len() implies is_digit(
            #[trigger] inc_digits(ds)[i],
        ) by {
            if i == ds.len() - 1 {
                assert(inc_digits(ds)[i] == (ds.last() + 1) as u8);
            } else {
                assert(inc_digits(ds)[i] == ds[i]);
            }
        }
    }
}

/// The precision rule renders exactly `p` digits after the decimal point:
/// for a positive `p` the adjusted text ends in a point followed by `p`
/// digits, and for `p` of zero it holds no point at all.
pub proof fn law_precision_width(b: Seq<u8>, p: nat)
    requires
        is_plain_decimal(b),
    ensures
        p >= 1 ==> {
            let r = adjusted(b, p);
            &&& r.len() > p + 1
            &&& r[r.len() - p - 1] == 46
            &&& forall|i: int| r.len() - p <= i < r.len() ==> is_digit(#[trigger] r[i])
        },
        p == 0 ==> (forall|i: int|
            0 <= i < adjusted(b, p).len() ==> (#[trigger] adjusted(b, p)[i]) != 46),
{
    let sign = b.take(sign_len(b));
    let s = b.skip(sign_len(b));
    let r = adjusted(b, p);
    assert(forall|i: int| 0 <= i < s.len() ==> s[i] == b[i + sign_len(b)]);
    if is_int_text(s) {
        if p == 0 {
            assert forall|i: int| 0 <= i < r.len() implies (#[trigger] r[i]) != 46 by {
                if sign_len(b) <= i {
                    assert(r[i] == s[i - sign_len(b)]);
                    assert(is_digit(s[i - sign_len(b)]));
                } else {
                    assert(r[i] == 45);
                }
            }
        } else {
            assert(r == b + seq![46u8] + zeros(p));
            assert(r.len() == b.len() + 1 + p);
            assert(r[r.len() - p - 1] == 46);
            assert forall|i: int| r.len() - p <= i < r.len() implies is_digit(
                #[trigger] r[i],
            ) by {
                assert(r[i] == zeros(p)[i - b.len() - 1]);
                assert(is_digit(48));
            }
        }
    } else {
        let d = choose|d: int| dot_at(s, d);
        assert(dot_at(s, d));
        let ip = s.take(d);
        let fr = s.skip(d + 1);
        if fr.len() <= p {
            assert(r == b + zeros((p - fr.len()) as nat));
            assert(b.len() == sign_len(b) + d + 1 + fr.len());
            assert(r.len() == sign_len(b) + d + 1 + p);
            assert(p >= 1);
            assert(b[sign_len(b) + d] == s[d]);
            assert(r[r.len() - p - 1] == b[sign_len(b) + d]);
            assert forall|i: int| r.len() - p <= i < r.len() implies is_digit(
                #[trigger] r[i],
            ) by {
                if i < b.len() {
                    assert(r[i] == b[i]);
                    assert(b[i] == s[i - sign_len(b)]);
                    assert(s[i - sign_len(b)] == fr[i - sign_len(b) - d - 1]);
                    assert(is_digit(fr[i - sign_len(b) - d - 1]));
                } else {
                    assert(r[i] == zeros((p - fr.len()) as nat)[i - b.len()]);
                    assert(is_digit(48));
                }
            }
        } else {
            let keep = ip + fr.take(p as int);
            let rounded = if fr[p as int] >= 53 {
                inc_digits(keep)
            } else {
                keep
            };
            assert(all_digits(keep)) by {
                assert forall|i: int| 0 <= i < keep.len() implies is_digit(
                    #[trigger] keep[i],
                ) by {
                    if i < d {
                        assert(keep[i] == ip[i]);
                    } else {
                        assert(keep[i] == fr.take(p as int)[i - d]);
                        assert(fr.take(p as int)[i - d] == fr[i - d]);
                    }
                }
            }
            assert(all_digits(rounded) && rounded.len() >= 1) by {
                if fr[p as int] >= 53 {
                    lemma_inc_digits_all(keep);
                }
            }
            lemma_inc_digits_len(keep);
            assert(rounded.len() >= p + 1);
            if p == 0 {
                assert(r == sign + rounded.take(rounded.len() - p) + Seq::<u8>::empty());
                assert(rounded.take(rounded.len() as int) =~= rounded);
                assert forall|i: int| 0 <= i < r.len() implies (#[trigger] r[i]) != 46 by {
                    if i < sign.len() {
                        assert(r[i] == sign[0] == b[0]);
                        assert(b[0] == 45);
                    } else {
                        assert(r[i] == rounded[i - sign.len()]);
                        assert(is_digit(rounded[i - sign.len()]));
                    }
                }
            } else {
                assert(r == sign + rounded.take(rounded.len() - p) + (seq![46u8] + rounded.skip(
                    rounded.len() - p,
                )));
                assert(r.len() == sign.len() + rounded.len() + 1);
                assert(r[sign.len() + rounded.len() - p] == 46);
                assert forall|i: int| r.len() - p <= i < r.len() implies is_digit(
                    #[trigger] r[i],
                ) by {
                    assert(r[i] == (seq![46u8] + rounded.skip(rounded.len() - p))[i - sign.len()
                        - (rounded.len() - p)]);
                    assert(r[i] == rounded.skip(rounded.len() - p)[i - sign.len() - (rounded.len()
                        - p) - 1]);
                    assert(is_digit(rounded[i - sign.len() - 1]));
                }
            }
        }
    }
}

pub proof fn lemma_dot_at_unique(s: Seq<u8>, d1: int, d2: int)
    requires
        dot_at(s, d1),
        dot_at(s, d2),
    ensures
        d1 == d2,
{
    if d1 < d2 {
        assert(s.take(d2)[d1] == s[d1]);
        assert(!is_digit(46));
    } else if d2 < d1 {
        assert(s.take(d1)[d2] == s[d2]);
        assert(!is_digit(46));
    }
}

/// The decimal text `b` rendered with exactly `p` digits after the decimal
/// point: padded with zeros when it has fewer, rounded half away from zero
/// when it has more.  A text that is not a plain decimal is unchanged.
pub open spec fn adjusted(b: Seq<u8>, p: nat) -> Seq<u8> {
    let sign = b.take(sign_len(b));
    let s = b.skip(sign_len(b));
    if is_int_text(s) {
        if p == 0 {
            b
        } else {
            b + seq![46u8] + zeros(p)
        }
    } else if exists|d: int| dot_at(s, d) {
        let d = choose|d: int| dot_at(s, d);
        let ip = s.take(d);
        let fr = s.skip(d + 1);
        if fr.len() <= p {
            b + zeros((p - fr.len()) as nat)
        } else {
            let keep = ip + fr.take(p as int);
            let rounded = if fr[p as int] >= 53 {
                inc_digits(keep)
            } else {
                keep
            };
            sign + rounded.take(rounded.len() - p) + (if p == 0 {
                Seq::<u8>::empty()
            } else {
                seq![46u8] + rounded.skip(rounded.len() - p)
            })
        }
    } else {
        b
    }
}

/// The precision rule for an optional precision: no precision set leaves
/// the text as it stands.
pub open spec fn float_out(b: Seq<u8>, prec: Option<usize>) -> Seq<u8> {
    match prec {
        Option::None => b,
        Option::Some(p) => adjusted(b, p as nat),
    }
}

/// Append `src[from..to]` to `out`.
pub fn push_range(out: &mut Vec<u8>, src: &Vec<u8>, from: usize, to: usize)
    requires
        from <= to <= src@.len(),
    ensures
        final(out)@ == old(out)@ + src@.subrange(from as int, to as int),
{
    let mut i: usize = from;
    while i < to
        invariant
            from <= i <= to <= src@.len(),
            out@ == old(out)@ + src@.subrange(from as int, i as int),
        decreases to - i,
    {
        out.push(src[i]);
        assert(src@.subrange(from as int, i + 1) =~= src@.subrange(from as int, i as int).push(
            src@[i as int],
        ));
        i = i + 1;
    }
    assert(final(out)@ =~= old(out)@ + src@.subrange(from as int, to as int));
}

/// Whether `src[from..to]` holds digits only.
pub fn digits_in_range(src: &Vec<u8>, from: usize, to: usize) -> (r: bool)
    requires
        from <= to <= src@.len(),
    ensures
        r == all_digits(src@.subrange(from as int, to as int)),
{
    let mut i: usize = from;
    while i < to
        invariant
            from <= i <= to <= src@.len(),
            all_digits(src@.subrange(from as int, i as int)),
        decreases to - i,
    {
        let b = src[i];
        if b < 48 || b > 57 {
            assert(src@.subrange(from as int, to as int)[i - from] == b);
            return false;
        }
        assert(forall|j: int|
            0 <= j < i + 1 - from ==> src@.subrange(from as int, i + 1)[j] == src@.subrange(
                from as int,
                i as int,
            ).push(src@[i as int])[j]);
        assert(src@.subrange(from as int, i + 1) =~= src@.subrange(from as int, i as int).push(
            src@[i as int],
        ));
        i = i + 1;
    }
    true
}

/// The position of the first `.` in `src[from..]`, or the length when there
/// is none.
pub fn find_dot(src: &Vec<u8>, from: usize) -> (r: usize)
    requires
        from <= src@.len(),
    ensures
        from <= r <= src@.len(),
        r < src@.len() ==> src@[r as int] == 46,
        forall|i: int| from <= i < r ==> src@[i] != 46,
{
    let mut i: usize = from;
    while i < src.len()
        invariant
            from <= i <= src@.len(),
            forall|j: int| from <= j < i ==> src@[j] != 46,
        decreases src@.len() - i,
    {
        if src[i] == 46 {
            return i;
        }
        i = i + 1;
    }
    i
}

/// `v` plus one, in decimal digits.
pub fn inc_digits_exec(v: Vec<u8>) -> (r: Vec<u8>)
    requires
        all_digits(v@),
    ensures
        r@ == inc_digits(v@),
{
    let ghost orig = v@;
    let mut v = v;
    let mut i: usize = v.len();
    let mut done: bool = false;
    proof {
        assert(v@.take(i as int) =~= orig);
        assert(v@.skip(i as int) =~= Seq::<u8>::empty());
        assert(inc_digits(orig) =~= inc_digits(v@.take(i as int)) + v@.skip(i as int));
    }
    while i > 0 && !done
        invariant
            i <= v@.len(),
            v@.len() == orig.len(),
            all_digits(orig),
            v@.take(i as int) == orig.take(i as int),
            !done ==> inc_digits(orig) == inc_digits(v@.take(i as int)) + v@.skip(i as int),
            done ==> inc_digits(orig) == v@,
        decreases i,
    {
        let c = v[i - 1];
        assert(c == orig[i - 1] && is_digit(c)) by {
            assert(v@.take(i as int)[i - 1] == v@[i - 1]);
            assert(orig.take(i as int)[i - 1] == orig[i - 1]);
        }
        let ghost before = v@;
        if c == 57 {
            v[i - 1] = 48;
            proof {
                let prev = before.take(i as int);
                assert(prev.last() == 57);
                assert(prev.drop_last() =~= before.take(i - 1));
                assert(v@ == before.update(i - 1, 48u8));
                assert(v@.take(i - 1) =~= before.take(i - 1));
                assert(v@.take(i - 1) =~= orig.take(i - 1));
                assert(v@.skip(i - 1) =~= seq![48u8] + before.skip(i as int));
                assert(inc_digits(prev) == inc_digits(prev.drop_last()) + seq![48u8]);
                assert(inc_digits(orig) =~= inc_digits(v@.take(i - 1)) + v@.skip(i - 1));
            }
            i = i - 1;
        } else {
            v[i - 1] = c + 1;
            done = true;
            proof {
                let prev = before.take(i as int);
                assert(prev.last() == c);
                assert(inc_digits(prev) == prev.update(i - 1, (c + 1) as u8));
                assert(v@ == before.update(i - 1, (c + 1) as u8));
                assert(v@ =~= prev.update(i - 1, (c + 1) as u8) + before.skip(i as int));
                assert(inc_digits(orig) =~= v@);
            }
            i = i - 1;
        }
    }
    if !done {
        assert(v@.take(0) =~= Seq::<u8>::empty());
        assert(inc_digits(orig) =~= seq![49u8] + v@.skip(0));
        v.insert(0, 49);
        assert(v@ =~= inc_digits(orig));
    }
    v
}

/// `b` rendered with exactly `p` digits after the decimal point, as an exec
/// value: the executable form of [`adjusted`].
#[verifier::rlimit(60)]
pub fn apply_precision(b: &Vec<u8>, p: usize) -> (r: Vec<u8>)
    ensures
        r@ == adjusted(b@, p as nat),
{
    let sl: usize = if b.len() > 0 && b[0] == 45 {
        1
    } else {
        0
    };
    let ghost s = b@.skip(sl as int);
    proof {
        assert(sl as int == sign_len(b@));
        assert(s =~= b@.subrange(sl as int, b@.len() as int));
        assert(forall|d: int| 0 <= d < s.len() ==> s[d] == b@[d + sl]);
    }
    let dp = find_dot(b, sl);
    if dp == b.len() {
        let int_ok = b.len() > sl && digits_in_range(b, sl, b.len());
        if int_ok {
            assert(is_int_text(s));
            if p == 0 {
                copy_bytes(b)
            } else {
                let mut r = copy_bytes(b);
                r.push(46);
                push_zeros(&mut r, p);
                assert(r@ =~= b@ + seq![46u8] + zeros(p as nat));
                r
            }
        } else {
            proof {
                assert(!is_int_text(s));
                assert forall|d: int| !(#[trigger] dot_at(s, d)) by {
                    if dot_at(s, d) {
                        assert(s[d] == b@[d + sl]);
                        assert(false);
                    }
                }
            }
            copy_bytes(b)
        }
    } else {
        let ghost d0 = dp - sl;
        proof {
            assert(s[d0] == b@[dp as int]);
            assert(!is_digit(46));
            assert(!is_int_text(s));
        }
        let c1 = dp > sl;
        let c2 = dp + 1 < b.len();
        let c3 = digits_in_range(b, sl, dp);
        let c4 = digits_in_range(b, dp + 1, b.len());
        proof {
            assert(s.take(d0) =~= b@.subrange(sl as int, dp as int));
            assert(s.skip(d0 + 1) =~= b@.subrange(dp + 1, b@.len() as int));
        }
        if c1 && c2 && c3 && c4 {
            assert(dot_at(s, d0));
            proof {
                let dc = choose|d: int| dot_at(s, d);
                lemma_dot_at_unique(s, dc, d0);
            }
            let ghost ip = s.take(d0);
            let ghost fr = s.skip(d0 + 1);
            let fr_len: usize = b.len() - dp - 1;
            if fr_len <= p {
                let mut r = copy_bytes(b);
                push_zeros(&mut r, p - fr_len);
                assert(r@ =~= b@ + zeros((p - fr.len()) as nat));
                r
            } else {
                let mut keep: Vec<u8> = Vec::new();
                push_range(&mut keep, b, sl, dp);
                push_range(&mut keep, b, dp + 1, dp + 1 + p);
                proof {
                    assert(fr.take(p as int) =~= b@.subrange(dp + 1, dp + 1 + p));
                    assert(keep@ =~= ip + fr.take(p as int));
                    assert forall|i: int| 0 <= i < keep@.len() implies is_digit(
                        #[trigger] keep@[i],
                    ) by {
                        if i < d0 {
                            assert(keep@[i] == ip[i]);
                        } else {
                            assert(keep@[i] == fr.take(p as int)[i - d0]);
                            assert(fr[i - d0] == fr.take(p as int)[i - d0]);
                        }
                    }
                }
                let next = b[dp + 1 + p];
                assert(next == fr[p as int]);
                let round_up = next >= 53;
                let rounded = if round_up {
                    inc_digits_exec(keep)
                } else {
                    keep
                };
                proof {
                    lemma_inc_digits_len(ip + fr.take(p as int));
                }
                let rl = rounded.len();
                assert(rl >= p + 1);
                let mut r: Vec<u8> = Vec::new();
                if sl == 1 {
                    r.push(45);
                    assert(r@ =~= b@.take(1));
                } else {
                    assert(r@ =~= b@.take(0));
                }
                push_range(&mut r, &rounded, 0, rl - p);
                proof {
                    assert(rounded@.subrange(0, rl - p) =~= rounded@.take(rl - p));
                }
                if p > 0 {
                    r.push(46);
                    push_range(&mut r, &rounded, rl - p, rl);
                    proof {
                        assert(rounded@.subrange(rl - p, rl as int) =~= rounded@.skip(rl - p));
                    }
                }
                assert(r@ =~= adjusted(b@, p as nat));
                r
            }
        } else {
            proof {
                assert forall|d: int| !(#[trigger] dot_at(s, d)) by {
                    if dot_at(s, d) {
                        if d < d0 {
                            assert(s[d] == b@[d + sl]);
                            assert(false);
                        } else if d > d0 {
                            assert(s.take(d)[d0] == s[d0]);
                            assert(!is_digit(46));
                            assert(false);
                        } else {
                            assert(false);
                        }
                    }
                }
            }
            copy_bytes(b)
        }
    }
}

} // verus!
