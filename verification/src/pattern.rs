use vstd::prelude::*;

use crate::digits::dec_pad;
use crate::digits::fmt_pad;

verus! {

/// The plain fields a temporal cell exposes to a format pattern.  A date
/// sets only the calendar fields, a time of day only the clock fields, a
/// datetime both.
#[derive(Clone, Copy)]
pub struct TemporalParts {
    pub has_date: bool,
    pub year: i32,
    pub month: u8,
    pub day: u8,
    pub has_time: bool,
    pub hour: u8,
    pub minute: u8,
    pub second: u8,
    pub nanosecond: u32,
}

/// The year, zero-padded to four digits, with a leading `-` for negative
/// years.
pub open spec fn year_bytes(y: int) -> Seq<u8> {
    if y < 0 {
        seq![45u8] + dec_pad((-y) as nat, 4)
    } else {
        dec_pad(y as nat, 4)
    }
}

/// The ISO-8601 calendar date `YYYY-MM-DD`.
pub open spec fn iso_date(p: TemporalParts) -> Seq<u8> {
    year_bytes(p.year as int) + seq![45u8] + dec_pad(p.month as nat, 2) + seq![45u8] + dec_pad(
        p.day as nat,
        2,
    )
}

/// The clock `HH:MM:SS`.
pub open spec fn hms_bytes(p: TemporalParts) -> Seq<u8> {
    dec_pad(p.hour as nat, 2) + seq![58u8] + dec_pad(p.minute as nat, 2) + seq![58u8] + dec_pad(
        p.second as nat,
        2,
    )
}

/// The clock with nanosecond fraction `HH:MM:SS.NNNNNNNNN`.
pub open spec fn iso_time(p: TemporalParts) -> Seq<u8> {
    hms_bytes(p) + seq![46u8] + dec_pad(p.nanosecond as nat, 9)
}

/// What one specifier letter renders to, or nothing when the letter is
/// unknown or asks for fields the cell does not carry.
pub open spec fn code_bytes(c: u8, p: TemporalParts) -> Option<Seq<u8>> {
    if c == 37 {
        Some(seq![37u8])
    } else if c == 89 && p.has_date {
        Some(year_bytes(p.year as int))
    } else if c == 109 && p.has_date {
        Some(dec_pad(p.month as nat, 2))
    } else if c == 100 && p.has_date {
        Some(dec_pad(p.day as nat, 2))
    } else if c == 70 && p.has_date {
        Some(iso_date(p))
    } else if c == 72 && p.has_time {
        Some(dec_pad(p.hour as nat, 2))
    } else if c == 77 && p.has_time {
        Some(dec_pad(p.minute as nat, 2))
    } else if c == 83 && p.has_time {
        Some(dec_pad(p.second as nat, 2))
    } else if c == 84 && p.has_time {
        Some(hms_bytes(p))
    } else {
        None
    }
}

pub open spec fn frac_code(c: u8) -> bool {
    c == 51 || c == 54 || c == 57
}

/// The fractional-second field `.mmm`, `.uuuuuu` or `.nnnnnnnnn`, by the
/// digit of the specifier.
pub open spec fn frac_bytes(c: u8, ns: nat) -> Seq<u8> {
    if c == 51 {
        seq![46u8] + dec_pad(ns / 1000000, 3)
    } else if c == 54 {
        seq![46u8] + dec_pad(ns / 1000, 6)
    } else {
        seq![46u8] + dec_pad(ns, 9)
    }
}

/// The rendering of a whole pattern: literal bytes pass through, `%` starts
/// a specifier (`%Y %m %d %F %H %M %S %T %%` and the fractional `%.3f %.6f
/// %.9f`).  `None` when a specifier is unknown, incomplete, or asks for
/// fields the cell does not carry: the pattern is invalid for that cell.
pub open spec fn fmt_pat(pat: Seq<u8>, p: TemporalParts) -> Option<Seq<u8>>
    decreases pat.len(),
{
    if pat.len() == 0 {
        Some(Seq::empty())
    } else if pat[0] == 37 {
        if pat.len() >= 4 && pat[1] == 46 && frac_code(pat[2]) && pat[3] == 102 {
            if p.has_time {
                match fmt_pat(pat.skip(4), p) {
                    Some(rest) => Some(frac_bytes(pat[2], p.nanosecond as nat) + rest),
                    None => None,
                }
            } else {
                None
            }
        } else if pat.len() >= 2 {
            match code_bytes(pat[1], p) {
                Some(b) => match fmt_pat(pat.skip(2), p) {
                    Some(rest) => Some(b + rest),
                    None => None,
                },
                None => None,
            }
        } else {
            None
        }
    } else {
        match fmt_pat(pat.skip(1), p) {
            Some(rest) => Some(seq![pat[0]] + rest),
            None => None,
        }
    }
}

/// The year, as an exec value.
pub fn fmt_year(y: i32) -> (r: Vec<u8>)
    ensures
        r@ == year_bytes(y as int),
{
    if y >= 0 {
        fmt_pad(y as u64, 4)
    } else {
        let m: u64 = (-(y as i64)) as u64;
        let mut r: Vec<u8> = Vec::new();
        r.push(45);
        let mut ds = fmt_pad(m, 4);
        r.append(&mut ds);
        assert(r@ =~= year_bytes(y as int));
        r
    }
}

/// The ISO date, as an exec value.
pub fn fmt_iso_date(p: &TemporalParts) -> (r: Vec<u8>)
    ensures
        r@ == iso_date(*p),
{
    let mut r = fmt_year(p.year);
    r.push(45);
    let mut m = fmt_pad(p.month as u64, 2);
    r.append(&mut m);
    r.push(45);
    let mut d = fmt_pad(p.day as u64, 2);
    r.append(&mut d);
    assert(r@ =~= iso_date(*p));
    r
}

/// The clock, as an exec value.
pub fn fmt_hms(p: &TemporalParts) -> (r: Vec<u8>)
    ensures
        r@ == hms_bytes(*p),
{
    let mut r = fmt_pad(p.hour as u64, 2);
    r.push(58);
    let mut m = fmt_pad(p.minute as u64, 2);
    r.append(&mut m);
    r.push(58);
    let mut s = fmt_pad(p.second as u64, 2);
    r.append(&mut s);
    assert(r@ =~= hms_bytes(*p));
    r
}

/// The clock with nanoseconds, as an exec value.
pub fn fmt_iso_time(p: &TemporalParts) -> (r: Vec<u8>)
    ensures
        r@ == iso_time(*p),
{
    let mut r = fmt_hms(p);
    r.push(46);
    let mut n = fmt_pad(p.nanosecond as u64, 9);
    r.append(&mut n);
    assert(r@ =~= iso_time(*p));
    r
}

/// One specifier letter, as an exec value.
fn fmt_code(c: u8, p: &TemporalParts) -> (r: Option<Vec<u8>>)
    ensures
        match r {
            Some(v) => code_bytes(c, *p) == Some(v@),
            None => code_bytes(c, *p) is None,
        },
{
    if c == 37 {
        let mut v: Vec<u8> = Vec::new();
        v.push(37);
        assert(v@ =~= seq![37u8]);
        Some(v)
    } else if c == 89 && p.has_date {
        Some(fmt_year(p.year))
    } else if c == 109 && p.has_date {
        Some(fmt_pad(p.month as u64, 2))
    } else if c == 100 && p.has_date {
        Some(fmt_pad(p.day as u64, 2))
    } else if c == 70 && p.has_date {
        Some(fmt_iso_date(p))
    } else if c == 72 && p.has_time {
        Some(fmt_pad(p.hour as u64, 2))
    } else if c == 77 && p.has_time {
        Some(fmt_pad(p.minute as u64, 2))
    } else if c == 83 && p.has_time {
        Some(fmt_pad(p.second as u64, 2))
    } else if c == 84 && p.has_time {
        Some(fmt_hms(p))
    } else {
        None
    }
}

/// Render `pat[i..]` for the given parts: the executable form of
/// [`fmt_pat`], `None` exactly when the pattern is invalid for the cell.
pub fn fmt_pattern(pat: &Vec<u8>, i: usize, p: &TemporalParts) -> (r: Option<Vec<u8>>)
    requires
        i <= pat@.len(),
    ensures
        match r {
            Some(v) => fmt_pat(pat@.skip(i as int), *p) == Some(v@),
            None => fmt_pat(pat@.skip(i as int), *p) is None,
        },
    decreases pat@.len() - i,
{
    let ghost sp = pat@.skip(i as int);
    proof {
        assert(forall|k: int| 0 <= k < sp.len() ==> sp[k] == pat@[i + k]);
    }
    if i == pat.len() {
        assert(sp =~= Seq::<u8>::empty());
        let v: Vec<u8> = Vec::new();
        assert(fmt_pat(sp, *p) == Some(v@));
        Some(v)
    } else if pat[i] == 37 {
        if pat.len() - i > 3 && pat[i + 1] == 46 && (pat[i + 2] == 51 || pat[i + 2] == 54 || pat[i
            + 2] == 57) && pat[i + 3] == 102 {
            if !p.has_time {
                return None;
            }
            let k = pat[i + 2];
            let div: u32 = if k == 51 {
                1000000
            } else if k == 54 {
                1000
            } else {
                1
            };
            let w: usize = if k == 51 {
                3
            } else if k == 54 {
                6
            } else {
                9
            };
            let mut frac: Vec<u8> = Vec::new();
            frac.push(46);
            let mut ds = fmt_pad((p.nanosecond / div) as u64, w);
            frac.append(&mut ds);
            assert(frac@ =~= frac_bytes(k, p.nanosecond as nat));
            match fmt_pattern(pat, i + 4, p) {
                None => {
                    assert(sp.skip(4) =~= pat@.skip(i + 4));
                    None
                },
                Some(mut rest) => {
                    assert(sp.skip(4) =~= pat@.skip(i + 4));
                    frac.append(&mut rest);
                    Some(frac)
                },
            }
        } else if i + 1 < pat.len() {
            match fmt_code(pat[i + 1], p) {
                None => None,
                Some(mut code_v) => {
                    match fmt_pattern(pat, i + 2, p) {
                        None => {
                            assert(sp.skip(2) =~= pat@.skip(i + 2));
                            None
                        },
                        Some(mut rest) => {
                            assert(sp.skip(2) =~= pat@.skip(i + 2));
                            code_v.append(&mut rest);
                            Some(code_v)
                        },
                    }
                },
            }
        } else {
            None
        }
    } else {
        match fmt_pattern(pat, i + 1, p) {
            None => {
                assert(sp.skip(1) =~= pat@.skip(i + 1));
                None
            },
            Some(mut rest) => {
                assert(sp.skip(1) =~= pat@.skip(i + 1));
                let ghost rv = rest@;
                let mut v: Vec<u8> = Vec::new();
                v.push(pat[i]);
                v.append(&mut rest);
                assert(v@ =~= seq![sp[0]] + rv);
                Some(v)
            },
        }
    }
}

} // verus!
