use vstd::prelude::*;
use vstd::string::StrSliceExecFns;
use vstd::utf8::encode_utf8;

use crate::digits::dec_i;
use crate::digits::fmt_i64;
use crate::escape::escape_into;
use crate::escape::escaped_field;
use crate::float_fmt::apply_precision;
use crate::float_fmt::float_out;
use crate::options::CsvWriterOptions;
use crate::pattern::fmt_iso_date;
use crate::pattern::fmt_iso_time;
use crate::pattern::fmt_pat;
use crate::pattern::fmt_pattern;
use crate::pattern::iso_date;
use crate::pattern::iso_time;
use crate::pattern::TemporalParts;
use crate::table::AnyValue;
use crate::table::Date;
use crate::table::Time;

verus! {

pub open spec fn bool_bytes(b: bool) -> Seq<u8> {
    if b {
        seq![116u8, 114u8, 117u8, 101u8]
    } else {
        seq![102u8, 97u8, 108u8, 115u8, 101u8]
    }
}

pub open spec fn date_parts(d: Date) -> TemporalParts {
    TemporalParts {
        has_date: true,
        year: d.year,
        month: d.month,
        day: d.day,
        has_time: false,
        hour: 0,
        minute: 0,
        second: 0,
        nanosecond: 0,
    }
}

pub open spec fn time_parts(t: Time) -> TemporalParts {
    TemporalParts {
        has_date: false,
        year: 0,
        month: 0,
        day: 0,
        has_time: true,
        hour: t.hour,
        minute: t.minute,
        second: t.second,
        nanosecond: t.nanosecond,
    }
}

pub open spec fn datetime_parts(d: Date, t: Time) -> TemporalParts {
    TemporalParts {
        has_date: true,
        year: d.year,
        month: d.month,
        day: d.day,
        has_time: true,
        hour: t.hour,
        minute: t.minute,
        second: t.second,
        nanosecond: t.nanosecond,
    }
}

/// The textual field one cell formats to, before escaping, in UTF-8 bytes;
/// `None` when a configured pattern is invalid for the cell's type.
///
/// A null renders as the sentinel, a boolean as `true`/`false`, an integer
/// in decimal, a float by the precision rule, text verbatim; temporal cells
/// use the configured pattern when one is set, and the ISO-8601 defaults
/// otherwise (datetime joins its date and time with `T`).
pub open spec fn fmt_value(v: AnyValue, o: CsvWriterOptions) -> Option<Seq<u8>> {
    match v {
        AnyValue::Null => Some(encode_utf8(o.null@)),
        AnyValue::Boolean(b) => Some(bool_bytes(b)),
        AnyValue::Int(i) => Some(dec_i(i as int)),
        AnyValue::Float(s) => Some(float_out(encode_utf8(s@), o.float_precision)),
        AnyValue::Text(s) => Some(encode_utf8(s@)),
        AnyValue::Date(d) => match o.date_format {
            Some(p) => fmt_pat(encode_utf8(p@), date_parts(d)),
            None => Some(iso_date(date_parts(d))),
        },
        AnyValue::Time(t) => match o.time_format {
            Some(p) => fmt_pat(encode_utf8(p@), time_parts(t)),
            None => Some(iso_time(time_parts(t))),
        },
        AnyValue::Datetime(d, t) => match o.datetime_format {
            Some(p) => fmt_pat(encode_utf8(p@), datetime_parts(d, t)),
            None => Some(
                iso_date(datetime_parts(d, t)) + seq![84u8] + iso_time(datetime_parts(d, t)),
            ),
        },
    }
}

/// The escaped output of one cell: its formatted field through the escaper.
/// Only a non-null empty text field is quoted while holding no structural
/// byte, to stay distinguishable from an empty null sentinel.
pub open spec fn cell_out(v: AnyValue, o: CsvWriterOptions) -> Option<Seq<u8>> {
    match fmt_value(v, o) {
        Some(f) => Some(escaped_field(f, o.delimiter, o.quote, v is Text)),
        None => None,
    }
}

/// Format one cell: the executable form of [`fmt_value`].
pub fn format_value(v: &AnyValue, o: &CsvWriterOptions) -> (r: Option<Vec<u8>>)
    ensures
        match r {
            Some(b) => fmt_value(*v, *o) == Some(b@),
            None => fmt_value(*v, *o) is None,
        },
{
    match v {
        AnyValue::Null => Some(o.null.as_str().as_bytes_vec()),
        AnyValue::Boolean(b) => {
            let mut r: Vec<u8> = Vec::new();
            if *b {
                r.push(116);
                r.push(114);
                r.push(117);
                r.push(101);
            } else {
                r.push(102);
                r.push(97);
                r.push(108);
                r.push(115);
                r.push(101);
            }
            assert(r@ =~= bool_bytes(*b));
            Some(r)
        },
        AnyValue::Int(i) => Some(fmt_i64(*i)),
        AnyValue::Float(s) => {
            let bytes = s.as_str().as_bytes_vec();
            match o.float_precision {
                None => Some(bytes),
                Some(p) => Some(apply_precision(&bytes, p)),
            }
        },
        AnyValue::Text(s) => Some(s.as_str().as_bytes_vec()),
        AnyValue::Date(d) => {
            let parts = TemporalParts {
                has_date: true,
                year: d.year,
                month: d.month,
                day: d.day,
                has_time: false,
                hour: 0,
                minute: 0,
                second: 0,
                nanosecond: 0,
            };
            match &o.date_format {
                None => Some(fmt_iso_date(&parts)),
                Some(pstr) => {
                    let pb = pstr.as_str().as_bytes_vec();
                    assert(pb@.skip(0) =~= pb@);
                    fmt_pattern(&pb, 0, &parts)
                },
            }
        },
        AnyValue::Time(t) => {
            let parts = TemporalParts {
                has_date: false,
                year: 0,
                month: 0,
                day: 0,
                has_time: true,
                hour: t.hour,
                minute: t.minute,
                second: t.second,
                nanosecond: t.nanosecond,
            };
            match &o.time_format {
                None => Some(fmt_iso_time(&parts)),
                Some(pstr) => {
                    let pb = pstr.as_str().as_bytes_vec();
                    assert(pb@.skip(0) =~= pb@);
                    fmt_pattern(&pb, 0, &parts)
                },
            }
        },
        AnyValue::Datetime(d, t) => {
            let parts = TemporalParts {
                has_date: true,
                year: d.year,
                month: d.month,
                day: d.day,
                has_time: true,
                hour: t.hour,
                minute: t.minute,
                second: t.second,
                nanosecond: t.nanosecond,
            };
            match &o.datetime_format {
                None => {
                    let mut r = fmt_iso_date(&parts);
                    r.push(84);
                    let mut tm = fmt_iso_time(&parts);
                    r.append(&mut tm);
                    assert(r@ =~= iso_date(parts) + seq![84u8] + iso_time(parts));
                    Some(r)
                },
                Some(pstr) => {
                    let pb = pstr.as_str().as_bytes_vec();
                    assert(pb@.skip(0) =~= pb@);
                    fmt_pattern(&pb, 0, &parts)
                },
            }
        },
    }
}

/// Format and escape one cell, appending its output bytes; `false` (with
/// `out` unchanged) when the configured pattern is invalid for the cell.
pub fn write_cell(out: &mut Vec<u8>, v: &AnyValue, o: &CsvWriterOptions) -> (ok: bool)
    ensures
        match cell_out(*v, *o) {
            Some(b) => ok && final(out)@ == old(out)@ + b,
            None => !ok && final(out)@ == old(out)@,
        },
{
    let quote_empty = match v {
        AnyValue::Text(_) => true,
        _ => false,
    };
    match format_value(v, o) {
        None => false,
        Some(f) => {
            escape_into(out, &f, o.delimiter, o.quote, quote_empty);
            true
        },
    }
}

} // verus!
