use vstd::prelude::*;
use vstd::utf8::encode_utf8;

use crate::escape::dbl_quotes;
use crate::escape::escaped_field;
use crate::escape::has_special;
use crate::escape::must_quote;
use crate::field::cell_out;
use crate::field::fmt_value;
use crate::options::CsvWriterOptions;
use crate::table::AnyValue;
use crate::table::Table;
use crate::write_impl::all_rows_ok;
use crate::write_impl::body_rows;
use crate::write_impl::csv_out;
use crate::write_impl::header_bytes;
use crate::write_impl::header_cells;
use crate::write_impl::header_names;
use crate::write_impl::row_cells;
use crate::write_impl::row_ok;
use crate::write_impl::row_val;
use crate::write_impl::spec_cell;

verus! {

/// A conformant reader's unescaping of a quoted field's inner bytes: each
/// doubled quote reads back as one.
pub open spec fn undouble_quotes(s: Seq<u8>, q: u8) -> Seq<u8>
    decreases s.len(),
{
    if s.len() == 0 {
        Seq::empty()
    } else if s.len() >= 2 && s[0] == q && s[1] == q {
        seq![q] + undouble_quotes(s.skip(2), q)
    } else {
        seq![s[0]] + undouble_quotes(s.skip(1), q)
    }
}

/// A conformant reader's view of one output field: a field wrapped in
/// quotes is unwrapped and undoubled, any other is taken verbatim.
pub open spec fn read_field(out: Seq<u8>, q: u8) -> Seq<u8> {
    if out.len() >= 2 && out[0] == q && out[out.len() - 1] == q {
        undouble_quotes(out.subrange(1, out.len() - 1), q)
    } else {
        out
    }
}

/// Undoubling inverts doubling: the escaper's inner transformation loses
/// nothing.
pub proof fn lemma_undouble_double(f: Seq<u8>, q: u8)
    ensures
        undouble_quotes(dbl_quotes(f, q), q) == f,
    decreases f.len(),
{
    if f.len() == 0 {
        assert(dbl_quotes(f, q) =~= Seq::<u8>::empty());
        assert(undouble_quotes(dbl_quotes(f, q), q) =~= f);
    } else {
        lemma_undouble_double(f.drop_first(), q);
        let rest = f.drop_first();
        if f[0] == q {
            assert(dbl_quotes(f, q) == seq![q, q] + dbl_quotes(rest, q));
            assert(dbl_quotes(f, q).len() >= 2);
            assert(dbl_quotes(f, q)[0] == q && dbl_quotes(f, q)[1] == q);
            assert(dbl_quotes(f, q).skip(2) =~= dbl_quotes(rest, q));
            assert(undouble_quotes(dbl_quotes(f, q), q) =~= seq![q] + rest);
            assert(seq![q] + rest =~= f);
        } else {
            assert(dbl_quotes(f, q) == seq![f[0]] + dbl_quotes(rest, q));
            assert(dbl_quotes(f, q)[0] == f[0]);
            assert(dbl_quotes(f, q).skip(1) =~= dbl_quotes(rest, q));
            assert(undouble_quotes(dbl_quotes(f, q), q) =~= seq![f[0]] + rest);
            assert(seq![f[0]] + rest =~= f);
        }
    }
}

/// Round trip of one field: whatever the field's bytes and whether or not
/// the escaper quoted it, a conformant reader recovers the field exactly.
pub proof fn law_field_round_trip(f: Seq<u8>, d: u8, q: u8, quote_empty: bool)
    ensures
        read_field(escaped_field(f, d, q, quote_empty), q) == f,
{
    let out = escaped_field(f, d, q, quote_empty);
    if must_quote(f, d, q, quote_empty) {
        assert(out == seq![q] + dbl_quotes(f, q) + seq![q]);
        assert(out[0] == q && out[out.len() - 1] == q && out.len() >= 2);
        assert(out.subrange(1, out.len() - 1) =~= dbl_quotes(f, q));
        lemma_undouble_double(f, q);
    } else {
        if out.len() >= 2 && out[0] == q {
            assert(has_special(f, d, q));
            assert(false);
        }
    }
}

/// How many times `x` occurs in `s`.
pub open spec fn count_byte(s: Seq<u8>, x: u8) -> int
    decreases s.len(),
{
    if s.len() == 0 {
        0
    } else {
        (if s[0] == x {
            1int
        } else {
            0int
        }) + count_byte(s.drop_first(), x)
    }
}

pub proof fn lemma_count_concat(a: Seq<u8>, b: Seq<u8>, x: u8)
    ensures
        count_byte(a + b, x) == count_byte(a, x) + count_byte(b, x),
    decreases a.len(),
{
    if a.len() == 0 {
        assert(a + b =~= b);
    } else {
        lemma_count_concat(a.drop_first(), b, x);
        assert((a + b).drop_first() =~= a.drop_first() + b);
        assert((a + b)[0] == a[0]);
    }
}

/// A quote character inside a quoted field appears doubled: the escaper's
/// inner transformation holds exactly twice as many quote bytes as the
/// field.
pub proof fn law_quote_doubling(f: Seq<u8>, q: u8)
    ensures
        count_byte(dbl_quotes(f, q), q) == 2 * count_byte(f, q),
    decreases f.len(),
{
    if f.len() > 0 {
        law_quote_doubling(f.drop_first(), q);
        let head: Seq<u8> = if f[0] == q {
            seq![q, q]
        } else {
            seq![f[0]]
        };
        assert(dbl_quotes(f, q) == head + dbl_quotes(f.drop_first(), q));
        lemma_count_concat(head, dbl_quotes(f.drop_first(), q), q);
        assert(count_byte(Seq::<u8>::empty(), q) == 0);
        if f[0] == q {
            assert(head.len() == 2 && head[0] == q);
            assert(head.drop_first() =~= seq![q]);
            assert(seq![q].drop_first() =~= Seq::<u8>::empty());
            assert(count_byte(seq![q], q) == 1);
            assert(count_byte(head, q) == 2);
        } else {
            assert(head.len() == 1 && head[0] == f[0]);
            assert(head.drop_first() =~= Seq::<u8>::empty());
            assert(count_byte(head, q) == 0);
        }
    }
}

/// A field holding the delimiter, the quote or a line break is always
/// quoted in a cell's output; one holding none of them is written verbatim
/// — except the empty field of a non-null text cell, which is quoted to
/// stay distinguishable from the null sentinel.
pub proof fn law_cell_quoting(v: AnyValue, o: CsvWriterOptions)
    ensures
        fmt_value(v, o) matches Some(f) ==> {
            &&& has_special(f, o.delimiter, o.quote) ==> cell_out(v, o) == Some(
                seq![o.quote] + dbl_quotes(f, o.quote) + seq![o.quote],
            )
            &&& (!has_special(f, o.delimiter, o.quote) && !(v is Text && f.len() == 0))
                ==> cell_out(v, o) == Some(f)
        },
{
}

/// A null cell renders as the sentinel verbatim — unquoted whenever the
/// sentinel holds no structural byte — while a non-null empty text cell is
/// always quoted: the two stay distinguishable even under an empty
/// sentinel, where the null cell contributes no bytes at all.
pub proof fn law_null_distinguishable(o: CsvWriterOptions, empty_text: AnyValue)
    requires
        empty_text matches AnyValue::Text(s) && s@.len() == 0,
        !has_special(encode_utf8(o.null@), o.delimiter, o.quote),
    ensures
        cell_out(AnyValue::Null, o) == Some(encode_utf8(o.null@)),
        cell_out(empty_text, o) == Some(seq![o.quote, o.quote]),
        o.null@.len() == 0 ==> cell_out(AnyValue::Null, o) == Some(Seq::<u8>::empty()),
{
    if let AnyValue::Text(s) = empty_text {
        assert(encode_utf8(s@) =~= Seq::<u8>::empty());
        assert(seq![o.quote] + dbl_quotes(Seq::<u8>::empty(), o.quote) + seq![o.quote]
            =~= seq![o.quote, o.quote]);
    }
    if o.null@.len() == 0 {
        assert(encode_utf8(o.null@) =~= Seq::<u8>::empty());
    }
}

/// The option fields that shape the rendered bytes: everything but the
/// batch size.
pub open spec fn same_render_opts(o1: CsvWriterOptions, o2: CsvWriterOptions) -> bool {
    &&& o1.header == o2.header
    &&& o1.delimiter == o2.delimiter
    &&& o1.quote == o2.quote
    &&& o1.null == o2.null
    &&& o1.date_format == o2.date_format
    &&& o1.time_format == o2.time_format
    &&& o1.datetime_format == o2.datetime_format
    &&& o1.float_precision == o2.float_precision
}

proof fn lemma_cell_out_same(v: AnyValue, o1: CsvWriterOptions, o2: CsvWriterOptions)
    requires
        same_render_opts(o1, o2),
    ensures
        cell_out(v, o1) == cell_out(v, o2),
{
    assert(fmt_value(v, o1) == fmt_value(v, o2));
}

proof fn lemma_row_cells_same(t: Table, o1: CsvWriterOptions, o2: CsvWriterOptions, r: int, c: int)
    requires
        same_render_opts(o1, o2),
    ensures
        row_cells(t, o1, r, c) == row_cells(t, o2, r, c),
    decreases t.columns@.len() - c,
{
    if 0 <= c < t.columns@.len() {
        lemma_cell_out_same(spec_cell(t, r, c), o1, o2);
        lemma_row_cells_same(t, o1, o2, r, c + 1);
    }
}

proof fn lemma_body_rows_same(
    t: Table,
    o1: CsvWriterOptions,
    o2: CsvWriterOptions,
    from: int,
    to: int,
)
    requires
        same_render_opts(o1, o2),
    ensures
        body_rows(t, o1, from, to) == body_rows(t, o2, from, to),
    decreases to - from,
{
    if from < to {
        lemma_row_cells_same(t, o1, o2, from, 0);
        lemma_body_rows_same(t, o1, o2, from + 1, to);
    }
}

proof fn lemma_header_cells_same(
    names: Seq<String>,
    o1: CsvWriterOptions,
    o2: CsvWriterOptions,
    c: int,
)
    requires
        same_render_opts(o1, o2),
    ensures
        header_cells(names, o1, c) == header_cells(names, o2, c),
    decreases names.len() - c,
{
    if 0 <= c < names.len() {
        lemma_header_cells_same(names, o1, o2, c + 1);
    }
}

/// The batch size does not affect the output content: two option bundles
/// that differ at most in `batch_size` describe the same bytes for every
/// table, including whether the write fails at all.
pub proof fn law_batch_size_irrelevant(t: Table, o1: CsvWriterOptions, o2: CsvWriterOptions)
    requires
        same_render_opts(o1, o2),
    ensures
        csv_out(t, o1) == csv_out(t, o2),
{
    assert forall|r: int| row_ok(t, o1, r) == row_ok(t, o2, r) by {
        lemma_row_cells_same(t, o1, o2, r, 0);
    }
    assert(all_rows_ok(t, o1) == all_rows_ok(t, o2)) by {
        assert(all_rows_ok(t, o1) ==> all_rows_ok(t, o2));
        assert(all_rows_ok(t, o2) ==> all_rows_ok(t, o1));
    }
    lemma_body_rows_same(t, o1, o2, 0, t.spec_height());
    lemma_header_cells_same(header_names(t), o1, o2, 0);
}

/// The header row, when enabled, is the first thing in the output and is
/// the escaped, delimiter-joined column names with one line break; when
/// disabled, the output starts with the first data row.
pub proof fn law_header_first(t: Table, o: CsvWriterOptions)
    ensures
        csv_out(t, o) matches Some(b) ==> {
            &&& b == (if o.header {
                header_bytes(header_names(t), o)
            } else {
                Seq::<u8>::empty()
            }) + body_rows(t, o, 0, t.spec_height())
            &&& (!o.header && t.spec_height() > 0) ==> b == row_val(t, o, 0) + body_rows(
                t,
                o,
                1,
                t.spec_height(),
            )
        },
{
    if csv_out(t, o) is Some && !o.header {
        assert(Seq::<u8>::empty() + body_rows(t, o, 0, t.spec_height()) =~= body_rows(
            t,
            o,
            0,
            t.spec_height(),
        ));
    }
}

/// A conformant reader's scan of an unquoted field: the prefix up to the
/// first delimiter.
pub open spec fn scan_unquoted(s: Seq<u8>, d: u8) -> int
    decreases s.len(),
{
    if s.len() == 0 {
        0
    } else if s[0] == d {
        0
    } else {
        1 + scan_unquoted(s.skip(1), d)
    }
}

/// A conformant reader's scan of a quoted field's remainder, the opening
/// quote already consumed: the content read (doubled quotes undone) and the
/// bytes consumed including the closing quote; `None` for an unterminated
/// field.
pub open spec fn scan_quoted(s: Seq<u8>, q: u8) -> Option<(Seq<u8>, int)>
    decreases s.len(),
{
    if s.len() == 0 {
        None
    } else if s[0] == q {
        if s.len() >= 2 && s[1] == q {
            match scan_quoted(s.skip(2), q) {
                Some(p) => Some((seq![q] + p.0, p.1 + 2)),
                None => None,
            }
        } else {
            Some((Seq::empty(), 1))
        }
    } else {
        match scan_quoted(s.skip(1), q) {
            Some(p) => Some((seq![s[0]] + p.0, p.1 + 1)),
            None => None,
        }
    }
}

/// A conformant reader's read of one field at the front of `s`: the field's
/// value and the bytes consumed.
pub open spec fn read_one(s: Seq<u8>, d: u8, q: u8) -> Option<(Seq<u8>, int)> {
    if s.len() > 0 && s[0] == q {
        match scan_quoted(s.skip(1), q) {
            Some(p) => Some((p.0, p.1 + 1)),
            None => None,
        }
    } else {
        Some((s.take(scan_unquoted(s, d)), scan_unquoted(s, d)))
    }
}

/// A conformant reader's read of a whole row line (without its line
/// break): the field values, in order.
pub open spec fn read_row(s: Seq<u8>, d: u8, q: u8) -> Option<Seq<Seq<u8>>>
    decreases s.len(),
{
    match read_one(s, d, q) {
        None => None,
        Some(p) => {
            let n = p.1;
            if n == s.len() {
                Some(seq![p.0])
            } else if 0 <= n < s.len() && s[n] == d {
                match read_row(s.skip(n + 1), d, q) {
                    Some(rest) => Some(seq![p.0] + rest),
                    None => None,
                }
            } else {
                None
            }
        },
    }
}

proof fn lemma_scan_unquoted_prefix(f: Seq<u8>, rest: Seq<u8>, d: u8)
    requires
        forall|i: int| 0 <= i < f.len() ==> f[i] != d,
        rest.len() == 0 || rest[0] == d,
    ensures
        scan_unquoted(f + rest, d) == f.len(),
        (f + rest).take(f.len() as int) == f,
    decreases f.len(),
{
    let s = f + rest;
    assert(s.take(f.len() as int) =~= f);
    if f.len() == 0 {
        if rest.len() > 0 {
            assert(s =~= rest);
        } else {
            assert(s.len() == 0);
        }
    } else {
        assert(s[0] == f[0]);
        assert(s.skip(1) =~= f.skip(1) + rest);
        lemma_scan_unquoted_prefix(f.skip(1), rest, d);
    }
}

proof fn lemma_scan_quoted_prefix(f: Seq<u8>, rest: Seq<u8>, q: u8)
    requires
        rest.len() == 0 || rest[0] != q,
    ensures
        scan_quoted(dbl_quotes(f, q) + seq![q] + rest, q) == Some(
            (f, dbl_quotes(f, q).len() as int + 1),
        ),
    decreases f.len(),
{
    let s = dbl_quotes(f, q) + seq![q] + rest;
    if f.len() == 0 {
        assert(dbl_quotes(f, q) =~= Seq::<u8>::empty());
        assert(s =~= seq![q] + rest);
        assert(s[0] == q);
        if s.len() >= 2 {
            assert(s[1] == rest[0]);
            assert(s[1] != q);
        }
        assert(scan_quoted(s, q) == Some((Seq::<u8>::empty(), 1int)));
    } else {
        let f2 = f.drop_first();
        lemma_scan_quoted_prefix(f2, rest, q);
        if f[0] == q {
            assert(dbl_quotes(f, q) == seq![q, q] + dbl_quotes(f2, q));
            assert(s[0] == q && s.len() >= 2 && s[1] == q);
            assert(s.skip(2) =~= dbl_quotes(f2, q) + seq![q] + rest);
            assert(seq![q] + f2 =~= f);
        } else {
            assert(dbl_quotes(f, q) == seq![f[0]] + dbl_quotes(f2, q));
            assert(s[0] == f[0]);
            assert(s.skip(1) =~= dbl_quotes(f2, q) + seq![q] + rest);
            assert(seq![f[0]] + f2 =~= f);
        }
    }
}

proof fn lemma_read_one_escaped(f: Seq<u8>, rest: Seq<u8>, d: u8, q: u8, quote_empty: bool)
    requires
        d != q,
        rest.len() == 0 || rest[0] == d,
    ensures
        read_one(escaped_field(f, d, q, quote_empty) + rest, d, q) == Some(
            (f, escaped_field(f, d, q, quote_empty).len() as int),
        ),
{
    let e = escaped_field(f, d, q, quote_empty);
    let s = e + rest;
    if must_quote(f, d, q, quote_empty) {
        assert(e == seq![q] + dbl_quotes(f, q) + seq![q]);
        assert(s[0] == q);
        assert(s.skip(1) =~= dbl_quotes(f, q) + seq![q] + rest);
        lemma_scan_quoted_prefix(f, rest, q);
        assert(e.len() == dbl_quotes(f, q).len() + 2);
    } else {
        assert(e == f);
        assert forall|i: int| 0 <= i < f.len() implies f[i] != d && f[i] != q by {
            if f[i] == d || f[i] == q {
                assert(has_special(f, d, q));
            }
        }
        if s.len() > 0 && s[0] == q {
            if f.len() > 0 {
                assert(s[0] == f[0]);
                assert(false);
            } else {
                assert(s[0] == rest[0]);
                assert(false);
            }
        }
        lemma_scan_unquoted_prefix(f, rest, d);
    }
}

/// The formatted (pre-escape) field of one cell; only used where the cell
/// formats.
pub open spec fn field_val(t: Table, o: CsvWriterOptions, r: int, c: int) -> Seq<u8> {
    match fmt_value(spec_cell(t, r, c), o) {
        Some(f) => f,
        None => Seq::empty(),
    }
}

/// The formatted fields of row `r`, from column `c` on.
pub open spec fn row_fields(t: Table, o: CsvWriterOptions, r: int, c: int) -> Seq<Seq<u8>>
    decreases t.columns@.len() - c,
{
    if c < 0 || c >= t.columns@.len() {
        Seq::empty()
    } else {
        seq![field_val(t, o, r, c)] + row_fields(t, o, r, c + 1)
    }
}

proof fn lemma_read_row_cells(t: Table, o: CsvWriterOptions, r: int, c: int)
    requires
        o.delimiter != o.quote,
        0 <= c < t.columns@.len(),
        row_cells(t, o, r, c) is Some,
    ensures
        read_row(
            match row_cells(t, o, r, c) {
                Some(x) => x,
                None => Seq::empty(),
            },
            o.delimiter,
            o.quote,
        ) == Some(row_fields(t, o, r, c)),
    decreases t.columns@.len() - c,
{
    let w = t.columns@.len() as int;
    let d = o.delimiter;
    let q = o.quote;
    let joined = match row_cells(t, o, r, c) {
        Some(x) => x,
        None => Seq::<u8>::empty(),
    };
    match cell_out(spec_cell(t, r, c), o) {
        None => {
            assert(false);
        },
        Some(e) => {
            let fv = field_val(t, o, r, c);
            assert(e == escaped_field(fv, d, q, spec_cell(t, r, c) is Text));
            if c + 1 == w {
                assert(row_cells(t, o, r, c + 1) == Some(Seq::<u8>::empty()));
                assert(joined =~= e + Seq::<u8>::empty());
                assert(joined =~= e);
                lemma_read_one_escaped(fv, Seq::empty(), d, q, spec_cell(t, r, c) is Text);
                assert(e + Seq::<u8>::empty() =~= e);
                assert(read_one(joined, d, q) == Some((fv, e.len() as int)));
                assert(read_row(joined, d, q) == Some(seq![fv]));
                assert(row_fields(t, o, r, c + 1) =~= Seq::<Seq<u8>>::empty());
                assert(seq![fv] + Seq::<Seq<u8>>::empty() =~= seq![fv]);
                assert(row_fields(t, o, r, c) =~= seq![fv]);
            } else {
                match row_cells(t, o, r, c + 1) {
                    None => {
                        assert(false);
                    },
                    Some(tail) => {
                        let restpart = seq![d] + tail;
                        assert(joined =~= e + restpart) by {
                            assert(joined == e + seq![d] + tail);
                            assert(e + seq![d] + tail =~= e + (seq![d] + tail));
                        }
                        assert(restpart[0] == d);
                        lemma_read_one_escaped(fv, restpart, d, q, spec_cell(t, r, c) is Text);
                        assert(read_one(joined, d, q) == Some((fv, e.len() as int)));
                        let n = e.len() as int;
                        assert(joined.len() == n + 1 + tail.len());
                        assert(joined[n] == restpart[0]);
                        assert(joined.skip(n + 1) =~= tail);
                        lemma_read_row_cells(t, o, r, c + 1);
                        assert(read_row(joined, d, q) == Some(
                            seq![fv] + row_fields(t, o, r, c + 1),
                        ));
                    },
                }
            }
        },
    }
}

/// A conformant reader's scan of an unquoted field in a record stream: the
/// prefix up to the first delimiter or line break.
pub open spec fn scan_unquoted_rec(s: Seq<u8>, d: u8) -> int
    decreases s.len(),
{
    if s.len() == 0 {
        0
    } else if s[0] == d || s[0] == 10 {
        0
    } else {
        1 + scan_unquoted_rec(s.skip(1), d)
    }
}

/// A conformant reader's read of one field at the front of a record
/// stream.
pub open spec fn read_one_rec(s: Seq<u8>, d: u8, q: u8) -> Option<(Seq<u8>, int)> {
    if s.len() > 0 && s[0] == q {
        match scan_quoted(s.skip(1), q) {
            Some(p) => Some((p.0, p.1 + 1)),
            None => None,
        }
    } else {
        Some((s.take(scan_unquoted_rec(s, d)), scan_unquoted_rec(s, d)))
    }
}

/// A conformant reader's read of one record at the front of the stream:
/// its fields and the bytes consumed, the terminating line break included.
pub open spec fn read_record(s: Seq<u8>, d: u8, q: u8) -> Option<(Seq<Seq<u8>>, int)>
    decreases s.len(),
{
    match read_one_rec(s, d, q) {
        None => None,
        Some(p) => {
            let n = p.1;
            if n == s.len() {
                Some((seq![p.0], n))
            } else if 0 <= n < s.len() && s[n] == d {
                match read_record(s.skip(n + 1), d, q) {
                    Some(rest) => Some((seq![p.0] + rest.0, n + 1 + rest.1)),
                    None => None,
                }
            } else if 0 <= n < s.len() && s[n] == 10 {
                Some((seq![p.0], n + 1))
            } else {
                None
            }
        },
    }
}

/// A conformant reader's read of the whole stream: every record's fields,
/// in order.
pub open spec fn read_stream(s: Seq<u8>, d: u8, q: u8) -> Option<Seq<Seq<Seq<u8>>>>
    decreases s.len(),
{
    if s.len() == 0 {
        Some(Seq::empty())
    } else {
        match read_record(s, d, q) {
            None => None,
            Some(p) => {
                if 1 <= p.1 <= s.len() {
                    match read_stream(s.skip(p.1), d, q) {
                        Some(rest) => Some(seq![p.0] + rest),
                        None => None,
                    }
                } else {
                    None
                }
            },
        }
    }
}

proof fn lemma_scan_unquoted_rec_prefix(f: Seq<u8>, rest: Seq<u8>, d: u8)
    requires
        forall|i: int| 0 <= i < f.len() ==> f[i] != d && f[i] != 10,
        rest.len() == 0 || rest[0] == d || rest[0] == 10,
    ensures
        scan_unquoted_rec(f + rest, d) == f.len(),
        (f + rest).take(f.len() as int) == f,
    decreases f.len(),
{
    let s = f + rest;
    assert(s.take(f.len() as int) =~= f);
    if f.len() == 0 {
        if rest.len() > 0 {
            assert(s =~= rest);
        } else {
            assert(s.len() == 0);
        }
    } else {
        assert(s[0] == f[0]);
        assert(s.skip(1) =~= f.skip(1) + rest);
        lemma_scan_unquoted_rec_prefix(f.skip(1), rest, d);
    }
}

proof fn lemma_read_one_rec_escaped(f: Seq<u8>, rest: Seq<u8>, d: u8, q: u8, quote_empty: bool)
    requires
        d != q,
        q != 10,
        rest.len() == 0 || rest[0] == d || rest[0] == 10,
    ensures
        read_one_rec(escaped_field(f, d, q, quote_empty) + rest, d, q) == Some(
            (f, escaped_field(f, d, q, quote_empty).len() as int),
        ),
{
    let e = escaped_field(f, d, q, quote_empty);
    let s = e + rest;
    if must_quote(f, d, q, quote_empty) {
        assert(e == seq![q] + dbl_quotes(f, q) + seq![q]);
        assert(s[0] == q);
        assert(s.skip(1) =~= dbl_quotes(f, q) + seq![q] + rest);
        lemma_scan_quoted_prefix(f, rest, q);
        assert(e.len() == dbl_quotes(f, q).len() + 2);
    } else {
        assert(e == f);
        assert forall|i: int| 0 <= i < f.len() implies f[i] != d && f[i] != q && f[i] != 10 by {
            if f[i] == d || f[i] == q || f[i] == 10 {
                assert(has_special(f, d, q));
            }
        }
        if s.len() > 0 && s[0] == q {
            if f.len() > 0 {
                assert(s[0] == f[0]);
                assert(false);
            } else {
                assert(s[0] == rest[0]);
                assert(false);
            }
        }
        lemma_scan_unquoted_rec_prefix(f, rest, d);
    }
}

#[verifier::rlimit(80)]
proof fn lemma_read_record_cells(t: Table, o: CsvWriterOptions, r: int, c: int, more: Seq<u8>)
    requires
        o.delimiter != o.quote,
        o.delimiter != 10,
        o.quote != 10,
        0 <= c < t.columns@.len(),
        row_cells(t, o, r, c) is Some,
    ensures
        ({
            let joined = match row_cells(t, o, r, c) {
                Some(x) => x,
                None => Seq::empty(),
            };
            read_record(joined + seq![10u8] + more, o.delimiter, o.quote) == Some(
                (row_fields(t, o, r, c), joined.len() as int + 1),
            )
        }),
    decreases t.columns@.len() - c,
{
    let w = t.columns@.len() as int;
    let d = o.delimiter;
    let q = o.quote;
    let joined = match row_cells(t, o, r, c) {
        Some(x) => x,
        None => Seq::<u8>::empty(),
    };
    let s = joined + seq![10u8] + more;
    match cell_out(spec_cell(t, r, c), o) {
        None => {
            assert(false);
        },
        Some(e) => {
            let fv = field_val(t, o, r, c);
            assert(e == escaped_field(fv, d, q, spec_cell(t, r, c) is Text));
            if c + 1 == w {
                assert(row_cells(t, o, r, c + 1) == Some(Seq::<u8>::empty()));
                assert(joined =~= e);
                let rest = seq![10u8] + more;
                assert(s =~= e + rest);
                assert(rest[0] == 10);
                lemma_read_one_rec_escaped(fv, rest, d, q, spec_cell(t, r, c) is Text);
                let n = e.len() as int;
                assert(s[n] == rest[0]);
                assert(s[n] != d && s[n] == 10);
                assert(read_record(s, d, q) == Some((seq![fv], n + 1)));
                assert(row_fields(t, o, r, c + 1) =~= Seq::<Seq<u8>>::empty());
                assert(seq![fv] + Seq::<Seq<u8>>::empty() =~= seq![fv]);
                assert(row_fields(t, o, r, c) =~= seq![fv]);
            } else {
                match row_cells(t, o, r, c + 1) {
                    None => {
                        assert(false);
                    },
                    Some(tail) => {
                        let rest = seq![d] + tail + seq![10u8] + more;
                        assert(s =~= e + rest) by {
                            assert(joined == e + seq![d] + tail);
                        }
                        assert(rest[0] == d);
                        lemma_read_one_rec_escaped(fv, rest, d, q, spec_cell(t, r, c) is Text);
                        let n = e.len() as int;
                        assert(read_one_rec(s, d, q) == Some((fv, n)));
                        assert(s[n] == rest[0]);
                        assert(s.skip(n + 1) =~= tail + seq![10u8] + more);
                        lemma_read_record_cells(t, o, r, c + 1, more);
                        assert(read_record(s, d, q) == Some(
                            (seq![fv] + row_fields(t, o, r, c + 1), n + 1 + tail.len() + 1),
                        ));
                        assert(joined.len() == n + 1 + tail.len());
                    },
                }
            }
        },
    }
}

/// The formatted texts of the column names, the header record's fields.
pub open spec fn header_fields(names: Seq<String>, c: int) -> Seq<Seq<u8>>
    decreases names.len() - c,
{
    if c < 0 || c >= names.len() {
        Seq::empty()
    } else {
        seq![encode_utf8(names[c]@)] + header_fields(names, c + 1)
    }
}

proof fn lemma_read_record_header(
    names: Seq<String>,
    o: CsvWriterOptions,
    c: int,
    more: Seq<u8>,
)
    requires
        o.delimiter != o.quote,
        o.delimiter != 10,
        o.quote != 10,
        0 <= c < names.len(),
    ensures
        read_record(header_cells(names, o, c) + seq![10u8] + more, o.delimiter, o.quote) == Some(
            (header_fields(names, c), header_cells(names, o, c).len() as int + 1),
        ),
    decreases names.len() - c,
{
    let w = names.len() as int;
    let d = o.delimiter;
    let q = o.quote;
    let joined = header_cells(names, o, c);
    let s = joined + seq![10u8] + more;
    let fv = encode_utf8(names[c]@);
    let e = escaped_field(fv, d, q, true);
    if c + 1 == w {
        assert(header_cells(names, o, c + 1) =~= Seq::<u8>::empty());
        assert(joined =~= e);
        let rest = seq![10u8] + more;
        assert(s =~= e + rest);
        assert(rest[0] == 10);
        lemma_read_one_rec_escaped(fv, rest, d, q, true);
        let n = e.len() as int;
        assert(s[n] == rest[0]);
        assert(read_record(s, d, q) == Some((seq![fv], n + 1)));
        assert(header_fields(names, c + 1) =~= Seq::<Seq<u8>>::empty());
        assert(seq![fv] + Seq::<Seq<u8>>::empty() =~= seq![fv]);
        assert(header_fields(names, c) =~= seq![fv]);
    } else {
        let tail = header_cells(names, o, c + 1);
        let rest = seq![d] + tail + seq![10u8] + more;
        assert(s =~= e + rest) by {
            assert(joined == e + seq![d] + tail);
        }
        assert(rest[0] == d);
        lemma_read_one_rec_escaped(fv, rest, d, q, true);
        let n = e.len() as int;
        assert(s[n] == rest[0]);
        assert(s.skip(n + 1) =~= tail + seq![10u8] + more);
        lemma_read_record_header(names, o, c + 1, more);
        assert(read_record(s, d, q) == Some(
            (seq![fv] + header_fields(names, c + 1), n + 1 + tail.len() + 1),
        ));
        assert(joined.len() == n + 1 + tail.len());
    }
}

/// The formatted texts of every cell of every row from `from` on: what a
/// conformant reader recovers from the body.
pub open spec fn table_fields(t: Table, o: CsvWriterOptions, from: int) -> Seq<Seq<Seq<u8>>>
    decreases t.spec_height() - from,
{
    if from < 0 || from >= t.spec_height() {
        Seq::empty()
    } else {
        seq![row_fields(t, o, from, 0)] + table_fields(t, o, from + 1)
    }
}

proof fn lemma_read_stream_rows(t: Table, o: CsvWriterOptions, from: int)
    requires
        o.delimiter != o.quote,
        o.delimiter != 10,
        o.quote != 10,
        t.columns@.len() > 0,
        0 <= from <= t.spec_height(),
        forall|r: int| from <= r < t.spec_height() ==> row_ok(t, o, r),
    ensures
        read_stream(body_rows(t, o, from, t.spec_height()), o.delimiter, o.quote) == Some(
            table_fields(t, o, from),
        ),
    decreases t.spec_height() - from,
{
    let h = t.spec_height();
    let d = o.delimiter;
    let q = o.quote;
    if from == h {
        assert(body_rows(t, o, from, h) =~= Seq::<u8>::empty());
        assert(table_fields(t, o, from) =~= Seq::<Seq<Seq<u8>>>::empty());
    } else {
        let s = body_rows(t, o, from, h);
        let more = body_rows(t, o, from + 1, h);
        match row_cells(t, o, from, 0) {
            None => {
                assert(row_ok(t, o, from));
                assert(false);
            },
            Some(joined) => {
                assert(row_val(t, o, from) == joined + seq![10u8]);
                assert(s =~= joined + seq![10u8] + more) by {
                    assert(s == (joined + seq![10u8]) + more);
                }
                lemma_read_record_cells(t, o, from, 0, more);
                let m = joined.len() as int + 1;
                assert(s.len() == m + more.len());
                assert(s.skip(m) =~= more);
                lemma_read_stream_rows(t, o, from + 1);
                assert(read_stream(s, d, q) == Some(
                    seq![row_fields(t, o, from, 0)] + table_fields(t, o, from + 1),
                ));
            },
        }
    }
}

/// Round trip of the whole output: a conformant reader, handed the exact
/// bytes a successful write produces, recovers the header names (when the
/// header is enabled) and then the formatted text of every cell of every
/// row, in order.  The delimiter and the quote must differ from each other
/// and from the line break, as they do under the default options.
pub proof fn law_csv_round_trip(t: Table, o: CsvWriterOptions)
    requires
        o.delimiter != o.quote,
        o.delimiter != 10,
        o.quote != 10,
        t.columns@.len() > 0,
        csv_out(t, o) is Some,
    ensures
        csv_out(t, o) matches Some(b) ==> read_stream(b, o.delimiter, o.quote) == Some(
            (if o.header {
                seq![header_fields(header_names(t), 0)]
            } else {
                Seq::empty()
            }) + table_fields(t, o, 0),
        ),
{
    let h = t.spec_height();
    let d = o.delimiter;
    let q = o.quote;
    assert(all_rows_ok(t, o));
    lemma_read_stream_rows(t, o, 0);
    let body = body_rows(t, o, 0, h);
    if o.header {
        let names = header_names(t);
        let hc = header_cells(names, o, 0);
        let b = header_bytes(names, o) + body;
        assert(b =~= hc + seq![10u8] + body) by {
            assert(header_bytes(names, o) == hc + seq![10u8]);
        }
        lemma_read_record_header(names, o, 0, body);
        let m = hc.len() as int + 1;
        assert(b.skip(m) =~= body);
        assert(read_stream(b, d, q) == Some(
            seq![header_fields(names, 0)] + table_fields(t, o, 0),
        ));
    } else {
        assert(Seq::<u8>::empty() + body =~= body);
        assert(Seq::<Seq<Seq<u8>>>::empty() + table_fields(t, o, 0) =~= table_fields(t, o, 0));
    }
}

/// Round trip of a whole data row: a conformant reader, handed the joined
/// and escaped row line the writer produces (without its line break),
/// recovers exactly the formatted text of every cell, in column order.
pub proof fn law_row_round_trip(t: Table, o: CsvWriterOptions, r: int)
    requires
        o.delimiter != o.quote,
        t.columns@.len() > 0,
        row_ok(t, o, r),
    ensures
        read_row(
            match row_cells(t, o, r, 0) {
                Some(x) => x,
                None => Seq::empty(),
            },
            o.delimiter,
            o.quote,
        ) == Some(row_fields(t, o, r, 0)),
{
    lemma_read_row_cells(t, o, r, 0);
}

} // verus!
