use vstd::prelude::*;
use vstd::string::StrSliceExecFns;
use vstd::utf8::encode_utf8;

use crate::escape::escape_into;
use crate::escape::escaped_field;
use crate::field::cell_out;
use crate::field::write_cell;
use crate::options::CsvWriterOptions;
use crate::table::AnyValue;
use crate::table::Table;

verus! {

/// The errors of a write: an options bundle that breaks the configuration
/// invariant, or a configured format pattern invalid for the type of the
/// cells of one column.
#[derive(Clone, Copy, Debug, PartialEq, Eq, Structural)]
pub enum CsvError {
    InvalidOptions,
    InvalidFormat { column: usize },
}

/// The escaped, delimiter-joined column names from index `c` on.
pub open spec fn header_cells(names: Seq<String>, o: CsvWriterOptions, c: int) -> Seq<u8>
    decreases names.len() - c,
{
    if c < 0 || c >= names.len() {
        Seq::empty()
    } else {
        escaped_field(encode_utf8(names[c]@), o.delimiter, o.quote, true) + (if c + 1
            < names.len() {
            seq![o.delimiter]
        } else {
            Seq::empty()
        }) + header_cells(names, o, c + 1)
    }
}

/// The header row: the joined names and one line break.
pub open spec fn header_bytes(names: Seq<String>, o: CsvWriterOptions) -> Seq<u8> {
    header_cells(names, o, 0) + seq![10u8]
}

pub open spec fn spec_cell(t: Table, r: int, c: int) -> AnyValue {
    t.columns@[c].values@[r]
}

/// The escaped, delimiter-joined cells of row `r` from column `c` on;
/// `None` when some cell fails to format.
pub open spec fn row_cells(t: Table, o: CsvWriterOptions, r: int, c: int) -> Option<Seq<u8>>
    decreases t.columns@.len() - c,
{
    if c < 0 || c >= t.columns@.len() {
        Some(Seq::empty())
    } else {
        match cell_out(spec_cell(t, r, c), o) {
            None => None,
            Some(f) => match row_cells(t, o, r, c + 1) {
                None => None,
                Some(rest) => Some(
                    f + (if c + 1 < t.columns@.len() {
                        seq![o.delimiter]
                    } else {
                        Seq::empty()
                    }) + rest,
                ),
            },
        }
    }
}

/// One data row: its joined cells and one line break.
pub open spec fn row_out(t: Table, o: CsvWriterOptions, r: int) -> Option<Seq<u8>> {
    match row_cells(t, o, r, 0) {
        Some(x) => Some(x + seq![10u8]),
        None => None,
    }
}

pub open spec fn row_ok(t: Table, o: CsvWriterOptions, r: int) -> bool {
    row_out(t, o, r) is Some
}

/// The bytes of one row, empty for a row that fails to format (only ever
/// used for rows that do not).
pub open spec fn row_val(t: Table, o: CsvWriterOptions, r: int) -> Seq<u8> {
    match row_out(t, o, r) {
        Some(x) => x,
        None => Seq::empty(),
    }
}

/// The concatenated rows of the half-open index window `[from, to)`.
pub open spec fn body_rows(t: Table, o: CsvWriterOptions, from: int, to: int) -> Seq<u8>
    decreases to - from,
{
    if from >= to {
        Seq::empty()
    } else {
        row_val(t, o, from) + body_rows(t, o, from + 1, to)
    }
}

pub open spec fn all_rows_ok(t: Table, o: CsvWriterOptions) -> bool {
    forall|r: int| 0 <= r < t.spec_height() ==> row_ok(t, o, r)
}

/// The table body: every row joined, or `None` when some cell of some row
/// fails to format.
pub open spec fn body_out(t: Table, o: CsvWriterOptions) -> Option<Seq<u8>> {
    if all_rows_ok(t, o) {
        Some(body_rows(t, o, 0, t.spec_height()))
    } else {
        None
    }
}

/// The first row with a failing cell (the height when there is none).
pub open spec fn first_bad_row_from(t: Table, o: CsvWriterOptions, r: int) -> int
    decreases t.spec_height() - r,
{
    if r < 0 || r >= t.spec_height() {
        t.spec_height()
    } else if !row_ok(t, o, r) {
        r
    } else {
        first_bad_row_from(t, o, r + 1)
    }
}

pub open spec fn first_bad_row(t: Table, o: CsvWriterOptions) -> int {
    first_bad_row_from(t, o, 0)
}

/// The first failing column of a row, from `c` on (the width when there is
/// none).
pub open spec fn first_bad_col_from(t: Table, o: CsvWriterOptions, r: int, c: int) -> int
    decreases t.columns@.len() - c,
{
    if c < 0 || c >= t.columns@.len() {
        t.columns@.len() as int
    } else if cell_out(spec_cell(t, r, c), o) is None {
        c
    } else {
        first_bad_col_from(t, o, r, c + 1)
    }
}

/// The table's column names, in order.
pub open spec fn header_names(t: Table) -> Seq<String> {
    Seq::new(t.columns@.len(), |c: int| t.columns@[c].name)
}

/// The full output: the header row when enabled, then the body; `None`
/// exactly when the body fails to format.
pub open spec fn csv_out(t: Table, o: CsvWriterOptions) -> Option<Seq<u8>> {
    match body_out(t, o) {
        Some(b) => Some(
            (if o.header {
                header_bytes(header_names(t), o)
            } else {
                Seq::empty()
            }) + b,
        ),
        None => None,
    }
}

/// Append the header row for the given column names: formats each name as
/// a plain text field, escapes it, joins with the delimiter and terminates
/// with one line break.
pub fn write_header(out: &mut Vec<u8>, names: &Vec<String>, o: &CsvWriterOptions)
    ensures
        final(out)@ == old(out)@ + header_bytes(names@, *o),
{
    let mut c: usize = 0;
    while c < names.len()
        invariant
            c <= names@.len(),
            out@ + header_cells(names@, *o, c as int) == old(out)@ + header_cells(names@, *o, 0),
        decreases names@.len() - c,
    {
        let ghost pre = out@;
        let nb = names[c].as_str().as_bytes_vec();
        escape_into(out, &nb, o.delimiter, o.quote, true);
        if c + 1 < names.len() {
            out.push(o.delimiter);
        }
        proof {
            let e = escaped_field(encode_utf8(names@[c as int]@), o.delimiter, o.quote, true);
            let dl: Seq<u8> = if c + 1 < names@.len() {
                seq![o.delimiter]
            } else {
                Seq::<u8>::empty()
            };
            assert(out@ =~= pre + (e + dl));
            assert(header_cells(names@, *o, c as int) == (e + dl) + header_cells(
                names@,
                *o,
                c + 1,
            )) by {
                assert(e + dl + header_cells(names@, *o, c + 1) =~= (e + dl) + header_cells(
                    names@,
                    *o,
                    c + 1,
                ));
            }
            assert(out@ + header_cells(names@, *o, c + 1) =~= pre + header_cells(
                names@,
                *o,
                c as int,
            ));
        }
        c = c + 1;
    }
    assert(header_cells(names@, *o, names@.len() as int) =~= Seq::<u8>::empty());
    out.push(10);
    assert(final(out)@ =~= old(out)@ + header_bytes(names@, *o));
}

pub open spec fn opt_prepend(p: Seq<u8>, x: Option<Seq<u8>>) -> Option<Seq<u8>> {
    match x {
        Some(v) => Some(p + v),
        None => None,
    }
}

/// Skipping columns known to format does not move the first failing one.
proof fn lemma_first_bad_col(t: Table, o: CsvWriterOptions, r: int, i: int, c: int)
    requires
        0 <= i <= c <= t.columns@.len(),
        forall|j: int| i <= j < c ==> cell_out(spec_cell(t, r, j), o) is Some,
    ensures
        first_bad_col_from(t, o, r, i) == first_bad_col_from(t, o, r, c),
    decreases c - i,
{
    if i < c {
        lemma_first_bad_col(t, o, r, i + 1, c);
    }
}

/// Append one row's cells, joined with the delimiter and terminated by a
/// line break; on a cell whose pattern is invalid, appends nothing and
/// returns the column.
pub fn write_row(out: &mut Vec<u8>, t: &Table, o: &CsvWriterOptions, r: usize) -> (res: Result<
    (),
    usize,
>)
    requires
        t.wf(),
        r < t.spec_height(),
    ensures
        match res {
            Ok(()) => row_ok(*t, *o, r as int) && final(out)@ == old(out)@ + row_val(
                *t,
                *o,
                r as int,
            ),
            Err(c) => !row_ok(*t, *o, r as int) && c == first_bad_col_from(*t, *o, r as int, 0)
                && final(out)@ == old(out)@,
        },
{
    let w = t.columns.len();
    let mut rb: Vec<u8> = Vec::new();
    let mut c: usize = 0;
    while c < w
        invariant
            c <= w,
            w == t.columns@.len(),
            t.wf(),
            r < t.spec_height(),
            forall|j: int| 0 <= j < c ==> cell_out(spec_cell(*t, r as int, j), *o) is Some,
            row_cells(*t, *o, r as int, 0) == opt_prepend(
                rb@,
                row_cells(*t, *o, r as int, c as int),
            ),
        decreases w - c,
    {
        let ghost pre = rb@;
        assert(t.columns@[c as int].values@.len() == t.spec_height());
        let cellv = &t.columns[c].values[r];
        assert(*cellv == spec_cell(*t, r as int, c as int));
        let ok = write_cell(&mut rb, cellv, o);
        if !ok {
            proof {
                assert(row_cells(*t, *o, r as int, c as int) is None);
                assert(row_cells(*t, *o, r as int, 0) is None);
                lemma_first_bad_col(*t, *o, r as int, 0, c as int);
                assert(first_bad_col_from(*t, *o, r as int, c as int) == c as int);
            }
            return Err(c);
        }
        if c + 1 < w {
            rb.push(o.delimiter);
        }
        proof {
            let dl: Seq<u8> = if c + 1 < t.columns@.len() {
                seq![o.delimiter]
            } else {
                Seq::<u8>::empty()
            };
            match cell_out(spec_cell(*t, r as int, c as int), *o) {
                Some(fv) => {
                    assert(rb@ =~= pre + fv + dl);
                    match row_cells(*t, *o, r as int, c + 1) {
                        Some(rest) => {
                            assert(row_cells(*t, *o, r as int, c as int) == Some(fv + dl + rest));
                            assert(pre + (fv + dl + rest) =~= (pre + fv + dl) + rest);
                        },
                        None => {
                            assert(row_cells(*t, *o, r as int, c as int) is None);
                        },
                    }
                },
                None => {
                    assert(false);
                },
            }
        }
        c = c + 1;
    }
    proof {
        assert(row_cells(*t, *o, r as int, w as int) == Some(Seq::<u8>::empty()));
        assert(rb@ + Seq::<u8>::empty() =~= rb@);
        assert(row_cells(*t, *o, r as int, 0) == Some(rb@));
    }
    out.append(&mut rb);
    out.push(10);
    assert(final(out)@ =~= old(out)@ + row_val(*t, *o, r as int));
    Ok(())
}

/// The row window `[a, b]` splits as the window `[a, b)` plus row `b`.
proof fn lemma_body_rows_snoc(t: Table, o: CsvWriterOptions, a: int, b: int)
    requires
        a <= b,
    ensures
        body_rows(t, o, a, b + 1) == body_rows(t, o, a, b) + row_val(t, o, b),
    decreases b - a,
{
    if a == b {
        assert(body_rows(t, o, b + 1, b + 1) =~= Seq::<u8>::empty());
        assert(body_rows(t, o, a, b) =~= Seq::<u8>::empty());
        assert(row_val(t, o, a) + Seq::<u8>::empty() =~= row_val(t, o, a));
        assert(Seq::<u8>::empty() + row_val(t, o, b) =~= row_val(t, o, b));
    } else {
        lemma_body_rows_snoc(t, o, a + 1, b);
        assert(row_val(t, o, a) + (body_rows(t, o, a + 1, b) + row_val(t, o, b)) =~= (row_val(
            t,
            o,
            a,
        ) + body_rows(t, o, a + 1, b)) + row_val(t, o, b));
    }
}

/// Concatenating adjacent row windows gives the joined window.
proof fn lemma_body_rows_concat(t: Table, o: CsvWriterOptions, a: int, b: int, e: int)
    requires
        a <= b <= e,
    ensures
        body_rows(t, o, a, e) == body_rows(t, o, a, b) + body_rows(t, o, b, e),
    decreases b - a,
{
    if a == b {
        assert(Seq::<u8>::empty() + body_rows(t, o, b, e) =~= body_rows(t, o, b, e));
    } else {
        lemma_body_rows_concat(t, o, a + 1, b, e);
        assert(row_val(t, o, a) + (body_rows(t, o, a + 1, b) + body_rows(t, o, b, e)) =~= (row_val(
            t,
            o,
            a,
        ) + body_rows(t, o, a + 1, b)) + body_rows(t, o, b, e));
    }
}

/// Skipping rows known to format does not move the first failing one.
proof fn lemma_first_bad_row(t: Table, o: CsvWriterOptions, i: int, r: int)
    requires
        0 <= i <= r <= t.spec_height(),
        forall|j: int| i <= j < r ==> row_ok(t, o, j),
    ensures
        first_bad_row_from(t, o, i) == first_bad_row_from(t, o, r),
    decreases r - i,
{
    if i < r {
        lemma_first_bad_row(t, o, i + 1, r);
    }
}

/// Append the whole table body, gathering `o.batch_size` rows into one
/// buffer before each append to `out`.  On a cell whose pattern is invalid
/// the write stops: the batches already flushed stay, the open batch is
/// dropped, and the error names the first failing column of the first
/// failing row.
pub fn write(out: &mut Vec<u8>, df: &Table, o: &CsvWriterOptions) -> (res: Result<(), CsvError>)
    requires
        df.wf(),
        o.batch_size >= 1,
    ensures
        match res {
            Ok(()) => body_out(*df, *o) == Some(
                body_rows(*df, *o, 0, df.spec_height()),
            ) && final(out)@ == old(out)@ + body_rows(*df, *o, 0, df.spec_height()),
            Err(e) => {
                let fbr = first_bad_row(*df, *o);
                &&& body_out(*df, *o) is None
                &&& e == CsvError::InvalidFormat {
                    column: first_bad_col_from(*df, *o, fbr, 0) as usize,
                }
                &&& final(out)@ == old(out)@ + body_rows(*df, *o, 0, fbr - (fbr % (
                o.batch_size as int)))
            },
        },
{
    let h = df.height();
    let mut r: usize = 0;
    let mut in_batch: usize = 0;
    let mut batch: Vec<u8> = Vec::new();
    while r < h
        invariant
            r <= h,
            h == df.spec_height(),
            df.wf(),
            o.batch_size >= 1,
            in_batch <= r,
            in_batch as int == r as int % (o.batch_size as int),
            forall|j: int| 0 <= j < r ==> row_ok(*df, *o, j),
            out@ == old(out)@ + body_rows(*df, *o, 0, r - in_batch),
            batch@ == body_rows(*df, *o, r - in_batch, r as int),
        decreases h - r,
    {
        let ghost flushed = r as int - in_batch as int;
        match write_row(&mut batch, df, o, r) {
            Err(c) => {
                proof {
                    lemma_first_bad_row(*df, *o, 0, r as int);
                    assert(first_bad_row_from(*df, *o, r as int) == r as int);
                    assert(!all_rows_ok(*df, *o));
                }
                return Err(CsvError::InvalidFormat { column: c });
            },
            Ok(()) => {
                proof {
                    lemma_body_rows_snoc(*df, *o, flushed, r as int);
                }
            },
        }
        r = r + 1;
        in_batch = in_batch + 1;
        assert(in_batch as int == (r as int - 1) % (o.batch_size as int) + 1);
        if in_batch == o.batch_size {
            proof {
                assert(r as int % (o.batch_size as int) == 0) by (nonlinear_arith)
                    requires
                        o.batch_size >= 1,
                        r >= 1,
                        (r as int - 1) % (o.batch_size as int) == o.batch_size as int - 1,
                {}
                lemma_body_rows_concat(*df, *o, 0, flushed, r as int);
            }
            out.append(&mut batch);
            in_batch = 0;
        } else {
            proof {
                assert(r as int % (o.batch_size as int) == (r as int - 1) % (o.batch_size as int)
                    + 1) by (nonlinear_arith)
                    requires
                        o.batch_size >= 1,
                        r >= 1,
                        0 <= (r as int - 1) % (o.batch_size as int) < o.batch_size as int - 1,
                {}
            }
        }
    }
    proof {
        lemma_body_rows_concat(*df, *o, 0, r - in_batch, r as int);
    }
    out.append(&mut batch);
    assert(final(out)@ =~= old(out)@ + body_rows(*df, *o, 0, df.spec_height()));
    Ok(())
}

} // verus!
