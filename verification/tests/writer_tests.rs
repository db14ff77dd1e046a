use csv_writer::table::{AnyValue, Column, Date, Table, Time};
use csv_writer::write_impl::CsvError;
use csv_writer::CsvWriter;
use csv_writer::CsvWriterOptions;

fn text(s: &str) -> AnyValue {
    AnyValue::Text(s.to_string())
}

fn col(name: &str, values: Vec<AnyValue>) -> Column {
    Column { name: name.to_string(), values }
}

fn write_table(w: CsvWriter, t: &Table) -> String {
    let mut w = w;
    w.finish(t).unwrap();
    String::from_utf8(w.into_inner()).unwrap()
}

#[test]
fn end_to_end_two_columns() {
    let t = Table {
        columns: vec![
            col("id", vec![AnyValue::Int(1), AnyValue::Int(2)]),
            col("name", vec![text("a,b"), AnyValue::Null]),
        ],
    };
    let out = write_table(CsvWriter::new(Vec::new()), &t);
    assert_eq!(out, "id,name\n1,\"a,b\"\n2,\n");
}

#[test]
fn null_sentinel_unquoted_empty_text_quoted() {
    let t = Table {
        columns: vec![col("v", vec![AnyValue::Null, text("")])],
    };
    let out = write_table(
        CsvWriter::new(Vec::new()).with_null_value("NA".to_string()),
        &t,
    );
    assert_eq!(out, "v\nNA\n\"\"\n");
}

#[test]
fn empty_text_quoted_under_empty_sentinel() {
    let t = Table {
        columns: vec![col("v", vec![text(""), AnyValue::Null])],
    };
    let out = write_table(CsvWriter::new(Vec::new()), &t);
    assert_eq!(out, "v\n\"\"\n\n");
}

#[test]
fn batch_size_does_not_change_output() {
    let mut values = Vec::new();
    for i in 0..37 {
        values.push(AnyValue::Int(i));
    }
    let t = Table {
        columns: vec![col("n", values)],
    };
    let small = write_table(CsvWriter::new(Vec::new()).with_batch_size(1), &t);
    let large = write_table(CsvWriter::new(Vec::new()).with_batch_size(10000), &t);
    assert_eq!(small, large);
}

#[test]
fn header_disabled_starts_with_data() {
    let t = Table {
        columns: vec![col("x", vec![AnyValue::Int(7)])],
    };
    let out = write_table(CsvWriter::new(Vec::new()).has_header(false), &t);
    assert_eq!(out, "7\n");
}

#[test]
fn header_names_are_escaped() {
    let t = Table {
        columns: vec![
            col("a,b", vec![AnyValue::Int(1)]),
            col("plain", vec![AnyValue::Int(2)]),
        ],
    };
    let out = write_table(CsvWriter::new(Vec::new()), &t);
    assert_eq!(out, "\"a,b\",plain\n1,2\n");
}

#[test]
fn custom_delimiter_and_quote() {
    let t = Table {
        columns: vec![
            col("a", vec![text("x;y")]),
            col("b", vec![text("q'q")]),
        ],
    };
    let out = write_table(
        CsvWriter::new(Vec::new())
            .with_delimiter(b';')
            .with_quoting_char(b'\''),
        &t,
    );
    assert_eq!(out, "a;b\n'x;y';'q''q'\n");
}

#[test]
fn quote_inside_field_is_doubled() {
    let t = Table {
        columns: vec![col("v", vec![text("say \"hi\"")])],
    };
    let out = write_table(CsvWriter::new(Vec::new()).has_header(false), &t);
    assert_eq!(out, "\"say \"\"hi\"\"\"\n");
}

#[test]
fn line_breaks_force_quoting() {
    let t = Table {
        columns: vec![col("v", vec![text("a\nb"), text("c\rd")])],
    };
    let out = write_table(CsvWriter::new(Vec::new()).has_header(false), &t);
    assert_eq!(out, "\"a\nb\"\n\"c\rd\"\n");
}

#[test]
fn rejects_equal_delimiter_and_quote() {
    let t = Table {
        columns: vec![col("v", vec![AnyValue::Int(1)])],
    };
    let mut w = CsvWriter::new(Vec::new())
        .with_delimiter(b'"')
        .with_quoting_char(b'"');
    assert_eq!(w.finish(&t), Err(CsvError::InvalidOptions));
    assert!(w.into_inner().is_empty());
}

#[test]
fn rejects_zero_batch_size() {
    let t = Table {
        columns: vec![col("v", vec![AnyValue::Int(1)])],
    };
    let mut w = CsvWriter::new(Vec::new()).with_batch_size(0);
    assert_eq!(w.finish(&t), Err(CsvError::InvalidOptions));
}

#[test]
fn invalid_pattern_reports_column_and_keeps_flushed_batches() {
    let t = Table {
        columns: vec![
            col("n", vec![AnyValue::Int(10), AnyValue::Int(20)]),
            col(
                "d",
                vec![
                    AnyValue::Null,
                    AnyValue::Date(Date {
                        year: 2020,
                        month: 1,
                        day: 2,
                    }),
                ],
            ),
        ],
    };
    let mut w = CsvWriter::new(Vec::new())
        .with_batch_size(1)
        .with_date_format(Some("%q".to_string()));
    assert_eq!(w.finish(&t), Err(CsvError::InvalidFormat { column: 1 }));
    let out = String::from_utf8(w.into_inner()).unwrap();
    assert_eq!(out, "n,d\n10,\n");
}

#[test]
fn invalid_pattern_in_first_row_keeps_only_header() {
    let t = Table {
        columns: vec![col(
            "t",
            vec![AnyValue::Time(Time {
                hour: 1,
                minute: 2,
                second: 3,
                nanosecond: 4,
            })],
        )],
    };
    let mut w = CsvWriter::new(Vec::new()).with_time_format(Some("%Y".to_string()));
    assert_eq!(w.finish(&t), Err(CsvError::InvalidFormat { column: 0 }));
    let out = String::from_utf8(w.into_inner()).unwrap();
    assert_eq!(out, "t\n");
}

#[test]
fn options_override_only_when_present() {
    let w = CsvWriter::new(Vec::new())
        .with_date_format(Some("%d/%m/%Y".to_string()))
        .with_date_format(None)
        .with_float_precision(Some(3))
        .with_float_precision(None);
    assert_eq!(w.options.date_format.as_deref(), Some("%d/%m/%Y"));
    assert_eq!(w.options.float_precision, Some(3));
}

#[test]
fn finish_appends_to_given_buffer() {
    let t = Table {
        columns: vec![col("x", vec![AnyValue::Int(5)])],
    };
    let mut w = CsvWriter::new(b"before\n".to_vec()).has_header(false);
    w.finish(&t).unwrap();
    assert_eq!(String::from_utf8(w.into_inner()).unwrap(), "before\n5\n");
}

#[test]
fn empty_table_writes_only_header() {
    let t = Table {
        columns: vec![col("a", vec![]), col("b", vec![])],
    };
    let out = write_table(CsvWriter::new(Vec::new()), &t);
    assert_eq!(out, "a,b\n");
}

#[test]
fn table_with_no_columns_writes_one_empty_header_line() {
    let t = Table { columns: vec![] };
    let out = write_table(CsvWriter::new(Vec::new()), &t);
    assert_eq!(out, "\n");
}

#[test]
fn with_options_replaces_the_whole_bundle() {
    let mut opts = CsvWriterOptions::default();
    opts.header = false;
    opts.delimiter = b'|';
    let t = Table {
        columns: vec![col("a", vec![AnyValue::Int(1)]), col("b", vec![AnyValue::Int(2)])],
    };
    let out = write_table(CsvWriter::new(Vec::new()).with_options(opts), &t);
    assert_eq!(out, "1|2\n");
}

/// A small standards-conformant CSV reader: splits records on top-level
/// line breaks, fields on top-level delimiters, and undoes quoting.
fn parse_csv(bytes: &[u8], d: u8, q: u8) -> Vec<Vec<String>> {
    let mut records = Vec::new();
    let mut record = Vec::new();
    let mut fld = Vec::new();
    let mut i = 0;
    while i < bytes.len() {
        if bytes[i] == q {
            i += 1;
            loop {
                if bytes[i] == q {
                    if i + 1 < bytes.len() && bytes[i + 1] == q {
                        fld.push(q);
                        i += 2;
                    } else {
                        i += 1;
                        break;
                    }
                } else {
                    fld.push(bytes[i]);
                    i += 1;
                }
            }
        } else {
            while i < bytes.len() && bytes[i] != d && bytes[i] != b'\n' {
                fld.push(bytes[i]);
                i += 1;
            }
        }
        if i < bytes.len() && bytes[i] == d {
            i += 1;
            record.push(String::from_utf8(std::mem::take(&mut fld)).unwrap());
        } else {
            if i < bytes.len() {
                assert_eq!(bytes[i], b'\n');
                i += 1;
            }
            record.push(String::from_utf8(std::mem::take(&mut fld)).unwrap());
            records.push(std::mem::take(&mut record));
        }
    }
    records
}

#[test]
fn round_trip_through_a_conformant_reader() {
    let t = Table {
        columns: vec![
            col("plain", vec![text("x"), text("a,b"), text("with \"q\""), text("nl\nnl")]),
            col("n", vec![
                AnyValue::Int(-3),
                AnyValue::Boolean(true),
                AnyValue::Null,
                text(""),
            ]),
        ],
    };
    let out = write_table(CsvWriter::new(Vec::new()), &t);
    let parsed = parse_csv(out.as_bytes(), b',', b'"');
    assert_eq!(
        parsed,
        vec![
            vec!["plain".to_string(), "n".to_string()],
            vec!["x".to_string(), "-3".to_string()],
            vec!["a,b".to_string(), "true".to_string()],
            vec!["with \"q\"".to_string(), "".to_string()],
            vec!["nl\nnl".to_string(), "".to_string()],
        ]
    );
}
