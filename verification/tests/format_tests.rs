use csv_writer::table::{AnyValue, Column, Date, Table, Time};
use csv_writer::CsvWriter;

fn one_cell(v: AnyValue) -> Table {
    Table {
        columns: vec![Column {
            name: "v".to_string(),
            values: vec![v],
        }],
    }
}

fn render(w: CsvWriter, v: AnyValue) -> String {
    let mut w = w.has_header(false);
    w.finish(&one_cell(v)).unwrap();
    let mut s = String::from_utf8(w.into_inner()).unwrap();
    assert_eq!(s.pop(), Some('\n'));
    s
}

fn float(x: f64) -> AnyValue {
    AnyValue::Float(format!("{}", x))
}

#[test]
fn integers_render_in_decimal() {
    assert_eq!(render(CsvWriter::new(Vec::new()), AnyValue::Int(0)), "0");
    assert_eq!(render(CsvWriter::new(Vec::new()), AnyValue::Int(-42)), "-42");
    assert_eq!(
        render(CsvWriter::new(Vec::new()), AnyValue::Int(i64::MIN)),
        "-9223372036854775808"
    );
    assert_eq!(
        render(CsvWriter::new(Vec::new()), AnyValue::Int(i64::MAX)),
        "9223372036854775807"
    );
}

#[test]
fn booleans_render_as_literals() {
    assert_eq!(
        render(CsvWriter::new(Vec::new()), AnyValue::Boolean(true)),
        "true"
    );
    assert_eq!(
        render(CsvWriter::new(Vec::new()), AnyValue::Boolean(false)),
        "false"
    );
}

#[test]
fn float_without_precision_keeps_shortest_form() {
    assert_eq!(render(CsvWriter::new(Vec::new()), float(3.1)), "3.1");
    assert_eq!(render(CsvWriter::new(Vec::new()), float(-0.5)), "-0.5");
    assert_eq!(render(CsvWriter::new(Vec::new()), float(100.0)), "100");
}

#[test]
fn float_precision_pads_and_truncates() {
    let w = || CsvWriter::new(Vec::new()).with_float_precision(Some(2));
    assert_eq!(render(w(), float(3.1)), "3.10");
    assert_eq!(render(w(), float(3.14159)), "3.14");
    assert_eq!(render(w(), float(7.0)), "7.00");
}

#[test]
fn float_precision_rounds_with_carry() {
    let w = CsvWriter::new(Vec::new()).with_float_precision(Some(1));
    assert_eq!(render(w, float(9.99)), "10.0");
    let w = CsvWriter::new(Vec::new()).with_float_precision(Some(0));
    assert_eq!(render(w, float(2.6)), "3");
}

#[test]
fn float_special_tokens_ignore_precision() {
    let w = || CsvWriter::new(Vec::new()).with_float_precision(Some(2));
    assert_eq!(render(w(), float(f64::NAN)), "NaN");
    assert_eq!(render(w(), float(f64::INFINITY)), "inf");
    assert_eq!(render(w(), float(f64::NEG_INFINITY)), "-inf");
}

#[test]
fn date_default_is_iso() {
    let d = AnyValue::Date(Date {
        year: 2023,
        month: 1,
        day: 5,
    });
    assert_eq!(render(CsvWriter::new(Vec::new()), d), "2023-01-05");
}

#[test]
fn date_custom_pattern() {
    let d = AnyValue::Date(Date {
        year: 1999,
        month: 12,
        day: 31,
    });
    let w = CsvWriter::new(Vec::new()).with_date_format(Some("%d/%m/%Y".to_string()));
    assert_eq!(render(w, d), "31/12/1999");
}

#[test]
fn time_default_carries_nanoseconds() {
    let t = AnyValue::Time(Time {
        hour: 12,
        minute: 34,
        second: 56,
        nanosecond: 7,
    });
    assert_eq!(render(CsvWriter::new(Vec::new()), t), "12:34:56.000000007");
}

#[test]
fn time_custom_pattern_millisecond_fraction() {
    let t = AnyValue::Time(Time {
        hour: 1,
        minute: 2,
        second: 3,
        nanosecond: 456_789_012,
    });
    let w = CsvWriter::new(Vec::new()).with_time_format(Some("%H:%M:%S%.3f".to_string()));
    assert_eq!(render(w, t), "01:02:03.456");
}

#[test]
fn datetime_default_joins_with_t() {
    let dt = AnyValue::Datetime(
        Date {
            year: 2020,
            month: 6,
            day: 7,
        },
        Time {
            hour: 8,
            minute: 9,
            second: 10,
            nanosecond: 11,
        },
    );
    assert_eq!(
        render(CsvWriter::new(Vec::new()), dt),
        "2020-06-07T08:09:10.000000011"
    );
}

#[test]
fn datetime_custom_pattern() {
    let dt = AnyValue::Datetime(
        Date {
            year: 2020,
            month: 6,
            day: 7,
        },
        Time {
            hour: 8,
            minute: 9,
            second: 10,
            nanosecond: 0,
        },
    );
    let w = CsvWriter::new(Vec::new()).with_datetime_format(Some("%F %T".to_string()));
    assert_eq!(render(w, dt), "2020-06-07 08:09:10");
}

#[test]
fn percent_escape_in_pattern() {
    let d = AnyValue::Date(Date {
        year: 2020,
        month: 2,
        day: 3,
    });
    let w = CsvWriter::new(Vec::new()).with_date_format(Some("%Y%%02".to_string()));
    assert_eq!(render(w, d), "2020%02");
}

#[test]
fn negative_year_keeps_four_digit_padding() {
    let d = AnyValue::Date(Date {
        year: -44,
        month: 3,
        day: 15,
    });
    assert_eq!(render(CsvWriter::new(Vec::new()), d), "-0044-03-15");
}

#[test]
fn null_sentinel_with_delimiter_is_quoted() {
    let mut w = CsvWriter::new(Vec::new())
        .has_header(false)
        .with_null_value("N,A".to_string());
    w.finish(&one_cell(AnyValue::Null)).unwrap();
    assert_eq!(String::from_utf8(w.into_inner()).unwrap(), "\"N,A\"\n");
}

#[test]
fn text_with_unicode_passes_through() {
    assert_eq!(
        render(
            CsvWriter::new(Vec::new()),
            AnyValue::Text("héllo → wörld".to_string())
        ),
        "héllo → wörld"
    );
}
