use vstd::prelude::*;

verus! {

/// Formatting options for one CSV write.
///
/// `delimiter` and `quote` are single bytes and must differ; `batch_size`
/// is the number of rows gathered into one buffer before it is appended to
/// the output, and must be at least one.  `null` is the sentinel text
/// written for a null cell.  The three format fields, when set, are
/// patterns for temporal cells (see [`crate::pattern`]); `float_precision`,
/// when set, fixes the number of digits after the decimal point of every
/// float cell.
pub struct CsvWriterOptions {
    pub header: bool,
    pub delimiter: u8,
    pub quote: u8,
    pub null: String,
    pub batch_size: usize,
    pub date_format: Option<String>,
    pub time_format: Option<String>,
    pub datetime_format: Option<String>,
    pub float_precision: Option<usize>,
}

impl CsvWriterOptions {
    /// The configuration invariant: the delimiter and the quote character
    /// differ, and at least one row goes into each batch.
    pub open spec fn valid(&self) -> bool {
        &&& self.delimiter != self.quote
        &&& self.batch_size >= 1
    }
}

impl Default for CsvWriterOptions {
    /// Default options: header on, comma delimiter, double-quote quoting,
    /// empty null sentinel, batches of 1024 rows, no format overrides.
    fn default() -> (r: Self)
        ensures
            r.header == true,
            r.delimiter == 44u8,
            r.quote == 34u8,
            r.null@ == Seq::<char>::empty(),
            r.batch_size == 1024,
            r.date_format is None,
            r.time_format is None,
            r.datetime_format is None,
            r.float_precision is None,
            r.valid(),
    {
        CsvWriterOptions {
            header: true,
            delimiter: 44,
            quote: 34,
            null: String::new(),
            batch_size: 1024,
            date_format: None,
            time_format: None,
            datetime_format: None,
            float_precision: None,
        }
    }
}

} // verus!
