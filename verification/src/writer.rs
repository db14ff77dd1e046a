use vstd::prelude::*;
use vstd::string::StringExecFns;

use crate::options::CsvWriterOptions;
use crate::table::Table;
use crate::write_impl::body_rows;
use crate::write_impl::csv_out;
use crate::write_impl::first_bad_col_from;
use crate::write_impl::first_bad_row;
use crate::write_impl::header_bytes;
use crate::write_impl::header_names;
use crate::write_impl::write_header;
use crate::write_impl::CsvError;

verus! {

/// Writes a [`Table`] as CSV into an owned byte buffer.  Configure with the
/// `with_` methods, then call [`CsvWriter::finish`]; the produced bytes are
/// appended to the buffer handed to [`CsvWriter::new`] and can be taken
/// back with [`CsvWriter::into_inner`].
pub struct CsvWriter {
    /// The output sink: produced bytes are appended here.
    pub buffer: Vec<u8>,
    /// The options the next write uses.
    pub options: CsvWriterOptions,
}

impl CsvWriter {
    /// A writer over the given buffer, with the default options and the
    /// full-nanosecond time format.
    pub fn new(buffer: Vec<u8>) -> (r: Self)
        ensures
            r.buffer == buffer,
            r.options.header == true,
            r.options.delimiter == 44u8,
            r.options.quote == 34u8,
            r.options.null@ == Seq::<char>::empty(),
            r.options.batch_size == 1024,
            r.options.date_format is None,
            (r.options.time_format matches Some(f) && f@ == "%T%.9f"@),
            r.options.datetime_format is None,
            r.options.float_precision is None,
            r.options.valid(),
    {
        let mut options = CsvWriterOptions::default();
        options.time_format = Some(String::from_str("%T%.9f"));
        CsvWriter { buffer, options }
    }

    /// Replace the whole options bundle.
    pub fn with_options(self, options: CsvWriterOptions) -> (r: Self)
        ensures
            r.options == options,
            r.buffer == self.buffer,
    {
        CsvWriter { options, ..self }
    }

    /// Set whether to write the header row.
    pub fn has_header(self, has_header: bool) -> (r: Self)
        ensures
            r == (CsvWriter {
                options: CsvWriterOptions { header: has_header, ..self.options },
                ..self
            }),
    {
        let mut s = self;
        s.options.header = has_header;
        s
    }

    /// Set the column delimiter byte.
    pub fn with_delimiter(self, delimiter: u8) -> (r: Self)
        ensures
            r == (CsvWriter {
                options: CsvWriterOptions { delimiter, ..self.options },
                ..self
            }),
    {
        let mut s = self;
        s.options.delimiter = delimiter;
        s
    }

    /// Set the number of rows gathered into one buffer before it is
    /// appended to the output.
    pub fn with_batch_size(self, batch_size: usize) -> (r: Self)
        ensures
            r == (CsvWriter {
                options: CsvWriterOptions { batch_size, ..self.options },
                ..self
            }),
    {
        let mut s = self;
        s.options.batch_size = batch_size;
        s
    }

    /// Set the date format pattern; a `None` leaves the current one.
    pub fn with_date_format(self, format: Option<String>) -> (r: Self)
        ensures
            r == (CsvWriter {
                options: CsvWriterOptions {
                    date_format: (if format is Some {
                        format
                    } else {
                        self.options.date_format
                    }),
                    ..self.options
                },
                ..self
            }),
    {
        let mut s = self;
        if format.is_some() {
            s.options.date_format = format;
        }
        s
    }

    /// Set the time format pattern; a `None` leaves the current one.
    pub fn with_time_format(self, format: Option<String>) -> (r: Self)
        ensures
            r == (CsvWriter {
                options: CsvWriterOptions {
                    time_format: (if format is Some {
                        format
                    } else {
                        self.options.time_format
                    }),
                    ..self.options
                },
                ..self
            }),
    {
        let mut s = self;
        if format.is_some() {
            s.options.time_format = format;
        }
        s
    }

    /// Set the datetime format pattern; a `None` leaves the current one.
    pub fn with_datetime_format(self, format: Option<String>) -> (r: Self)
        ensures
            r == (CsvWriter {
                options: CsvWriterOptions {
                    datetime_format: (if format is Some {
                        format
                    } else {
                        self.options.datetime_format
                    }),
                    ..self.options
                },
                ..self
            }),
    {
        let mut s = self;
        if format.is_some() {
            s.options.datetime_format = format;
        }
        s
    }

    /// Set the float precision; a `None` leaves the current one.
    pub fn with_float_precision(self, precision: Option<usize>) -> (r: Self)
        ensures
            r == (CsvWriter {
                options: CsvWriterOptions {
                    float_precision: (if precision is Some {
                        precision
                    } else {
                        self.options.float_precision
                    }),
                    ..self.options
                },
                ..self
            }),
    {
        let mut s = self;
        if precision.is_some() {
            s.options.float_precision = precision;
        }
        s
    }

    /// Set the quote byte.
    pub fn with_quoting_char(self, quote: u8) -> (r: Self)
        ensures
            r == (CsvWriter {
                options: CsvWriterOptions { quote, ..self.options },
                ..self
            }),
    {
        let mut s = self;
        s.options.quote = quote;
        s
    }

    /// Set the text written for a null cell.
    pub fn with_null_value(self, null_value: String) -> (r: Self)
        ensures
            r == (CsvWriter {
                options: CsvWriterOptions { null: null_value, ..self.options },
                ..self
            }),
    {
        let mut s = self;
        s.options.null = null_value;
        s
    }

    /// Write `df` as CSV, appending to the writer's buffer: the header row
    /// when enabled, then every data row in batches.
    ///
    /// Returns `Err(CsvError::InvalidOptions)`, with the buffer untouched,
    /// exactly when the options break the configuration invariant.  Returns
    /// `Err(CsvError::InvalidFormat { .. })`, naming the first failing
    /// column of the first failing row, exactly when a configured pattern
    /// is invalid for a cell; the header and the batches flushed before
    /// that row stay in the buffer.  Otherwise appends exactly the bytes
    /// [`csv_out`] describes and returns `Ok`.
    pub fn finish(&mut self, df: &Table) -> (res: Result<(), CsvError>)
        requires
            df.wf(),
        ensures
            final(self).options == old(self).options,
            ({
                let o = old(self).options;
                let t = *df;
                if !o.valid() {
                    res == Err::<(), CsvError>(CsvError::InvalidOptions) && final(self).buffer@
                        == old(self).buffer@
                } else {
                    match csv_out(t, o) {
                        Some(b) => res is Ok && final(self).buffer@ == old(self).buffer@ + b,
                        None => {
                            let fbr = first_bad_row(t, o);
                            &&& res == Err::<(), CsvError>(
                                CsvError::InvalidFormat {
                                    column: first_bad_col_from(t, o, fbr, 0) as usize,
                                },
                            )
                            &&& final(self).buffer@ == old(self).buffer@ + (if o.header {
                                header_bytes(header_names(t), o)
                            } else {
                                Seq::<u8>::empty()
                            }) + body_rows(t, o, 0, fbr - (fbr % (o.batch_size as int)))
                        },
                    }
                }
            }),
    {
        if self.options.delimiter == self.options.quote || self.options.batch_size == 0 {
            return Err(CsvError::InvalidOptions);
        }
        let ghost pre = self.buffer@;
        if self.options.header {
            let names = df.get_column_names();
            assert(names@ =~= header_names(*df));
            write_header(&mut self.buffer, &names, &self.options);
        }
        let ghost hdr: Seq<u8> = if self.options.header {
            header_bytes(header_names(*df), self.options)
        } else {
            Seq::<u8>::empty()
        };
        assert(self.buffer@ == pre + hdr) by {
            assert(pre + Seq::<u8>::empty() =~= pre);
        }
        let res = crate::write_impl::write(&mut self.buffer, df, &self.options);
        proof {
            match res {
                Ok(()) => {
                    assert(self.buffer@ =~= pre + (hdr + body_rows(
                        *df,
                        self.options,
                        0,
                        df.spec_height(),
                    )));
                },
                Err(e) => {
                    let fbr = first_bad_row(*df, self.options);
                    assert(self.buffer@ =~= pre + hdr + body_rows(
                        *df,
                        self.options,
                        0,
                        fbr - (fbr % (self.options.batch_size as int)),
                    ));
                },
            }
        }
        res
    }

    /// Take the buffer, with everything written so far, out of the writer.
    pub fn into_inner(self) -> (r: Vec<u8>)
        ensures
            r == self.buffer,
    {
        self.buffer
    }
}

} // verus!
