use vstd::prelude::*;

verus! {

/// A calendar date, held as plain year, month and day fields.
pub struct Date {
    pub year: i32,
    pub month: u8,
    pub day: u8,
}

impl Date {
    /// Validity of the plain fields; the formatter itself is total, but a
    /// well-formed table only holds dates in these ranges.
    pub open spec fn wf(&self) -> bool {
        &&& 1 <= self.month <= 12
        &&& 1 <= self.day <= 31
    }
}

/// A time of day, held as plain hour, minute, second and nanosecond fields.
pub struct Time {
    pub hour: u8,
    pub minute: u8,
    pub second: u8,
    pub nanosecond: u32,
}

impl Time {
    pub open spec fn wf(&self) -> bool {
        &&& self.hour < 24
        &&& self.minute < 60
        &&& self.second < 60
        &&& self.nanosecond < 1_000_000_000
    }
}

/// One cell of the table: a typed value or null.
///
/// A float cell carries its shortest round-trippable decimal text (the form
/// the host language prints for the value, e.g. `3.1`, `-0.5`, `NaN`,
/// `inf`); the writer applies the configured precision to that text, so no
/// floating-point value ever enters the verified code.
pub enum AnyValue {
    Null,
    Boolean(bool),
    Int(i64),
    Float(String),
    Text(String),
    Date(Date),
    Time(Time),
    Datetime(Date, Time),
}

impl AnyValue {
    pub open spec fn wf(&self) -> bool {
        match *self {
            AnyValue::Date(d) => d.wf(),
            AnyValue::Time(t) => t.wf(),
            AnyValue::Datetime(d, t) => d.wf() && t.wf(),
            _ => true,
        }
    }
}

/// A named column: a sequence of cells.
pub struct Column {
    pub name: String,
    pub values: Vec<AnyValue>,
}

/// An in-memory columnar table: an ordered sequence of named columns, all
/// of the same length.  The writer only reads it.
pub struct Table {
    pub columns: Vec<Column>,
}

impl Table {
    /// The row count: the shared length of the columns (zero when there are
    /// no columns).
    pub open spec fn spec_height(&self) -> int {
        if self.columns@.len() == 0 {
            0
        } else {
            self.columns@[0].values@.len() as int
        }
    }

    /// The table invariant: every column has the shared row count, and
    /// every temporal cell holds in-range fields.
    pub open spec fn wf(&self) -> bool {
        &&& forall|c: int|
            0 <= c < self.columns@.len() ==> self.columns@[c].values@.len() == self.spec_height()
        &&& forall|c: int, r: int|
            0 <= c < self.columns@.len() && 0 <= r < self.spec_height()
                ==> (#[trigger] self.columns@[c].values@[r]).wf()
    }

    /// The number of rows.
    pub fn height(&self) -> (r: usize)
        ensures
            r == self.spec_height(),
    {
        if self.columns.len() == 0 {
            0
        } else {
            self.columns[0].values.len()
        }
    }

    /// The number of columns.
    pub fn width(&self) -> (r: usize)
        ensures
            r == self.columns@.len(),
    {
        self.columns.len()
    }

    /// The ordered column names, cloned out of the table.
    pub fn get_column_names(&self) -> (r: Vec<String>)
        ensures
            r@.len() == self.columns@.len(),
            forall|c: int| 0 <= c < r@.len() ==> r@[c] == self.columns@[c].name,
    {
        let mut names: Vec<String> = Vec::new();
        let mut c: usize = 0;
        while c < self.columns.len()
            invariant
                c <= self.columns@.len(),
                names@.len() == c,
                forall|i: int| 0 <= i < c ==> names@[i] == self.columns@[i].name,
            decreases self.columns@.len() - c,
        {
            names.push(self.columns[c].name.clone());
            c = c + 1;
        }
        names
    }
}

} // verus!
