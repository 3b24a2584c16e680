//! Encoded columns and batches.
//!
//! A column stores a run of values in one of several compact encodings:
//! plain `i64`, offset-encoded codes of width u8/u16/u32 (stored value =
//! code + offset), dictionary-encoded strings, or an all-empty column.

use vstd::prelude::*;

use crate::strutil::str_eq;
use crate::val::RVal;

verus! {

/// Unencoded integer storage, the fallback when no narrower encoding fits.
pub struct IntegerColumn {
    pub values: Vec<i64>,
}

/// Dictionary-encoded string storage: `codes[i]` indexes into `dict`,
/// whose entries are pairwise distinct.
pub struct StringColumn {
    pub codes: Vec<u32>,
    pub dict: Vec<String>,
}

/// The encoded body of a column.
pub enum ColData {
    Plain(IntegerColumn),
    Off8 { codes: Vec<u8>, offset: i64 },
    Off16 { codes: Vec<u16>, offset: i64 },
    Off32 { codes: Vec<u32>, offset: i64 },
    Str(StringColumn),
    Null(usize),
}

/// A named column.
pub struct Column {
    pub name: String,
    pub data: ColData,
}

/// An immutable group of aligned columns; the unit a query is executed over.
pub struct Batch {
    pub cols: Vec<Column>,
}

impl StringColumn {
    pub open spec fn wf(self) -> bool {
        &&& forall|i: int| 0 <= i < self.codes@.len() ==> self.codes@[i] < self.dict@.len()
        &&& forall|i: int, j: int|
            0 <= i < j < self.dict@.len() ==> self.dict@[i]@ != self.dict@[j]@
    }

    /// The decoded string at row `i`.
    pub open spec fn str_at(self, i: int) -> Seq<char> {
        self.dict@[self.codes@[i] as int]@
    }

    /// Builds a dictionary-encoded column from a run of strings, keeping
    /// the first occurrence of each distinct string in dictionary order.
    pub fn from_values(values: &Vec<String>) -> (c: StringColumn)
        requires
            values@.len() <= u32::MAX,
        ensures
            c.wf(),
            c.codes@.len() == values@.len(),
            forall|i: int| 0 <= i < values@.len() ==> c.str_at(i) == values@[i]@,
    {
        let mut codes: Vec<u32> = Vec::new();
        let mut dict: Vec<String> = Vec::new();
        let n = values.len();
        let mut r: usize = 0;
        while r < n
            invariant
                r <= n,
                n == values@.len(),
                n <= u32::MAX,
                codes@.len() == r,
                dict@.len() <= r,
                forall|i: int| 0 <= i < r ==> codes@[i] < dict@.len(),
                forall|i: int, j: int| 0 <= i < j < dict@.len() ==> dict@[i]@ != dict@[j]@,
                forall|i: int| 0 <= i < r ==> dict@[codes@[i] as int]@ == values@[i]@,
            decreases n - r,
        {
            let v = &values[r];
            let mut found: bool = false;
            let mut code: usize = 0;
            let mut k: usize = 0;
            let dlen = dict.len();
            while k < dlen && !found
                invariant
                    k <= dlen,
                    dlen == dict@.len(),
                    found ==> code < dict@.len() && dict@[code as int]@ == v@,
                    !found ==> forall|j: int| 0 <= j < k ==> dict@[j]@ != v@,
                decreases dlen - k + (if found { 0int } else { 1int }),
            {
                if dict[k].eq(v) {
                    found = true;
                    code = k;
                } else {
                    k += 1;
                }
            }
            if !found {
                code = dict.len();
                dict.push(v.clone());
            }
            codes.push(code as u32);
            r += 1;
        }
        StringColumn { codes, dict }
    }
}

impl ColData {
    /// Number of rows stored.
    pub open spec fn len_spec(self) -> nat {
        match self {
            ColData::Plain(c) => c.values@.len(),
            ColData::Off8 { codes, .. } => codes@.len(),
            ColData::Off16 { codes, .. } => codes@.len(),
            ColData::Off32 { codes, .. } => codes@.len(),
            ColData::Str(c) => c.codes@.len(),
            ColData::Null(n) => n as nat,
        }
    }

    /// Well-formed: decoding can never leave the `i64` range, string codes
    /// index the dictionary, and dictionary entries are distinct.
    pub open spec fn wf(self) -> bool {
        match self {
            ColData::Plain(_) => true,
            ColData::Off8 { codes, offset } => forall|i: int|
                0 <= i < codes@.len() ==> offset + codes@[i] <= i64::MAX,
            ColData::Off16 { codes, offset } => forall|i: int|
                0 <= i < codes@.len() ==> offset + codes@[i] <= i64::MAX,
            ColData::Off32 { codes, offset } => forall|i: int|
                0 <= i < codes@.len() ==> offset + codes@[i] <= i64::MAX,
            ColData::Str(c) => c.wf(),
            ColData::Null(_) => true,
        }
    }

    pub open spec fn is_int(self) -> bool {
        match self {
            ColData::Plain(_) | ColData::Off8 { .. } | ColData::Off16 { .. }
                | ColData::Off32 { .. } => true,
            _ => false,
        }
    }

    pub open spec fn is_str(self) -> bool {
        self matches ColData::Str(_)
    }

    pub open spec fn is_null(self) -> bool {
        self matches ColData::Null(_)
    }

    /// The decoded integer at row `i` of an integer column.
    pub open spec fn int_at(self, i: int) -> int {
        match self {
            ColData::Plain(c) => c.values@[i] as int,
            ColData::Off8 { codes, offset } => offset + codes@[i],
            ColData::Off16 { codes, offset } => offset + codes@[i],
            ColData::Off32 { codes, offset } => offset + codes@[i],
            _ => 0,
        }
    }

    /// The decoded string at row `i` of a string column.
    pub open spec fn str_at(self, i: int) -> Seq<char> {
        match self {
            ColData::Str(c) => c.str_at(i),
            _ => Seq::empty(),
        }
    }

    /// The decoded cell at row `i`, as a boundary value.
    pub open spec fn cell(self, i: int) -> RVal {
        match self {
            ColData::Plain(_) | ColData::Off8 { .. } | ColData::Off16 { .. }
                | ColData::Off32 { .. } => RVal::I(self.int_at(i) as i64),
            ColData::Str(_) => RVal::S(self.str_at(i)),
            ColData::Null(_) => RVal::N,
        }
    }
}

impl IntegerColumn {
    /// Encodes a run of integers, choosing the narrowest offset encoding
    /// whose width covers `max - min`; values outside any width stay plain.
    ///
    /// The round-trip law is the postcondition: every decoded value equals
    /// the value that went in.
    pub fn new(values: Vec<i64>, min: i64, max: i64) -> (c: ColData)
        requires
            forall|i: int| 0 <= i < values@.len() ==> min <= #[trigger] values@[i] <= max,
        ensures
            c.wf(),
            c.is_int(),
            c.len_spec() == values@.len(),
            forall|i: int| 0 <= i < values@.len() ==> c.int_at(i) == values@[i] as int,
            max - min <= u8::MAX ==> (c matches ColData::Off8 { offset, .. } && offset == min),
            u8::MAX < max - min <= u16::MAX ==> (c matches ColData::Off16 {
                offset,
                ..
            } && offset == min),
            u16::MAX < max - min <= u32::MAX ==> (c matches ColData::Off32 {
                offset,
                ..
            } && offset == min),
            max - min > u32::MAX ==> c matches ColData::Plain(_),
    {
        let span: i128 = max as i128 - min as i128;
        if span <= u8::MAX as i128 {
            let mut codes: Vec<u8> = Vec::new();
            let n = values.len();
            let mut i: usize = 0;
            while i < n
                invariant
                    i <= n,
                    n == values@.len(),
                    codes@.len() == i,
                    forall|j: int| 0 <= j < values@.len() ==> min <= #[trigger] values@[j] <= max,
                    max - min <= u8::MAX,
                    forall|j: int| 0 <= j < i ==> min + codes@[j] == values@[j],
                    forall|j: int| 0 <= j < i ==> min + #[trigger] codes@[j] <= i64::MAX,
                decreases n - i,
            {
                let code: u8 = (values[i] as i128 - min as i128) as u8;
                codes.push(code);
                i += 1;
            }
            ColData::Off8 { codes, offset: min }
        } else if span <= u16::MAX as i128 {
            let mut codes: Vec<u16> = Vec::new();
            let n = values.len();
            let mut i: usize = 0;
            while i < n
                invariant
                    i <= n,
                    n == values@.len(),
                    codes@.len() == i,
                    forall|j: int| 0 <= j < values@.len() ==> min <= #[trigger] values@[j] <= max,
                    max - min <= u16::MAX,
                    forall|j: int| 0 <= j < i ==> min + codes@[j] == values@[j],
                    forall|j: int| 0 <= j < i ==> min + #[trigger] codes@[j] <= i64::MAX,
                decreases n - i,
            {
                let code: u16 = (values[i] as i128 - min as i128) as u16;
                codes.push(code);
                i += 1;
            }
            ColData::Off16 { codes, offset: min }
        } else if span <= u32::MAX as i128 {
            let mut codes: Vec<u32> = Vec::new();
            let n = values.len();
            let mut i: usize = 0;
            while i < n
                invariant
                    i <= n,
                    n == values@.len(),
                    codes@.len() == i,
                    forall|j: int| 0 <= j < values@.len() ==> min <= #[trigger] values@[j] <= max,
                    max - min <= u32::MAX,
                    forall|j: int| 0 <= j < i ==> min + codes@[j] == values@[j],
                    forall|j: int| 0 <= j < i ==> min + #[trigger] codes@[j] <= i64::MAX,
                decreases n - i,
            {
                let code: u32 = (values[i] as i128 - min as i128) as u32;
                codes.push(code);
                i += 1;
            }
            ColData::Off32 { codes, offset: min }
        } else {
            ColData::Plain(IntegerColumn { values })
        }
    }
}

impl ColData {
    /// The number of rows stored.
    pub fn len(&self) -> (n: usize)
        ensures
            n == self.len_spec(),
    {
        match self {
            ColData::Plain(c) => c.values.len(),
            ColData::Off8 { codes, .. } => codes.len(),
            ColData::Off16 { codes, .. } => codes.len(),
            ColData::Off32 { codes, .. } => codes.len(),
            ColData::Str(c) => c.codes.len(),
            ColData::Null(n) => *n,
        }
    }
}

impl Column {
    pub open spec fn wf(self) -> bool {
        self.data.wf()
    }

    pub open spec fn len_spec(self) -> nat {
        self.data.len_spec()
    }
}

impl Batch {
    /// All columns aligned to the same row count, names pairwise distinct.
    pub open spec fn wf(self) -> bool {
        &&& forall|i: int| 0 <= i < self.cols@.len() ==> (#[trigger] self.cols@[i]).wf()
        &&& forall|i: int|
            0 <= i < self.cols@.len() ==> (#[trigger] self.cols@[i]).len_spec() == self.len_spec()
        &&& forall|i: int, j: int|
            #![trigger self.cols@[i], self.cols@[j]]
            0 <= i < j < self.cols@.len() ==> self.cols@[i].name@ != self.cols@[j].name@
    }

    /// Row count of the batch (0 when it has no columns).
    pub open spec fn len_spec(self) -> nat {
        if self.cols@.len() == 0 {
            0
        } else {
            self.cols@[0].len_spec()
        }
    }

    /// Whether a column of the given name exists.
    pub open spec fn has_col(self, name: Seq<char>) -> bool {
        exists|i: int| 0 <= i < self.cols@.len() && (#[trigger] self.cols@[i]).name@ == name
    }

    /// The index of the column of the given name.
    pub open spec fn col_idx(self, name: Seq<char>) -> int {
        choose|i: int| 0 <= i < self.cols@.len() && (#[trigger] self.cols@[i]).name@ == name
    }

    /// The column of the given name.
    pub open spec fn col_named(self, name: Seq<char>) -> ColData {
        self.cols@[self.col_idx(name)].data
    }

    /// The number of rows of the batch.
    pub fn row_count(&self) -> (n: usize)
        ensures
            n == self.len_spec(),
    {
        if self.cols.len() == 0 {
            0
        } else {
            self.cols[0].data.len()
        }
    }

    /// Looks a column up by name, returning its index.
    pub fn find_col_idx(&self, name: &str) -> (r: Option<usize>)
        requires
            self.wf(),
        ensures
            match r {
                Some(i) => self.has_col(name@) && i == self.col_idx(name@) && i
                    < self.cols@.len(),
                None => !self.has_col(name@),
            },
    {
        let n = self.cols.len();
        let mut i: usize = 0;
        while i < n
            invariant
                self.wf(),
                i <= n,
                n == self.cols@.len(),
                forall|j: int| 0 <= j < i ==> (#[trigger] self.cols@[j]).name@ != name@,
            decreases n - i,
        {
            if str_eq(self.cols[i].name.as_str(), name) {
                proof {
                    assert(0 <= i < self.cols@.len() && (#[trigger] self.cols@[i as int]).name@
                        == name@);
                    let j = self.col_idx(name@);
                    assert(0 <= j < self.cols@.len() && self.cols@[j].name@ == name@);
                    if j < i as int {
                        assert(self.cols@[j].name@ != self.cols@[i as int].name@);
                    } else if (i as int) < j {
                        assert(self.cols@[i as int].name@ != self.cols@[j].name@);
                    }
                }
                return Some(i);
            }
            i += 1;
        }
        None
    }

    /// Looks a column up by name.
    pub fn find_col(&self, name: &str) -> (r: Option<&Column>)
        requires
            self.wf(),
        ensures
            match r {
                Some(c) => self.has_col(name@) && *c == self.cols@[self.col_idx(name@)],
                None => !self.has_col(name@),
            },
    {
        let n = self.cols.len();
        let mut i: usize = 0;
        while i < n
            invariant
                self.wf(),
                i <= n,
                n == self.cols@.len(),
                forall|j: int| 0 <= j < i ==> (#[trigger] self.cols@[j]).name@ != name@,
            decreases n - i,
        {
            if str_eq(self.cols[i].name.as_str(), name) {
                proof {
                    assert(0 <= i < self.cols@.len() && (#[trigger] self.cols@[i as int]).name@
                        == name@);
                    let j = self.col_idx(name@);
                    assert(0 <= j < self.cols@.len() && self.cols@[j].name@ == name@);
                    if j < i as int {
                        assert(self.cols@[j].name@ != self.cols@[i as int].name@);
                    } else if (i as int) < j {
                        assert(self.cols@[i as int].name@ != self.cols@[j].name@);
                    }
                }
                return Some(&self.cols[i]);
            }
            i += 1;
        }
        None
    }
}

} // verus!
