use vstd::prelude::*;

verus! {

/// One task entry: a 1-based index, the task text, and a completion flag.
#[derive(Debug)]
pub struct Record {
    pub index: u32,
    pub action: String,
    pub done: bool,
}

/// The mathematical form of a record: the index as an unbounded integer,
/// the text as a sequence of characters.
pub struct RecordModel {
    pub index: int,
    pub action: Seq<char>,
    pub done: bool,
}

impl View for Record {
    type V = RecordModel;

    open spec fn view(&self) -> RecordModel {
        RecordModel { index: self.index as int, action: self.action@, done: self.done }
    }
}

/// The models of a sequence of records.
pub open spec fn models(s: Seq<Record>) -> Seq<RecordModel> {
    s.map_values(|r: Record| r@)
}

/// The indexes of `s` are exactly `m, m + 1, ...` in order.
pub open spec fn indexed_from(s: Seq<RecordModel>, m: int) -> bool {
    forall|k: int| 0 <= k < s.len() ==> s[k].index == m + k
}

/// The store's contiguity invariant: the indexes present are exactly
/// `1..=N` where `N` is the record count, in file order.
pub open spec fn contiguous(s: Seq<RecordModel>) -> bool {
    indexed_from(s, 1)
}

/// Why a store could not be loaded or validated. Every failure is fatal:
/// the store refuses to proceed on any inconsistency.
#[derive(Clone, Copy, Debug, PartialEq, Eq, Structural)]
pub enum StoreError {
    /// The stored index sequence is not exactly 1..N in order: the file is
    /// corrupt or was hand-edited.
    IndexIntegrity,
    /// A line does not decode into the three expected fields.
    MalformedRecord,
}

impl StoreError {
    /// A short description of the failure, for the caller to print.
    pub fn message(&self) -> (r: &'static str)
        ensures
            *self == StoreError::IndexIntegrity ==> r@ == "incorrect index found"@,
            *self == StoreError::MalformedRecord ==> r@ == "malformed record line"@,
    {
        match self {
            StoreError::IndexIntegrity => "incorrect index found",
            StoreError::MalformedRecord => "malformed record line",
        }
    }
}

} // verus!
