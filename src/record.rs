use vstd::prelude::*;

verus! {

/// A file that passed the filter: its name and its size in whole kibibytes.
#[derive(Clone, Debug, PartialEq, Eq)]
pub struct FileRecord {
    pub name: String,
    pub size_kib: u64,
}

impl View for FileRecord {
    type V = (Seq<char>, u64);

    open spec fn view(&self) -> (Seq<char>, u64) {
        (self.name@, self.size_kib)
    }
}

/// The views of a sequence of records.
pub open spec fn record_views(records: Seq<FileRecord>) -> Seq<(Seq<char>, u64)> {
    records.map_values(|r: FileRecord| r@)
}

/// The sizes of a sequence of records, in order.
pub open spec fn sizes_of(records: Seq<(Seq<char>, u64)>) -> Seq<u64> {
    records.map_values(|r: (Seq<char>, u64)| r.1)
}

} // verus!
