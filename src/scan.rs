use vstd::prelude::*;

use crate::filter::{extension_of, file_extension, ExtensionFilter};
use crate::record::{record_views, FileRecord};

verus! {

/// What a metadata query tells about a file.
#[derive(Clone, Copy, Debug, PartialEq, Eq, Structural)]
pub struct Metadata {
    /// Whether it is a regular file.
    pub is_file: bool,
    /// Its length in bytes.
    pub len: u64,
}

/// One entry of a directory tree, as listed from the file system.
#[derive(Debug)]
pub enum Entry {
    /// A directory, with the entries its listing gave.
    Directory(Vec<Entry>),
    /// A directory whose listing could not be read.
    Unreadable,
    /// An entry that is not a directory. `metadata` is `None` when it could
    /// not be fetched.
    File { name: String, metadata: Option<Metadata> },
}

/// Why a file entry contributes no record.
#[derive(Clone, Copy, Debug, PartialEq, Eq, Structural)]
pub enum SkipReason {
    /// The name has no extension.
    NoExtension,
    /// The extension is not one of the filter's.
    ExtensionNotMatched,
    /// The metadata could not be fetched.
    MetadataUnavailable,
    /// The entry is not a regular file.
    NotRegularFile,
}

/// What becomes of one file entry.
#[derive(Debug)]
pub enum FileOutcome {
    Record(FileRecord),
    Skip(SkipReason),
}

/// Why a file entry is skipped, or `None` when it is recorded. The checks
/// come in this order: extension present, extension accepted, metadata
/// available, regular file.
pub open spec fn skip_reason(
    filter: Seq<Seq<char>>,
    name: Seq<char>,
    metadata: Option<Metadata>,
) -> Option<SkipReason> {
    match extension_of(name) {
        None => Some(SkipReason::NoExtension),
        Some(e) => if !filter.contains(e) {
            Some(SkipReason::ExtensionNotMatched)
        } else {
            match metadata {
                None => Some(SkipReason::MetadataUnavailable),
                Some(m) => if !m.is_file {
                    Some(SkipReason::NotRegularFile)
                } else {
                    None
                },
            }
        },
    }
}

/// A length in bytes as whole kibibytes, rounded down.
pub open spec fn kib_of(len: u64) -> u64 {
    len / 1024
}

/// The records one file entry contributes: none, or one.
pub open spec fn file_records(
    filter: Seq<Seq<char>>,
    name: Seq<char>,
    metadata: Option<Metadata>,
) -> Seq<(Seq<char>, u64)> {
    match skip_reason(filter, name, metadata) {
        None => seq![(name, kib_of(metadata.unwrap().len))],
        Some(_) => Seq::empty(),
    }
}

/// The records an entry contributes, depth first, in listing order.
pub open spec fn entry_records(e: Entry, filter: Seq<Seq<char>>) -> Seq<(Seq<char>, u64)>
    decreases e,
{
    match e {
        Entry::Directory(v) => listing_records(v@, filter),
        Entry::Unreadable => Seq::empty(),
        Entry::File { name, metadata } => file_records(filter, name@, metadata),
    }
}

/// The records a sequence of sibling entries contributes, one after another.
pub open spec fn listing_records(es: Seq<Entry>, filter: Seq<Seq<char>>) -> Seq<
    (Seq<char>, u64),
>
    decreases es,
{
    if es.len() == 0 {
        Seq::empty()
    } else {
        listing_records(es.subrange(0, es.len() - 1), filter) + entry_records(
            es[es.len() - 1],
            filter,
        )
    }
}

/// The records a root contributes: those of its listing when it is a
/// directory that could be read, none otherwise.
pub open spec fn root_records(root: Entry, filter: Seq<Seq<char>>) -> Seq<(Seq<char>, u64)> {
    match root {
        Entry::Directory(v) => listing_records(v@, filter),
        _ => Seq::empty(),
    }
}

/// The records of all roots, root after root.
pub open spec fn roots_records(roots: Seq<Entry>, filter: Seq<Seq<char>>) -> Seq<
    (Seq<char>, u64),
>
    decreases roots.len(),
{
    if roots.len() == 0 {
        Seq::empty()
    } else {
        roots_records(roots.drop_last(), filter) + root_records(roots.last(), filter)
    }
}

/// Decides what becomes of a file entry of this name and metadata.
pub fn classify_file(filter: &ExtensionFilter, name: &String, metadata: Option<Metadata>) -> (r:
    FileOutcome)
    ensures
        match r {
            FileOutcome::Record(rec) => skip_reason(filter@, name@, metadata) is None && rec@ == (
                name@,
                kib_of(metadata.unwrap().len),
            ),
            FileOutcome::Skip(why) => skip_reason(filter@, name@, metadata) == Some(why),
        },
{
    let ext = match file_extension(name.as_str()) {
        Some(e) => e,
        None => {
            return FileOutcome::Skip(SkipReason::NoExtension);
        },
    };
    if !filter.contains(&ext) {
        return FileOutcome::Skip(SkipReason::ExtensionNotMatched);
    }
    match metadata {
        None => FileOutcome::Skip(SkipReason::MetadataUnavailable),
        Some(m) => {
            if !m.is_file {
                FileOutcome::Skip(SkipReason::NotRegularFile)
            } else {
                FileOutcome::Record(FileRecord { name: name.clone(), size_kib: m.len / 1024 })
            }
        },
    }
}

fn collect_entry(e: &Entry, filter: &ExtensionFilter, out: &mut Vec<FileRecord>)
    ensures
        record_views(final(out)@) == record_views(old(out)@) + entry_records(*e, filter@),
    decreases e,
{
    match e {
        Entry::Directory(v) => {
            collect_listing(v, filter, out);
        },
        Entry::Unreadable => {
            assert(record_views(out@) == record_views(out@) + Seq::<(Seq<char>, u64)>::empty());
        },
        Entry::File { name, metadata } => {
            let ghost before = out@;
            match classify_file(filter, name, *metadata) {
                FileOutcome::Record(rec) => {
                    out.push(rec);
                    assert(record_views(out@) == record_views(before) + seq![rec@]);
                },
                FileOutcome::Skip(_) => {
                    assert(record_views(out@) == record_views(out@) + Seq::<
                        (Seq<char>, u64),
                    >::empty());
                },
            }
        },
    }
}

fn collect_listing(v: &Vec<Entry>, filter: &ExtensionFilter, out: &mut Vec<FileRecord>)
    ensures
        record_views(final(out)@) == record_views(old(out)@) + listing_records(v@, filter@),
    decreases v,
{
    let ghost start = record_views(out@);
    let mut i: usize = 0;
    proof {
        assert(v@.subrange(0, 0) == Seq::<Entry>::empty());
        assert(start == start + Seq::<(Seq<char>, u64)>::empty());
    }
    while i < v.len()
        invariant
            i <= v@.len(),
            record_views(out@) == start + listing_records(v@.subrange(0, i as int), filter@),
        decreases v.len() - i,
    {
        proof {
            assert(decreases_to!(v => v[i as int]));
        }
        collect_entry(&v[i], filter, out);
        proof {
            let p = v@.subrange(0, i + 1);
            assert(p.subrange(0, p.len() - 1) == v@.subrange(0, i as int));
            assert(p[p.len() - 1] == v@[i as int]);
        }
        i = i + 1;
    }
    proof {
        assert(v@.subrange(0, v@.len() as int) == v@);
    }
}

/// Walks every root depth first and returns, in the order met, a record for
/// each regular file whose extension the filter accepts. Entries that cannot
/// be read contribute nothing; a root that is not a directory contributes
/// nothing. Roots are not deduplicated: a tree reachable from two roots is
/// counted once for each.
pub fn scan(roots: &Vec<Entry>, filter: &ExtensionFilter) -> (r: Vec<FileRecord>)
    ensures
        record_views(r@) == roots_records(roots@, filter@),
{
    let mut out: Vec<FileRecord> = Vec::new();
    let mut i: usize = 0;
    proof {
        assert(roots@.subrange(0, 0) == Seq::<Entry>::empty());
        assert(record_views(out@) == Seq::<(Seq<char>, u64)>::empty());
    }
    while i < roots.len()
        invariant
            i <= roots@.len(),
            record_views(out@) == roots_records(roots@.subrange(0, i as int), filter@),
        decreases roots.len() - i,
    {
        let ghost before = record_views(out@);
        match &roots[i] {
            Entry::Directory(v) => {
                collect_listing(v, filter, &mut out);
            },
            _ => {
                assert(before == before + Seq::<(Seq<char>, u64)>::empty());
            },
        }
        proof {
            let p = roots@.subrange(0, i + 1);
            assert(p.drop_last() == roots@.subrange(0, i as int));
            assert(p.last() == roots@[i as int]);
        }
        i = i + 1;
    }
    proof {
        assert(roots@.subrange(0, roots@.len() as int) == roots@);
    }
    out
}

proof fn lemma_listing_concat(x: Seq<Entry>, y: Seq<Entry>, filter: Seq<Seq<char>>)
    ensures
        listing_records(x + y, filter) == listing_records(x, filter) + listing_records(y, filter),
    decreases y.len(),
{
    if y.len() == 0 {
        assert(x + y == x);
    } else {
        let z = x + y;
        let y0 = y.subrange(0, y.len() - 1);
        assert(z.subrange(0, z.len() - 1) == x + y0);
        assert(z[z.len() - 1] == y[y.len() - 1]);
        lemma_listing_concat(x, y0, filter);
    }
}

proof fn lemma_listing_single(e: Entry, filter: Seq<Seq<char>>)
    ensures
        listing_records(seq![e], filter) == entry_records(e, filter),
{
    let s = seq![e];
    assert(s.subrange(0, 0) == Seq::<Entry>::empty());
    assert(listing_records(s.subrange(0, 0), filter) == Seq::<(Seq<char>, u64)>::empty());
    assert(Seq::<(Seq<char>, u64)>::empty() + entry_records(e, filter) == entry_records(
        e,
        filter,
    ));
}

/// A listing splits around its `i`-th entry.
proof fn lemma_listing_split(es: Seq<Entry>, i: int, filter: Seq<Seq<char>>)
    requires
        0 <= i < es.len(),
    ensures
        listing_records(es, filter) == listing_records(es.subrange(0, i), filter)
            + entry_records(es[i], filter) + listing_records(es.subrange(i + 1, es.len() as int), filter),
{
    let a = es.subrange(0, i);
    let b = es.subrange(i + 1, es.len() as int);
    assert(es == a + seq![es[i]] + b);
    lemma_listing_concat(a + seq![es[i]], b, filter);
    lemma_listing_concat(a, seq![es[i]], filter);
    lemma_listing_single(es[i], filter);
}

/// When no entry of a listing is a file whose extension the filter accepts
/// (an empty directory among them), the listing yields no record.
pub proof fn lemma_no_match_no_records(es: Seq<Entry>, filter: Seq<Seq<char>>)
    requires
        forall|k: int|
            0 <= k < es.len() ==> match #[trigger] es[k] {
                Entry::File { name, metadata } => !(extension_of(name@) matches Some(e)
                    && filter.contains(e)),
                _ => false,
            },
    ensures
        listing_records(es, filter) == Seq::<(Seq<char>, u64)>::empty(),
    decreases es.len(),
{
    if es.len() > 0 {
        let p = es.subrange(0, es.len() - 1);
        assert forall|k: int| 0 <= k < p.len() implies match #[trigger] p[k] {
            Entry::File { name, metadata } => !(extension_of(name@) matches Some(e)
                && filter.contains(e)),
            _ => false,
        } by {
            assert(p[k] == es[k]);
        }
        lemma_no_match_no_records(p, filter);
        let last = es[es.len() - 1];
        if let Entry::File { name, metadata } = last {
            assert(skip_reason(filter, name@, metadata) is Some);
        }
        assert(entry_records(last, filter) == Seq::<(Seq<char>, u64)>::empty());
        assert(Seq::<(Seq<char>, u64)>::empty() + Seq::<(Seq<char>, u64)>::empty() == Seq::<
            (Seq<char>, u64),
        >::empty());
    }
}

/// Roots are not deduplicated: given a directory and one of its
/// subdirectories as roots, the subdirectory's records come once within the
/// directory's records and once more after them.
pub proof fn lemma_nested_root_counted_twice(
    root_entries: Vec<Entry>,
    i: int,
    filter: Seq<Seq<char>>,
)
    requires
        0 <= i < root_entries@.len(),
        root_entries@[i] is Directory,
    ensures
        roots_records(seq![Entry::Directory(root_entries), root_entries@[i]], filter)
            == root_records(Entry::Directory(root_entries), filter) + root_records(
            root_entries@[i],
            filter,
        ),
        root_records(root_entries@[i], filter) == entry_records(root_entries@[i], filter),
        exists|a: Seq<(Seq<char>, u64)>, b: Seq<(Seq<char>, u64)>|
            root_records(Entry::Directory(root_entries), filter) == a + entry_records(
                root_entries@[i],
                filter,
            ) + b,
{
    let root = Entry::Directory(root_entries);
    let sub = root_entries@[i];
    let rs = seq![root, sub];
    assert(rs.drop_last() == seq![root]);
    assert(seq![root].drop_last() == Seq::<Entry>::empty());
    assert(roots_records(seq![root], filter) == roots_records(Seq::<Entry>::empty(), filter)
        + root_records(root, filter));
    assert(Seq::<(Seq<char>, u64)>::empty() + root_records(root, filter) == root_records(
        root,
        filter,
    ));
    assert(roots_records(rs, filter) == roots_records(seq![root], filter) + root_records(
        sub,
        filter,
    ));
    lemma_listing_split(root_entries@, i, filter);
    let a = listing_records(root_entries@.subrange(0, i), filter);
    let b = listing_records(root_entries@.subrange(i + 1, root_entries@.len() as int), filter);
    assert(root_records(root, filter) == a + entry_records(sub, filter) + b);
}

/// A file entry whose metadata could not be fetched is skipped, and the rest
/// of its listing yields what it would have yielded without it.
pub proof fn lemma_missing_metadata_skipped(es: Seq<Entry>, i: int, filter: Seq<Seq<char>>)
    requires
        0 <= i < es.len(),
        es[i] matches Entry::File { metadata, .. } && metadata is None,
    ensures
        entry_records(es[i], filter) == Seq::<(Seq<char>, u64)>::empty(),
        listing_records(es, filter) == listing_records(es.remove(i), filter),
{
    lemma_listing_split(es, i, filter);
    let a = es.subrange(0, i);
    let b = es.subrange(i + 1, es.len() as int);
    assert(es.remove(i) == a + b);
    lemma_listing_concat(a, b, filter);
    assert(listing_records(a, filter) + Seq::<(Seq<char>, u64)>::empty() == listing_records(
        a,
        filter,
    ));
}

} // verus!
