//! Size statistics over the files of chosen extensions found under a set of
//! directory trees.
mod filter;
mod record;
mod scan;
mod stats;

pub use filter::{
    extension_of, file_extension, has_nonempty, last_dot, ExtensionFilter, FilterError,
};
pub use record::{record_views, sizes_of, FileRecord};
pub use scan::{
    classify_file, entry_records, file_records, kib_of, lemma_missing_metadata_skipped,
    lemma_nested_root_counted_twice, lemma_no_match_no_records, listing_records, root_records,
    roots_records, scan, skip_reason, Entry, FileOutcome, Metadata, SkipReason,
};
pub use stats::{
    checked_total, describes, frequency, is_ascending, is_mode, lemma_center_between_extremes,
    lemma_even_median, lemma_single_size, median_of, median_of_sorted, mode_of, record_sizes,
    sort_sizes, sorted_sizes, summarize, total_of, Summary, SummaryError,
};
