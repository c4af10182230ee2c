//! Reader for Marmoset Viewer archive packages.
//!
//! An archive is a plain sequence of entries. Each entry carries a name, a
//! MIME type and a payload that is stored either verbatim or packed with a
//! twelve-bit dictionary coder.

pub mod error;
pub mod lzw;
pub mod mview_entry;
pub mod mview_file;
pub mod source;
pub mod utils;

pub use error::Error;
pub use mview_entry::MViewEntry;
pub use mview_file::MViewFile;
pub use source::ByteSource;

use mview_entry::EntryView;
use mview_file::{archive_items, entries_or_failure};
use vstd::prelude::*;

verus! {

/// What a list of decoded entries holds.
pub open spec fn entry_views(entries: Seq<MViewEntry>) -> Seq<EntryView> {
    entries.map_values(|entry: MViewEntry| entry@)
}

/// `found` put in front of the entries that `later` holds; a failure stays
/// what it is.
pub open spec fn after(found: Seq<EntryView>, later: Result<Seq<EntryView>, Error>) -> Result<
    Seq<EntryView>,
    Error,
> {
    match later {
        Ok(others) => Ok(found + others),
        Err(e) => Err(e),
    }
}

/// Extracts the contents of an .mview archive: every entry in the order in
/// which the archive holds them, or the first failure to decode one.
pub fn extract_mview(archive: Vec<u8>) -> (entries: Result<Vec<MViewEntry>, Error>)
    ensures
        match entries_or_failure(archive_items(archive@)) {
            Ok(views) => entries.is_ok() && entry_views(entries.unwrap()@) == views,
            Err(e) => entries.is_err() && entries.unwrap_err() == e,
        },
{
    let ghost whole = entries_or_failure(archive_items(archive@));
    let mut file = MViewFile::new(archive);
    let mut entries: Vec<MViewEntry> = Vec::new();
    assert(entry_views(entries@) + Seq::<EntryView>::empty() =~= Seq::<EntryView>::empty());
    assert(entry_views(entries@) =~= Seq::<EntryView>::empty());
    loop
        invariant
            whole == entries_or_failure(archive_items(archive@)),
            whole == after(entry_views(entries@), entries_or_failure(archive_items(file@))),
        decreases file@.len(),
    {
        let ghost found = entry_views(entries@);
        let ghost items = archive_items(file@);
        match file.next() {
            None => {
                assert(found + Seq::<EntryView>::empty() =~= found);
                return Ok(entries);
            },
            Some(Err(e)) => {
                return Err(e);
            },
            Some(Ok(entry)) => {
                entries.push(entry);
                proof {
                    let later = archive_items(file@);
                    assert(items.skip(1) =~= later);
                    assert(entry_views(entries@) =~= found.push(entry@));
                    if let Ok(others) = entries_or_failure(later) {
                        assert(found + (seq![entry@] + others) =~= found.push(entry@) + others);
                    }
                }
            },
        }
    }
}

} // verus!
