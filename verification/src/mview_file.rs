use vstd::prelude::*;
use crate::error::Error;
use crate::mview_entry::{
    lemma_entry_consumes, lemma_entry_prefix, lemma_header_prefix, outcome, parse_entry,
    parse_header, EntryView, MViewEntry,
};
use crate::source::ByteSource;

verus! {

/// Everything that an archive yields when its entries are read one after
/// another until its bytes are used up. A failed entry is an item like any
/// other; the reading goes on behind it wherever the failure left the
/// source.
pub open spec fn archive_items(s: Seq<u8>) -> Seq<Result<EntryView, Error>>
    decreases s.len(),
    via archive_items_decreases
{
    if s.len() == 0 {
        Seq::empty()
    } else {
        seq![parse_entry(s).0] + archive_items(parse_entry(s).1)
    }
}

#[via_fn]
proof fn archive_items_decreases(s: Seq<u8>) {
    lemma_entry_consumes(s);
}

/// The entries of `items` where all of them were decoded, else the first
/// failure among them.
pub open spec fn entries_or_failure(items: Seq<Result<EntryView, Error>>) -> Result<
    Seq<EntryView>,
    Error,
>
    decreases items.len(),
{
    if items.len() == 0 {
        Ok(Seq::empty())
    } else {
        match (items[0], entries_or_failure(items.skip(1))) {
            (Err(e), _) => Err(e),
            (Ok(_), Err(e)) => Err(e),
            (Ok(entry), Ok(others)) => Ok(seq![entry] + others),
        }
    }
}

/// The number of bytes that the first `n` entries of `s` occupy.
pub open spec fn boundary(s: Seq<u8>, n: nat) -> int
    decreases n,
{
    if n == 0 {
        0
    } else {
        (s.len() - parse_entry(s).1.len()) + boundary(parse_entry(s).1, (n - 1) as nat)
    }
}

/// The first `n` items of `s` exist and are entries, not failures.
pub open spec fn starts_with_entries(s: Seq<u8>, n: nat) -> bool {
    &&& n <= archive_items(s).len()
    &&& forall|i: int| 0 <= i < n ==> (#[trigger] archive_items(s)[i]) is Ok
}

/// Behind an entry that could be decoded, the items of the archive are
/// those of what is left of the source.
proof fn lemma_items_behind_first(s: Seq<u8>, n: nat)
    requires
        n >= 1,
        starts_with_entries(s, n),
    ensures
        s.len() > 0,
        parse_entry(s).0 is Ok,
        archive_items(s) == seq![parse_entry(s).0] + archive_items(parse_entry(s).1),
        starts_with_entries(parse_entry(s).1, (n - 1) as nat),
{
    let items = archive_items(s);
    let later = archive_items(parse_entry(s).1);
    assert(items[0] is Ok);
    assert forall|i: int| 0 <= i < n - 1 implies (#[trigger] later[i]) is Ok by {
        assert(items[i + 1] is Ok);
    }
}

/// The end of the `n`-th entry lies inside the archive.
pub proof fn lemma_boundary_bounds(s: Seq<u8>, n: nat)
    requires
        starts_with_entries(s, n),
    ensures
        0 <= boundary(s, n) <= s.len(),
        n >= 1 ==> boundary(s, n) >= 1,
    decreases n,
{
    if n > 0 {
        lemma_items_behind_first(s, n);
        lemma_entry_consumes(s);
        lemma_boundary_bounds(parse_entry(s).1, (n - 1) as nat);
    }
}

/// Cutting an archive off behind its first `n` entries does not change
/// them: the cut archive yields these entries, and then whatever the cut
/// left of the bytes behind them yields.
pub proof fn lemma_cut_behind_entries(s: Seq<u8>, n: nat, m: int)
    requires
        starts_with_entries(s, n),
        boundary(s, n) <= m <= s.len(),
    ensures
        archive_items(s.take(m)) == archive_items(s).take(n as int) + archive_items(
            s.skip(boundary(s, n)).take(m - boundary(s, n)),
        ),
    decreases n,
{
    if n == 0 {
        assert(s.skip(0).take(m) =~= s.take(m));
        assert(archive_items(s).take(0) + archive_items(s.take(m)) =~= archive_items(s.take(m)));
    } else {
        let rest = parse_entry(s).1;
        let used = s.len() - rest.len();
        let inner = boundary(rest, (n - 1) as nat);
        lemma_items_behind_first(s, n);
        lemma_entry_consumes(s);
        lemma_boundary_bounds(rest, (n - 1) as nat);
        lemma_entry_prefix(s, m);
        lemma_cut_behind_entries(rest, (n - 1) as nat, m - used);
        assert(rest.skip(inner) =~= s.skip(used + inner));
        assert(archive_items(s).take(n as int) =~= seq![parse_entry(s).0] + archive_items(
            rest,
        ).take(n - 1));
        assert(archive_items(s.take(m)) =~= seq![parse_entry(s).0] + archive_items(
            rest.take(m - used),
        ));
    }
}

/// An archive that is cut off exactly where its `n`-th entry ends yields
/// its first `n` entries and nothing else: no failure follows them.
pub proof fn lemma_cut_at_boundary(s: Seq<u8>, n: nat)
    requires
        starts_with_entries(s, n),
    ensures
        0 <= boundary(s, n) <= s.len(),
        archive_items(s.take(boundary(s, n))) == archive_items(s).take(n as int),
{
    let at = boundary(s, n);
    lemma_boundary_bounds(s, n);
    lemma_cut_behind_entries(s, n, at);
    assert(s.skip(at).take(0) =~= Seq::<u8>::empty());
    assert(archive_items(s).take(n as int) + Seq::<Result<EntryView, Error>>::empty()
        =~= archive_items(s).take(n as int));
}

/// An archive that is cut off inside the header that follows its `n`-th
/// entry yields its first `n` entries and then one failure,
/// `UnexpectedEnd`, with which the sequence ends.
pub proof fn lemma_cut_in_header(s: Seq<u8>, n: nat, m: int)
    requires
        starts_with_entries(s, n),
        parse_header(s.skip(boundary(s, n))).0 is Ok,
        boundary(s, n) < m <= s.len(),
        m < s.len() - parse_header(s.skip(boundary(s, n))).1.len(),
    ensures
        archive_items(s.take(m)) == archive_items(s).take(n as int).push(
            Err(Error::UnexpectedEnd),
        ),
{
    let at = boundary(s, n);
    lemma_boundary_bounds(s, n);
    lemma_cut_behind_entries(s, n, m);
    let tail = s.skip(at);
    let cut = tail.take(m - at);
    lemma_header_prefix(tail, m - at);
    assert(parse_entry(cut) == (
        Err::<EntryView, Error>(Error::UnexpectedEnd),
        Seq::<u8>::empty(),
    ));
    assert(cut.len() > 0);
    assert(archive_items(Seq::<u8>::empty()) =~= Seq::<Result<EntryView, Error>>::empty());
    assert(archive_items(cut) =~= seq![Err::<EntryView, Error>(Error::UnexpectedEnd)]);
}

/// An .mview archive held in memory, read entry by entry.
///
/// Its view is the part of the archive that has not been read yet.
pub struct MViewFile {
    reader: ByteSource,
}

impl View for MViewFile {
    type V = Seq<u8>;

    closed spec fn view(&self) -> Seq<u8> {
        self.reader@
    }
}

impl MViewFile {
    /// Creates an `MViewFile` over the bytes of an archive.
    pub fn new(data: Vec<u8>) -> (file: MViewFile)
        ensures
            file@ == data@,
    {
        MViewFile { reader: ByteSource::new(data) }
    }

    /// Returns the next entry of the archive, or `None` once every byte has
    /// been read. An entry that cannot be decoded is returned as its error.
    pub fn next(&mut self) -> (item: Option<Result<MViewEntry, Error>>)
        ensures
            old(self)@.len() == 0 ==> item.is_none() && final(self)@ == old(self)@,
            old(self)@.len() > 0 ==> item.is_some() && (outcome(item.unwrap()), final(self)@)
                == parse_entry(old(self)@),
            final(self)@.len() <= old(self)@.len(),
            item.is_some() ==> final(self)@.len() < old(self)@.len(),
            archive_items(old(self)@) == match item {
                Some(entry) => seq![outcome(entry)] + archive_items(final(self)@),
                None => Seq::empty(),
            },
    {
        proof {
            lemma_entry_consumes(self@);
        }
        if self.reader.is_exhausted() {
            None
        } else {
            Some(MViewEntry::try_from(&mut self.reader))
        }
    }
}

} // verus!
