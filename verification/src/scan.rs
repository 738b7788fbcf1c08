//! The first pass over the entries: empty files are set aside, files under
//! the size threshold are dropped, and the rest is grouped by key.

use crate::entry::{entry_views, EntryView, FileEntry, KeyKind};
use crate::table::{
    file_path, grouped, grouped_push, texts, views, Group, GroupView, Key, KeyView, Member,
};
use vstd::prelude::*;

verus! {

/// Whether an entry is an empty file.
pub open spec fn is_empty_file(e: EntryView) -> bool {
    e.size == 0
}

/// Whether an entry takes part in the grouping: it is not empty and not
/// smaller than `min_size`.
pub open spec fn is_candidate(e: EntryView, min_size: u64) -> bool {
    e.size != 0 && e.size >= min_size
}

/// The paths of the empty files, in the order of the entries.
pub open spec fn empty_paths(entries: Seq<EntryView>) -> Seq<Seq<char>> {
    entries.filter(|e: EntryView| is_empty_file(e)).map_values(|e: EntryView| e.path)
}

/// The entries that take part in the grouping, in their order.
pub open spec fn candidates(entries: Seq<EntryView>, min_size: u64) -> Seq<EntryView> {
    entries.filter(|e: EntryView| is_candidate(e, min_size))
}

/// The key of an entry under a kind of key.
pub open spec fn key_of(e: EntryView, kind: KeyKind) -> KeyView {
    match kind {
        KeyKind::Name => KeyView::Name(e.name),
        KeyKind::NameSize => KeyView::NameSize(e.name, e.size),
    }
}

/// An entry as a member of a group table.
pub open spec fn member_of(e: EntryView, kind: KeyKind) -> Member {
    Member { key: key_of(e, kind), path: e.path }
}

/// The candidates among `entries` as members, each under its key.
pub open spec fn name_members(entries: Seq<EntryView>, min_size: u64, kind: KeyKind) -> Seq<
    Member,
> {
    candidates(entries, min_size).map_values(|e: EntryView| member_of(e, kind))
}

/// The table of the first grouping: the candidates among `entries`, grouped
/// by their key.
pub open spec fn name_table(entries: Seq<EntryView>, min_size: u64, kind: KeyKind) -> Seq<
    GroupView,
> {
    grouped(name_members(entries, min_size, kind))
}

/// What the first pass finds: the empty files, and the table of the rest.
#[derive(Clone, Debug, PartialEq, Eq)]
pub struct Scan {
    /// The paths of the empty files.
    pub empty: Vec<String>,
    /// The candidates, grouped by key.
    pub table: Vec<Group>,
}

/// Builds the key of an entry.
pub fn entry_key(entry: &FileEntry, kind: KeyKind) -> (key: Key)
    ensures
        key@ == key_of(entry@, kind),
{
    match kind {
        KeyKind::Name => Key::Name(entry.name.clone()),
        KeyKind::NameSize => Key::NameSize(entry.name.clone(), entry.size),
    }
}

/// Runs the first pass. Empty files go to the empty list and nowhere else;
/// a file smaller than `min_size` is dropped; every other file is filed
/// under its key.
pub fn scan_entries(entries: &Vec<FileEntry>, min_size: u64, kind: KeyKind) -> (scan: Scan)
    ensures
        texts(scan.empty@) == empty_paths(entry_views(entries@)),
        views(scan.table@) == name_table(entry_views(entries@), min_size, kind),
{
    let mut empty: Vec<String> = Vec::new();
    let mut table: Vec<Group> = Vec::new();
    let ghost all = entry_views(entries@);
    let mut i: usize = 0;
    assert(views(table@) =~= name_table(all.take(0), min_size, kind));
    while i < entries.len()
        invariant
            i <= entries.len(),
            all == entry_views(entries@),
            texts(empty@) == empty_paths(all.take(i as int)),
            views(table@) == name_table(all.take(i as int), min_size, kind),
        decreases entries.len() - i,
    {
        let entry = &entries[i];
        proof {
            let seen = all.take(i as int);
            assert(all.take(i + 1) =~= seen.push(entry@));
            let hollow = |e: EntryView| is_empty_file(e);
            seen.lemma_filter_push(entry@, hollow);
            if is_empty_file(entry@) {
                seen.filter(hollow).lemma_push_map_commute(|e: EntryView| e.path, entry@);
            }
            let wanted = |e: EntryView| is_candidate(e, min_size);
            seen.lemma_filter_push(entry@, wanted);
            if is_candidate(entry@, min_size) {
                seen.filter(wanted).lemma_push_map_commute(
                    |e: EntryView| member_of(e, kind),
                    entry@,
                );
                grouped_push(name_members(seen, min_size, kind), member_of(entry@, kind));
            }
        }
        if entry.size == 0 {
            let ghost before = texts(empty@);
            empty.push(entry.path.clone());
            assert(texts(empty@) =~= before.push(entry@.path));
        } else if entry.size >= min_size {
            file_path(&mut table, entry_key(entry, kind), entry.path.clone());
        }
        i = i + 1;
    }
    assert(all.take(i as int) =~= all);
    Scan { empty, table }
}

} // verus!
