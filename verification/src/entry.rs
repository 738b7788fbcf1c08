//! The files a scan works on, and the options it runs under.

use vstd::prelude::*;

verus! {

/// A file found under the root: its name, where it is, and how large it is.
#[derive(Clone, Debug, PartialEq, Eq)]
pub struct FileEntry {
    pub name: String,
    pub path: String,
    pub size: u64,
}

/// The mathematical value of a [`FileEntry`].
pub struct EntryView {
    pub name: Seq<char>,
    pub path: Seq<char>,
    pub size: u64,
}

impl View for FileEntry {
    type V = EntryView;

    open spec fn view(&self) -> EntryView {
        EntryView { name: self.name@, path: self.path@, size: self.size }
    }
}

/// The views of a sequence of entries.
pub open spec fn entry_views(entries: Seq<FileEntry>) -> Seq<EntryView> {
    entries.map_values(|e: FileEntry| e@)
}

/// What a directory walk reports a filesystem object to be.
#[derive(Clone, Copy, Debug, PartialEq, Eq, Structural)]
pub enum FileKind {
    File,
    Directory,
    Symlink,
    Other,
}

/// One object met during a directory walk. `size` is `None` where its
/// metadata could not be read.
#[derive(Clone, Debug, PartialEq, Eq)]
pub struct WalkItem {
    pub name: String,
    pub path: String,
    pub kind: FileKind,
    pub size: Option<u64>,
}

/// The mathematical value of a [`WalkItem`].
pub struct WalkItemView {
    pub name: Seq<char>,
    pub path: Seq<char>,
    pub kind: FileKind,
    pub size: Option<u64>,
}

impl View for WalkItem {
    type V = WalkItemView;

    open spec fn view(&self) -> WalkItemView {
        WalkItemView { name: self.name@, path: self.path@, kind: self.kind, size: self.size }
    }
}

/// The views of a sequence of walk items.
pub open spec fn item_views(items: Seq<WalkItem>) -> Seq<WalkItemView> {
    items.map_values(|w: WalkItem| w@)
}

/// Whether a walk item becomes an entry: it is a regular file and its
/// metadata was read.
pub open spec fn is_listed(item: WalkItemView) -> bool {
    item.kind == FileKind::File && item.size is Some
}

/// The entry that a listed walk item becomes.
pub open spec fn as_entry(item: WalkItemView) -> EntryView {
    EntryView { name: item.name, path: item.path, size: item.size.unwrap() }
}

/// The entries of a walk: its regular files with readable metadata, in the
/// order of the walk.
pub open spec fn listing(items: Seq<WalkItemView>) -> Seq<EntryView> {
    items.filter(|w: WalkItemView| is_listed(w)).map_values(|w: WalkItemView| as_entry(w))
}

/// Turns the objects of a walk into entries. Directories, links and other
/// objects are left out, and so is a file whose metadata could not be read.
pub fn list_entries(items: &Vec<WalkItem>) -> (entries: Vec<FileEntry>)
    ensures
        entry_views(entries@) == listing(item_views(items@)),
{
    let mut entries: Vec<FileEntry> = Vec::new();
    let ghost all = item_views(items@);
    let mut i: usize = 0;
    while i < items.len()
        invariant
            i <= items.len(),
            all == item_views(items@),
            entry_views(entries@) == listing(all.take(i as int)),
        decreases items.len() - i,
    {
        let item = &items[i];
        proof {
            let keep = |w: WalkItemView| is_listed(w);
            let seen = all.take(i as int);
            assert(all.take(i + 1) =~= seen.push(item@));
            seen.lemma_filter_push(item@, keep);
            if is_listed(item@) {
                seen.filter(keep).lemma_push_map_commute(|w: WalkItemView| as_entry(w), item@);
            }
        }
        match item.kind {
            FileKind::File => {
                if let Some(size) = item.size {
                    let ghost before = entry_views(entries@);
                    entries.push(
                        FileEntry { name: item.name.clone(), path: item.path.clone(), size },
                    );
                    assert(entry_views(entries@) =~= before.push(as_entry(item@)));
                }
            },
            _ => {},
        }
        i = i + 1;
    }
    assert(all.take(i as int) =~= all);
    entries
}

/// Which key files are grouped under before their content is looked at.
#[derive(Clone, Copy, Debug, PartialEq, Eq, Structural)]
pub enum KeyKind {
    /// The file name alone.
    Name,
    /// The file name and the size.
    NameSize,
}

/// How the report is written.
#[derive(Clone, Copy, Debug, PartialEq, Eq, Structural)]
pub enum OutputFormat {
    Console,
    Csv,
}

/// The options of a scan.
#[derive(Clone, Copy, Debug)]
pub struct Config {
    /// The form of the report.
    pub format: OutputFormat,
    /// Report by name (and size) alone, without looking at content.
    pub name_only: bool,
    /// Hash only the files whose key is shared with another file.
    pub hash_only_dup_names: bool,
    /// List the empty files at the end of a console report.
    pub list_empty: bool,
    /// Files smaller than this are left out of the grouping.
    pub min_size: u64,
    /// The key of the first grouping.
    pub key: KeyKind,
}

impl Default for Config {
    fn default() -> (config: Config)
        ensures
            config.format == OutputFormat::Console,
            !config.name_only,
            !config.hash_only_dup_names,
            config.list_empty,
            config.min_size == 0,
            config.key == KeyKind::NameSize,
    {
        Config {
            format: OutputFormat::Console,
            name_only: false,
            hash_only_dup_names: false,
            list_empty: true,
            min_size: 0,
            key: KeyKind::NameSize,
        }
    }
}

} // verus!
