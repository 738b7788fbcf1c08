//! The second pass: which files are hashed, and how their digests group them.

use crate::digest::{content_digest, digest_hex};
use crate::error::{ScanError, ScanErrorView};
use crate::table::{
    file_path, grouped, grouped_push, texts, views, Group, GroupView, Key, KeyView, Member,
};
use vstd::prelude::*;

verus! {

/// A file whose content has been digested.
#[derive(Clone, Debug, PartialEq, Eq)]
pub struct HashedFile {
    pub path: String,
    pub digest: String,
}

/// The mathematical value of a [`HashedFile`].
pub struct HashedView {
    pub path: Seq<char>,
    pub digest: Seq<char>,
}

impl View for HashedFile {
    type V = HashedView;

    open spec fn view(&self) -> HashedView {
        HashedView { path: self.path@, digest: self.digest@ }
    }
}

/// The views of a sequence of hashed files.
pub open spec fn hashed_views(files: Seq<HashedFile>) -> Seq<HashedView> {
    files.map_values(|f: HashedFile| f@)
}

/// Whether the files of a group are hashed: all groups are, unless only
/// shared keys are asked for, and then those with more than one path.
pub open spec fn is_hashed(group: GroupView, only_shared: bool) -> bool {
    !only_shared || group.paths.len() > 1
}

/// The paths to hash, group after group, each group's paths in their order.
pub open spec fn paths_to_hash(table: Seq<GroupView>, only_shared: bool) -> Seq<Seq<char>> {
    table.filter(|g: GroupView| is_hashed(g, only_shared)).map_values(
        |g: GroupView| g.paths,
    ).flatten()
}

/// What one more group adds to the paths to hash: its paths, where it is
/// hashed.
pub proof fn paths_to_hash_push(table: Seq<GroupView>, group: GroupView, only_shared: bool)
    ensures
        paths_to_hash(table.push(group), only_shared) == if is_hashed(group, only_shared) {
            paths_to_hash(table, only_shared) + group.paths
        } else {
            paths_to_hash(table, only_shared)
        },
{
    let wanted = |x: GroupView| is_hashed(x, only_shared);
    table.lemma_filter_push(group, wanted);
    if is_hashed(group, only_shared) {
        table.filter(wanted).lemma_push_map_commute(|x: GroupView| x.paths, group);
        table.filter(wanted).map_values(|x: GroupView| x.paths).lemma_flatten_push(group.paths);
    }
}

/// Lists the files whose content is to be read and digested.
pub fn files_to_hash(table: &Vec<Group>, only_shared: bool) -> (paths: Vec<String>)
    ensures
        texts(paths@) == paths_to_hash(views(table@), only_shared),
{
    let mut paths: Vec<String> = Vec::new();
    let ghost all = views(table@);
    let mut g: usize = 0;
    assert(texts(paths@) =~= paths_to_hash(all.take(0), only_shared));
    while g < table.len()
        invariant
            g <= table.len(),
            all == views(table@),
            texts(paths@) == paths_to_hash(all.take(g as int), only_shared),
        decreases table.len() - g,
    {
        let group = &table[g];
        let ghost before = texts(paths@);
        proof {
            assert(all.take(g + 1) =~= all.take(g as int).push(group@));
            paths_to_hash_push(all.take(g as int), group@, only_shared);
        }
        if !only_shared || group.paths.len() > 1 {
            let mut j: usize = 0;
            while j < group.paths.len()
                invariant
                    j <= group.paths.len(),
                    texts(paths@) == before + texts(group.paths@).take(j as int),
                decreases group.paths.len() - j,
            {
                let ghost so_far = texts(paths@);
                let path = group.paths[j].clone();
                paths.push(path);
                assert(texts(paths@) =~= so_far.push(path@));
                assert(texts(group.paths@).take(j + 1) =~= texts(group.paths@).take(j as int).push(
                    path@,
                ));
                j = j + 1;
            }
            assert(texts(group.paths@).take(j as int) =~= group@.paths);
        }
        g = g + 1;
    }
    assert(all.take(g as int) =~= all);
    paths
}

/// A hashed file as a member of a group table, under its digest.
pub open spec fn digest_member(f: HashedView) -> Member {
    Member { key: KeyView::Digest(f.digest), path: f.path }
}

/// The hashed files as members, each under its digest.
pub open spec fn digest_members(files: Seq<HashedView>) -> Seq<Member> {
    files.map_values(|f: HashedView| digest_member(f))
}

/// The table of the second grouping: the hashed files, grouped by digest.
pub open spec fn digest_table(files: Seq<HashedView>) -> Seq<GroupView> {
    grouped(digest_members(files))
}

/// Digests the content of the file at `path`.
pub fn hash_file(path: String, content: &[u8]) -> (file: HashedFile)
    ensures
        file@ == (HashedView { path: path@, digest: content_digest(content@) }),
{
    HashedFile { path, digest: digest_hex(content) }
}

/// Groups hashed files by digest.
pub fn group_digests(files: &Vec<HashedFile>) -> (table: Vec<Group>)
    ensures
        views(table@) == digest_table(hashed_views(files@)),
{
    let mut table: Vec<Group> = Vec::new();
    let ghost all = hashed_views(files@);
    let mut i: usize = 0;
    assert(views(table@) =~= digest_table(all.take(0)));
    while i < files.len()
        invariant
            i <= files.len(),
            all == hashed_views(files@),
            views(table@) == digest_table(all.take(i as int)),
        decreases files.len() - i,
    {
        let file = &files[i];
        proof {
            let seen = all.take(i as int);
            assert(all.take(i + 1) =~= seen.push(file@));
            seen.lemma_push_map_commute(|f: HashedView| digest_member(f), file@);
            grouped_push(digest_members(seen), digest_member(file@));
        }
        file_path(&mut table, Key::Digest(file.digest.clone()), file.path.clone());
        i = i + 1;
    }
    assert(all.take(i as int) =~= all);
    table
}

/// The hashed files that paths and digests make, pair by pair.
pub open spec fn paired(paths: Seq<Seq<char>>, digests: Seq<Seq<char>>) -> Seq<HashedView> {
    Seq::new(digests.len(), |i: int| HashedView { path: paths[i], digest: digests[i] })
}

/// The hashing of a list of files, one file at a time. The pass names the
/// next file to read, takes its content, and hands the table of digests out
/// once every file has been taken; one unreadable file ends it.
#[derive(Debug)]
pub struct HashPass {
    paths: Vec<String>,
    digests: Vec<String>,
}

impl HashPass {
    /// The paths the pass was asked to hash.
    pub closed spec fn requested(&self) -> Seq<Seq<char>> {
        texts(self.paths@)
    }

    /// The digests taken so far, in the order of the requested paths.
    pub closed spec fn digests(&self) -> Seq<Seq<char>> {
        texts(self.digests@)
    }

    /// Whether a file is still to be read.
    pub open spec fn is_pending(&self) -> bool {
        self.digests().len() < self.requested().len()
    }

    /// Starts a pass over `paths`.
    pub fn new(paths: Vec<String>) -> (pass: HashPass)
        ensures
            pass.requested() == texts(paths@),
            pass.digests() == Seq::<Seq<char>>::empty(),
    {
        let pass = HashPass { paths, digests: Vec::new() };
        assert(pass.digests() =~= Seq::<Seq<char>>::empty());
        pass
    }

    /// The file to read next, or `None` where none is left.
    pub fn next_path(&self) -> (next: Option<String>)
        ensures
            match next {
                Some(path) => self.is_pending() && path@ == self.requested()[
                    self.digests().len() as int
                ],
                None => !self.is_pending(),
            },
    {
        if self.digests.len() < self.paths.len() {
            Some(self.paths[self.digests.len()].clone())
        } else {
            None
        }
    }

    /// Takes what reading the next file gave: its content, or `None` where
    /// it could not be read. With content the pass moves on by one file;
    /// without, it stays as it is and names the file in the error.
    pub fn supply(&mut self, content: Option<&[u8]>) -> (outcome: Result<(), ScanError>)
        requires
            old(self).is_pending(),
        ensures
            final(self).requested() == old(self).requested(),
            match content {
                Some(bytes) => outcome is Ok && final(self).digests() == old(self).digests().push(
                    content_digest(bytes@),
                ),
                None => final(self).digests() == old(self).digests() && match outcome {
                    Ok(_) => false,
                    Err(e) => e@ == ScanErrorView::Unreadable(
                        old(self).requested()[old(self).digests().len() as int],
                    ),
                },
            },
    {
        match content {
            Some(bytes) => {
                let digest = digest_hex(bytes);
                self.digests.push(digest);
                assert(self.digests() =~= old(self).digests().push(content_digest(bytes@)));
                Ok(())
            },
            None => Err(ScanError::Unreadable(self.paths[self.digests.len()].clone())),
        }
    }

    /// Ends the pass. Where every file was taken, the files are grouped by
    /// digest; where one is still to be read, there is no table.
    pub fn finish(self) -> (table: Option<Vec<Group>>)
        ensures
            match table {
                Some(groups) => self.digests().len() == self.requested().len() && views(groups@)
                    == digest_table(paired(self.requested(), self.digests())),
                None => self.digests().len() != self.requested().len(),
            },
    {
        if self.digests.len() != self.paths.len() {
            return None;
        }
        let mut files: Vec<HashedFile> = Vec::new();
        let ghost all = paired(self.requested(), self.digests());
        let mut i: usize = 0;
        while i < self.paths.len()
            invariant
                i <= self.paths.len(),
                self.digests.len() == self.paths.len(),
                all == paired(self.requested(), self.digests()),
                hashed_views(files@) == all.take(i as int),
            decreases self.paths.len() - i,
        {
            let ghost so_far = hashed_views(files@);
            let file = HashedFile { path: self.paths[i].clone(), digest: self.digests[i].clone() };
            files.push(file);
            assert(hashed_views(files@) =~= so_far.push(file@));
            assert(all.take(i + 1) =~= all.take(i as int).push(file@));
            i = i + 1;
        }
        assert(all.take(i as int) =~= all);
        Some(group_digests(&files))
    }
}

} // verus!
