//! What holds of every scan: who is in a group, that groups do not overlap,
//! and where empty and small files go.

use crate::digest::{content_digest, sha1_bytes};
use crate::entry::{EntryView, KeyKind};
use crate::hashing::{
    digest_members, digest_table, is_hashed, paired, paths_to_hash, paths_to_hash_push,
};
use crate::report::{is_reported, reported};
use crate::scan::{
    candidates, empty_paths, is_candidate, is_empty_file, member_of, name_members, name_table,
};
use crate::table::{
    first_keys, first_keys_are_the_keys, grouped, paths_under, GroupView, KeyView, Member,
};
use crate::text::{digit_char, hex_lower};
use vstd::prelude::*;

verus! {

/// Whether no two members have the same path.
pub open spec fn distinct_paths(members: Seq<Member>) -> bool {
    forall|i: int, j: int|
        0 <= i < j < members.len() ==> (#[trigger] members[i]).path != (#[trigger] members[j]).path
}

/// Whether `member` stands in a group of `table` that has its key.
pub open spec fn has_home(table: Seq<GroupView>, member: Member) -> bool {
    exists|g: int|
        0 <= g < table.len() && (#[trigger] table[g]).key == member.key && table[g].paths.contains(
            member.path,
        )
}

/// A path goes under a key exactly when a member with that key has it.
pub proof fn paths_under_are_member_paths(members: Seq<Member>, key: KeyView, path: Seq<char>)
    ensures
        paths_under(members, key).contains(path) <==> exists|i: int|
            0 <= i < members.len() && #[trigger] members[i] == (Member { key, path }),
{
    let pred = |m: Member| m.key == key;
    let chosen = members.filter(pred);
    let target = Member { key, path };
    if paths_under(members, key).contains(path) {
        let p = choose|p: int| 0 <= p < chosen.len() && paths_under(members, key)[p] == path;
        members.lemma_filter_pred(pred, p);
        assert(chosen[p] == target);
        assert(chosen.contains(target));
        members.lemma_filter_contains_rev(pred, target);
        let i = choose|i: int| 0 <= i < members.len() && members[i] == target;
        assert(members[i] == target);
    }
    if exists|i: int| 0 <= i < members.len() && #[trigger] members[i] == target {
        let i = choose|i: int| 0 <= i < members.len() && #[trigger] members[i] == target;
        members.lemma_filter_contains(pred, i);
        let p = choose|p: int| 0 <= p < chosen.len() && chosen[p] == target;
        assert(paths_under(members, key)[p] == path);
    }
}

/// Every path of every group is the path of a member that carries the
/// group's key: the members of a group agree in their key.
pub proof fn group_members_share_the_key(members: Seq<Member>, g: int, p: int)
    requires
        0 <= g < grouped(members).len(),
        0 <= p < grouped(members)[g].paths.len(),
    ensures
        exists|i: int|
            0 <= i < members.len() && #[trigger] members[i] == (Member {
                key: grouped(members)[g].key,
                path: grouped(members)[g].paths[p],
            }),
{
    let group = grouped(members)[g];
    assert(group.paths.contains(group.paths[p]));
    paths_under_are_member_paths(members, group.key, group.paths[p]);
}

/// The groups of a table partition the members: no two groups have the same
/// key, no group is empty, and every member stands in the group of its key
/// and, by its key, in no other.
pub proof fn groups_partition_the_members(members: Seq<Member>)
    ensures
        forall|g: int, h: int|
            0 <= g < h < grouped(members).len() ==> (#[trigger] grouped(members)[g]).key != (
            #[trigger] grouped(members)[h]).key,
        forall|g: int|
            0 <= g < grouped(members).len() ==> (#[trigger] grouped(members)[g]).paths.len() > 0,
        forall|i: int|
            0 <= i < members.len() ==> has_home(grouped(members), #[trigger] members[i]),
{
    let table = grouped(members);
    let keys = first_keys(members);
    first_keys_are_the_keys(members);
    assert forall|g: int| 0 <= g < table.len() implies (#[trigger] table[g]).paths.len() > 0 by {
        assert(keys.contains(keys[g]));
        let i = choose|i: int| 0 <= i < members.len() && (#[trigger] members[i]).key == keys[g];
        paths_under_are_member_paths(members, keys[g], members[i].path);
        assert(members[i] == Member { key: keys[g], path: members[i].path });
    }
    assert forall|i: int| 0 <= i < members.len() implies has_home(
        table,
        #[trigger] members[i],
    ) by {
        let k = members[i].key;
        assert(keys.contains(k));
        let g = choose|g: int| 0 <= g < keys.len() && keys[g] == k;
        paths_under_are_member_paths(members, k, members[i].path);
        assert(members[i] == Member { key: k, path: members[i].path });
        assert(table[g].key == k && table[g].paths.contains(members[i].path));
    }
}

/// Where no two members have the same path, a path stands in one group at
/// most, and once at most in it.
pub proof fn a_path_stands_in_one_group(members: Seq<Member>, g: int, p: int, h: int, q: int)
    requires
        distinct_paths(members),
        0 <= g < grouped(members).len(),
        0 <= p < grouped(members)[g].paths.len(),
        0 <= h < grouped(members).len(),
        0 <= q < grouped(members)[h].paths.len(),
        grouped(members)[g].paths[p] == grouped(members)[h].paths[q],
    ensures
        g == h,
        p == q,
{
    let table = grouped(members);
    let keys = first_keys(members);
    let path = table[g].paths[p];
    first_keys_are_the_keys(members);
    group_members_share_the_key(members, g, p);
    group_members_share_the_key(members, h, q);
    let i = choose|i: int|
        0 <= i < members.len() && #[trigger] members[i] == (Member { key: keys[g], path });
    let j = choose|j: int|
        0 <= j < members.len() && #[trigger] members[j] == (Member { key: keys[h], path });
    if i < j {
        assert(members[i].path != members[j].path);
    }
    if j < i {
        assert(members[j].path != members[i].path);
    }
    assert(keys[g] == keys[h]);
    paths_under_are_distinct(members, keys[g]);
}

/// Where no two members have the same path, no path goes under a key twice.
pub proof fn paths_under_are_distinct(members: Seq<Member>, key: KeyView)
    requires
        distinct_paths(members),
    ensures
        paths_under(members, key).no_duplicates(),
    decreases members.len(),
{
    if members.len() > 0 {
        let front = members.drop_last();
        let last = members.last();
        assert(front.push(last) =~= members);
        assert(distinct_paths(front)) by {
            assert forall|i: int, j: int| 0 <= i < j < front.len() implies (
            #[trigger] front[i]).path != (#[trigger] front[j]).path by {
                assert(members[i].path != members[j].path);
            }
        }
        paths_under_are_distinct(front, key);
        let pred = |m: Member| m.key == key;
        front.lemma_filter_push(last, pred);
        if last.key == key {
            front.filter(pred).lemma_push_map_commute(|m: Member| m.path, last);
            let before = paths_under(front, key);
            assert(paths_under(members, key) == before.push(last.path));
            assert forall|p: int| 0 <= p < before.len() implies before[p] != last.path by {
                assert(before.contains(before[p]));
                paths_under_are_member_paths(front, key, before[p]);
                let i = choose|i: int|
                    0 <= i < front.len() && #[trigger] front[i] == (Member {
                        key,
                        path: before[p],
                    });
                assert(members[i].path != members[members.len() - 1].path);
            }
        }
    } else {
        assert(paths_under(members, key) =~= Seq::<Seq<char>>::empty());
    }
}

/// Whether no two groups of `table` have the same key.
pub open spec fn distinct_keys(table: Seq<GroupView>) -> bool {
    forall|g: int, h: int|
        0 <= g < h < table.len() ==> (#[trigger] table[g]).key != (#[trigger] table[h]).key
}

/// A reported group is a group of the table, with more than one path.
pub proof fn reported_groups_are_groups(table: Seq<GroupView>, r: int) -> (g: int)
    requires
        0 <= r < reported(table).len(),
    ensures
        0 <= g < table.len(),
        table[g] == reported(table)[r],
        table[g].paths.len() >= 2,
{
    let shown = |x: GroupView| is_reported(x);
    table.lemma_filter_pred(shown, r);
    assert(reported(table).contains(reported(table)[r]));
    table.lemma_filter_contains_rev(shown, reported(table)[r]);
    choose|g: int| 0 <= g < table.len() && table[g] == reported(table)[r]
}

/// Where the groups of a table differ in their keys, so do the reported ones.
pub proof fn reported_groups_keep_distinct_keys(table: Seq<GroupView>)
    requires
        distinct_keys(table),
    ensures
        distinct_keys(reported(table)),
    decreases table.len(),
{
    let shown = |x: GroupView| is_reported(x);
    if table.len() > 0 {
        let front = table.drop_last();
        let last = table.last();
        assert(front.push(last) =~= table);
        assert(distinct_keys(front)) by {
            assert forall|g: int, h: int| 0 <= g < h < front.len() implies (#[trigger] front[g]).key
                != (#[trigger] front[h]).key by {
                assert(table[g].key != table[h].key);
            }
        }
        reported_groups_keep_distinct_keys(front);
        front.lemma_filter_push(last, shown);
        if is_reported(last) {
            let kept = reported(front);
            assert forall|r: int| 0 <= r < kept.len() implies (#[trigger] kept[r]).key
                != last.key by {
                let g = reported_groups_are_groups(front, r);
                assert(table[g].key != table[table.len() - 1].key);
            }
        }
    } else {
        assert(reported(table) =~= Seq::<GroupView>::empty());
    }
}

/// Every reported group has at least two members, and each of them is a
/// member that carries the key of the group: within a reported group the
/// keys are pairwise equal.
pub proof fn reported_members_agree(members: Seq<Member>, r: int, p: int)
    requires
        0 <= r < reported(grouped(members)).len(),
        0 <= p < reported(grouped(members))[r].paths.len(),
    ensures
        reported(grouped(members))[r].paths.len() >= 2,
        reported(grouped(members))[r].paths == paths_under(
            members,
            reported(grouped(members))[r].key,
        ),
        exists|i: int|
            0 <= i < members.len() && #[trigger] members[i] == (Member {
                key: reported(grouped(members))[r].key,
                path: reported(grouped(members))[r].paths[p],
            }),
{
    let g = reported_groups_are_groups(grouped(members), r);
    group_members_share_the_key(members, g, p);
}

/// No file stands in two groups of a report: reported groups differ in
/// their keys, and where no two members have the same path, a path is
/// reported in one group at most, and once at most in it.
pub proof fn reported_groups_do_not_overlap(members: Seq<Member>, r: int, p: int, s: int, q: int)
    requires
        0 <= r < reported(grouped(members)).len(),
        0 <= p < reported(grouped(members))[r].paths.len(),
        0 <= s < reported(grouped(members)).len(),
        0 <= q < reported(grouped(members))[s].paths.len(),
    ensures
        r != s ==> reported(grouped(members))[r].key != reported(grouped(members))[s].key,
        distinct_paths(members) && reported(grouped(members))[r].paths[p] == reported(
            grouped(members),
        )[s].paths[q] ==> r == s && p == q,
{
    let table = grouped(members);
    groups_partition_the_members(members);
    assert(distinct_keys(table));
    reported_groups_keep_distinct_keys(table);
    if r < s {
        assert(reported(table)[r].key != reported(table)[s].key);
    }
    if s < r {
        assert(reported(table)[s].key != reported(table)[r].key);
    }
    if distinct_paths(members) && reported(table)[r].paths[p] == reported(table)[s].paths[q] {
        let g = reported_groups_are_groups(table, r);
        let h = reported_groups_are_groups(table, s);
        a_path_stands_in_one_group(members, g, p, h, q);
    }
}

/// Whether `path` stands in some group of `table`.
pub open spec fn is_grouped(table: Seq<GroupView>, path: Seq<char>) -> bool {
    exists|g: int| 0 <= g < table.len() && (#[trigger] table[g]).paths.contains(path)
}

/// Whether no two entries have the same path.
pub open spec fn distinct_entry_paths(entries: Seq<EntryView>) -> bool {
    forall|i: int, j: int|
        0 <= i < j < entries.len() ==> (#[trigger] entries[i]).path != (#[trigger] entries[j]).path
}

/// Every path in the table of names is the path of an entry that is not
/// empty and not under the size threshold, filed under that entry's key.
pub proof fn grouped_files_are_candidates(
    entries: Seq<EntryView>,
    min_size: u64,
    kind: KeyKind,
    g: int,
    p: int,
)
    requires
        0 <= g < name_table(entries, min_size, kind).len(),
        0 <= p < name_table(entries, min_size, kind)[g].paths.len(),
    ensures
        exists|i: int|
            0 <= i < entries.len() && is_candidate(#[trigger] entries[i], min_size) && member_of(
                entries[i],
                kind,
            ) == (Member {
                key: name_table(entries, min_size, kind)[g].key,
                path: name_table(entries, min_size, kind)[g].paths[p],
            }),
{
    let wanted = |e: EntryView| is_candidate(e, min_size);
    let chosen = candidates(entries, min_size);
    let members = name_members(entries, min_size, kind);
    let group = name_table(entries, min_size, kind)[g];
    group_members_share_the_key(members, g, p);
    let j = choose|j: int|
        0 <= j < members.len() && #[trigger] members[j] == (Member {
            key: group.key,
            path: group.paths[p],
        });
    entries.lemma_filter_pred(wanted, j);
    assert(chosen.contains(chosen[j]));
    entries.lemma_filter_contains_rev(wanted, chosen[j]);
    let i = choose|i: int| 0 <= i < entries.len() && entries[i] == chosen[j];
    assert(is_candidate(entries[i], min_size) && member_of(entries[i], kind) == members[j]);
}

/// Every entry that is not empty and not under the size threshold stands in
/// the table of names, in the group of its key.
pub proof fn candidates_are_grouped(entries: Seq<EntryView>, min_size: u64, kind: KeyKind, i: int)
    requires
        0 <= i < entries.len(),
        is_candidate(entries[i], min_size),
    ensures
        has_home(name_table(entries, min_size, kind), member_of(entries[i], kind)),
{
    let wanted = |e: EntryView| is_candidate(e, min_size);
    let chosen = candidates(entries, min_size);
    let members = name_members(entries, min_size, kind);
    entries.lemma_filter_contains(wanted, i);
    let j = choose|j: int| 0 <= j < chosen.len() && chosen[j] == entries[i];
    assert(members[j] == member_of(entries[i], kind));
    groups_partition_the_members(members);
}

/// The list of empty files holds the paths of the entries of size 0, and no
/// other path.
pub proof fn empty_list_holds_the_empty_files(entries: Seq<EntryView>, path: Seq<char>)
    ensures
        empty_paths(entries).contains(path) <==> exists|i: int|
            0 <= i < entries.len() && is_empty_file(#[trigger] entries[i]) && entries[i].path
                == path,
{
    let hollow = |e: EntryView| is_empty_file(e);
    let chosen = entries.filter(hollow);
    if empty_paths(entries).contains(path) {
        let q = choose|q: int| 0 <= q < chosen.len() && empty_paths(entries)[q] == path;
        entries.lemma_filter_pred(hollow, q);
        assert(chosen.contains(chosen[q]));
        entries.lemma_filter_contains_rev(hollow, chosen[q]);
        let i = choose|i: int| 0 <= i < entries.len() && entries[i] == chosen[q];
        assert(is_empty_file(entries[i]) && entries[i].path == path);
    }
    if exists|i: int|
        0 <= i < entries.len() && is_empty_file(#[trigger] entries[i]) && entries[i].path == path {
        let i = choose|i: int|
            0 <= i < entries.len() && is_empty_file(#[trigger] entries[i]) && entries[i].path
                == path;
        entries.lemma_filter_contains(hollow, i);
        let q = choose|q: int| 0 <= q < chosen.len() && chosen[q] == entries[i];
        assert(empty_paths(entries)[q] == path);
    }
}

/// Where no two entries have the same path, the size of a file decides where
/// it goes: it stands in a group exactly when it is not empty and not under
/// the size threshold, and in the list of empty files exactly when it is
/// empty.
pub proof fn size_decides_where_a_file_goes(
    entries: Seq<EntryView>,
    min_size: u64,
    kind: KeyKind,
    i: int,
)
    requires
        distinct_entry_paths(entries),
        0 <= i < entries.len(),
    ensures
        is_grouped(name_table(entries, min_size, kind), entries[i].path) <==> entries[i].size != 0
            && entries[i].size >= min_size,
        empty_paths(entries).contains(entries[i].path) <==> entries[i].size == 0,
{
    let table = name_table(entries, min_size, kind);
    let path = entries[i].path;
    if is_candidate(entries[i], min_size) {
        candidates_are_grouped(entries, min_size, kind, i);
    }
    if is_grouped(table, path) {
        let g = choose|g: int| 0 <= g < table.len() && (#[trigger] table[g]).paths.contains(path);
        let p = choose|p: int| 0 <= p < table[g].paths.len() && table[g].paths[p] == path;
        grouped_files_are_candidates(entries, min_size, kind, g, p);
        let j = choose|j: int|
            0 <= j < entries.len() && is_candidate(#[trigger] entries[j], min_size) && member_of(
                entries[j],
                kind,
            ) == (Member { key: table[g].key, path: table[g].paths[p] });
        same_path_same_entry(entries, i, j);
    }
    empty_list_holds_the_empty_files(entries, path);
    if empty_paths(entries).contains(path) {
        let j = choose|j: int|
            0 <= j < entries.len() && is_empty_file(#[trigger] entries[j]) && entries[j].path
                == path;
        same_path_same_entry(entries, i, j);
    }
}

/// Where no two entries have the same path, a path names one entry.
proof fn same_path_same_entry(entries: Seq<EntryView>, i: int, j: int)
    requires
        distinct_entry_paths(entries),
        0 <= i < entries.len(),
        0 <= j < entries.len(),
        entries[i].path == entries[j].path,
    ensures
        i == j,
{
    if i < j {
        assert(entries[i].path != entries[j].path);
    }
    if j < i {
        assert(entries[j].path != entries[i].path);
    }
}

/// The paths to hash are the paths of the groups that are hashed, and no
/// other path.
pub proof fn hashed_paths_come_from_groups(
    table: Seq<GroupView>,
    only_shared: bool,
    path: Seq<char>,
)
    ensures
        paths_to_hash(table, only_shared).contains(path) <==> exists|g: int|
            0 <= g < table.len() && is_hashed(#[trigger] table[g], only_shared)
                && table[g].paths.contains(path),
    decreases table.len(),
{
    if table.len() == 0 {
        assert(paths_to_hash(table, only_shared) =~= Seq::<Seq<char>>::empty());
    } else {
        let front = table.drop_last();
        let last = table.last();
        assert(front.push(last) =~= table);
        paths_to_hash_push(front, last, only_shared);
        hashed_paths_come_from_groups(front, only_shared, path);
        let before = paths_to_hash(front, only_shared);
        let now = paths_to_hash(table, only_shared);
        if now.contains(path) {
            let q = choose|q: int| 0 <= q < now.len() && now[q] == path;
            if q < before.len() {
                assert(before[q] == path);
                let g = choose|g: int|
                    0 <= g < front.len() && is_hashed(#[trigger] front[g], only_shared)
                        && front[g].paths.contains(path);
                assert(table[g] == front[g]);
            } else {
                assert(last.paths[q - before.len()] == path);
                assert(table[table.len() - 1] == last);
            }
        }
        if exists|g: int|
            0 <= g < table.len() && is_hashed(#[trigger] table[g], only_shared)
                && table[g].paths.contains(path) {
            let g = choose|g: int|
                0 <= g < table.len() && is_hashed(#[trigger] table[g], only_shared)
                    && table[g].paths.contains(path);
            if g < front.len() {
                assert(front[g] == table[g]);
                let q = choose|q: int| 0 <= q < before.len() && before[q] == path;
                assert(now[q] == path);
            } else {
                let p = choose|p: int| 0 <= p < last.paths.len() && last.paths[p] == path;
                assert(now[before.len() + p] == path);
            }
        }
    }
}

/// Every path in a table of digests is one of the hashed paths, filed under
/// the digest that was taken for it: the members of a group agree in their
/// digest.
pub proof fn digest_groups_share_the_digest(
    paths: Seq<Seq<char>>,
    digests: Seq<Seq<char>>,
    g: int,
    p: int,
)
    requires
        digests.len() == paths.len(),
        0 <= g < digest_table(paired(paths, digests)).len(),
        0 <= p < digest_table(paired(paths, digests))[g].paths.len(),
    ensures
        exists|i: int|
            0 <= i < paths.len() && #[trigger] paths[i] == digest_table(
                paired(paths, digests),
            )[g].paths[p] && KeyView::Digest(digests[i]) == digest_table(
                paired(paths, digests),
            )[g].key,
{
    let members = digest_members(paired(paths, digests));
    let group = digest_table(paired(paths, digests))[g];
    group_members_share_the_key(members, g, p);
    let i = choose|i: int|
        0 <= i < members.len() && #[trigger] members[i] == (Member {
            key: group.key,
            path: group.paths[p],
        });
    assert(paths[i] == group.paths[p] && KeyView::Digest(digests[i]) == group.key);
}

/// Every file in a table of digests is a file of the scan that is not empty
/// and not under the size threshold.
pub proof fn hashed_files_are_candidates(
    entries: Seq<EntryView>,
    min_size: u64,
    kind: KeyKind,
    only_shared: bool,
    digests: Seq<Seq<char>>,
    g: int,
    p: int,
)
    requires
        digests.len() == paths_to_hash(name_table(entries, min_size, kind), only_shared).len(),
        0 <= g < digest_table(
            paired(paths_to_hash(name_table(entries, min_size, kind), only_shared), digests),
        ).len(),
        0 <= p < digest_table(
            paired(paths_to_hash(name_table(entries, min_size, kind), only_shared), digests),
        )[g].paths.len(),
    ensures
        exists|i: int|
            0 <= i < entries.len() && is_candidate(#[trigger] entries[i], min_size)
                && entries[i].path == digest_table(
                paired(paths_to_hash(name_table(entries, min_size, kind), only_shared), digests),
            )[g].paths[p],
{
    let names = name_table(entries, min_size, kind);
    let paths = paths_to_hash(names, only_shared);
    let path = digest_table(paired(paths, digests))[g].paths[p];
    digest_groups_share_the_digest(paths, digests, g, p);
    let q = choose|q: int| 0 <= q < paths.len() && #[trigger] paths[q] == path;
    assert(paths.contains(path));
    hashed_paths_come_from_groups(names, only_shared, path);
    let h = choose|h: int|
        0 <= h < names.len() && is_hashed(#[trigger] names[h], only_shared)
            && names[h].paths.contains(path);
    let r = choose|r: int| 0 <= r < names[h].paths.len() && names[h].paths[r] == path;
    grouped_files_are_candidates(entries, min_size, kind, h, r);
    let i = choose|i: int|
        0 <= i < entries.len() && is_candidate(#[trigger] entries[i], min_size) && member_of(
            entries[i],
            kind,
        ) == (Member { key: names[h].key, path: names[h].paths[r] });
    assert(entries[i].path == path);
}

/// Unless only shared keys are hashed, every file that is not empty and not
/// under the size threshold is hashed.
pub proof fn every_candidate_is_hashed(
    entries: Seq<EntryView>,
    min_size: u64,
    kind: KeyKind,
    i: int,
)
    requires
        0 <= i < entries.len(),
        is_candidate(entries[i], min_size),
    ensures
        paths_to_hash(name_table(entries, min_size, kind), false).contains(entries[i].path),
{
    let names = name_table(entries, min_size, kind);
    candidates_are_grouped(entries, min_size, kind, i);
    let g = choose|g: int|
        0 <= g < names.len() && (#[trigger] names[g]).key == member_of(entries[i], kind).key
            && names[g].paths.contains(entries[i].path);
    assert(is_hashed(names[g], false));
    hashed_paths_come_from_groups(names, false, entries[i].path);
}

/// Lowercase hex tells byte strings apart.
pub proof fn hex_is_one_to_one(a: Seq<u8>, b: Seq<u8>)
    requires
        hex_lower(a) == hex_lower(b),
    ensures
        a == b,
{
    assert(hex_lower(a).len() == 2 * a.len());
    assert(hex_lower(b).len() == 2 * b.len());
    assert(a.len() == b.len());
    assert forall|i: int| 0 <= i < a.len() implies a[i] == b[i] by {
        let high = 2 * i;
        let low = 2 * i + 1;
        assert(high % 2 == 0 && high / 2 == i);
        assert(low % 2 == 1 && low / 2 == i);
        assert(hex_lower(a)[high] == digit_char(a[i] as int / 16));
        assert(hex_lower(b)[high] == digit_char(b[i] as int / 16));
        assert(hex_lower(a)[low] == digit_char(a[i] as int % 16));
        assert(hex_lower(b)[low] == digit_char(b[i] as int % 16));
    }
    assert(a =~= b);
}

/// Two contents with the same digest text have the same SHA-1 digest.
pub proof fn equal_digest_text_is_equal_digest(a: Seq<u8>, b: Seq<u8>)
    requires
        content_digest(a) == content_digest(b),
    ensures
        sha1_bytes(a) == sha1_bytes(b),
{
    hex_is_one_to_one(sha1_bytes(a), sha1_bytes(b));
}

} // verus!
