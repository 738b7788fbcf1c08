//! The order in which files are met does not decide who is grouped with
//! whom: two walks that meet the same files give the same groups with the
//! same members.

use crate::entry::{EntryView, KeyKind};
use crate::hashing::{
    digest_member, digest_members, is_hashed, paired, paths_to_hash, paths_to_hash_push, HashedView,
};
use crate::scan::{
    empty_paths, is_candidate, is_empty_file, member_of, name_members, name_table,
};
use crate::table::{
    first_keys, first_keys_are_the_keys, grouped, paths_under, GroupView, KeyView, Member,
};
use vstd::prelude::*;
use vstd::seq_lib::{group_to_multiset_ensures, lemma_multiset_commutative};

verus! {

/// What is picked by `pred` out of `s` and mapped by `f`.
pub open spec fn picked<A, B>(s: Seq<A>, pred: spec_fn(A) -> bool, f: spec_fn(A) -> B) -> Seq<B> {
    s.filter(pred).map_values(f)
}

/// Picking distributes over joining two sequences.
proof fn picked_of_joined<A, B>(a: Seq<A>, b: Seq<A>, pred: spec_fn(A) -> bool, f: spec_fn(A) -> B)
    ensures
        picked(a + b, pred, f) == picked(a, pred, f) + picked(b, pred, f),
{
    Seq::filter_distributes_over_add(a, b, pred);
    assert(picked(a + b, pred, f) =~= picked(a, pred, f) + picked(b, pred, f));
}

/// What one more element, put in at any place, adds to what is picked.
proof fn picked_of_insert<A, B>(
    s: Seq<A>,
    at: int,
    x: A,
    pred: spec_fn(A) -> bool,
    f: spec_fn(A) -> B,
)
    requires
        0 <= at <= s.len(),
    ensures
        picked(s.insert(at, x), pred, f).to_multiset() == if pred(x) {
            picked(s, pred, f).to_multiset().insert(f(x))
        } else {
            picked(s, pred, f).to_multiset()
        },
{
    broadcast use group_to_multiset_ensures;

    let head = s.take(at);
    let tail = s.skip(at);
    assert(s =~= head + tail);
    assert(s.insert(at, x) =~= head.push(x) + tail);
    picked_of_joined(head, tail, pred, f);
    picked_of_joined(head.push(x), tail, pred, f);
    head.lemma_filter_push(x, pred);
    lemma_multiset_commutative(picked(head, pred, f), picked(tail, pred, f));
    lemma_multiset_commutative(picked(head.push(x), pred, f), picked(tail, pred, f));
    if pred(x) {
        head.filter(pred).lemma_push_map_commute(f, x);
        assert(picked(head.push(x), pred, f) == picked(head, pred, f).push(f(x)));
        assert(picked(s.insert(at, x), pred, f).to_multiset() =~= picked(
            s,
            pred,
            f,
        ).to_multiset().insert(f(x)));
    }
}

/// Two sequences with the same elements, each as often in one as in the
/// other, give the same picks, each as often.
pub proof fn picking_ignores_order<A, B>(
    a: Seq<A>,
    b: Seq<A>,
    pred: spec_fn(A) -> bool,
    f: spec_fn(A) -> B,
)
    requires
        a.to_multiset() == b.to_multiset(),
    ensures
        picked(a, pred, f).to_multiset() == picked(b, pred, f).to_multiset(),
    decreases a.len(),
{
    broadcast use group_to_multiset_ensures;

    if a.len() == 0 {
        assert(a.to_multiset().len() == 0);
        assert(b.to_multiset().len() == b.len());
        assert(a =~= b);
    } else {
        let x = a.last();
        let front = a.drop_last();
        assert(a =~= front.push(x));
        assert(a.to_multiset().count(x) > 0);
        assert(b.contains(x));
        let at = choose|at: int| 0 <= at < b.len() && b[at] == x;
        let rest = b.remove(at);
        assert(rest.insert(at, x) =~= b);
        assert(front.to_multiset() =~= rest.to_multiset());
        picking_ignores_order(front, rest, pred, f);
        picked_of_insert(rest, at, x, pred, f);
        picked_of_insert(front, front.len() as int, x, pred, f);
        assert(front.insert(front.len() as int, x) =~= a);
    }
}

/// Grouping does not depend on the order of the members: two sequences with
/// the same members have the same keys, and under each key the same paths,
/// each as often. So a key is reported for one exactly when it is for the
/// other.
pub proof fn groups_ignore_order(a: Seq<Member>, b: Seq<Member>, key: KeyView)
    requires
        a.to_multiset() == b.to_multiset(),
    ensures
        first_keys(a).contains(key) <==> first_keys(b).contains(key),
        paths_under(a, key).to_multiset() == paths_under(b, key).to_multiset(),
        paths_under(a, key).len() == paths_under(b, key).len(),
{
    broadcast use group_to_multiset_ensures;

    picking_ignores_order(a, b, |m: Member| m.key == key, |m: Member| m.path);
    assert(paths_under(a, key).to_multiset().len() == paths_under(a, key).len());
    assert(paths_under(b, key).to_multiset().len() == paths_under(b, key).len());
    first_keys_are_the_keys(a);
    first_keys_are_the_keys(b);
    if first_keys(a).contains(key) {
        let i = choose|i: int| 0 <= i < a.len() && (#[trigger] a[i]).key == key;
        assert(a.contains(a[i]));
        assert(b.to_multiset().count(a[i]) > 0);
        assert(b.contains(a[i]));
        let j = choose|j: int| 0 <= j < b.len() && b[j] == a[i];
        assert(b[j].key == key);
    }
    if first_keys(b).contains(key) {
        let i = choose|i: int| 0 <= i < b.len() && (#[trigger] b[i]).key == key;
        assert(b.contains(b[i]));
        assert(a.to_multiset().count(b[i]) > 0);
        assert(a.contains(b[i]));
        let j = choose|j: int| 0 <= j < a.len() && a[j] == b[i];
        assert(a[j].key == key);
    }
}

/// A scan does not depend on the order of the walk: two listings with the
/// same entries give the same empty files, the same keys in the table of
/// names, and under each key the same paths.
pub proof fn scan_ignores_order(
    a: Seq<EntryView>,
    b: Seq<EntryView>,
    min_size: u64,
    kind: KeyKind,
    key: KeyView,
)
    requires
        a.to_multiset() == b.to_multiset(),
    ensures
        empty_paths(a).to_multiset() == empty_paths(b).to_multiset(),
        first_keys(name_members(a, min_size, kind)).contains(key) <==> first_keys(
            name_members(b, min_size, kind),
        ).contains(key),
        paths_under(name_members(a, min_size, kind), key).to_multiset() == paths_under(
            name_members(b, min_size, kind),
            key,
        ).to_multiset(),
        paths_under(name_members(a, min_size, kind), key).len() == paths_under(
            name_members(b, min_size, kind),
            key,
        ).len(),
{
    picking_ignores_order(a, b, |e: EntryView| is_empty_file(e), |e: EntryView| e.path);
    picking_ignores_order(
        a,
        b,
        |e: EntryView| is_candidate(e, min_size),
        |e: EntryView| member_of(e, kind),
    );
    groups_ignore_order(name_members(a, min_size, kind), name_members(b, min_size, kind), key);
}

/// Picking everything gives the sequence itself.
pub proof fn picking_all<A>(s: Seq<A>)
    ensures
        s.filter(|x: A| true) == s,
    decreases s.len(),
{
    let all = |x: A| true;
    if s.len() == 0 {
        assert(s.filter(all) =~= s);
    } else {
        picking_all(s.drop_last());
        s.drop_last().lemma_filter_push(s.last(), all);
        assert(s.drop_last().push(s.last()) =~= s);
    }
}

/// The grouping by digest does not depend on the order in which the files
/// were hashed: two lists of the same hashed files have the same digests as
/// keys, and under each digest the same paths.
pub proof fn digest_groups_ignore_order(a: Seq<HashedView>, b: Seq<HashedView>, key: KeyView)
    requires
        a.to_multiset() == b.to_multiset(),
    ensures
        first_keys(digest_members(a)).contains(key) <==> first_keys(digest_members(b)).contains(
            key,
        ),
        paths_under(digest_members(a), key).to_multiset() == paths_under(
            digest_members(b),
            key,
        ).to_multiset(),
        paths_under(digest_members(a), key).len() == paths_under(digest_members(b), key).len(),
{
    picking_all(a);
    picking_all(b);
    picking_ignores_order(a, b, |f: HashedView| true, |f: HashedView| digest_member(f));
    groups_ignore_order(digest_members(a), digest_members(b), key);
}

/// Two tests that agree on every element of a sequence pick the same.
pub proof fn picked_alike<A, B>(
    s: Seq<A>,
    p: spec_fn(A) -> bool,
    q: spec_fn(A) -> bool,
    f: spec_fn(A) -> B,
)
    requires
        forall|i: int| 0 <= i < s.len() ==> p(#[trigger] s[i]) == q(s[i]),
    ensures
        picked(s, p, f) == picked(s, q, f),
    decreases s.len(),
{
    if s.len() == 0 {
        assert(s.filter(p) =~= s.filter(q));
    } else {
        let front = s.drop_last();
        assert(front.push(s.last()) =~= s);
        assert forall|i: int| 0 <= i < front.len() implies p(#[trigger] front[i]) == q(
            front[i],
        ) by {
            assert(front[i] == s[i]);
        }
        picked_alike(front, p, q, f);
        front.lemma_filter_push(s.last(), p);
        front.lemma_filter_push(s.last(), q);
        assert(p(s[s.len() - 1]) == q(s[s.len() - 1]));
        if p(s.last()) {
            front.filter(p).lemma_push_map_commute(f, s.last());
            front.filter(q).lemma_push_map_commute(f, s.last());
        }
    }
}

/// What either of two tests picks, where no element passes both, is what
/// the one picks together with what the other picks.
proof fn picked_by_either<A, B>(
    s: Seq<A>,
    p: spec_fn(A) -> bool,
    q: spec_fn(A) -> bool,
    f: spec_fn(A) -> B,
)
    requires
        forall|i: int| 0 <= i < s.len() ==> !(p(#[trigger] s[i]) && q(s[i])),
    ensures
        picked(s, |x: A| p(x) || q(x), f).to_multiset() == picked(s, p, f).to_multiset().add(
            picked(s, q, f).to_multiset(),
        ),
    decreases s.len(),
{
    broadcast use group_to_multiset_ensures;

    let either = |x: A| p(x) || q(x);
    if s.len() == 0 {
        assert(picked(s, either, f) =~= Seq::<B>::empty());
        assert(picked(s, p, f) =~= Seq::<B>::empty());
        assert(picked(s, q, f) =~= Seq::<B>::empty());
        assert(Seq::<B>::empty().to_multiset() =~= Seq::<B>::empty().to_multiset().add(
            Seq::<B>::empty().to_multiset(),
        ));
    } else {
        let front = s.drop_last();
        let last = s.last();
        assert(front.push(last) =~= s);
        assert forall|i: int| 0 <= i < front.len() implies !(p(#[trigger] front[i]) && q(
            front[i],
        )) by {
            assert(front[i] == s[i]);
        }
        picked_by_either(front, p, q, f);
        front.lemma_filter_push(last, either);
        front.lemma_filter_push(last, p);
        front.lemma_filter_push(last, q);
        assert(!(p(s[s.len() - 1]) && q(s[s.len() - 1])));
        if p(last) {
            front.filter(either).lemma_push_map_commute(f, last);
            front.filter(p).lemma_push_map_commute(f, last);
            assert(picked(s, either, f).to_multiset() =~= picked(s, p, f).to_multiset().add(
                picked(s, q, f).to_multiset(),
            ));
        } else if q(last) {
            front.filter(either).lemma_push_map_commute(f, last);
            front.filter(q).lemma_push_map_commute(f, last);
            assert(picked(s, either, f).to_multiset() =~= picked(s, p, f).to_multiset().add(
                picked(s, q, f).to_multiset(),
            ));
        }
    }
}

/// Whether the files under `key` are hashed, looking at the members.
pub open spec fn key_is_hashed(members: Seq<Member>, key: KeyView, only_shared: bool) -> bool {
    !only_shared || paths_under(members, key).len() > 1
}

/// The paths to hash from the first `n` groups are the paths of the members
/// whose key is among the first `n` keys and is hashed.
proof fn hashed_paths_of_first_groups(members: Seq<Member>, only_shared: bool, n: int)
    requires
        0 <= n <= first_keys(members).len(),
    ensures
        paths_to_hash(grouped(members).take(n), only_shared).to_multiset() == picked(
            members,
            |m: Member|
                first_keys(members).take(n).contains(m.key) && key_is_hashed(
                    members,
                    m.key,
                    only_shared,
                ),
            |m: Member| m.path,
        ).to_multiset(),
    decreases n,
{
    broadcast use group_to_multiset_ensures;

    let keys = first_keys(members);
    let table = grouped(members);
    let path = |m: Member| m.path;
    let upto = |m: Member|
        keys.take(n).contains(m.key) && key_is_hashed(members, m.key, only_shared);
    if n == 0 {
        assert(paths_to_hash(table.take(0), only_shared) =~= Seq::<Seq<char>>::empty());
        assert forall|i: int| 0 <= i < members.len() implies !upto(#[trigger] members[i]) by {}
        members.lemma_all_neg_filter_empty(upto);
        assert(picked(members, upto, path) =~= Seq::<Seq<char>>::empty());
    } else {
        let key = keys[n - 1];
        let head = keys.take(n - 1);
        let now = keys.take(n);
        let before = |m: Member| head.contains(m.key) && key_is_hashed(members, m.key, only_shared);
        let here = |m: Member| m.key == key && key_is_hashed(members, m.key, only_shared);
        let either = |m: Member| before(m) || here(m);
        hashed_paths_of_first_groups(members, only_shared, n - 1);
        first_keys_are_the_keys(members);
        assert(table.take(n) =~= table.take(n - 1).push(table[n - 1]));
        paths_to_hash_push(table.take(n - 1), table[n - 1], only_shared);
        assert(is_hashed(table[n - 1], only_shared) == key_is_hashed(members, key, only_shared));
        assert(now =~= head.push(key));
        assert(!head.contains(key)) by {
            if head.contains(key) {
                let j = choose|j: int| 0 <= j < head.len() && head[j] == key;
                assert(keys[j] == keys[n - 1]);
            }
        }
        assert forall|k: KeyView| now.contains(k) <==> head.contains(k) || k == key by {
            if now.contains(k) {
                let j = choose|j: int| 0 <= j < now.len() && now[j] == k;
                if j < head.len() {
                    assert(head[j] == k);
                }
            }
            if head.contains(k) {
                let j = choose|j: int| 0 <= j < head.len() && head[j] == k;
                assert(now[j] == k);
            }
            if k == key {
                assert(now[head.len() as int] == k);
            }
        }
        picked_by_either(members, before, here, path);
        assert forall|i: int| 0 <= i < members.len() implies upto(#[trigger] members[i])
            == either(members[i]) by {
            assert(now.contains(members[i].key) <==> head.contains(members[i].key)
                || members[i].key == key);
        }
        picked_alike(members, upto, either, path);
        lemma_multiset_commutative(
            paths_to_hash(table.take(n - 1), only_shared),
            table[n - 1].paths,
        );
        if key_is_hashed(members, key, only_shared) {
            assert forall|i: int| 0 <= i < members.len() implies here(#[trigger] members[i]) == (
            members[i].key == key) by {}
            picked_alike(members, here, |m: Member| m.key == key, path);
            assert(picked(members, here, path) == paths_under(members, key));
        } else {
            assert forall|i: int| 0 <= i < members.len() implies !here(#[trigger] members[i]) by {}
            members.lemma_all_neg_filter_empty(here);
            assert(picked(members, here, path) =~= Seq::<Seq<char>>::empty());
            assert(picked(members, upto, path).to_multiset() =~= picked(
                members,
                before,
                path,
            ).to_multiset());
        }
    }
}

/// The paths to hash are the paths of the members whose key is hashed, each
/// as often.
pub proof fn hashed_paths_are_the_hashed_members(members: Seq<Member>, only_shared: bool)
    ensures
        paths_to_hash(grouped(members), only_shared).to_multiset() == picked(
            members,
            |m: Member| key_is_hashed(members, m.key, only_shared),
            |m: Member| m.path,
        ).to_multiset(),
{
    let keys = first_keys(members);
    let path = |m: Member| m.path;
    let all = |m: Member| keys.take(keys.len() as int).contains(m.key) && key_is_hashed(
        members,
        m.key,
        only_shared,
    );
    let hashed = |m: Member| key_is_hashed(members, m.key, only_shared);
    hashed_paths_of_first_groups(members, only_shared, keys.len() as int);
    first_keys_are_the_keys(members);
    assert(grouped(members).take(keys.len() as int) =~= grouped(members));
    assert(keys.take(keys.len() as int) =~= keys);
    assert forall|i: int| 0 <= i < members.len() implies all(#[trigger] members[i]) == hashed(
        members[i],
    ) by {
        assert(keys.contains(members[i].key));
    }
    picked_alike(members, all, hashed, path);
}

/// Which files are hashed does not depend on the order of the members: two
/// sequences with the same members give the same paths to hash, each as
/// often.
pub proof fn hashed_paths_ignore_order(a: Seq<Member>, b: Seq<Member>, only_shared: bool)
    requires
        a.to_multiset() == b.to_multiset(),
    ensures
        paths_to_hash(grouped(a), only_shared).to_multiset() == paths_to_hash(
            grouped(b),
            only_shared,
        ).to_multiset(),
{
    let path = |m: Member| m.path;
    let hashed_a = |m: Member| key_is_hashed(a, m.key, only_shared);
    let hashed_b = |m: Member| key_is_hashed(b, m.key, only_shared);
    hashed_paths_are_the_hashed_members(a, only_shared);
    hashed_paths_are_the_hashed_members(b, only_shared);
    picking_ignores_order(a, b, hashed_a, path);
    assert forall|i: int| 0 <= i < b.len() implies hashed_a(#[trigger] b[i]) == hashed_b(b[i]) by {
        groups_ignore_order(a, b, b[i].key);
    }
    picked_alike(b, hashed_a, hashed_b, path);
}

/// The files that hashing `paths` gives where `digest_of` tells the digest
/// of the content at each path.
pub open spec fn hashed_as(
    paths: Seq<Seq<char>>,
    digest_of: spec_fn(Seq<char>) -> Seq<char>,
) -> Seq<HashedView> {
    paired(paths, paths.map_values(digest_of))
}

/// A report by digest does not depend on the order of the walk. Where the
/// content at each path stays as it is, two listings with the same entries
/// lead to the same digests as keys, and under each digest to the same
/// paths, each as often: who is reported with whom is the same.
pub proof fn digest_report_ignores_order(
    a: Seq<EntryView>,
    b: Seq<EntryView>,
    min_size: u64,
    kind: KeyKind,
    only_shared: bool,
    digest_of: spec_fn(Seq<char>) -> Seq<char>,
    key: KeyView,
)
    requires
        a.to_multiset() == b.to_multiset(),
    ensures
        ({
            let of_a = hashed_as(
                paths_to_hash(name_table(a, min_size, kind), only_shared),
                digest_of,
            );
            let of_b = hashed_as(
                paths_to_hash(name_table(b, min_size, kind), only_shared),
                digest_of,
            );
            &&& first_keys(digest_members(of_a)).contains(key) <==> first_keys(
                digest_members(of_b),
            ).contains(key)
            &&& paths_under(digest_members(of_a), key).to_multiset() == paths_under(
                digest_members(of_b),
                key,
            ).to_multiset()
            &&& paths_under(digest_members(of_a), key).len() == paths_under(
                digest_members(of_b),
                key,
            ).len()
        }),
{
    let paths_a = paths_to_hash(name_table(a, min_size, kind), only_shared);
    let paths_b = paths_to_hash(name_table(b, min_size, kind), only_shared);
    let hashed = |p: Seq<char>| HashedView { path: p, digest: digest_of(p) };
    picking_ignores_order(
        a,
        b,
        |e: EntryView| is_candidate(e, min_size),
        |e: EntryView| member_of(e, kind),
    );
    hashed_paths_ignore_order(
        name_members(a, min_size, kind),
        name_members(b, min_size, kind),
        only_shared,
    );
    picking_all(paths_a);
    picking_all(paths_b);
    picking_ignores_order(paths_a, paths_b, |p: Seq<char>| true, hashed);
    assert(hashed_as(paths_a, digest_of) =~= paths_a.map_values(hashed));
    assert(hashed_as(paths_b, digest_of) =~= paths_b.map_values(hashed));
    digest_groups_ignore_order(hashed_as(paths_a, digest_of), hashed_as(paths_b, digest_of), key);
}

/// All paths of a table, group after group.
pub open spec fn all_paths(table: Seq<GroupView>) -> Seq<Seq<char>> {
    table.map_values(|g: GroupView| g.paths).flatten()
}

/// The groups hold each member once: the paths of a table, taken group
/// after group, are the paths of the members, each as often as members
/// have it.
pub proof fn groups_hold_each_member_once(members: Seq<Member>)
    ensures
        all_paths(grouped(members)).to_multiset() == members.map_values(
            |m: Member| m.path,
        ).to_multiset(),
        all_paths(grouped(members)).len() == members.len(),
{
    broadcast use group_to_multiset_ensures;

    let table = grouped(members);
    let path = |m: Member| m.path;
    hashed_paths_are_the_hashed_members(members, false);
    picked_alike(
        members,
        |m: Member| key_is_hashed(members, m.key, false),
        |m: Member| true,
        path,
    );
    picking_all(members);
    picked_alike(
        table,
        |g: GroupView| is_hashed(g, false),
        |g: GroupView| true,
        |g: GroupView| g.paths,
    );
    picking_all(table);
    assert(all_paths(table) == paths_to_hash(table, false));
    assert(all_paths(table).to_multiset().len() == all_paths(table).len());
    assert(members.map_values(path).to_multiset().len() == members.len());
}

} // verus!
