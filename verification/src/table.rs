//! Group tables: paths bucketed under a key, held in order of first appearance.

use vstd::prelude::*;

verus! {

/// What files are grouped under.
#[derive(Clone, Debug, PartialEq, Eq)]
pub enum Key {
    /// The file name alone.
    Name(String),
    /// The file name together with the size in bytes.
    NameSize(String, u64),
    /// The digest of the content.
    Digest(String),
}

/// The mathematical value of a [`Key`].
pub enum KeyView {
    Name(Seq<char>),
    NameSize(Seq<char>, u64),
    Digest(Seq<char>),
}

impl View for Key {
    type V = KeyView;

    open spec fn view(&self) -> KeyView {
        match *self {
            Key::Name(name) => KeyView::Name(name@),
            Key::NameSize(name, size) => KeyView::NameSize(name@, size),
            Key::Digest(digest) => KeyView::Digest(digest@),
        }
    }
}

/// The views of a sequence of strings.
pub open spec fn texts(strings: Seq<String>) -> Seq<Seq<char>> {
    strings.map_values(|s: String| s@)
}

/// One key with the paths found under it.
#[derive(Clone, Debug, PartialEq, Eq)]
pub struct Group {
    pub key: Key,
    pub paths: Vec<String>,
}

/// The mathematical value of a [`Group`].
pub struct GroupView {
    pub key: KeyView,
    pub paths: Seq<Seq<char>>,
}

impl View for Group {
    type V = GroupView;

    open spec fn view(&self) -> GroupView {
        GroupView { key: self.key@, paths: texts(self.paths@) }
    }
}

/// A path that is to be grouped, with the key it goes under.
pub struct Member {
    pub key: KeyView,
    pub path: Seq<char>,
}

/// The distinct keys of `members`, each at the place of its first appearance.
pub open spec fn first_keys(members: Seq<Member>) -> Seq<KeyView>
    decreases members.len(),
{
    if members.len() == 0 {
        Seq::empty()
    } else {
        let before = first_keys(members.drop_last());
        if before.contains(members.last().key) {
            before
        } else {
            before.push(members.last().key)
        }
    }
}

/// The paths of the members that carry `key`, in the order of `members`.
pub open spec fn paths_under(members: Seq<Member>, key: KeyView) -> Seq<Seq<char>> {
    members.filter(|m: Member| m.key == key).map_values(|m: Member| m.path)
}

/// The group table of `members`: one group per distinct key, in order of
/// first appearance, holding every path that goes under that key.
pub open spec fn grouped(members: Seq<Member>) -> Seq<GroupView> {
    let keys = first_keys(members);
    Seq::new(
        keys.len(),
        |g: int| GroupView { key: keys[g], paths: paths_under(members, keys[g]) },
    )
}

/// Whether `g` is the place of `key` in `table`: the index of the first
/// group with that key, or the table's length where no group has it.
pub open spec fn is_slot(table: Seq<GroupView>, key: KeyView, g: int) -> bool {
    &&& 0 <= g <= table.len()
    &&& g < table.len() ==> table[g].key == key
    &&& forall|j: int| 0 <= j < g ==> (#[trigger] table[j]).key != key
}

/// The place of `key` in `table` (see [`is_slot`]).
pub open spec fn slot(table: Seq<GroupView>, key: KeyView) -> int {
    choose|g: int| is_slot(table, key, g)
}

/// A table as it is after one more path has been filed under `key`: the
/// first group with that key grows by the path, or, where there is none, a
/// new last group is opened.
pub open spec fn filed(table: Seq<GroupView>, key: KeyView, path: Seq<char>) -> Seq<GroupView> {
    let g = slot(table, key);
    if g < table.len() {
        table.update(g, GroupView { key: table[g].key, paths: table[g].paths.push(path) })
    } else {
        table.push(GroupView { key, paths: seq![path] })
    }
}

/// The views of a sequence of groups.
pub open spec fn views(groups: Seq<Group>) -> Seq<GroupView> {
    groups.map_values(|g: Group| g@)
}

/// A key has one place in a table, and no other.
pub proof fn slot_is_unique(table: Seq<GroupView>, key: KeyView, g: int)
    requires
        is_slot(table, key, g),
    ensures
        slot(table, key) == g,
{
    let h = slot(table, key);
    assert(is_slot(table, key, h));
    if h < g {
        assert(table[h].key != key);
    }
    if g < h {
        assert(table[g].key != key);
    }
}

/// Two keys are the same exactly when their values are.
pub fn same_key(a: &Key, b: &Key) -> (same: bool)
    ensures
        same == (a@ == b@),
{
    match a {
        Key::Name(x) => match b {
            Key::Name(y) => *x == *y,
            _ => false,
        },
        Key::NameSize(x, s) => match b {
            Key::NameSize(y, t) => *x == *y && *s == *t,
            _ => false,
        },
        Key::Digest(x) => match b {
            Key::Digest(y) => *x == *y,
            _ => false,
        },
    }
}

/// Files `path` under `key`: into the first group that has the key, or
/// into a new last group.
pub fn file_path(table: &mut Vec<Group>, key: Key, path: String)
    ensures
        views(final(table)@) == filed(views(old(table)@), key@, path@),
{
    let ghost before = views(table@);
    let mut g: usize = 0;
    while g < table.len()
        invariant
            g <= table.len(),
            before == views(table@),
            forall|j: int| 0 <= j < g ==> (#[trigger] before[j]).key != key@,
        ensures
            g <= table.len(),
            is_slot(before, key@, g as int),
        decreases table.len() - g,
    {
        if same_key(&table[g].key, &key) {
            break ;
        }
        g = g + 1;
    }
    proof {
        slot_is_unique(before, key@, g as int);
    }
    if g < table.len() {
        table[g].paths.push(path);
        assert(views(table@) =~= filed(before, key@, path@)) by {
            assert(table@[g as int]@.paths =~= before[g as int].paths.push(path@));
        }
    } else {
        let mut paths: Vec<String> = Vec::new();
        paths.push(path);
        table.push(Group { key, paths });
        assert(views(table@) =~= filed(before, key@, path@)) by {
            assert(table@[g as int]@.paths =~= seq![path@]);
        }
    }
}

/// A key is among the first keys exactly when some member carries it, and
/// no key is there twice.
pub proof fn first_keys_are_the_keys(members: Seq<Member>)
    ensures
        first_keys(members).no_duplicates(),
        forall|k: KeyView|
            first_keys(members).contains(k) <==> exists|i: int|
                0 <= i < members.len() && (#[trigger] members[i]).key == k,
    decreases members.len(),
{
    if members.len() > 0 {
        let front = members.drop_last();
        let last = members.last();
        let before = first_keys(front);
        first_keys_are_the_keys(front);
        assert forall|k: KeyView|
            first_keys(members).contains(k) <==> exists|i: int|
                0 <= i < members.len() && (#[trigger] members[i]).key == k by {
            if first_keys(members).contains(k) {
                if before.contains(k) {
                    let i = choose|i: int| 0 <= i < front.len() && (#[trigger] front[i]).key == k;
                    assert(members[i].key == k);
                } else {
                    assert(k == last.key);
                    assert(members[members.len() - 1].key == k);
                }
            }
            if exists|i: int| 0 <= i < members.len() && (#[trigger] members[i]).key == k {
                let i = choose|i: int| 0 <= i < members.len() && (#[trigger] members[i]).key == k;
                if i < front.len() {
                    assert(front[i].key == k);
                    assert(before.contains(k));
                    let j = choose|j: int| 0 <= j < before.len() && before[j] == k;
                    assert(first_keys(members)[j] == k);
                } else {
                    assert(k == last.key);
                    if !before.contains(k) {
                        assert(first_keys(members)[before.len() as int] == k);
                    }
                }
            }
        }
    }
}

/// No member carries `key`: no path goes under it.
proof fn no_paths_under_absent_key(members: Seq<Member>, key: KeyView)
    requires
        forall|i: int| 0 <= i < members.len() ==> (#[trigger] members[i]).key != key,
    ensures
        paths_under(members, key) =~= Seq::<Seq<char>>::empty(),
{
    let pred = |m: Member| m.key == key;
    members.lemma_all_neg_filter_empty(pred);
}

/// What one more member does to the paths under a key.
proof fn paths_under_push(members: Seq<Member>, m: Member, key: KeyView)
    ensures
        paths_under(members.push(m), key) == if m.key == key {
            paths_under(members, key).push(m.path)
        } else {
            paths_under(members, key)
        },
{
    let pred = |x: Member| x.key == key;
    members.lemma_filter_push(m, pred);
    if m.key == key {
        members.filter(pred).lemma_push_map_commute(|x: Member| x.path, m);
    }
}

/// Grouping one member more is filing its path into the table of the rest.
pub proof fn grouped_push(members: Seq<Member>, m: Member)
    ensures
        grouped(members.push(m)) == filed(grouped(members), m.key, m.path),
{
    let more = members.push(m);
    let table = grouped(members);
    let keys = first_keys(members);
    let target = filed(table, m.key, m.path);
    assert(more.drop_last() =~= members);
    assert(more.last() == m);
    first_keys_are_the_keys(members);
    if keys.contains(m.key) {
        let g = choose|g: int| 0 <= g < keys.len() && keys[g] == m.key;
        assert(is_slot(table, m.key, g));
        slot_is_unique(table, m.key, g);
        assert(first_keys(more) == keys);
        assert(target == table.update(
            g,
            GroupView { key: table[g].key, paths: table[g].paths.push(m.path) },
        ));
        assert forall|j: int| 0 <= j < keys.len() implies grouped(more)[j] == target[j] by {
            paths_under_push(members, m, keys[j]);
            if j != g {
                assert(keys[j] != keys[g]);
            }
        }
        assert(grouped(more) =~= target);
    } else {
        assert(is_slot(table, m.key, table.len() as int));
        slot_is_unique(table, m.key, table.len() as int);
        assert(first_keys(more) == keys.push(m.key));
        assert(target == table.push(GroupView { key: m.key, paths: seq![m.path] }));
        assert forall|j: int| 0 <= j < keys.len() + 1 implies grouped(more)[j] == target[j] by {
            if j < keys.len() {
                paths_under_push(members, m, keys[j]);
                assert(keys.contains(keys[j]));
            } else {
                paths_under_push(members, m, m.key);
                no_paths_under_absent_key(members, m.key);
                assert(paths_under(more, m.key) =~= seq![m.path]);
            }
        }
        assert(grouped(more) =~= target);
    }
}

} // verus!
