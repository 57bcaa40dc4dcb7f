//! Groups of files: first by the key of their names, then merged while two
//! groups have header signatures that are alike.
//!
//! A file is known by its place in the caller's list of inputs.

use crate::names::{get_name, spec_key};
use crate::signature::{similar, spec_signature, spec_similar};
use crate::token::Token;
use vstd::multiset::Multiset;
use vstd::prelude::*;

verus! {

/// Files that share a key.
#[derive(Debug, PartialEq, Eq)]
pub struct Group {
    pub key: Vec<u8>,
    pub files: Vec<usize>,
}

/// A group as contracts see it.
pub ghost struct GroupView {
    pub key: Seq<u8>,
    pub files: Seq<usize>,
}

impl View for Group {
    type V = GroupView;

    open spec fn view(&self) -> GroupView {
        GroupView { key: self.key@, files: self.files@ }
    }
}

/// A group together with the header signature of its first file.
#[derive(Debug, PartialEq, Eq)]
pub struct PreGroup {
    pub key: Vec<u8>,
    pub files: Vec<usize>,
    pub headers: Vec<Vec<Token>>,
}

/// A group before merging as contracts see it.
pub ghost struct PreGroupView {
    pub key: Seq<u8>,
    pub files: Seq<usize>,
    pub headers: Seq<Seq<Seq<char>>>,
}

impl View for PreGroup {
    type V = PreGroupView;

    open spec fn view(&self) -> PreGroupView {
        PreGroupView { key: self.key@, files: self.files@, headers: spec_signature(self.headers@) }
    }
}

/// The views of `groups`, in order.
pub open spec fn spec_groups(groups: Seq<Group>) -> Seq<GroupView> {
    groups.map_values(|g: Group| g@)
}

/// The views of `groups`, in order.
pub open spec fn spec_pregroups(groups: Seq<PreGroup>) -> Seq<PreGroupView> {
    groups.map_values(|g: PreGroup| g@)
}

/// The place of the first of `groups` that has the key `key`, or their
/// number where none has it.
pub open spec fn spec_find_key(groups: Seq<GroupView>, key: Seq<u8>) -> int
    decreases groups.len(),
{
    if groups.len() == 0 {
        0
    } else if groups[0].key == key {
        0
    } else {
        1 + spec_find_key(groups.drop_first(), key)
    }
}

/// `groups` after the file `id` with the key `key` has joined: at the end of
/// the group with that key, or in a new last group.
pub open spec fn spec_add_file(groups: Seq<GroupView>, key: Seq<u8>, id: usize) -> Seq<GroupView> {
    let at = spec_find_key(groups, key);
    if 0 <= at < groups.len() {
        groups.update(at, GroupView { key: key, files: groups[at].files.push(id) })
    } else {
        groups.push(GroupView { key: key, files: seq![id] })
    }
}

/// The groups of the first `n` of `names`, each file joining in its turn.
pub open spec fn spec_group_names(names: Seq<Seq<u8>>, n: nat) -> Seq<GroupView>
    decreases n,
{
    if n == 0 {
        Seq::empty()
    } else {
        spec_add_file(
            spec_group_names(names, (n - 1) as nat),
            spec_key(names[n - 1]),
            (n - 1) as usize,
        )
    }
}

/// No two of `groups` have the same key.
pub open spec fn spec_distinct_keys(groups: Seq<GroupView>) -> bool {
    forall|i: int, j: int|
        0 <= i < j < groups.len() ==> (#[trigger] groups[i]).key != (#[trigger] groups[j]).key
}

/// Where a key is found there is a group with that key, and none before it.
pub proof fn lemma_find_key(groups: Seq<GroupView>, key: Seq<u8>)
    ensures
        0 <= spec_find_key(groups, key) <= groups.len(),
        spec_find_key(groups, key) < groups.len() ==> groups[spec_find_key(groups, key)].key == key,
        forall|i: int| 0 <= i < spec_find_key(groups, key) ==> (#[trigger] groups[i]).key != key,
    decreases groups.len(),
{
    if groups.len() == 0 {
    } else if groups[0].key == key {
    } else {
        let rest = groups.drop_first();
        lemma_find_key(rest, key);
        assert forall|i: int| 0 <= i < spec_find_key(groups, key) implies (
        #[trigger] groups[i]).key != key by {
            if i > 0 {
                assert(groups[i] == rest[i - 1]);
            }
        }
    }
}

/// Whether `a` and `b` hold the same bytes.
pub fn same_bytes(a: &[u8], b: &[u8]) -> (r: bool)
    ensures
        r == (a@ == b@),
{
    if a.len() != b.len() {
        return false;
    }
    let mut i: usize = 0;
    while i < a.len()
        invariant
            i <= a.len() == b.len(),
            forall|k: int| 0 <= k < i ==> a@[k] == b@[k],
        decreases a.len() - i,
    {
        if a[i] != b[i] {
            return false;
        }
        i += 1;
    }
    assert(a@ =~= b@);
    true
}

/// A copy of `bytes`.
pub fn copy_bytes(bytes: &[u8]) -> (r: Vec<u8>)
    ensures
        r@ == bytes@,
{
    let mut r: Vec<u8> = Vec::new();
    let mut i: usize = 0;
    while i < bytes.len()
        invariant
            i <= bytes.len(),
            r@ == bytes@.take(i as int),
        decreases bytes.len() - i,
    {
        r.push(bytes[i]);
        assert(bytes@.take(i + 1) == bytes@.take(i as int).push(bytes@[i as int]));
        i += 1;
    }
    assert(bytes@.take(i as int) == bytes@);
    r
}

/// Puts the file `id`, whose name is `entrada`, into the group that has the
/// key of that name; where there is none yet, a new last group is made.
pub fn process_file(id: usize, entrada: &[u8], groups: &mut Vec<Group>)
    ensures
        spec_groups(final(groups)@) == spec_add_file(
            spec_groups(old(groups)@),
            spec_key(entrada@),
            id,
        ),
{
    let name = get_name(entrada);
    let ghost before = spec_groups(groups@);
    proof {
        lemma_find_key(before, name@);
    }
    let mut at: usize = 0;
    while at < groups.len() && !same_bytes(groups[at].key.as_slice(), name)
        invariant
            at <= groups.len(),
            before == spec_groups(groups@),
            forall|i: int| 0 <= i < at ==> (#[trigger] before[i]).key != name@,
        decreases groups.len() - at,
    {
        assert(before[at as int].key == groups@[at as int].key@);
        at += 1;
    }
    proof {
        if at < groups.len() {
            assert(before[at as int].key == groups@[at as int].key@);
        }
        let found = spec_find_key(before, name@);
        if found < at {
            assert(before[found].key != name@);
        }
        if at < found {
            assert(before[at as int].key != name@);
        }
        assert(found == at);
    }
    if at < groups.len() {
        let mut group = groups.remove(at);
        group.files.push(id);
        groups.insert(at, group);
        assert(spec_groups(groups@) =~= spec_add_file(before, name@, id));
    } else {
        let mut files: Vec<usize> = Vec::new();
        files.push(id);
        groups.push(Group { key: copy_bytes(name), files });
        assert(spec_groups(groups@) =~= spec_add_file(before, name@, id));
    }
}

/// Groups the files by the keys of their names, file `i` being the one named
/// `names[i]`. Groups stand in the order in which their first file came, and
/// the files of a group in the order in which they came.
pub fn obtener_grupos_por_nombre(names: &Vec<Vec<u8>>) -> (groups: Vec<Group>)
    ensures
        spec_groups(groups@) == spec_group_names(names.deep_view(), names.len() as nat),
{
    let mut groups: Vec<Group> = Vec::new();
    let mut i: usize = 0;
    assert(spec_groups(groups@) =~= spec_group_names(names.deep_view(), 0));
    while i < names.len()
        invariant
            i <= names.len(),
            spec_groups(groups@) == spec_group_names(names.deep_view(), i as nat),
        decreases names.len() - i,
    {
        assert(names.deep_view()[i as int] == names@[i as int]@);
        process_file(i, names[i].as_slice(), &mut groups);
        i += 1;
    }
    groups
}

/// Whether one of `groups` holds the file `i`.
pub open spec fn spec_holds_file(groups: Seq<GroupView>, i: int) -> bool {
    exists|g: int, k: int|
        0 <= g < groups.len() && 0 <= k < groups[g].files.len() && #[trigger] groups[g].files[k]
            == i
}

/// Every file among the first `n` is in exactly the group whose key is the
/// key of its name: each group holds files only of its key, no two groups
/// share a key, each file is in some group, no group is empty, and the
/// files of a group stand in the order in which they came.
pub proof fn lemma_group_names(names: Seq<Seq<u8>>, n: nat)
    requires
        n <= names.len() <= usize::MAX,
    ensures
        spec_distinct_keys(spec_group_names(names, n)),
        forall|g: int, k: int|
            0 <= g < spec_group_names(names, n).len() && 0 <= k < spec_group_names(
                names,
                n,
            )[g].files.len() ==> (#[trigger] spec_group_names(names, n)[g].files[k]) < n
                && spec_key(names[spec_group_names(names, n)[g].files[k] as int])
                == spec_group_names(names, n)[g].key,
        forall|g: int, k: int, l: int|
            0 <= g < spec_group_names(names, n).len() && 0 <= k < l < spec_group_names(
                names,
                n,
            )[g].files.len() ==> (#[trigger] spec_group_names(names, n)[g].files[k]) < (
            #[trigger] spec_group_names(names, n)[g].files[l]),
        forall|g: int|
            0 <= g < spec_group_names(names, n).len() ==> (#[trigger] spec_group_names(
                names,
                n,
            )[g]).files.len() > 0,
        forall|i: int| 0 <= i < n ==> #[trigger] spec_holds_file(spec_group_names(names, n), i),
    decreases n,
{
    if n > 0 {
        let before = spec_group_names(names, (n - 1) as nat);
        let now = spec_group_names(names, n);
        let key = spec_key(names[n - 1]);
        let at = spec_find_key(before, key);
        lemma_group_names(names, (n - 1) as nat);
        lemma_find_key(before, key);
        assert(spec_distinct_keys(now)) by {
            assert forall|i: int, j: int| 0 <= i < j < now.len() implies (#[trigger] now[i]).key != (
            #[trigger] now[j]).key by {
                if at < before.len() {
                    assert(now[i].key == before[i].key);
                    assert(now[j].key == before[j].key);
                } else {
                    assert(now[i] == before[i]);
                    if j < before.len() {
                        assert(now[j] == before[j]);
                    }
                }
            }
        }
        assert forall|g: int, k: int| 0 <= g < now.len() && 0 <= k < now[g].files.len() implies (
        #[trigger] now[g].files[k]) < n && spec_key(names[now[g].files[k] as int])
            == now[g].key by {
            if g < before.len() && k < before[g].files.len() {
                assert(now[g].files[k] == before[g].files[k]);
                assert(now[g].key == before[g].key);
            }
        }
        assert forall|g: int, k: int, l: int|
            0 <= g < now.len() && 0 <= k < l < now[g].files.len() implies (
        #[trigger] now[g].files[k]) < (#[trigger] now[g].files[l]) by {
            if g < before.len() {
                assert(now[g].files[k] == before[g].files[k]);
                if l < before[g].files.len() {
                    assert(now[g].files[l] == before[g].files[l]);
                }
            }
        }
        assert forall|g: int| 0 <= g < now.len() implies (#[trigger] now[g]).files.len() > 0 by {
            if g < before.len() && g != at {
                assert(now[g] == before[g]);
            }
        }
        assert forall|i: int| 0 <= i < n implies #[trigger] spec_holds_file(now, i) by {
            if i < n - 1 {
                assert(spec_holds_file(before, i));
                let (g, k) = choose|g: int, k: int|
                    0 <= g < before.len() && 0 <= k < before[g].files.len()
                        && #[trigger] before[g].files[k] == i;
                assert(now[g].files[k] == i);
            } else if at < before.len() {
                assert(now[at].files[before[at].files.len() as int] == i);
            } else {
                assert(now[before.len() as int].files[0] == i);
            }
        }
    }
}

/// Whether `a` comes after `b` where both are read byte by byte from the
/// `from`-th on: at the first place where they differ, `a` has the larger byte.
pub open spec fn spec_bytes_after(a: Seq<u8>, b: Seq<u8>, from: int) -> bool
    decreases a.len() - from,
{
    if from < 0 || from >= a.len() || from >= b.len() {
        false
    } else if a[from] != b[from] {
        a[from] > b[from]
    } else {
        spec_bytes_after(a, b, from + 1)
    }
}

/// Whether the key `a` outlives the key `b` in a merge: the longer key does,
/// and of two keys of one length the one that comes later byte by byte.
pub open spec fn spec_key_wins(a: Seq<u8>, b: Seq<u8>) -> bool {
    a.len() > b.len() || (a.len() == b.len() && spec_bytes_after(a, b, 0))
}

/// What two groups become when they merge: the group whose key wins, with
/// the files of the other after its own. Where the keys are the same, the
/// first of the two stays.
pub open spec fn spec_merged(x: PreGroupView, y: PreGroupView) -> PreGroupView {
    if spec_key_wins(y.key, x.key) {
        PreGroupView { key: y.key, files: y.files + x.files, headers: y.headers }
    } else {
        PreGroupView { key: x.key, files: x.files + y.files, headers: x.headers }
    }
}

/// The first place from `from` on whose group is alike to group `i`.
pub open spec fn spec_partner(groups: Seq<PreGroupView>, i: int, from: int) -> Option<int>
    decreases groups.len() - from,
{
    if from >= groups.len() || i < 0 || i >= groups.len() || from < 0 {
        None
    } else if spec_similar(groups[i].headers, groups[from].headers) {
        Some(from)
    } else {
        spec_partner(groups, i, from + 1)
    }
}

/// The first pair of groups that are alike, among the pairs whose first
/// group stands at `from` or later: the pair with the earliest first group,
/// and for that group the earliest second one.
pub open spec fn spec_first_pair(groups: Seq<PreGroupView>, from: int) -> Option<(int, int)>
    decreases groups.len() - from,
{
    if from >= groups.len() || from < 0 {
        None
    } else {
        match spec_partner(groups, from, from + 1) {
            Some(j) => Some((from, j)),
            None => spec_first_pair(groups, from + 1),
        }
    }
}

/// `groups` after groups `i` and `j` have merged: the merged group stands
/// where group `i` stood, and group `j` is gone.
pub open spec fn spec_merge_pair(groups: Seq<PreGroupView>, i: int, j: int) -> Seq<PreGroupView> {
    groups.remove(j).update(i, spec_merged(groups[i], groups[j]))
}

/// `groups` merged until no two of them are alike: the first pair that is
/// alike merges, and the search starts again from the beginning.
pub open spec fn spec_merge(groups: Seq<PreGroupView>) -> Seq<PreGroupView>
    decreases groups.len(),
{
    match spec_first_pair(groups, 0) {
        Some((i, j)) => if 0 <= i < j < groups.len() {
            spec_merge(spec_merge_pair(groups, i, j))
        } else {
            groups
        },
        None => groups,
    }
}

/// No two of `groups` are alike.
pub open spec fn spec_settled(groups: Seq<PreGroupView>) -> bool {
    forall|i: int, j: int|
        0 <= i < j < groups.len() ==> !spec_similar(
            (#[trigger] groups[i]).headers,
            (#[trigger] groups[j]).headers,
        )
}

/// The partner found for a group is alike to it, and no group between
/// `from` and the partner is; where none is found, none is alike.
pub proof fn lemma_partner(groups: Seq<PreGroupView>, i: int, from: int)
    requires
        0 <= i < groups.len(),
        0 <= from,
    ensures
        match spec_partner(groups, i, from) {
            Some(j) => from <= j < groups.len() && spec_similar(
                groups[i].headers,
                groups[j].headers,
            ) && forall|k: int|
                from <= k < j ==> !spec_similar(groups[i].headers, (#[trigger] groups[k]).headers),
            None => forall|k: int|
                from <= k < groups.len() ==> !spec_similar(
                    groups[i].headers,
                    (#[trigger] groups[k]).headers,
                ),
        },
    decreases groups.len() - from,
{
    if from < groups.len() && !spec_similar(groups[i].headers, groups[from].headers) {
        lemma_partner(groups, i, from + 1);
    }
}

/// The first pair found is a pair of groups that are alike; where none is
/// found, no two groups from `from` on are alike.
pub proof fn lemma_first_pair(groups: Seq<PreGroupView>, from: int)
    requires
        0 <= from,
    ensures
        match spec_first_pair(groups, from) {
            Some((i, j)) => from <= i < j < groups.len() && spec_similar(
                groups[i].headers,
                groups[j].headers,
            ),
            None => forall|i: int, j: int|
                from <= i < j < groups.len() ==> !spec_similar(
                    (#[trigger] groups[i]).headers,
                    (#[trigger] groups[j]).headers,
                ),
        },
    decreases groups.len() - from,
{
    if from < groups.len() {
        lemma_partner(groups, from, from + 1);
        if spec_partner(groups, from, from + 1) is None {
            lemma_first_pair(groups, from + 1);
        }
    }
}

/// Merging leaves groups of which no two are alike.
pub proof fn lemma_merge_settles(groups: Seq<PreGroupView>)
    ensures
        spec_settled(spec_merge(groups)),
        spec_merge(groups).len() <= groups.len(),
    decreases groups.len(),
{
    lemma_first_pair(groups, 0);
    match spec_first_pair(groups, 0) {
        Some((i, j)) => {
            lemma_merge_settles(spec_merge_pair(groups, i, j));
        },
        None => {},
    }
}

/// Groups of which no two are alike stay as they are when merged.
pub proof fn lemma_settled_is_fixed(groups: Seq<PreGroupView>)
    requires
        spec_settled(groups),
    ensures
        spec_merge(groups) == groups,
{
    lemma_first_pair(groups, 0);
}

/// Merging what was merged changes nothing.
pub proof fn lemma_merge_idempotent(groups: Seq<PreGroupView>)
    ensures
        spec_merge(spec_merge(groups)) == spec_merge(groups),
{
    lemma_merge_settles(groups);
    lemma_settled_is_fixed(spec_merge(groups));
}

/// The files of all of `groups`, each as often as it occurs.
pub open spec fn spec_all_files(groups: Seq<PreGroupView>) -> Multiset<usize>
    decreases groups.len(),
{
    if groups.len() == 0 {
        Multiset::empty()
    } else {
        spec_all_files(groups.drop_last()).add(groups.last().files.to_multiset())
    }
}

/// The files of two lists of groups together are the files of the one and
/// the files of the other.
proof fn lemma_all_files_of_both(a: Seq<PreGroupView>, b: Seq<PreGroupView>)
    ensures
        spec_all_files(a + b) == spec_all_files(a).add(spec_all_files(b)),
    decreases b.len(),
{
    if b.len() == 0 {
        assert(a + b == a);
        assert(spec_all_files(a).add(Multiset::empty()) =~= spec_all_files(a));
    } else {
        assert((a + b).drop_last() == a + b.drop_last());
        assert((a + b).last() == b.last());
        lemma_all_files_of_both(a, b.drop_last());
        assert(spec_all_files(a).add(spec_all_files(b.drop_last())).add(
            b.last().files.to_multiset(),
        ) =~= spec_all_files(a).add(
            spec_all_files(b.drop_last()).add(b.last().files.to_multiset()),
        ));
    }
}

/// The files of a single group are its files.
proof fn lemma_all_files_of_one(g: PreGroupView)
    ensures
        spec_all_files(seq![g]) == g.files.to_multiset(),
{
    assert(seq![g].drop_last() == Seq::<PreGroupView>::empty());
    assert(spec_all_files(seq![g].drop_last()) == Multiset::<usize>::empty());
    assert(Multiset::<usize>::empty().add(g.files.to_multiset()) =~= g.files.to_multiset());
}

/// A merge of two groups loses no file and adds none.
pub proof fn lemma_merge_pair_keeps_files(groups: Seq<PreGroupView>, i: int, j: int)
    requires
        0 <= i < j < groups.len(),
    ensures
        spec_all_files(spec_merge_pair(groups, i, j)) == spec_all_files(groups),
{
    let left = groups.take(i);
    let middle = groups.subrange(i + 1, j);
    let right = groups.skip(j + 1);
    let both = spec_merged(groups[i], groups[j]);
    assert(groups == left + seq![groups[i]] + middle + seq![groups[j]] + right);
    assert(spec_merge_pair(groups, i, j) == left + seq![both] + middle + right);
    lemma_all_files_of_both(left, seq![groups[i]]);
    lemma_all_files_of_both(left + seq![groups[i]], middle);
    lemma_all_files_of_both(left + seq![groups[i]] + middle, seq![groups[j]]);
    lemma_all_files_of_both(left + seq![groups[i]] + middle + seq![groups[j]], right);
    lemma_all_files_of_both(left, seq![both]);
    lemma_all_files_of_both(left + seq![both], middle);
    lemma_all_files_of_both(left + seq![both] + middle, right);
    lemma_all_files_of_one(groups[i]);
    lemma_all_files_of_one(groups[j]);
    lemma_all_files_of_one(both);
    vstd::seq_lib::lemma_multiset_commutative(groups[i].files, groups[j].files);
    vstd::seq_lib::lemma_multiset_commutative(groups[j].files, groups[i].files);
    assert(spec_all_files(spec_merge_pair(groups, i, j)) =~= spec_all_files(groups));
}

/// Merging loses no file and adds none: every file is in the merged groups
/// as often as it was in the groups.
pub proof fn lemma_merge_keeps_files(groups: Seq<PreGroupView>)
    ensures
        spec_all_files(spec_merge(groups)) == spec_all_files(groups),
    decreases groups.len(),
{
    lemma_first_pair(groups, 0);
    match spec_first_pair(groups, 0) {
        Some((i, j)) => {
            lemma_merge_pair_keeps_files(groups, i, j);
            lemma_merge_keeps_files(spec_merge_pair(groups, i, j));
        },
        None => {},
    }
}

/// Whether every key among `later` is a key among `earlier`.
pub open spec fn spec_keys_among(later: Seq<PreGroupView>, earlier: Seq<PreGroupView>) -> bool {
    forall|r: int|
        0 <= r < later.len() ==> exists|g: int|
            0 <= g < earlier.len() && (#[trigger] earlier[g]).key == (#[trigger] later[r]).key
}

/// No two of `groups` have the same key.
pub open spec fn spec_distinct(groups: Seq<PreGroupView>) -> bool {
    forall|i: int, j: int|
        0 <= i < j < groups.len() ==> (#[trigger] groups[i]).key != (#[trigger] groups[j]).key
}

/// A merge of two groups makes no new key, and keeps keys apart that were
/// apart.
pub proof fn lemma_merge_pair_keeps_keys(groups: Seq<PreGroupView>, i: int, j: int)
    requires
        0 <= i < j < groups.len(),
    ensures
        spec_keys_among(spec_merge_pair(groups, i, j), groups),
        spec_distinct(groups) ==> spec_distinct(spec_merge_pair(groups, i, j)),
{
    let after = spec_merge_pair(groups, i, j);
    let both = spec_merged(groups[i], groups[j]);
    assert forall|r: int| 0 <= r < after.len() implies exists|g: int|
        0 <= g < groups.len() && (#[trigger] groups[g]).key == (#[trigger] after[r]).key by {
        if r == i {
            if both.key == groups[j].key {
                assert(groups[j].key == after[r].key);
            } else {
                assert(groups[i].key == after[r].key);
            }
        } else if r < j {
            assert(groups[r].key == after[r].key);
        } else {
            assert(groups[r + 1].key == after[r].key);
        }
    }
    if spec_distinct(groups) {
        assert forall|a: int, b: int| 0 <= a < b < after.len() implies (#[trigger] after[a]).key != (
        #[trigger] after[b]).key by {
            let from_a = if a < j { a } else { a + 1 };
            let from_b = if b < j { b } else { b + 1 };
            let key_a = if a == i && both.key == groups[j].key { j } else { from_a };
            let key_b = if b == i && both.key == groups[j].key { j } else { from_b };
            assert(after[a].key == groups[key_a].key);
            assert(after[b].key == groups[key_b].key);
            assert(key_a != key_b);
            if key_a < key_b {
                assert(groups[key_a].key != groups[key_b].key);
            } else {
                assert(groups[key_b].key != groups[key_a].key);
            }
        }
    }
}

/// Merging makes no new key, and keeps keys apart that were apart.
pub proof fn lemma_merge_keeps_keys(groups: Seq<PreGroupView>)
    ensures
        spec_keys_among(spec_merge(groups), groups),
        spec_distinct(groups) ==> spec_distinct(spec_merge(groups)),
    decreases groups.len(),
{
    lemma_first_pair(groups, 0);
    match spec_first_pair(groups, 0) {
        Some((i, j)) => {
            let next = spec_merge_pair(groups, i, j);
            let last = spec_merge(next);
            lemma_merge_pair_keeps_keys(groups, i, j);
            lemma_merge_keeps_keys(next);
            assert forall|r: int| 0 <= r < last.len() implies exists|g: int|
                0 <= g < groups.len() && (#[trigger] groups[g]).key == (#[trigger] last[r]).key by {
                let m = choose|m: int| 0 <= m < next.len() && (#[trigger] next[m]).key == last[r].key;
                let g = choose|g: int|
                    0 <= g < groups.len() && (#[trigger] groups[g]).key == next[m].key;
                assert(groups[g].key == last[r].key);
            }
        },
        None => {
            assert forall|r: int| 0 <= r < groups.len() implies exists|g: int|
                0 <= g < groups.len() && (#[trigger] groups[g]).key == (#[trigger] groups[r]).key by {
                assert(groups[r].key == groups[r].key);
            }
        },
    }
}

/// Whether the key `a` outlives the key `b` in a merge.
pub fn key_wins(a: &[u8], b: &[u8]) -> (r: bool)
    ensures
        r == spec_key_wins(a@, b@),
{
    if a.len() != b.len() {
        return a.len() > b.len();
    }
    let mut i: usize = 0;
    while i < a.len()
        invariant
            i <= a.len() == b.len(),
            spec_bytes_after(a@, b@, 0) == spec_bytes_after(a@, b@, i as int),
        decreases a.len() - i,
    {
        if a[i] != b[i] {
            return a[i] > b[i];
        }
        i += 1;
    }
    false
}

/// The first pair of groups that are alike, if there is one.
pub fn find_pair(groups: &Vec<PreGroup>) -> (r: Option<(usize, usize)>)
    ensures
        match r {
            Some((i, j)) => spec_first_pair(spec_pregroups(groups@), 0) == Some(
                (i as int, j as int),
            ),
            None => spec_first_pair(spec_pregroups(groups@), 0) is None,
        },
{
    let ghost views = spec_pregroups(groups@);
    let mut i: usize = 0;
    while i < groups.len()
        invariant
            i <= groups.len(),
            views == spec_pregroups(groups@),
            spec_first_pair(views, 0) == spec_first_pair(views, i as int),
        decreases groups.len() - i,
    {
        let mut j: usize = i + 1;
        while j < groups.len()
            invariant
                i < j <= groups.len(),
                views == spec_pregroups(groups@),
                spec_first_pair(views, 0) == spec_first_pair(views, i as int),
                spec_partner(views, i as int, i + 1) == spec_partner(views, i as int, j as int),
            decreases groups.len() - j,
        {
            assert(views[i as int].headers == spec_signature(groups@[i as int].headers@));
            assert(views[j as int].headers == spec_signature(groups@[j as int].headers@));
            if similar(&groups[i].headers, &groups[j].headers) {
                return Some((i, j));
            }
            j += 1;
        }
        i += 1;
    }
    None
}

/// Merges `second` into `first`, or `first` into `second`: the group whose
/// key wins stays, and the files of the other come after its own.
pub fn merge_two(first: PreGroup, second: PreGroup) -> (r: PreGroup)
    ensures
        r@ == spec_merged(first@, second@),
{
    let mut first = first;
    let mut second = second;
    if key_wins(second.key.as_slice(), first.key.as_slice()) {
        second.files.append(&mut first.files);
        second
    } else {
        first.files.append(&mut second.files);
        first
    }
}

/// Merges groups until no two of them have header signatures that are alike.
///
/// The pairs are tried in order: the first group with each later one, then
/// the second, and so on. The first pair that is alike merges, the merged
/// group taking the place of the earlier of the two, and the search starts
/// again. Each merge leaves one group fewer, so the work ends after at most
/// as many merges as there are groups, each after a search among all pairs.
pub fn merge_groups(groups: Vec<PreGroup>) -> (merged: Vec<PreGroup>)
    ensures
        spec_pregroups(merged@) == spec_merge(spec_pregroups(groups@)),
        spec_settled(spec_pregroups(merged@)),
        spec_all_files(spec_pregroups(merged@)) == spec_all_files(spec_pregroups(groups@)),
        spec_keys_among(spec_pregroups(merged@), spec_pregroups(groups@)),
        spec_distinct(spec_pregroups(groups@)) ==> spec_distinct(spec_pregroups(merged@)),
        merged.len() <= groups.len(),
{
    let mut merged = groups;
    loop
        invariant
            spec_merge(spec_pregroups(merged@)) == spec_merge(spec_pregroups(groups@)),
        ensures
            spec_pregroups(merged@) == spec_merge(spec_pregroups(groups@)),
        decreases merged.len(),
    {
        let ghost views = spec_pregroups(merged@);
        proof {
            lemma_first_pair(views, 0);
        }
        match find_pair(&merged) {
            Some((i, j)) => {
                let second = merged.remove(j);
                let first = merged.remove(i);
                let both = merge_two(first, second);
                merged.insert(i, both);
                assert(spec_pregroups(merged@) =~= spec_merge_pair(views, i as int, j as int));
            },
            None => {
                break ;
            },
        }
    }
    proof {
        lemma_merge_settles(spec_pregroups(groups@));
        lemma_merge_keeps_files(spec_pregroups(groups@));
        lemma_merge_keeps_keys(spec_pregroups(groups@));
    }
    merged
}

} // verus!
