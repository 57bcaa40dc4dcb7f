//! What a run over many groups needs around the tables: its settings, which
//! groups are consolidated, the log of every file and its group, the names
//! of the files that come out, and which input files are tables at all.

use crate::groups::{
    copy_bytes, spec_groups, spec_pregroups, Group, GroupView, PreGroup, PreGroupView,
};
use vstd::prelude::*;

verus! {

/// The settings of a run, fixed before any group is worked on.
#[derive(Debug, Clone, Copy, PartialEq, Eq, Structural)]
pub struct Config {
    /// How many campuses a school is expected to have; a hint for sizes only.
    pub numero_campus: usize,
    /// Whether the rows set apart are written out.
    pub descartados: bool,
    /// Whether the run asks nothing of the user.
    pub from_cli: bool,
    /// Whether an output directory that is not empty is cleared first.
    pub reset: bool,
}

impl Config {
    /// The settings for what the command line gave. The run asks nothing of
    /// the user if that was asked for, or if the command line named inputs,
    /// an output directory, or the writing of the rows set apart.
    pub fn new(
        numero_campus: usize,
        descartados: bool,
        cli: bool,
        reset: bool,
        has_inputs: bool,
        has_output: bool,
    ) -> (config: Config)
        ensures
            config == (Config {
                numero_campus: numero_campus,
                descartados: descartados,
                from_cli: cli || has_inputs || descartados || has_output,
                reset: reset,
            }),
    {
        Config {
            numero_campus,
            descartados,
            from_cli: cli || (has_inputs || descartados || has_output),
            reset,
        }
    }
}

/// Whether `name` ends with `ending`.
pub open spec fn spec_ends_with(name: Seq<u8>, ending: Seq<u8>) -> bool {
    ending.len() <= name.len() && name.skip(name.len() - ending.len()) == ending
}

/// Whether `name` ends with one of `endings`.
pub open spec fn spec_is_included(name: Seq<u8>, endings: Seq<Seq<u8>>) -> bool {
    exists|i: int| 0 <= i < endings.len() && spec_ends_with(name, #[trigger] endings[i])
}

/// Whether `name` ends with `ending`.
pub fn ends_with(name: &[u8], ending: &[u8]) -> (r: bool)
    ensures
        r == spec_ends_with(name@, ending@),
{
    if ending.len() > name.len() {
        return false;
    }
    let from: usize = name.len() - ending.len();
    let mut i: usize = 0;
    while i < ending.len()
        invariant
            i <= ending.len(),
            from == name.len() - ending.len(),
            forall|k: int| 0 <= k < i ==> name@[from + k] == ending@[k],
        decreases ending.len() - i,
    {
        if name[from + i] != ending[i] {
            assert(name@.skip(from as int)[i as int] != ending@[i as int]);
            return false;
        }
        i += 1;
    }
    assert(name@.skip(from as int) =~= ending@);
    true
}

/// Whether a file found in a directory is taken as an input: its name ends
/// with one of the endings that tables have.
pub fn is_included(name: &[u8], endings: &Vec<Vec<u8>>) -> (r: bool)
    ensures
        r == spec_is_included(name@, endings.deep_view()),
{
    let mut i: usize = 0;
    while i < endings.len()
        invariant
            i <= endings.len(),
            forall|k: int| 0 <= k < i ==> !spec_ends_with(name@, #[trigger] endings.deep_view()[k]),
        decreases endings.len() - i,
    {
        assert(endings.deep_view()[i as int] == endings@[i as int]@);
        if ends_with(name, endings[i].as_slice()) {
            return true;
        }
        i += 1;
    }
    false
}

/// Groups without their header signatures.
pub open spec fn spec_without_headers(merged: Seq<PreGroupView>) -> Seq<GroupView> {
    merged.map_values(|g: PreGroupView| GroupView { key: g.key, files: g.files })
}

/// The groups without their header signatures.
pub fn into_groups(merged: Vec<PreGroup>) -> (groups: Vec<Group>)
    ensures
        spec_groups(groups@) == spec_without_headers(spec_pregroups(merged@)),
{
    let mut merged = merged;
    let ghost all = spec_without_headers(spec_pregroups(merged@));
    let mut groups: Vec<Group> = Vec::new();
    while merged.len() > 0
        invariant
            groups.len() + merged.len() == all.len(),
            spec_groups(groups@) + spec_without_headers(spec_pregroups(merged@)) == all,
        decreases merged.len(),
    {
        let ghost left = spec_without_headers(spec_pregroups(merged@));
        let ghost done = spec_groups(groups@);
        let first = merged.remove(0);
        let group = Group { key: first.key, files: first.files };
        assert(group@ == left[0]);
        groups.push(group);
        assert(spec_groups(groups@) + spec_without_headers(spec_pregroups(merged@)) =~= done
            + left);
    }
    assert(spec_groups(groups@) + spec_without_headers(spec_pregroups(merged@)) =~= spec_groups(
        groups@,
    ));
    groups
}

/// Whether a group is consolidated: it has more than one file.
pub open spec fn spec_is_retained(group: GroupView) -> bool {
    group.files.len() > 1
}

/// The places of the groups among the first `n` that are consolidated.
pub open spec fn spec_retained(groups: Seq<GroupView>, n: nat) -> Seq<usize>
    decreases n,
{
    if n == 0 {
        Seq::empty()
    } else if spec_is_retained(groups[n - 1]) {
        spec_retained(groups, (n - 1) as nat).push((n - 1) as usize)
    } else {
        spec_retained(groups, (n - 1) as nat)
    }
}

/// The places of the groups that are consolidated, in order: those with
/// more than one file.
pub fn retained_groups(groups: &Vec<Group>) -> (places: Vec<usize>)
    ensures
        places@ == spec_retained(spec_groups(groups@), groups.len() as nat),
{
    let mut places: Vec<usize> = Vec::new();
    let mut i: usize = 0;
    while i < groups.len()
        invariant
            i <= groups.len(),
            places@ == spec_retained(spec_groups(groups@), i as nat),
        decreases groups.len() - i,
    {
        assert(spec_groups(groups@)[i as int].files == groups@[i as int].files@);
        if groups[i].files.len() > 1 {
            places.push(i);
        }
        i += 1;
    }
    places
}

/// The places named are exactly those of the groups with more than one
/// file, each once and in rising order.
pub proof fn lemma_retained(groups: Seq<GroupView>, n: nat)
    requires
        n <= groups.len() <= usize::MAX,
    ensures
        forall|k: int|
            0 <= k < spec_retained(groups, n).len() ==> (#[trigger] spec_retained(groups, n)[k])
                < n && spec_is_retained(groups[spec_retained(groups, n)[k] as int]),
        forall|k: int, l: int|
            0 <= k < l < spec_retained(groups, n).len() ==> (#[trigger] spec_retained(groups, n)[k])
                < (#[trigger] spec_retained(groups, n)[l]),
        forall|g: int|
            0 <= g < n && spec_is_retained(#[trigger] groups[g]) ==> spec_retained(
                groups,
                n,
            ).contains(g as usize),
    decreases n,
{
    if n > 0 {
        let before = spec_retained(groups, (n - 1) as nat);
        let now = spec_retained(groups, n);
        lemma_retained(groups, (n - 1) as nat);
        assert forall|k: int| 0 <= k < now.len() implies (#[trigger] now[k]) < n
            && spec_is_retained(groups[now[k] as int]) by {
            if k < before.len() {
                assert(now[k] == before[k]);
            }
        }
        assert forall|k: int, l: int| 0 <= k < l < now.len() implies (#[trigger] now[k]) < (
        #[trigger] now[l]) by {
            assert(now[k] == before[k]);
            if l < before.len() {
                assert(now[l] == before[l]);
            }
        }
        assert forall|g: int| 0 <= g < n && spec_is_retained(#[trigger] groups[g]) implies now.contains(
            g as usize,
        ) by {
            if g < n - 1 {
                let k = choose|k: int| 0 <= k < before.len() && before[k] == g as usize;
                assert(now[k] == g as usize);
            } else {
                assert(now[now.len() - 1] == g as usize);
            }
        }
    }
}

/// One line of the log of groups: a file, the group it is in, and whether
/// that group is consolidated.
#[derive(Debug, Clone, Copy, PartialEq, Eq, Structural)]
pub struct LogRow {
    /// The place of the group among the groups.
    pub group: usize,
    /// Whether the group is consolidated.
    pub included: bool,
    /// The file.
    pub file: usize,
}

/// The lines of the log for one group: one for each of its files, in order.
pub open spec fn spec_group_log(group: GroupView, place: usize) -> Seq<LogRow> {
    Seq::new(
        group.files.len(),
        |k: int| LogRow { group: place, included: spec_is_retained(group), file: group.files[k] },
    )
}

/// The lines of the log for the first `n` groups.
pub open spec fn spec_log(groups: Seq<GroupView>, n: nat) -> Seq<LogRow>
    decreases n,
{
    if n == 0 {
        Seq::empty()
    } else {
        spec_log(groups, (n - 1) as nat) + spec_group_log(groups[n - 1], (n - 1) as usize)
    }
}

/// The log of groups: one line for every file of every group, the groups in
/// order and the files of each in order, whether or not the group is
/// consolidated.
pub fn log_grupos(groups: &Vec<Group>) -> (log: Vec<LogRow>)
    ensures
        log@ == spec_log(spec_groups(groups@), groups.len() as nat),
{
    let mut log: Vec<LogRow> = Vec::new();
    let mut i: usize = 0;
    while i < groups.len()
        invariant
            i <= groups.len(),
            log@ == spec_log(spec_groups(groups@), i as nat),
        decreases groups.len() - i,
    {
        let group = &groups[i];
        let included = group.files.len() > 1;
        let ghost before = log@;
        let ghost lines = spec_group_log(spec_groups(groups@)[i as int], i);
        assert(spec_groups(groups@)[i as int].files == group.files@);
        let mut k: usize = 0;
        while k < group.files.len()
            invariant
                k <= group.files.len(),
                included == (group.files.len() > 1),
                lines == spec_group_log(group@, i),
                log@ == before + lines.take(k as int),
            decreases group.files.len() - k,
        {
            log.push(LogRow { group: i, included, file: group.files[k] });
            assert(lines.take(k + 1) == lines.take(k as int).push(lines[k as int]));
            assert(log@ =~= before + lines.take(k + 1));
            k += 1;
        }
        assert(lines.take(k as int) == lines);
        i += 1;
    }
    log
}

/// The word for a group that is consolidated.
pub open spec fn spec_included_label() -> Seq<char> {
    "Incluido"@
}

/// The word for a group that is not.
pub open spec fn spec_excluded_label() -> Seq<char> {
    "Descartado"@
}

/// The word that the log has for a group.
pub fn status_label(included: bool) -> (r: &'static str)
    ensures
        r@ == if included {
            spec_included_label()
        } else {
            spec_excluded_label()
        },
{
    if included {
        "Incluido"
    } else {
        "Descartado"
    }
}

/// The titles of the columns of the log of groups: the group, whether it
/// is consolidated, the name of the file, and its path.
pub open spec fn spec_log_titles() -> Seq<Seq<char>> {
    seq!["Grupo"@, "Estatus"@, "Nombre"@, "Ruta"@]
}

/// The titles of the columns of the log of groups.
pub fn log_titles() -> (r: Vec<&'static str>)
    ensures
        r@.map_values(|t: &'static str| t@) == spec_log_titles(),
{
    let r: Vec<&'static str> = vec!["Grupo", "Estatus", "Nombre", "Ruta"];
    assert(r@.map_values(|t: &'static str| t@) =~= spec_log_titles());
    r
}

/// The name of the file that holds the log of groups.
pub fn log_name() -> (r: &'static str)
    ensures
        r@ == "grupos.xlsx"@,
{
    "grupos.xlsx"
}

/// The name of the sheet that holds the rows set apart.
pub fn set_apart_sheet() -> (r: &'static str)
    ensures
        r@ == "Descartados"@,
{
    "Descartados"
}

/// The bytes of `.xlsx`.
pub open spec fn spec_table_ending() -> Seq<u8> {
    seq![46u8, 120u8, 108u8, 115u8, 120u8]
}

/// The bytes of `.descartados.xlsx`.
pub open spec fn spec_set_apart_ending() -> Seq<u8> {
    seq![
        46u8,
        100u8,
        101u8,
        115u8,
        99u8,
        97u8,
        114u8,
        116u8,
        97u8,
        100u8,
        111u8,
        115u8,
    ] + spec_table_ending()
}

/// `key` with `ending` after it.
fn with_ending(key: &[u8], ending: &Vec<u8>) -> (r: Vec<u8>)
    ensures
        r@ == key@ + ending@,
{
    let mut r = copy_bytes(key);
    let mut i: usize = 0;
    while i < ending.len()
        invariant
            i <= ending.len(),
            r@ == key@ + ending@.take(i as int),
        decreases ending.len() - i,
    {
        r.push(ending[i]);
        assert(ending@.take(i + 1) == ending@.take(i as int).push(ending@[i as int]));
        assert(r@ =~= key@ + ending@.take(i + 1));
        i += 1;
    }
    assert(ending@.take(i as int) == ending@);
    r
}

/// The name of the file that holds the tables of the group with the key
/// `key`: the key and `.xlsx`.
pub fn table_name(key: &[u8]) -> (r: Vec<u8>)
    ensures
        r@ == key@ + spec_table_ending(),
{
    let ending: Vec<u8> = vec![46u8, 120u8, 108u8, 115u8, 120u8];
    assert(ending@ =~= spec_table_ending());
    with_ending(key, &ending)
}

/// The name of the file that holds the rows set apart of the group with the
/// key `key`: the key and `.descartados.xlsx`.
pub fn set_apart_name(key: &[u8]) -> (r: Vec<u8>)
    ensures
        r@ == key@ + spec_set_apart_ending(),
{
    let ending: Vec<u8> = vec![
        46u8,
        100u8,
        101u8,
        115u8,
        99u8,
        97u8,
        114u8,
        116u8,
        97u8,
        100u8,
        111u8,
        115u8,
        46u8,
        120u8,
        108u8,
        115u8,
        120u8,
    ];
    assert(ending@ =~= spec_set_apart_ending());
    with_ending(key, &ending)
}

} // verus!
