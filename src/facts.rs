use vstd::prelude::*;

use indexmap::IndexMap;

verus! {

#[verifier::external_type_specification]
#[verifier::external_body]
#[verifier::reject_recursive_types(K)]
#[verifier::reject_recursive_types(V)]
#[verifier::reject_recursive_types(S)]
pub struct ExIndexMap<K, V, S>(IndexMap<K, V, S>);

/// The entries of an insertion-ordered map of facts, label and value, in order.
pub uninterp spec fn map_entries(m: IndexMap<String, String>) -> Seq<(Seq<char>, Seq<char>)>;

/// `k` is the label of none of the entries `e`.
pub open spec fn absent(e: Seq<(Seq<char>, Seq<char>)>, k: Seq<char>) -> bool {
    forall|i: int| 0 <= i < e.len() ==> #[trigger] e[i].0 != k
}

/// Relies on `IndexMap::new`: a new map has no entries.
#[verifier::external_body]
fn new_map() -> (r: IndexMap<String, String>)
    ensures
        map_entries(r) == Seq::<(Seq<char>, Seq<char>)>::empty(),
{
    IndexMap::new()
}

/// Relies on `IndexMap::insert`: a key not yet present goes in last, after the entries
/// already there; an equivalent key that is present keeps its place, so the number of
/// entries stays.
#[verifier::external_body]
fn insert_entry(m: &mut IndexMap<String, String>, k: String, v: String)
    ensures
        absent(map_entries(*old(m)), k@) ==> map_entries(*final(m)) == map_entries(*old(m)).push(
            (k@, v@),
        ),
        !absent(map_entries(*old(m)), k@) ==> map_entries(*final(m)).len() == map_entries(
            *old(m),
        ).len(),
{
    m.insert(k, v);
}

/// Relies on `IndexMap::len`: the number of entries.
#[verifier::external_body]
pub(crate) fn entry_count(m: &IndexMap<String, String>) -> (r: usize)
    ensures
        r == map_entries(*m).len(),
{
    m.len()
}

/// Relies on `IndexMap::get_index`: the entry at position `i` of the insertion order.
#[verifier::external_body]
pub(crate) fn entry_at<'a>(m: &'a IndexMap<String, String>, i: usize) -> (r: (
    &'a String,
    &'a String,
))
    requires
        i < map_entries(*m).len(),
    ensures
        r.0@ == map_entries(*m)[i as int].0,
        r.1@ == map_entries(*m)[i as int].1,
{
    m.get_index(i).unwrap()
}

pub open spec fn label_os() -> Seq<char> {
    seq!['O', 'S']
}

pub open spec fn label_kernel() -> Seq<char> {
    seq!['K', 'e', 'r', 'n', 'e', 'l']
}

pub open spec fn label_zonename() -> Seq<char> {
    seq!['Z', 'o', 'n', 'e', 'n', 'a', 'm', 'e']
}

pub open spec fn label_boot_env() -> Seq<char> {
    seq!['B', 'o', 'o', 't', ' ', 'E', 'n', 'v']
}

pub open spec fn label_cpu() -> Seq<char> {
    seq!['C', 'P', 'U']
}

pub open spec fn label_uptime() -> Seq<char> {
    seq!['U', 'p', 't', 'i', 'm', 'e']
}

pub open spec fn label_memory() -> Seq<char> {
    seq!['M', 'e', 'm', 'o', 'r', 'y']
}

pub open spec fn label_smf() -> Seq<char> {
    seq!['S', 'M', 'F']
}

pub open spec fn label_zones() -> Seq<char> {
    seq!['Z', 'o', 'n', 'e', 's']
}

pub open spec fn label_zfs() -> Seq<char> {
    seq!['Z', 'F', 'S']
}

/// The ten facts of the display, labelled, in display order.
pub open spec fn fact_list(
    os: Seq<char>,
    kernel: Seq<char>,
    zonename: Seq<char>,
    boot_env: Seq<char>,
    cpu: Seq<char>,
    uptime: Seq<char>,
    memory: Seq<char>,
    smf: Seq<char>,
    zones: Seq<char>,
    zfs: Seq<char>,
) -> Seq<(Seq<char>, Seq<char>)> {
    seq![
        (label_os(), os),
        (label_kernel(), kernel),
        (label_zonename(), zonename),
        (label_boot_env(), boot_env),
        (label_cpu(), cpu),
        (label_uptime(), uptime),
        (label_memory(), memory),
        (label_smf(), smf),
        (label_zones(), zones),
        (label_zfs(), zfs),
    ]
}

/// Appends the fact `label: value` to `m`, where `label` is new to it.
fn add_fact(m: &mut IndexMap<String, String>, label: &str, value: String)
    requires
        absent(map_entries(*old(m)), label@),
    ensures
        map_entries(*final(m)) == map_entries(*old(m)).push((label@, value@)),
{
    insert_entry(m, String::from_str(label), value);
}

/// Collects the ten facts, labelled, in display order.
pub fn collect_facts(
    os: String,
    kernel: String,
    zonename: String,
    boot_env: String,
    cpu: String,
    uptime: String,
    memory: String,
    smf: String,
    zones: String,
    zfs: String,
) -> (r: IndexMap<String, String>)
    ensures
        map_entries(r) == fact_list(
            os@,
            kernel@,
            zonename@,
            boot_env@,
            cpu@,
            uptime@,
            memory@,
            smf@,
            zones@,
            zfs@,
        ),
{
    proof {
        reveal_strlit("OS");
        reveal_strlit("Kernel");
        reveal_strlit("Zonename");
        reveal_strlit("Boot Env");
        reveal_strlit("CPU");
        reveal_strlit("Uptime");
        reveal_strlit("Memory");
        reveal_strlit("SMF");
        reveal_strlit("Zones");
        reveal_strlit("ZFS");
    }
    assert("OS"@ =~= label_os());
    assert("Kernel"@ =~= label_kernel());
    assert("Zonename"@ =~= label_zonename());
    assert("Boot Env"@ =~= label_boot_env());
    assert("CPU"@ =~= label_cpu());
    assert("Uptime"@ =~= label_uptime());
    assert("Memory"@ =~= label_memory());
    assert("SMF"@ =~= label_smf());
    assert("Zones"@ =~= label_zones());
    assert("ZFS"@ =~= label_zfs());
    let ghost labels = seq![
        label_os(),
        label_kernel(),
        label_zonename(),
        label_boot_env(),
        label_cpu(),
        label_uptime(),
        label_memory(),
        label_smf(),
        label_zones(),
        label_zfs(),
    ];
    // the labels differ pairwise: by length, or by the first or fifth character
    assert forall|i: int, j: int| 0 <= i < j < 10 implies labels[i] != labels[j] by {
        if labels[i].len() == labels[j].len() && labels[i][0] == labels[j][0] {
            assert(labels[i][4] != labels[j][4] || labels[i][1] != labels[j][1]);
        }
    }
    let mut m = new_map();
    add_fact(&mut m, "OS", os);
    add_fact(&mut m, "Kernel", kernel);
    add_fact(&mut m, "Zonename", zonename);
    add_fact(&mut m, "Boot Env", boot_env);
    add_fact(&mut m, "CPU", cpu);
    add_fact(&mut m, "Uptime", uptime);
    add_fact(&mut m, "Memory", memory);
    add_fact(&mut m, "SMF", smf);
    add_fact(&mut m, "Zones", zones);
    add_fact(&mut m, "ZFS", zfs);
    assert(map_entries(m) =~= fact_list(
        os@,
        kernel@,
        zonename@,
        boot_env@,
        cpu@,
        uptime@,
        memory@,
        smf@,
        zones@,
        zfs@,
    ));
    m
}

} // verus!
