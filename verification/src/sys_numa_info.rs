//! Discovery of the topology: which nodes there are, the cores of each and
//! how much of its memory is in use.

use crate::cpu_list::{
    lemma_members, list_covers, list_members, members, strictly_ascending,
};
use crate::numa_node::{node_views, CpuCore, NumaNode, NumaNodeView, Utilization};
use crate::ordering::{
    insert_by_key, lemma_insertion_point_unique, lemma_sort_by_key, sort_by_key,
};
use crate::proc_info::counter_value;
use crate::text::{
    chars_of, has_prefix, lines, parse_u32, parse_u32_spec, parse_u64, slice_eq, split,
    split_first, split_words, starts_with, words,
};
use vstd::prelude::*;
use vstd::slice::slice_subrange;

verus! {

/// The cores that the list `cpulist_str` names, ascending, each once. Items
/// that are neither a number nor a range of two numbers are passed over.
pub fn parse_cpulist(cpulist_str: &str) -> (cpus: Vec<u32>)
    ensures
        cpus@ == members(cpulist_str@),
        strictly_ascending(cpus@),
        forall|x: u32|
            #![trigger cpus@.contains(x)]
            #![trigger list_covers(cpulist_str@, x)]
            cpus@.contains(x) <==> list_covers(cpulist_str@, x),
{
    let chars = chars_of(cpulist_str);
    list_members(chars.as_slice())
}

/// The cores that are present, from the system's list of them.
pub fn get_all_present_cpu_indices(present: &str) -> (cpus: Vec<u32>)
    ensures
        cpus@ == members(present@),
        strictly_ascending(cpus@),
        forall|x: u32|
            #![trigger cpus@.contains(x)]
            #![trigger list_covers(present@, x)]
            cpus@.contains(x) <==> list_covers(present@, x),
{
    parse_cpulist(present)
}

/// How the memory in use is worked out from a node's memory listing.
#[derive(Debug, Clone, Copy, PartialEq, Eq, Structural)]
pub enum MemAccounting {
    /// What is not free is in use.
    FreeOnly,
    /// What is neither free nor held in buffers, the page cache or
    /// reclaimable slabs is in use.
    Reclaimable,
    /// The listing says itself how much is in use.
    Reported,
}

/// Why a memory listing gives no figures.
#[derive(Debug, Clone, Copy, PartialEq, Eq, Structural)]
pub enum MeminfoError {
    /// The listing has no line for the total.
    MissingTotal,
    /// The listing has no line for the free memory.
    MissingFree,
    /// The listing has no line for the memory in use, and the accounting
    /// reads it from there.
    MissingUsed,
}

/// Whether `word` is written as a key: it ends with a colon.
pub open spec fn is_key(word: Seq<char>) -> bool {
    word.len() > 0 && word.last() == ':'
}

/// The key and the value of one line of a memory listing.
///
/// A line is `key: value unit`, or the same behind two words that name the
/// node. The key keeps its colon. A line too short to have a key has the
/// empty key; a value that is missing or no number counts as zero.
pub open spec fn meminfo_entry(line: Seq<char>) -> (Seq<char>, u64) {
    let w = words(line);
    let at: int = if w.len() > 0 && is_key(w[0]) {
        0
    } else {
        2
    };
    (
        if at < w.len() {
            w[at]
        } else {
            Seq::empty()
        },
        if at + 1 < w.len() {
            counter_value(w[at + 1])
        } else {
            0
        },
    )
}

/// The value that the listing `table` gives for `key`: that of the last line
/// with this key.
pub open spec fn meminfo_value(table: Seq<Seq<char>>, key: Seq<char>) -> Option<u64>
    decreases table.len(),
{
    if table.len() == 0 {
        None
    } else if meminfo_entry(table.last()).0 == key {
        Some(meminfo_entry(table.last()).1)
    } else {
        meminfo_value(table.drop_last(), key)
    }
}

/// A value of the listing that may be missing, and then counts as nothing.
pub open spec fn or_zero(value: Option<u64>) -> nat {
    match value {
        Some(n) => n as nat,
        None => 0,
    }
}

/// The kibibytes in use, when `total` are there and `free` need not count as
/// used: never less than nothing.
pub open spec fn used_kb(total: nat, free: nat) -> nat {
    if total >= free {
        (total - free) as nat
    } else {
        0
    }
}

/// The total and the used memory of a node in mebibytes, rounded down, from
/// the lines `table` of its listing, which counts in kibibytes.
///
/// The total is the value of `MemTotal:`. A listing without it, or without
/// `MemFree:`, gives no figures. What is in use is the total less the value
/// of `MemFree:`, and with `Reclaimable` also less those of `Buffers:`,
/// `Cached:` and `SReclaimable:` as far as the listing has them, but never
/// less than nothing; with `Reported` it is the value of `MemUsed:`, which
/// the listing then has to have.
pub open spec fn meminfo_figures(table: Seq<Seq<char>>, mode: MemAccounting) -> Result<
    (u64, u64),
    MeminfoError,
> {
    let total = meminfo_value(table, "MemTotal:"@);
    let free = meminfo_value(table, "MemFree:"@);
    let used = meminfo_value(table, "MemUsed:"@);
    let reclaimable = or_zero(meminfo_value(table, "Buffers:"@)) + or_zero(
        meminfo_value(table, "Cached:"@),
    ) + or_zero(meminfo_value(table, "SReclaimable:"@));
    if total is None {
        Err(MeminfoError::MissingTotal)
    } else if free is None {
        Err(MeminfoError::MissingFree)
    } else {
        let total_mb = (total.unwrap() / 1024) as u64;
        match mode {
            MemAccounting::FreeOnly => Ok(
                (total_mb, (used_kb(total.unwrap() as nat, free.unwrap() as nat) / 1024) as u64),
            ),
            MemAccounting::Reclaimable => Ok(
                (
                    total_mb,
                    (used_kb(total.unwrap() as nat, free.unwrap() as nat + reclaimable)
                        / 1024) as u64,
                ),
            ),
            MemAccounting::Reported => if used is None {
                Err(MeminfoError::MissingUsed)
            } else {
                Ok((total_mb, (used.unwrap() / 1024) as u64))
            },
        }
    }
}

/// The key and the value of the line `line`.
pub fn parse_meminfo_line(line: &[char]) -> (entry: (&[char], u64))
    ensures
        entry.0@ == meminfo_entry(line@).0,
        entry.1 == meminfo_entry(line@).1,
{
    let w = split_words(line);
    proof {
        assert forall|i: int| 0 <= i < w@.len() implies (#[trigger] w@[i])@ == words(line@)[i] by {}
    }
    let at: usize = if w.len() > 0 && w[0].len() > 0 && w[0][w[0].len() - 1] == ':' {
        0
    } else {
        2
    };
    let key: &[char] = if at < w.len() {
        w[at]
    } else {
        slice_subrange(line, 0, 0)
    };
    let value: u64 = if at + 1 < w.len() {
        match parse_u64(w[at + 1]) {
            Some(n) => n,
            None => 0,
        }
    } else {
        0
    };
    assert(line@.subrange(0, 0) == Seq::<char>::empty());
    (key, value)
}

/// A value of the listing, or nothing where it is missing.
fn value_or_zero(value: Option<u64>) -> (n: u128)
    ensures
        n == or_zero(value),
{
    match value {
        Some(n) => n as u128,
        None => 0,
    }
}

/// The total and the used memory of a node in mebibytes, from its memory
/// listing `content`.
pub fn parse_node_meminfo(content: &str, mode: MemAccounting) -> (figures: Result<
    (u64, u64),
    MeminfoError,
>)
    ensures
        figures == meminfo_figures(lines(content@), mode),
{
    let chars = chars_of(content);
    let total_key = chars_of("MemTotal:");
    let free_key = chars_of("MemFree:");
    let used_key = chars_of("MemUsed:");
    let buffers_key = chars_of("Buffers:");
    let cached_key = chars_of("Cached:");
    let slab_key = chars_of("SReclaimable:");
    let mut total: Option<u64> = None;
    let mut free: Option<u64> = None;
    let mut used: Option<u64> = None;
    let mut buffers: Option<u64> = None;
    let mut cached: Option<u64> = None;
    let mut slab: Option<u64> = None;
    let mut rest: &[char] = chars.as_slice();
    let ghost mut done: Seq<Seq<char>> = Seq::empty();
    loop
        invariant_except_break
            lines(content@) == done + split(rest@, '\n'),
        invariant
            total_key@ == "MemTotal:"@,
            free_key@ == "MemFree:"@,
            used_key@ == "MemUsed:"@,
            buffers_key@ == "Buffers:"@,
            cached_key@ == "Cached:"@,
            slab_key@ == "SReclaimable:"@,
            total == meminfo_value(done, "MemTotal:"@),
            free == meminfo_value(done, "MemFree:"@),
            used == meminfo_value(done, "MemUsed:"@),
            buffers == meminfo_value(done, "Buffers:"@),
            cached == meminfo_value(done, "Cached:"@),
            slab == meminfo_value(done, "SReclaimable:"@),
        ensures
            lines(content@) == done,
        decreases rest@.len(),
    {
        let (line, after) = split_first(rest, '\n');
        let (key, value) = parse_meminfo_line(line);
        if slice_eq(key, total_key.as_slice()) {
            total = Some(value);
        }
        if slice_eq(key, free_key.as_slice()) {
            free = Some(value);
        }
        if slice_eq(key, used_key.as_slice()) {
            used = Some(value);
        }
        if slice_eq(key, buffers_key.as_slice()) {
            buffers = Some(value);
        }
        if slice_eq(key, cached_key.as_slice()) {
            cached = Some(value);
        }
        if slice_eq(key, slab_key.as_slice()) {
            slab = Some(value);
        }
        proof {
            let next_done = done.push(line@);
            assert(next_done.drop_last() == done);
            assert(next_done.last() == line@);
            match after {
                Some(next) => {
                    assert(done + (seq![line@] + split(next@, '\n')) == next_done + split(
                        next@,
                        '\n',
                    ));
                },
                None => {
                    assert(done + seq![line@] == next_done);
                },
            }
            done = next_done;
        }
        match after {
            None => {
                break ;
            },
            Some(next) => {
                rest = next;
            },
        }
    }
    let total_kb: u64 = match total {
        Some(n) => n,
        None => {
            return Err(MeminfoError::MissingTotal);
        },
    };
    let free_kb: u64 = match free {
        Some(n) => n,
        None => {
            return Err(MeminfoError::MissingFree);
        },
    };
    let not_used: u128 = match mode {
        MemAccounting::FreeOnly => free_kb as u128,
        MemAccounting::Reclaimable => free_kb as u128 + value_or_zero(buffers) + value_or_zero(
            cached,
        ) + value_or_zero(slab),
        MemAccounting::Reported => {
            return match used {
                Some(used_kb) => Ok((total_kb / 1024, used_kb / 1024)),
                None => Err(MeminfoError::MissingUsed),
            };
        },
    };
    let in_use: u128 = if total_kb as u128 >= not_used {
        total_kb as u128 - not_used
    } else {
        0
    };
    Ok((total_kb / 1024, (in_use / 1024) as u64))
}

/// What was read for one entry of the directory that lists the nodes: its
/// name, whether it is a directory, and the text of its memory listing and of
/// its core list where they could be read.
#[derive(Debug, Clone)]
pub struct NodeEntry {
    pub name: String,
    pub is_dir: bool,
    pub meminfo: Option<String>,
    pub cpulist: Option<String>,
}

/// What a `NodeEntry` holds, as mathematical values.
pub struct NodeEntryView {
    pub name: Seq<char>,
    pub is_dir: bool,
    pub meminfo: Option<Seq<char>>,
    pub cpulist: Option<Seq<char>>,
}

impl View for NodeEntry {
    type V = NodeEntryView;

    open spec fn view(&self) -> NodeEntryView {
        NodeEntryView {
            name: self.name@,
            is_dir: self.is_dir,
            meminfo: match self.meminfo {
                Some(text) => Some(text@),
                None => None,
            },
            cpulist: match self.cpulist {
                Some(text) => Some(text@),
                None => None,
            },
        }
    }
}

/// The views of `entries`, in order.
pub open spec fn entry_views(entries: Seq<NodeEntry>) -> Seq<NodeEntryView> {
    Seq::new(entries.len(), |i: int| entries[i]@)
}

/// The number of the node that a directory called `name` is: `name` is the
/// word `node` and then a number.
pub open spec fn node_id(name: Seq<char>) -> Option<u32> {
    if has_prefix(name, "node"@) {
        parse_u32_spec(name.subrange(4, name.len() as int))
    } else {
        None
    }
}

/// The memory figures of a node: nothing of nothing where the listing could
/// not be read or gives no figures.
pub open spec fn node_memory(meminfo: Option<Seq<char>>, mode: MemAccounting) -> (u64, u64) {
    match meminfo {
        Some(text) => match meminfo_figures(lines(text), mode) {
            Ok(figures) => figures,
            Err(_) => (0, 0),
        },
        None => (0, 0),
    }
}

/// The cores `ids`, none of them sampled yet.
pub open spec fn fresh_cores(ids: Seq<u32>) -> Seq<CpuCore> {
    Seq::new(ids.len(), |i: int| CpuCore { id: ids[i], utilization: Utilization::of(0, 0) })
}

/// The cores of a node: those that its list names, and `None` where there is
/// no list or the list names none.
pub open spec fn node_cores(cpulist: Option<Seq<char>>) -> Option<Seq<CpuCore>> {
    match cpulist {
        Some(text) => if members(text).len() > 0 {
            Some(fresh_cores(members(text)))
        } else {
            None
        },
        None => None,
    }
}

/// A node has cores exactly when its list names one, and then has each
/// named core once, in ascending order and idle.
pub proof fn lemma_node_cores(cpulist: Option<Seq<char>>)
    ensures
        match node_cores(cpulist) {
            Some(cores) => {
                &&& cpulist is Some
                &&& cores.len() > 0
                &&& forall|i: int, j: int| 0 <= i < j < cores.len() ==> cores[i].id < cores[j].id
                &&& forall|i: int|
                    0 <= i < cores.len() ==> list_covers(cpulist.unwrap(), (#[trigger] cores[i]).id)
                        && cores[i].utilization == Utilization::of(0, 0)
                &&& forall|x: u32|
                    list_covers(cpulist.unwrap(), x) ==> exists|i: int|
                        0 <= i < cores.len() && (#[trigger] cores[i]).id == x
            },
            None => cpulist is Some ==> forall|x: u32| !list_covers(cpulist.unwrap(), x),
        },
{
    if cpulist is Some {
        let text = cpulist.unwrap();
        let ids = members(text);
        lemma_members(text);
        if ids.len() > 0 {
            let cores = fresh_cores(ids);
            assert(node_cores(cpulist) == Some(cores));
            assert forall|i: int, j: int| 0 <= i < j < cores.len() implies cores[i].id
                < cores[j].id by {
                assert(cores[i].id == ids[i]);
                assert(cores[j].id == ids[j]);
            }
            assert forall|i: int| 0 <= i < cores.len() implies list_covers(
                text,
                (#[trigger] cores[i]).id,
            ) && cores[i].utilization == Utilization::of(0, 0) by {
                assert(ids.contains(ids[i]));
            }
            assert forall|x: u32| list_covers(text, x) implies exists|i: int|
                0 <= i < cores.len() && (#[trigger] cores[i]).id == x by {
                assert(ids.contains(x));
                let k = choose|k: int| 0 <= k < ids.len() && ids[k] == x;
                assert(cores[k].id == x);
            }
        } else {
            assert forall|x: u32| !list_covers(text, x) by {
                if list_covers(text, x) {
                    assert(ids.contains(x));
                }
            }
        }
    }
}

/// Where the memory in use is worked out from the free memory, it is never
/// more than the total.
pub proof fn lemma_used_within_total(table: Seq<Seq<char>>, mode: MemAccounting)
    requires
        mode != MemAccounting::Reported,
    ensures
        match meminfo_figures(table, mode) {
            Ok((total_mb, used_mb)) => used_mb <= total_mb,
            Err(_) => true,
        },
{
}

/// The node that `entry` describes, if it is the directory of a node.
pub open spec fn node_of(entry: NodeEntryView, mode: MemAccounting) -> Option<NumaNodeView> {
    if entry.is_dir {
        match node_id(entry.name) {
            Some(id) => Some(
                NumaNodeView {
                    id,
                    cpus: node_cores(entry.cpulist),
                    total_memory_mb: node_memory(entry.meminfo, mode).0,
                    used_memory_mb: node_memory(entry.meminfo, mode).1,
                },
            ),
            None => None,
        }
    } else {
        None
    }
}

/// The nodes that `entries` describe, in the order of the entries.
pub open spec fn discovered(entries: Seq<NodeEntryView>, mode: MemAccounting) -> Seq<
    NumaNodeView,
>
    decreases entries.len(),
{
    if entries.len() == 0 {
        Seq::empty()
    } else {
        let earlier = discovered(entries.drop_last(), mode);
        match node_of(entries.last(), mode) {
            Some(node) => earlier.push(node),
            None => earlier,
        }
    }
}

/// The key that nodes are ordered by: the node's number.
pub open spec fn node_key() -> spec_fn(NumaNodeView) -> int {
    |node: NumaNodeView| node.id as int
}

/// The nodes that `entries` describe, in ascending order of their numbers.
pub open spec fn topology(entries: Seq<NodeEntryView>, mode: MemAccounting) -> Seq<NumaNodeView> {
    sort_by_key(discovered(entries, mode), node_key())
}

/// The number of the node that a directory called `name` is.
pub fn parse_node_name(name: &str) -> (id: Option<u32>)
    ensures
        id == node_id(name@),
{
    let chars = chars_of(name);
    let prefix = chars_of("node");
    proof {
        reveal_strlit("node");
    }
    if starts_with(chars.as_slice(), prefix.as_slice()) {
        parse_u32(slice_subrange(chars.as_slice(), 4, chars.len()))
    } else {
        None
    }
}

/// The cores `ids`, none of them sampled yet.
fn cores_of(ids: &Vec<u32>) -> (cores: Vec<CpuCore>)
    ensures
        cores@ == fresh_cores(ids@),
{
    let mut cores: Vec<CpuCore> = Vec::new();
    let mut i: usize = 0;
    while i < ids.len()
        invariant
            i <= ids@.len(),
            cores@ == fresh_cores(ids@.take(i as int)),
        decreases ids@.len() - i,
    {
        cores.push(CpuCore::new(ids[i]));
        assert(cores@ =~= fresh_cores(ids@.take(i + 1)));
        i += 1;
    }
    assert(ids@.take(i as int) == ids@);
    cores
}

/// The node that `entry` describes, if it is the directory of a node.
pub fn read_node(entry: &NodeEntry, mode: MemAccounting) -> (node: Option<NumaNode>)
    ensures
        match node {
            Some(n) => node_of(entry@, mode) == Some(n@),
            None => node_of(entry@, mode) is None,
        },
{
    if !entry.is_dir {
        return None;
    }
    let id: u32 = match parse_node_name(entry.name.as_str()) {
        Some(id) => id,
        None => {
            return None;
        },
    };
    let figures: (u64, u64) = match &entry.meminfo {
        Some(text) => match parse_node_meminfo(text.as_str(), mode) {
            Ok(figures) => figures,
            Err(_) => (0, 0),
        },
        None => (0, 0),
    };
    let cpus: Option<Vec<CpuCore>> = match &entry.cpulist {
        Some(text) => {
            let ids = parse_cpulist(text.as_str());
            if ids.len() > 0 {
                Some(cores_of(&ids))
            } else {
                None
            }
        },
        None => None,
    };
    Some(NumaNode { id, cpus, total_memory_mb: figures.0, used_memory_mb: figures.1 })
}

/// Puts `node` into `nodes` behind every node whose number is not above its
/// own.
fn insert_node(nodes: &mut Vec<NumaNode>, node: NumaNode)
    ensures
        node_views(final(nodes)@) == insert_by_key(
            node_views(old(nodes)@),
            node_key(),
            node@,
        ),
{
    let mut i: usize = nodes.len();
    while i > 0 && nodes[i - 1].id > node.id
        invariant
            i <= nodes@.len(),
            nodes@ == old(nodes)@,
            forall|j: int| i <= j < nodes@.len() ==> nodes@[j].id > node.id,
        decreases i,
    {
        i -= 1;
    }
    proof {
        let views = node_views(nodes@);
        assert forall|j: int| i <= j < views.len() implies node_key()(#[trigger] views[j])
            > node.id as int by {
            assert(views[j] == nodes@[j]@);
        }
        if i > 0 {
            assert(views[i - 1] == nodes@[i - 1]@);
        }
        lemma_insertion_point_unique(views, node_key(), node.id as int, i as int);
    }
    let ghost before = nodes@;
    let ghost added = node@;
    nodes.insert(i, node);
    assert(node_views(nodes@) =~= node_views(before).insert(i as int, added));
}

/// The nodes that the entries of the directory of nodes describe, in
/// ascending order of their numbers, each with its cores, none sampled yet,
/// and its memory figures.
pub fn get_numa_node_data(entries: &Vec<NodeEntry>, mode: MemAccounting) -> (nodes: Vec<NumaNode>)
    ensures
        node_views(nodes@) == topology(entry_views(entries@), mode),
        forall|i: int, j: int| 0 <= i < j < nodes@.len() ==> nodes@[i].id <= nodes@[j].id,
{
    let mut nodes: Vec<NumaNode> = Vec::new();
    let mut k: usize = 0;
    assert(node_views(nodes@) =~= Seq::<NumaNodeView>::empty());
    while k < entries.len()
        invariant
            k <= entries@.len(),
            node_views(nodes@) == topology(entry_views(entries@).take(k as int), mode),
        decreases entries@.len() - k,
    {
        let found = read_node(&entries[k], mode);
        proof {
            let next = entry_views(entries@).take(k + 1);
            assert(next.drop_last() == entry_views(entries@).take(k as int));
            assert(next.last() == entries@[k as int]@);
        }
        match found {
            Some(node) => {
                proof {
                    let earlier = discovered(entry_views(entries@).take(k as int), mode);
                    assert(earlier.push(node@).drop_last() == earlier);
                    assert(earlier.push(node@).last() == node@);
                }
                insert_node(&mut nodes, node);
            },
            None => {},
        }
        k += 1;
    }
    proof {
        assert(entry_views(entries@).take(k as int) == entry_views(entries@));
        let all = discovered(entry_views(entries@), mode);
        lemma_sort_by_key(all, node_key());
        assert forall|i: int, j: int| 0 <= i < j < nodes@.len() implies nodes@[i].id
            <= nodes@[j].id by {
            assert(node_views(nodes@)[i] == nodes@[i]@);
            assert(node_views(nodes@)[j] == nodes@[j]@);
            assert(node_key()(node_views(nodes@)[i]) <= node_key()(node_views(nodes@)[j]));
        }
    }
    nodes
}

} // verus!
