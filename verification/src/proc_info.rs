//! Per-core time counters and the processes bound to a core.

use crate::cpu_list::{list_contains, list_covers};
use crate::ordering::{
    insert_by_key, lemma_insertion_point_unique, lemma_sort_by_key, sort_by_key,
};
use crate::text::{
    chars_of, contains_u32, has_prefix, lemma_first_in_bounds, lemma_first_word_prefix,
    lemma_split_nonempty, lines, parse_u32, parse_u32_spec, parse_u64, parse_u64_spec, split,
    split_first, split_words, starts_with, trim, trim_bounds, words, CharClass,
};
use std::collections::HashMap;
use vstd::prelude::*;
use vstd::slice::slice_subrange;
use vstd::string::StrSliceExecFns;

verus! {

/// The cumulative time counters of one logical core, one per accounting
/// category, as the kernel reports them since boot.
#[derive(Debug, Clone, Copy)]
pub struct RawCpuTimes {
    pub user: u64,
    pub nice: u64,
    pub system: u64,
    pub idle: u64,
    pub iowait: u64,
    pub irq: u64,
    pub softirq: u64,
    pub steal: u64,
}

impl Default for RawCpuTimes {
    fn default() -> (times: RawCpuTimes)
        ensures
            times == (RawCpuTimes {
                user: 0,
                nice: 0,
                system: 0,
                idle: 0,
                iowait: 0,
                irq: 0,
                softirq: 0,
                steal: 0,
            }),
    {
        RawCpuTimes {
            user: 0,
            nice: 0,
            system: 0,
            idle: 0,
            iowait: 0,
            irq: 0,
            softirq: 0,
            steal: 0,
        }
    }
}

impl RawCpuTimes {
    /// The sum of the eight counters.
    pub open spec fn spec_total(&self) -> nat {
        (self.user + self.nice + self.system + self.idle + self.iowait + self.irq + self.softirq
            + self.steal) as nat
    }

    /// The sum of the counters but those of idleness, `idle` and `iowait`.
    pub open spec fn spec_busy(&self) -> nat {
        (self.user + self.nice + self.system + self.irq + self.softirq + self.steal) as nat
    }

    /// All the time that the counters record.
    pub fn total(&self) -> (ticks: u64)
        requires
            self.spec_total() <= u64::MAX,
        ensures
            ticks == self.spec_total(),
    {
        self.user + self.nice + self.system + self.idle + self.iowait + self.irq + self.softirq
            + self.steal
    }

    /// The time that the core did not spend idle or waiting for I/O.
    pub fn busy(&self) -> (ticks: u64)
        requires
            self.spec_busy() <= u64::MAX,
        ensures
            ticks == self.spec_busy(),
            ticks == self.spec_total() - (self.idle + self.iowait),
    {
        self.user + self.nice + self.system + self.irq + self.softirq + self.steal
    }

    /// `total`, in a width that holds every sum.
    pub fn total_wide(&self) -> (ticks: u128)
        ensures
            ticks == self.spec_total(),
    {
        self.user as u128 + self.nice as u128 + self.system as u128 + self.idle as u128
            + self.iowait as u128 + self.irq as u128 + self.softirq as u128 + self.steal as u128
    }

    /// `busy`, in a width that holds every sum.
    pub fn busy_wide(&self) -> (ticks: u128)
        ensures
            ticks == self.spec_busy(),
    {
        self.user as u128 + self.nice as u128 + self.system as u128 + self.irq as u128
            + self.softirq as u128 + self.steal as u128
    }
}

/// The counter that the field `word` holds: zero where it is no number.
pub open spec fn counter_value(word: Seq<char>) -> u64 {
    match parse_u64_spec(word) {
        Some(n) => n,
        None => 0,
    }
}

/// The core and the counters that one line of the statistics table gives.
///
/// A core's line begins with `cpu`, has the core's number as the rest of its
/// first word, and at least eight fields after it, of which the first eight
/// are the counters in the order of the fields of `RawCpuTimes`. The row of
/// all cores together, whose first word is `cpu` alone, is no core's line.
pub open spec fn stat_line_sample(line: Seq<char>) -> Option<(u32, RawCpuTimes)> {
    let w = words(line);
    if has_prefix(line, "cpu"@) && w.len() >= 9 {
        match parse_u32_spec(w[0].subrange(3, w[0].len() as int)) {
            Some(id) => Some(
                (
                    id,
                    RawCpuTimes {
                        user: counter_value(w[1]),
                        nice: counter_value(w[2]),
                        system: counter_value(w[3]),
                        idle: counter_value(w[4]),
                        iowait: counter_value(w[5]),
                        irq: counter_value(w[6]),
                        softirq: counter_value(w[7]),
                        steal: counter_value(w[8]),
                    },
                ),
            ),
            None => None,
        }
    } else {
        None
    }
}

/// The samples that the lines `table` give for the cores in `wanted`: where a
/// core has several lines, the last one counts.
pub open spec fn stat_samples(table: Seq<Seq<char>>, wanted: Seq<u32>) -> Map<u32, RawCpuTimes>
    decreases table.len(),
{
    if table.len() == 0 {
        Map::empty()
    } else {
        let earlier = stat_samples(table.drop_last(), wanted);
        match stat_line_sample(table.last()) {
            Some((id, times)) => if wanted.contains(id) {
                earlier.insert(id, times)
            } else {
                earlier
            },
            None => earlier,
        }
    }
}

/// Whether `line` is the line of the core `id`.
pub open spec fn line_of_core(line: Seq<char>, id: u32) -> bool {
    match stat_line_sample(line) {
        Some((core, _)) => core == id,
        None => false,
    }
}

/// The row of all cores together, whose first word is `cpu` and no more, is
/// the line of no core.
pub proof fn lemma_aggregate_row_is_no_core(line: Seq<char>)
    requires
        words(line).len() > 0,
        words(line)[0] == "cpu"@,
    ensures
        stat_line_sample(line) is None,
{
    reveal_strlit("cpu");
    let label = words(line)[0];
    assert(label.subrange(3, label.len() as int).len() == 0);
}

/// The samples of a table hold a core exactly when the core was asked for
/// and has a line, and then hold what the last of its lines gives.
pub proof fn lemma_stat_samples(table: Seq<Seq<char>>, wanted: Seq<u32>, id: u32)
    ensures
        stat_samples(table, wanted).contains_key(id) <==> (wanted.contains(id) && exists|i: int|
            0 <= i < table.len() && line_of_core(#[trigger] table[i], id)),
        stat_samples(table, wanted).contains_key(id) ==> exists|i: int|
            {
                &&& 0 <= i < table.len()
                &&& stat_line_sample(#[trigger] table[i]) == Some(
                    (id, stat_samples(table, wanted)[id]),
                )
                &&& forall|j: int| i < j < table.len() ==> !line_of_core(#[trigger] table[j], id)
            },
    decreases table.len(),
{
    if table.len() > 0 {
        let earlier = table.drop_last();
        let last = table.len() - 1;
        lemma_stat_samples(earlier, wanted, id);
        let samples = stat_samples(table, wanted);
        if wanted.contains(id) && line_of_core(table[last], id) {
            assert(samples.contains_key(id));
            assert(stat_line_sample(table[last]) == Some((id, samples[id])));
        } else {
            assert(samples.contains_key(id) == stat_samples(earlier, wanted).contains_key(id));
            if samples.contains_key(id) {
                assert(samples[id] == stat_samples(earlier, wanted)[id]);
                let i = choose|i: int|
                    {
                        &&& 0 <= i < earlier.len()
                        &&& stat_line_sample(#[trigger] earlier[i]) == Some(
                            (id, stat_samples(earlier, wanted)[id]),
                        )
                        &&& forall|j: int|
                            i < j < earlier.len() ==> !line_of_core(#[trigger] earlier[j], id)
                    };
                assert(table[i] == earlier[i]);
                assert forall|j: int| i < j < table.len() implies !line_of_core(
                    #[trigger] table[j],
                    id,
                ) by {
                    if j < last {
                        assert(table[j] == earlier[j]);
                    }
                }
                assert(line_of_core(table[i], id));
            }
            if wanted.contains(id) && exists|i: int|
                0 <= i < table.len() && line_of_core(#[trigger] table[i], id) {
                let i = choose|i: int|
                    0 <= i < table.len() && line_of_core(#[trigger] table[i], id);
                assert(i < last);
                assert(earlier[i] == table[i]);
            }
        }
    }
}

/// The counter that the field `word` holds.
fn counter_of(word: &[char]) -> (n: u64)
    ensures
        n == counter_value(word@),
{
    match parse_u64(word) {
        Some(n) => n,
        None => 0,
    }
}

/// The core and the counters that `line` gives, if it is a core's line.
pub fn parse_stat_line(line: &[char]) -> (r: Option<(u32, RawCpuTimes)>)
    ensures
        r == stat_line_sample(line@),
{
    let label = chars_of("cpu");
    proof {
        reveal_strlit("cpu");
    }
    if !starts_with(line, label.as_slice()) {
        return None;
    }
    let w = split_words(line);
    if w.len() < 9 {
        return None;
    }
    proof {
        lemma_first_word_prefix(line@, "cpu"@);
        assert(w@[0]@ == words(line@)[0]);
        assert forall|i: int| 0 <= i < 9 implies (#[trigger] w@[i])@ == words(line@)[i] by {}
    }
    let first: &[char] = w[0];
    match parse_u32(slice_subrange(first, 3, first.len())) {
        Some(id) => Some(
            (
                id,
                RawCpuTimes {
                    user: counter_of(w[1]),
                    nice: counter_of(w[2]),
                    system: counter_of(w[3]),
                    idle: counter_of(w[4]),
                    iowait: counter_of(w[5]),
                    irq: counter_of(w[6]),
                    softirq: counter_of(w[7]),
                    steal: counter_of(w[8]),
                },
            ),
        ),
        None => None,
    }
}

/// The samples that the statistics table `content` gives for the cores in
/// `cores_to_fetch`. A requested core without a line of its own is left out.
pub fn parse_proc_stat_for_cores(content: &str, cores_to_fetch: Vec<u32>) -> (samples: HashMap<
    u32,
    RawCpuTimes,
>)
    ensures
        samples@ == stat_samples(lines(content@), cores_to_fetch@),
{
    let chars = chars_of(content);
    let mut samples: HashMap<u32, RawCpuTimes> = HashMap::new();
    let mut rest: &[char] = chars.as_slice();
    let ghost mut done: Seq<Seq<char>> = Seq::empty();
    loop
        invariant
            lines(content@) == done + split(rest@, '\n'),
            samples@ == stat_samples(done, cores_to_fetch@),
        decreases rest@.len(),
    {
        let (line, after) = split_first(rest, '\n');
        match parse_stat_line(line) {
            Some((id, times)) => {
                if contains_u32(cores_to_fetch.as_slice(), id) {
                    samples.insert(id, times);
                }
            },
            None => {},
        }
        proof {
            let next_done = done.push(line@);
            assert(next_done.drop_last() == done);
            assert(next_done.last() == line@);
            match after {
                Some(next) => {
                    assert(done + (seq![line@] + split(next@, '\n')) == next_done + split(
                        next@,
                        '\n',
                    ));
                },
                None => {
                    assert(done + seq![line@] == next_done);
                },
            }
            done = next_done;
        }
        match after {
            None => {
                return samples;
            },
            Some(next) => {
                rest = next;
            },
        }
    }
}

/// Whether the list `cpu_list` of allowed cores names the core `target_cpu`.
pub fn parse_cpu_list(cpu_list: &str, target_cpu: u32) -> (allowed: bool)
    ensures
        allowed == list_covers(cpu_list@, target_cpu),
{
    let chars = chars_of(cpu_list);
    list_contains(chars.as_slice(), target_cpu)
}

/// Whether a process with the status listing `status` may run on the core
/// `cpu`. The first line that begins with `Cpus_allowed_list:` decides, by the
/// list that stands between its first colon and its next one; a listing
/// without such a line allows every core.
pub open spec fn affinity_allows(status: Seq<Seq<char>>, cpu: u32) -> bool
    decreases status.len(),
{
    if status.len() == 0 {
        true
    } else if has_prefix(status[0], "Cpus_allowed_list:"@) {
        list_covers(split(status[0], ':')[1], cpu)
    } else {
        affinity_allows(status.drop_first(), cpu)
    }
}

/// Whether a process with the status listing `status` may run on the core
/// `cpu_core_id`.
pub fn check_cpu_affinity(status: &str, cpu_core_id: u32) -> (allowed: bool)
    ensures
        allowed == affinity_allows(lines(status@), cpu_core_id),
{
    let chars = chars_of(status);
    let key = chars_of("Cpus_allowed_list:");
    let mut rest: &[char] = chars.as_slice();
    loop
        invariant
            key@ == "Cpus_allowed_list:"@,
            affinity_allows(lines(status@), cpu_core_id) == affinity_allows(
                split(rest@, '\n'),
                cpu_core_id,
            ),
        decreases rest@.len(),
    {
        let (line, after) = split_first(rest, '\n');
        proof {
            let all = split(rest@, '\n');
            assert(all[0] == line@);
            match after {
                Some(next) => {
                    assert(all.drop_first() == split(next@, '\n'));
                },
                None => {
                    assert(all.drop_first() == Seq::<Seq<char>>::empty());
                    assert(affinity_allows(Seq::<Seq<char>>::empty(), cpu_core_id));
                },
            }
        }
        if starts_with(line, key.as_slice()) {
            let (_, value) = split_first(line, ':');
            proof {
                reveal_strlit("Cpus_allowed_list:");
                lemma_first_in_bounds(line@, CharClass::Exactly(':'));
                assert(line@.subrange(0, 18)[17] == ':');
                assert(line@[17] == ':');
            }
            match value {
                Some(tail) => {
                    let (list, _) = split_first(tail, ':');
                    proof {
                        lemma_split_nonempty(tail@, ':');
                    }
                    return list_contains(list, cpu_core_id);
                },
                None => {
                    return true;
                },
            }
        }
        match after {
            None => {
                return true;
            },
            Some(next) => {
                rest = next;
            },
        }
    }
}

/// Whether the process with the stat line `stat` is on the core `cpu` now:
/// the word at index 38 of the line, counted from zero, is that number.
pub open spec fn runs_on(stat: Seq<char>, cpu: u32) -> bool {
    words(stat).len() > 38 && parse_u32_spec(words(stat)[38]) == Some(cpu)
}

/// Whether the process with the stat line `stat` is on the core
/// `cpu_core_id` now.
pub fn check_current_core(stat: &str, cpu_core_id: u32) -> (running: bool)
    ensures
        running == runs_on(stat@, cpu_core_id),
{
    let chars = chars_of(stat);
    let w = split_words(chars.as_slice());
    if w.len() <= 38 {
        return false;
    }
    assert(w@[38]@ == words(stat@)[38]);
    match parse_u32(w[38]) {
        Some(n) => n == cpu_core_id,
        None => false,
    }
}

/// A process that is bound to a core, as it is shown.
#[derive(Debug, Clone)]
pub struct ProcessInfo {
    pub pid: u32,
    pub name: String,
}

/// What a `ProcessInfo` holds, as mathematical values.
pub struct ProcessInfoView {
    pub pid: u32,
    pub name: Seq<char>,
}

impl View for ProcessInfo {
    type V = ProcessInfoView;

    open spec fn view(&self) -> ProcessInfoView {
        ProcessInfoView { pid: self.pid, name: self.name@ }
    }
}

/// The views of `processes`, in order.
pub open spec fn process_views(processes: Seq<ProcessInfo>) -> Seq<ProcessInfoView> {
    Seq::new(processes.len(), |i: int| processes[i]@)
}

/// The process `pid`, named by the text `comm` of its short-name file
/// without the whitespace around it.
pub fn get_process_info(pid: u32, comm: &str) -> (info: ProcessInfo)
    ensures
        info@ == (ProcessInfoView { pid, name: trim(comm@) }),
{
    let chars = chars_of(comm);
    let (from, to) = trim_bounds(chars.as_slice());
    let name = comm.substring_char(from, to).to_owned();
    ProcessInfo { pid, name }
}

/// Which processes count as bound to a core.
#[derive(Debug, Clone, Copy, PartialEq, Eq, Structural)]
pub enum AffinityMode {
    /// Those that are allowed to run on the core.
    Allowed,
    /// Those that are on the core now.
    Running,
}

/// What was read for one entry of the process table: its name, and the text
/// of its status listing, of its stat line and of its short-name file where
/// they were there to read.
#[derive(Debug, Clone)]
pub struct ProcessEntry {
    pub name: String,
    pub status: Option<String>,
    pub stat: Option<String>,
    pub comm: Option<String>,
}

/// What a `ProcessEntry` holds, as mathematical values.
pub struct ProcessEntryView {
    pub name: Seq<char>,
    pub status: Option<Seq<char>>,
    pub stat: Option<Seq<char>>,
    pub comm: Option<Seq<char>>,
}

impl View for ProcessEntry {
    type V = ProcessEntryView;

    open spec fn view(&self) -> ProcessEntryView {
        ProcessEntryView {
            name: self.name@,
            status: match self.status {
                Some(text) => Some(text@),
                None => None,
            },
            stat: match self.stat {
                Some(text) => Some(text@),
                None => None,
            },
            comm: match self.comm {
                Some(text) => Some(text@),
                None => None,
            },
        }
    }
}

/// The views of `entries`, in order.
pub open spec fn process_entry_views(entries: Seq<ProcessEntry>) -> Seq<ProcessEntryView> {
    Seq::new(entries.len(), |i: int| entries[i]@)
}

/// Whether the process of `entry` counts as bound to the core `cpu`.
///
/// A process without a status listing is taken as allowed everywhere; one
/// without a stat line is taken as running nowhere.
pub open spec fn qualifies(entry: ProcessEntryView, cpu: u32, mode: AffinityMode) -> bool {
    match mode {
        AffinityMode::Allowed => match entry.status {
            Some(text) => affinity_allows(lines(text), cpu),
            None => true,
        },
        AffinityMode::Running => match entry.stat {
            Some(text) => runs_on(text, cpu),
            None => false,
        },
    }
}

/// The process that `entry` gives for the core `cpu`: the entry's name is a
/// process number, the process counts as bound to the core, and its short
/// name could be read.
pub open spec fn process_of(entry: ProcessEntryView, cpu: u32, mode: AffinityMode) -> Option<
    ProcessInfoView,
> {
    match (parse_u32_spec(entry.name), entry.comm) {
        (Some(pid), Some(comm)) => if qualifies(entry, cpu, mode) {
            Some(ProcessInfoView { pid, name: trim(comm) })
        } else {
            None
        },
        _ => None,
    }
}

/// The processes that `entries` give for the core `cpu`, in the order of the
/// entries.
pub open spec fn bound_processes(
    entries: Seq<ProcessEntryView>,
    cpu: u32,
    mode: AffinityMode,
) -> Seq<ProcessInfoView>
    decreases entries.len(),
{
    if entries.len() == 0 {
        Seq::empty()
    } else {
        let earlier = bound_processes(entries.drop_last(), cpu, mode);
        match process_of(entries.last(), cpu, mode) {
            Some(process) => earlier.push(process),
            None => earlier,
        }
    }
}

/// The key that processes are ordered by: the highest number comes first.
pub open spec fn process_key() -> spec_fn(ProcessInfoView) -> int {
    |process: ProcessInfoView| -(process.pid as int)
}

/// The most processes that a query returns.
pub const MAX_PROCESSES: usize = 15;

/// The first `limit` values of `s`, or all of them where there are fewer.
pub open spec fn at_most<T>(s: Seq<T>, limit: nat) -> Seq<T> {
    if s.len() > limit {
        s.take(limit as int)
    } else {
        s
    }
}

/// What a query for the core `cpu` returns: the processes that `entries`
/// give for it, the highest numbers first, and no more than `MAX_PROCESSES`.
pub open spec fn query_result(entries: Seq<ProcessEntryView>, cpu: u32, mode: AffinityMode) -> Seq<
    ProcessInfoView,
> {
    at_most(sort_by_key(bound_processes(entries, cpu, mode), process_key()), MAX_PROCESSES as nat)
}

/// Where no entry of the process table gives a process for the core, a
/// query returns no process.
pub proof fn lemma_query_without_processes(
    entries: Seq<ProcessEntryView>,
    cpu: u32,
    mode: AffinityMode,
)
    requires
        forall|i: int|
            0 <= i < entries.len() ==> process_of(#[trigger] entries[i], cpu, mode) is None,
    ensures
        bound_processes(entries, cpu, mode).len() == 0,
        query_result(entries, cpu, mode).len() == 0,
    decreases entries.len(),
{
    if entries.len() > 0 {
        let earlier = entries.drop_last();
        assert forall|i: int| 0 <= i < earlier.len() implies process_of(
            #[trigger] earlier[i],
            cpu,
            mode,
        ) is None by {
            assert(earlier[i] == entries[i]);
        }
        lemma_query_without_processes(earlier, cpu, mode);
        assert(process_of(entries[entries.len() - 1], cpu, mode) is None);
    }
    lemma_sort_by_key(bound_processes(entries, cpu, mode), process_key());
}

/// A query returns no more than `MAX_PROCESSES` processes, the highest
/// process numbers first, and each of them is given by an entry of the
/// process table.
pub proof fn lemma_query_result(entries: Seq<ProcessEntryView>, cpu: u32, mode: AffinityMode)
    ensures
        query_result(entries, cpu, mode).len() <= MAX_PROCESSES,
        forall|i: int, j: int|
            0 <= i < j < query_result(entries, cpu, mode).len() ==> query_result(
                entries,
                cpu,
                mode,
            )[i].pid >= query_result(entries, cpu, mode)[j].pid,
        forall|i: int|
            0 <= i < query_result(entries, cpu, mode).len() ==> bound_processes(
                entries,
                cpu,
                mode,
            ).contains(#[trigger] query_result(entries, cpu, mode)[i]),
{
    broadcast use vstd::seq_lib::group_to_multiset_ensures;

    let bound = bound_processes(entries, cpu, mode);
    let sorted = sort_by_key(bound, process_key());
    let result = query_result(entries, cpu, mode);
    lemma_sort_by_key(bound, process_key());
    assert forall|i: int, j: int| 0 <= i < j < result.len() implies result[i].pid
        >= result[j].pid by {
        assert(result[i] == sorted[i]);
        assert(result[j] == sorted[j]);
        assert(process_key()(sorted[i]) <= process_key()(sorted[j]));
    }
    assert forall|i: int| 0 <= i < result.len() implies bound.contains(#[trigger] result[i]) by {
        assert(result[i] == sorted[i]);
        assert(sorted.contains(sorted[i]));
        sorted.to_multiset_ensures();
        bound.to_multiset_ensures();
        assert(sorted.to_multiset().count(sorted[i]) > 0);
        assert(bound.to_multiset().count(sorted[i]) > 0);
    }
}

/// The process that `entry` gives for the core `cpu`.
pub fn read_process(entry: &ProcessEntry, cpu: u32, mode: AffinityMode) -> (process: Option<
    ProcessInfo,
>)
    ensures
        match process {
            Some(p) => process_of(entry@, cpu, mode) == Some(p@),
            None => process_of(entry@, cpu, mode) is None,
        },
{
    let name = chars_of(entry.name.as_str());
    let pid: u32 = match parse_u32(name.as_slice()) {
        Some(pid) => pid,
        None => {
            return None;
        },
    };
    let bound: bool = match mode {
        AffinityMode::Allowed => match &entry.status {
            Some(text) => check_cpu_affinity(text.as_str(), cpu),
            None => true,
        },
        AffinityMode::Running => match &entry.stat {
            Some(text) => check_current_core(text.as_str(), cpu),
            None => false,
        },
    };
    if !bound {
        return None;
    }
    match &entry.comm {
        Some(text) => Some(get_process_info(pid, text.as_str())),
        None => None,
    }
}

/// Puts `process` into `processes` behind every process whose number is not
/// below its own.
fn insert_process(processes: &mut Vec<ProcessInfo>, process: ProcessInfo)
    ensures
        process_views(final(processes)@) == insert_by_key(
            process_views(old(processes)@),
            process_key(),
            process@,
        ),
{
    let mut i: usize = processes.len();
    while i > 0 && processes[i - 1].pid < process.pid
        invariant
            i <= processes@.len(),
            processes@ == old(processes)@,
            forall|j: int| i <= j < processes@.len() ==> processes@[j].pid < process.pid,
        decreases i,
    {
        i -= 1;
    }
    proof {
        let views = process_views(processes@);
        assert forall|j: int| i <= j < views.len() implies process_key()(#[trigger] views[j])
            > -(process.pid as int) by {
            assert(views[j] == processes@[j]@);
        }
        if i > 0 {
            assert(views[i - 1] == processes@[i - 1]@);
        }
        lemma_insertion_point_unique(views, process_key(), -(process.pid as int), i as int);
    }
    let ghost before = processes@;
    let ghost added = process@;
    processes.insert(i, process);
    assert(process_views(processes@) =~= process_views(before).insert(i as int, added));
}

/// The processes bound to the core `cpu_core_id` among the entries of the
/// process table: the highest process numbers first, no more than
/// `MAX_PROCESSES`, and none where no process is bound to the core.
pub fn get_processes_with_cpu_affinity(
    cpu_core_id: u32,
    entries: &Vec<ProcessEntry>,
    mode: AffinityMode,
) -> (processes: Vec<ProcessInfo>)
    ensures
        process_views(processes@) == query_result(process_entry_views(entries@), cpu_core_id, mode),
        processes@.len() <= MAX_PROCESSES,
        forall|i: int, j: int|
            0 <= i < j < processes@.len() ==> processes@[i].pid >= processes@[j].pid,
{
    let mut processes: Vec<ProcessInfo> = Vec::new();
    let mut k: usize = 0;
    assert(process_views(processes@) =~= Seq::<ProcessInfoView>::empty());
    while k < entries.len()
        invariant
            k <= entries@.len(),
            process_views(processes@) == sort_by_key(
                bound_processes(process_entry_views(entries@).take(k as int), cpu_core_id, mode),
                process_key(),
            ),
        decreases entries@.len() - k,
    {
        let found = read_process(&entries[k], cpu_core_id, mode);
        proof {
            let next = process_entry_views(entries@).take(k + 1);
            assert(next.drop_last() == process_entry_views(entries@).take(k as int));
            assert(next.last() == entries@[k as int]@);
        }
        match found {
            Some(process) => {
                proof {
                    let earlier = bound_processes(
                        process_entry_views(entries@).take(k as int),
                        cpu_core_id,
                        mode,
                    );
                    assert(earlier.push(process@).drop_last() == earlier);
                    assert(earlier.push(process@).last() == process@);
                }
                insert_process(&mut processes, process);
            },
            None => {},
        }
        k += 1;
    }
    let ghost sorted = processes@;
    proof {
        assert(process_entry_views(entries@).take(k as int) == process_entry_views(entries@));
        lemma_sort_by_key(
            bound_processes(process_entry_views(entries@), cpu_core_id, mode),
            process_key(),
        );
        assert forall|i: int, j: int| 0 <= i < j < sorted.len() implies sorted[i].pid
            >= sorted[j].pid by {
            assert(process_views(sorted)[i] == sorted[i]@);
            assert(process_views(sorted)[j] == sorted[j]@);
            assert(process_key()(process_views(sorted)[i]) <= process_key()(
                process_views(sorted)[j],
            ));
        }
    }
    processes.truncate(MAX_PROCESSES);
    assert(process_views(processes@) =~= at_most(process_views(sorted), MAX_PROCESSES as nat));
    processes
}

} // verus!
