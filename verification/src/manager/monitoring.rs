//! One refresh cycle: from the sightings of a snapshot to a new process
//! table, with a CPU usage estimated from the previous cycle's samples.

use vstd::prelude::*;
use vstd::string::StringExecFns;
use std::collections::HashMap;
use crate::platform::{Platform, DEFAULT_CORE_COUNT, DEFAULT_TICK_HZ};
use crate::process::{cpu_time, record_of, Process, RawRecord};
use crate::process::table::{distinct_pids, has_pid, index_of, lemma_upsert, upsert, ProcessTable};

verus! {

broadcast use vstd::std_specs::hash::group_hash_axioms;

/// Cumulative CPU time of one process at one moment.
#[derive(Debug, Clone, Copy, PartialEq, Eq, Structural)]
pub struct CpuSample {
    /// Ticks of CPU time used since the process started.
    pub ticks: u64,
    /// Moment of the sample on a monotonic clock, in nanoseconds.
    pub at_nanos: u64,
}

/// One entry of a snapshot of the system.
#[derive(Debug)]
pub enum Sighting {
    /// The enumeration gave an error in place of a process.
    Unlisted,
    /// The process was enumerated but could not be read: it has exited
    /// since, or the system denies the read.
    Unreadable { pid: u32 },
    /// The process was enumerated and read.
    Read { pid: u32, raw: RawRecord },
}

impl Sighting {
    /// The sighting of an enumerated process `pid`, from what its detailed
    /// read gave and whether the system's uptime could be read. A detailed
    /// read counts only with the uptime, against which the start time of
    /// the process is measured; without either the process is unreadable.
    pub fn of(pid: u32, reading: Option<RawRecord>, uptime_known: bool) -> (sighting: Sighting)
        ensures
            sighting == match reading {
                Some(raw) => if uptime_known {
                    Sighting::Read { pid, raw }
                } else {
                    Sighting::Unreadable { pid }
                },
                None => Sighting::Unreadable { pid },
            },
    {
        match reading {
            Some(raw) => if uptime_known {
                Sighting::Read { pid, raw }
            } else {
                Sighting::Unreadable { pid }
            },
            None => Sighting::Unreadable { pid },
        }
    }
}

/// Why a refresh cycle produced no table.
#[derive(Debug)]
pub enum RefreshError {
    /// The processes could not be enumerated at all.
    EnumerationFailed { reason: String },
}

/// The tick rate for the answer `queried` of the system's configuration
/// query: the answer where it is positive, else the default rate.
pub open spec fn hz_of(queried: i64) -> u64 {
    if queried > 0 { queried as u64 } else { DEFAULT_TICK_HZ }
}

/// Scheduling ticks per second, from the answer of the system's
/// configuration query. An answer that is not positive means that the rate
/// could not be found out; the default then stands in, and percentages and
/// uptimes are skewed on a system that ticks at another rate.
pub fn get_hz(queried: i64) -> (hz: u64)
    ensures
        hz == hz_of(queried),
        hz > 0,
{
    if queried > 0 { queried as u64 } else { DEFAULT_TICK_HZ }
}

/// Whether a line of `text` begins at `i`: at the start, or next after a
/// line feed.
pub open spec fn line_starts_at(text: Seq<u8>, i: int) -> bool {
    0 <= i < text.len() && (i == 0 || text[i - 1] == 10u8)
}

/// Whether `text` reads `word` from `i` on.
pub open spec fn reads_at(text: Seq<u8>, i: int, word: Seq<u8>) -> bool {
    0 <= i && i + word.len() <= text.len() && text.subrange(i, i + word.len()) == word
}

/// How many lines that begin before `upto` begin with `word`.
pub open spec fn lines_with(text: Seq<u8>, word: Seq<u8>, upto: int) -> nat
    decreases upto,
{
    if upto <= 0 {
        0
    } else {
        lines_with(text, word, upto - 1) + if line_starts_at(text, upto - 1) && reads_at(text, upto - 1, word) {
            1nat
        } else {
            0nat
        }
    }
}

/// `processor`, the word that begins the line of each logical processor
/// in the CPU listing.
pub open spec fn processor_word() -> Seq<u8> {
    seq![112u8, 114u8, 111u8, 99u8, 101u8, 115u8, 115u8, 111u8, 114u8]
}

/// `cpu`, the word that begins each CPU line of the system statistics.
pub open spec fn cpu_word() -> Seq<u8> {
    seq![99u8, 112u8, 117u8]
}

/// `cpu` and a space, which begin the line of the total over all CPUs.
pub open spec fn cpu_total_word() -> Seq<u8> {
    seq![99u8, 112u8, 117u8, 32u8]
}

/// The number of logical processors that the two texts tell: the
/// `processor` lines of the CPU listing where there is one, else the `cpu`
/// lines of the system statistics but for the line of the total; and 1
/// where neither text is there or none tells of a processor.
pub open spec fn cores_of(cpuinfo: Option<Seq<u8>>, stat: Option<Seq<u8>>) -> u64 {
    let counted: int = match cpuinfo {
        Some(text) => lines_with(text, processor_word(), text.len() as int) as int,
        None => match stat {
            Some(text) => lines_with(text, cpu_word(), text.len() as int) - lines_with(
                text,
                cpu_total_word(),
                text.len() as int,
            ),
            None => 0,
        },
    };
    if counted <= 0 || counted > u64::MAX { DEFAULT_CORE_COUNT } else { counted as u64 }
}

/// Whether `text` reads `word` from `i` on.
pub fn word_at(text: &[u8], i: usize, word: &[u8]) -> (found: bool)
    ensures
        found == reads_at(text@, i as int, word@),
{
    if word.len() > text.len() || i > text.len() - word.len() {
        return false;
    }
    let mut k: usize = 0;
    while k < word.len()
        invariant
            k <= word.len(),
            i + word.len() <= text.len(),
            forall|j: int| 0 <= j < k ==> text@[i + j] == word@[j],
        decreases word.len() - k,
    {
        if text[i + k] != word[k] {
            proof {
                assert(text@.subrange(i as int, i + word.len())[k as int] == text@[i + k]);
            }
            return false;
        }
        k += 1;
    }
    proof {
        assert(text@.subrange(i as int, i + word.len()) =~= word@);
    }
    true
}

/// Counts the lines of `text` that begin with `word`.
pub fn count_lines_with(text: &[u8], word: &[u8]) -> (count: usize)
    ensures
        count == lines_with(text@, word@, text@.len() as int),
{
    let mut count: usize = 0;
    let mut i: usize = 0;
    while i < text.len()
        invariant
            i <= text.len(),
            count <= i,
            count == lines_with(text@, word@, i as int),
        decreases text.len() - i,
    {
        if (i == 0 || text[i - 1] == 10u8) && word_at(text, i, word) {
            count += 1;
        }
        i += 1;
    }
    count
}

/// A line that begins with a word begins with each of its beginnings too.
pub proof fn lemma_longer_word_fewer_lines(text: Seq<u8>, word: Seq<u8>, longer: Seq<u8>, upto: int)
    requires
        word.len() <= longer.len(),
        longer.subrange(0, word.len() as int) == word,
    ensures
        lines_with(text, longer, upto) <= lines_with(text, word, upto),
    decreases upto,
{
    if upto > 0 {
        lemma_longer_word_fewer_lines(text, word, longer, upto - 1);
        let i = upto - 1;
        if reads_at(text, i, longer) {
            assert(text.subrange(i, i + word.len()) =~= text.subrange(i, i + longer.len()).subrange(
                0,
                word.len() as int,
            ));
        }
    }
}

/// The number of logical processors, from the text of the CPU listing
/// where it could be read and the text of the system statistics where
/// that could be read. Where the number cannot be found out it is taken to
/// be 1, which makes the percentages of a machine with more cores too high.
pub fn get_num_cores(cpuinfo: Option<&[u8]>, stat: Option<&[u8]>) -> (cores: u64)
    ensures
        cores == cores_of(
            match cpuinfo {
                Some(text) => Some(text@),
                None => None,
            },
            match stat {
                Some(text) => Some(text@),
                None => None,
            },
        ),
        cores > 0,
{
    let counted: usize = match cpuinfo {
        Some(text) => {
            let word: [u8; 9] = [112u8, 114u8, 111u8, 99u8, 101u8, 115u8, 115u8, 111u8, 114u8];
            assert(word@ =~= processor_word());
            count_lines_with(text, word.as_slice())
        },
        None => match stat {
            Some(text) => {
                let word: [u8; 3] = [99u8, 112u8, 117u8];
                let total: [u8; 4] = [99u8, 112u8, 117u8, 32u8];
                assert(word@ =~= cpu_word());
                assert(total@ =~= cpu_total_word());
                proof {
                    assert(cpu_total_word().subrange(0, 3) =~= cpu_word());
                    lemma_longer_word_fewer_lines(text@, cpu_word(), cpu_total_word(), text@.len() as int);
                }
                let all = count_lines_with(text, word.as_slice());
                let totals = count_lines_with(text, total.as_slice());
                all - totals
            },
            None => 0,
        },
    };
    if counted == 0 { DEFAULT_CORE_COUNT } else { counted as u64 }
}

impl RefreshError {
    /// The message of this error: that the process list could not be
    /// read, and the reason given for it.
    pub fn message(&self) -> (text: String)
        ensures
            text@ == "Failed to read process list: "@ + self->reason@,
    {
        let mut text = String::new();
        text.append("Failed to read process list: ");
        match self {
            RefreshError::EnumerationFailed { reason } => {
                text.append(reason.as_str());
            },
        }
        assert(text@ =~= "Failed to read process list: "@ + self->reason@);
        text
    }

    /// The message of this error where it kept a manager from being made.
    pub fn initial_load_message(&self) -> (text: String)
        ensures
            text@ == "Failed initial process load: "@ + ("Failed to read process list: "@ + self->reason@),
    {
        let mut text = String::new();
        text.append("Failed initial process load: ");
        let cause = self.message();
        text.append(cause.as_str());
        assert(text@ =~= "Failed initial process load: "@ + ("Failed to read process list: "@ + self->reason@));
        text
    }
}

/// Hundredths of a percent per tick-second of CPU time and nanosecond of
/// wall time: 100 (percent) * 100 (hundredths) * 10^9.
pub const USAGE_SCALE: u128 = 10_000_000_000_000;

/// CPU usage in hundredths of a percent, rounded down and capped at
/// `u64::MAX`: the CPU seconds used (`delta_ticks / tick_hz`) by the wall
/// seconds elapsed, as a percentage, spread over the cores. 0 where no time
/// has elapsed or a divisor is 0.
pub open spec fn cpu_usage(delta_ticks: u64, delta_nanos: u64, tick_hz: u64, core_count: u64) -> u64 {
    if delta_nanos == 0 || tick_hz == 0 || core_count == 0 {
        0
    } else {
        let q = (delta_ticks as nat * USAGE_SCALE as nat) / (tick_hz as nat * core_count as nat
            * delta_nanos as nat);
        if q > u64::MAX { u64::MAX } else { q as u64 }
    }
}

/// `a - b`, or 0 where `b` is the larger.
pub open spec fn elapsed(a: u64, b: u64) -> u64 {
    if a >= b { (a - b) as u64 } else { 0 }
}

/// The usage estimated for a process from its current sample and the one
/// before: 0 for a process with no earlier sample.
pub open spec fn estimate(current: CpuSample, previous: Option<CpuSample>, platform: Platform) -> u64 {
    match previous {
        None => 0,
        Some(before) => cpu_usage(
            elapsed(current.ticks, before.ticks),
            elapsed(current.at_nanos, before.at_nanos),
            platform.tick_hz,
            platform.core_count,
        ),
    }
}

/// Computes `cpu_usage`.
pub fn compute_cpu_usage(delta_ticks: u64, delta_nanos: u64, tick_hz: u64, core_count: u64) -> (usage: u64)
    ensures
        usage == cpu_usage(delta_ticks, delta_nanos, tick_hz, core_count),
{
    if delta_nanos == 0 || tick_hz == 0 || core_count == 0 {
        return 0;
    }
    assert(delta_ticks as int * USAGE_SCALE as int <= u64::MAX as int * USAGE_SCALE as int) by (nonlinear_arith)
        requires
            delta_ticks <= u64::MAX,
    ;
    assert(tick_hz as int * core_count as int <= u64::MAX as int * u64::MAX as int) by (nonlinear_arith)
        requires
            tick_hz <= u64::MAX,
            core_count <= u64::MAX,
    ;
    let used: u128 = delta_ticks as u128 * USAGE_SCALE;
    let rate: u128 = tick_hz as u128 * core_count as u128;
    match rate.checked_mul(delta_nanos as u128) {
        Some(span) => {
            assert(span > 0) by (nonlinear_arith)
                requires
                    span == rate * delta_nanos,
                    rate == tick_hz * core_count,
                    tick_hz > 0,
                    core_count > 0,
                    delta_nanos > 0,
            ;
            let q: u128 = used / span;
            if q > u64::MAX as u128 { u64::MAX } else { q as u64 }
        },
        None => {
            proof {
                let span = tick_hz as int * core_count as int * delta_nanos as int;
                assert(span > u128::MAX);
                assert(used < span);
                assert(used as int / span == 0) by (nonlinear_arith)
                    requires
                        0 <= used < span,
                ;
            }
            0
        },
    }
}

/// Estimates the usage of a process from its current and previous sample.
pub fn estimate_cpu(current: CpuSample, previous: Option<CpuSample>, platform: &Platform) -> (usage: u64)
    ensures
        usage == estimate(current, previous, *platform),
        previous is None ==> usage == 0,
{
    match previous {
        None => 0,
        Some(before) => compute_cpu_usage(
            current.ticks.saturating_sub(before.ticks),
            current.at_nanos.saturating_sub(before.at_nanos),
            platform.tick_hz,
            platform.core_count,
        ),
    }
}

/// The sample of `pid` in `history`, if it has one.
pub open spec fn sample_of(history: Map<u32, CpuSample>, pid: u32) -> Option<CpuSample> {
    if history.contains_key(pid) { Some(history[pid]) } else { None }
}

/// The record that a reading of `pid` gives in a cycle at `now_nanos`,
/// against the samples of the cycle before.
pub open spec fn process_at(
    pid: u32,
    raw: RawRecord,
    history: Map<u32, CpuSample>,
    now_nanos: u64,
    uptime_centis: u64,
    platform: Platform,
) -> Process {
    record_of(pid, raw, platform, uptime_centis).with_cpu(
        estimate(
            CpuSample { ticks: cpu_time(raw.utime, raw.stime), at_nanos: now_nanos },
            sample_of(history, pid),
            platform,
        ),
    )
}

/// The table that a snapshot gives: the sightings that were read, entered
/// one after the other; those that were not leave no trace.
pub open spec fn table_after(
    snapshot: Seq<Sighting>,
    history: Map<u32, CpuSample>,
    now_nanos: u64,
    uptime_centis: u64,
    platform: Platform,
) -> Seq<Process>
    decreases snapshot.len(),
{
    if snapshot.len() == 0 {
        Seq::empty()
    } else {
        let before = table_after(snapshot.drop_last(), history, now_nanos, uptime_centis, platform);
        match snapshot.last() {
            Sighting::Read { pid, raw } => upsert(
                before,
                process_at(pid, raw, history, now_nanos, uptime_centis, platform),
            ),
            _ => before,
        }
    }
}

/// The samples that a snapshot leaves for the next cycle: one for each
/// process that was read, taken at `now_nanos`.
pub open spec fn history_after(snapshot: Seq<Sighting>, now_nanos: u64) -> Map<u32, CpuSample>
    decreases snapshot.len(),
{
    if snapshot.len() == 0 {
        Map::empty()
    } else {
        let before = history_after(snapshot.drop_last(), now_nanos);
        match snapshot.last() {
            Sighting::Read { pid, raw } => before.insert(
                pid,
                CpuSample { ticks: cpu_time(raw.utime, raw.stime), at_nanos: now_nanos },
            ),
            _ => before,
        }
    }
}

/// How many sightings of a snapshot were read.
pub open spec fn read_count(snapshot: Seq<Sighting>) -> nat
    decreases snapshot.len(),
{
    if snapshot.len() == 0 {
        0
    } else {
        read_count(snapshot.drop_last()) + if snapshot.last() is Read { 1nat } else { 0nat }
    }
}

/// Whether `snapshot` holds a successful read of `pid`.
pub open spec fn was_read(snapshot: Seq<Sighting>, pid: u32) -> bool {
    exists|i: int| 0 <= i < snapshot.len() && (#[trigger] snapshot[i]) is Read && snapshot[i]->Read_pid == pid
}

/// After every cycle the table holds a pid exactly if the snapshot holds a
/// successful read of it, and holds no pid twice.
pub proof fn lemma_table_holds_what_was_read(
    snapshot: Seq<Sighting>,
    history: Map<u32, CpuSample>,
    now_nanos: u64,
    uptime_centis: u64,
    platform: Platform,
)
    ensures
        distinct_pids(table_after(snapshot, history, now_nanos, uptime_centis, platform)),
        forall|pid: u32|
            has_pid(table_after(snapshot, history, now_nanos, uptime_centis, platform), pid) <==> was_read(
                snapshot,
                pid,
            ),
    decreases snapshot.len(),
{
    let t = table_after(snapshot, history, now_nanos, uptime_centis, platform);
    if snapshot.len() == 0 {
        assert forall|pid: u32| !has_pid(t, pid) by {}
    } else {
        let front = snapshot.drop_last();
        let before = table_after(front, history, now_nanos, uptime_centis, platform);
        lemma_table_holds_what_was_read(front, history, now_nanos, uptime_centis, platform);
        let n = snapshot.len() - 1;
        assert forall|pid: u32| was_read(front, pid) implies was_read(snapshot, pid) by {
            let i = choose|i: int| 0 <= i < front.len() && (#[trigger] front[i]) is Read && front[i]->Read_pid == pid;
            assert(snapshot[i] == front[i]);
        }
        assert forall|pid: u32| was_read(snapshot, pid) && !(snapshot[n] is Read && snapshot[n]->Read_pid
            == pid) implies was_read(front, pid) by {
            let i = choose|i: int|
                0 <= i < snapshot.len() && (#[trigger] snapshot[i]) is Read && snapshot[i]->Read_pid == pid;
            assert(front[i] == snapshot[i]);
        }
        match snapshot.last() {
            Sighting::Read { pid, raw } => {
                let process = process_at(pid, raw, history, now_nanos, uptime_centis, platform);
                lemma_upsert(before, process);
                assert(snapshot[n] is Read && snapshot[n]->Read_pid == pid);
                assert(was_read(snapshot, pid));
            },
            _ => {},
        }
    }
}

/// A pid that has no sample from the cycle before, because it is seen for
/// the first time, stands in the new table with a CPU usage of exactly 0.
pub proof fn lemma_first_sighting_has_no_usage(
    snapshot: Seq<Sighting>,
    history: Map<u32, CpuSample>,
    now_nanos: u64,
    uptime_centis: u64,
    platform: Platform,
)
    ensures
        forall|i: int|
            #![trigger table_after(snapshot, history, now_nanos, uptime_centis, platform)[i]]
            0 <= i < table_after(snapshot, history, now_nanos, uptime_centis, platform).len()
                && !history.contains_key(
                table_after(snapshot, history, now_nanos, uptime_centis, platform)[i].process_id,
            ) ==> table_after(
                snapshot,
                history,
                now_nanos,
                uptime_centis,
                platform,
            )[i].pcb_data.cpu_percent == 0,
    decreases snapshot.len(),
{
    if snapshot.len() > 0 {
        let front = snapshot.drop_last();
        lemma_first_sighting_has_no_usage(front, history, now_nanos, uptime_centis, platform);
    }
}

/// Two cycles over the same snapshot give the same table but for what time
/// changes, whatever samples and clock readings they start from: the same
/// pids in the same places, with the same values in every field but the
/// CPU usage and the uptime; and with the same uptime too where the system
/// has been up equally long.
pub proof fn lemma_refresh_repeatable(
    snapshot: Seq<Sighting>,
    first_history: Map<u32, CpuSample>,
    first_now: u64,
    first_uptime: u64,
    second_history: Map<u32, CpuSample>,
    second_now: u64,
    second_uptime: u64,
    platform: Platform,
)
    ensures
        table_after(snapshot, first_history, first_now, first_uptime, platform).len() == table_after(
            snapshot,
            second_history,
            second_now,
            second_uptime,
            platform,
        ).len(),
        forall|i: int|
            #![trigger table_after(snapshot, first_history, first_now, first_uptime, platform)[i]]
            0 <= i < table_after(snapshot, first_history, first_now, first_uptime, platform).len()
                ==> table_after(snapshot, first_history, first_now, first_uptime, platform)[i].steady()
                == table_after(snapshot, second_history, second_now, second_uptime, platform)[i].steady(),
        first_uptime == second_uptime ==> forall|i: int|
            #![trigger table_after(snapshot, first_history, first_now, first_uptime, platform)[i]]
            0 <= i < table_after(snapshot, first_history, first_now, first_uptime, platform).len()
                ==> table_after(snapshot, first_history, first_now, first_uptime, platform)[i].with_cpu(0)
                == table_after(snapshot, second_history, second_now, second_uptime, platform)[i].with_cpu(
                0,
            ),
    decreases snapshot.len(),
{
    if snapshot.len() > 0 {
        let front = snapshot.drop_last();
        let a = table_after(front, first_history, first_now, first_uptime, platform);
        let b = table_after(front, second_history, second_now, second_uptime, platform);
        lemma_refresh_repeatable(
            front,
            first_history,
            first_now,
            first_uptime,
            second_history,
            second_now,
            second_uptime,
            platform,
        );
        lemma_table_holds_what_was_read(front, first_history, first_now, first_uptime, platform);
        lemma_table_holds_what_was_read(front, second_history, second_now, second_uptime, platform);
        let first_table = table_after(snapshot, first_history, first_now, first_uptime, platform);
        let second_table = table_after(snapshot, second_history, second_now, second_uptime, platform);
        match snapshot.last() {
            Sighting::Read { pid, raw } => {
                let one = process_at(pid, raw, first_history, first_now, first_uptime, platform);
                let two = process_at(pid, raw, second_history, second_now, second_uptime, platform);
                assert(one.steady() == two.steady());
                assert(first_table == upsert(a, one));
                assert(second_table == upsert(b, two));
                if has_pid(a, pid) {
                    let k = index_of(a, pid);
                    assert(a[k].steady() == b[k].steady());
                    assert(b[k].process_id == pid);
                    let m = index_of(b, pid);
                    assert(k == m);
                    assert(first_table == a.update(k, one));
                    assert(second_table == b.update(k, two));
                } else {
                    if has_pid(b, pid) {
                        let m = index_of(b, pid);
                        assert(a[m].steady() == b[m].steady());
                        assert(a[m].process_id == pid);
                    }
                    assert(first_table == a.push(one));
                    assert(second_table == b.push(two));
                }
                assert forall|i: int| 0 <= i < first_table.len() implies (#[trigger] first_table[i]).steady()
                    == second_table[i].steady() by {
                    if i < a.len() {
                        assert(a[i].steady() == b[i].steady());
                    }
                }
                if first_uptime == second_uptime {
                    assert(one.with_cpu(0) == two.with_cpu(0));
                    assert forall|i: int| 0 <= i < first_table.len() implies (#[trigger] first_table[i]).with_cpu(
                        0,
                    ) == second_table[i].with_cpu(0) by {
                        if i < a.len() {
                            assert(a[i].with_cpu(0) == b[i].with_cpu(0));
                        }
                    }
                }
            },
            _ => {
                assert(first_table == a);
                assert(second_table == b);
            },
        }
    }
}

/// After every cycle the samples are those of the processes in the new
/// table and of no other, each taken at the cycle's clock reading.
pub proof fn lemma_history_follows_table(
    snapshot: Seq<Sighting>,
    history: Map<u32, CpuSample>,
    now_nanos: u64,
    uptime_centis: u64,
    platform: Platform,
)
    ensures
        forall|pid: u32|
            history_after(snapshot, now_nanos).contains_key(pid) <==> has_pid(
                table_after(snapshot, history, now_nanos, uptime_centis, platform),
                pid,
            ),
        forall|pid: u32| #[trigger]
            history_after(snapshot, now_nanos).contains_key(pid) ==> history_after(
                snapshot,
                now_nanos,
            )[pid].at_nanos == now_nanos,
    decreases snapshot.len(),
{
    let t = table_after(snapshot, history, now_nanos, uptime_centis, platform);
    if snapshot.len() == 0 {
        assert forall|pid: u32| !has_pid(t, pid) by {}
    } else {
        let front = snapshot.drop_last();
        let before = table_after(front, history, now_nanos, uptime_centis, platform);
        let h = history_after(snapshot, now_nanos);
        let h_before = history_after(front, now_nanos);
        lemma_history_follows_table(front, history, now_nanos, uptime_centis, platform);
        lemma_table_holds_what_was_read(front, history, now_nanos, uptime_centis, platform);
        match snapshot.last() {
            Sighting::Read { pid, raw } => {
                let process = process_at(pid, raw, history, now_nanos, uptime_centis, platform);
                lemma_upsert(before, process);
                assert(t == upsert(before, process));
                assert(h == h_before.insert(
                    pid,
                    CpuSample { ticks: cpu_time(raw.utime, raw.stime), at_nanos: now_nanos },
                ));
                assert forall|q: u32| h.contains_key(q) <==> has_pid(t, q) by {
                    assert(h.contains_key(q) <==> (q == pid || h_before.contains_key(q)));
                    assert(has_pid(t, q) <==> (q == process.process_id || has_pid(before, q)));
                }
            },
            _ => {
                assert(t == before);
                assert(h == h_before);
            },
        }
    }
}

/// Runs one refresh cycle. Where the enumeration failed, the error is
/// returned and the table and the samples stay as they were. Otherwise the
/// table is replaced by the one that the snapshot gives, the samples by
/// those of the processes in it, and the number of processes read is
/// returned.
pub fn refresh_processes(
    processes: &mut ProcessTable,
    previous_cpu_times: &mut HashMap<u32, CpuSample>,
    snapshot: Result<Vec<Sighting>, String>,
    now_nanos: u64,
    uptime_centis: u64,
    platform: &Platform,
) -> (loaded: Result<usize, RefreshError>)
    ensures
        match snapshot {
            Err(reason) => {
                &&& loaded == Err::<usize, RefreshError>(RefreshError::EnumerationFailed { reason })
                &&& *final(processes) == *old(processes)
                &&& *final(previous_cpu_times) == *old(previous_cpu_times)
            },
            Ok(sightings) => {
                &&& loaded == Ok::<usize, RefreshError>(read_count(sightings@) as usize)
                &&& read_count(sightings@) <= usize::MAX
                &&& final(processes)@ == table_after(
                    sightings@,
                    old(previous_cpu_times)@,
                    now_nanos,
                    uptime_centis,
                    *platform,
                )
                &&& final(previous_cpu_times)@ == history_after(sightings@, now_nanos)
            },
        },
{
    let sightings = match snapshot {
        Ok(sightings) => sightings,
        Err(reason) => {
            return Err(RefreshError::EnumerationFailed { reason });
        },
    };
    let ghost history = previous_cpu_times@;
    let mut table = ProcessTable::new();
    let mut samples: HashMap<u32, CpuSample> = HashMap::new();
    let mut loaded: usize = 0;
    let mut i: usize = 0;
    while i < sightings.len()
        invariant
            i <= sightings.len(),
            previous_cpu_times@ == history,
            table@ == table_after(sightings@.take(i as int), history, now_nanos, uptime_centis, *platform),
            samples@ == history_after(sightings@.take(i as int), now_nanos),
            loaded == read_count(sightings@.take(i as int)),
            loaded <= i,
        decreases sightings.len() - i,
    {
        proof {
            assert(sightings@.take(i + 1).drop_last() == sightings@.take(i as int));
            assert(sightings@.take(i + 1).last() == sightings@[i as int]);
        }
        match &sightings[i] {
            Sighting::Read { pid, raw } => {
                let mut process = Process::from_raw(*pid, raw, platform, uptime_centis);
                let current = CpuSample { ticks: Process::get_cpu_time_jiffies(raw), at_nanos: now_nanos };
                let previous = match previous_cpu_times.get(pid) {
                    Some(sample) => Some(*sample),
                    None => None,
                };
                let usage = estimate_cpu(current, previous, platform);
                process.set_cpu_percent(usage);
                table.insert(process);
                samples.insert(*pid, current);
                loaded += 1;
            },
            _ => {},
        }
        i += 1;
    }
    proof {
        assert(sightings@.take(sightings@.len() as int) == sightings@);
    }
    *processes = table;
    *previous_cpu_times = samples;
    Ok(loaded)
}

} // verus!
