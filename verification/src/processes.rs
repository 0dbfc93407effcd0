//! The subprocesses that were started, so that those which outlive the host are
//! ended when it next starts.
use vstd::prelude::*;
use crate::shared;
use crate::shared::join;
use crate::text;
use crate::text::{clone_texts, contains, owned};

verus! {

/// A subprocess that was started.
pub struct ProcessRecord {
    pub pid: u32,
    pub kind: String,
    /// The command line of the process holds all of these.
    pub verify_substrings: Vec<String>,
    pub added_at_unix_secs: u64,
}

/// The model of a `ProcessRecord`.
pub struct RecordView {
    pub pid: u32,
    pub kind: Seq<char>,
    pub verify_substrings: Seq<Seq<char>>,
    pub added_at_unix_secs: u64,
}

impl View for ProcessRecord {
    type V = RecordView;

    open spec fn view(&self) -> RecordView {
        RecordView {
            pid: self.pid,
            kind: self.kind@,
            verify_substrings: text::texts(self.verify_substrings@),
            added_at_unix_secs: self.added_at_unix_secs,
        }
    }
}

impl ProcessRecord {
    /// A copy of the record.
    pub fn copy(&self) -> (r: ProcessRecord)
        ensures
            r@ == self@,
    {
        ProcessRecord {
            pid: self.pid,
            kind: self.kind.clone(),
            verify_substrings: clone_texts(&self.verify_substrings),
            added_at_unix_secs: self.added_at_unix_secs,
        }
    }
}

/// The models of records.
pub open spec fn records_view(s: Seq<ProcessRecord>) -> Seq<RecordView> {
    s.map_values(|r: ProcessRecord| r@)
}

/// The file of the records.
pub fn registry_path(config_dir: &str) -> (r: String)
    ensures
        r@ == shared::joined(shared::joined(config_dir@, "runtime"@), "processes.json"@),
{
    let dir = join(config_dir, "runtime");
    join(&dir, "processes.json")
}

/// The records among the first `n` that are not of a process.
pub open spec fn without_pid(s: Seq<RecordView>, pid: u32, n: nat) -> Seq<RecordView>
    decreases n,
{
    if n == 0 || n > s.len() {
        Seq::empty()
    } else {
        let rest = without_pid(s, pid, (n - 1) as nat);
        if s[n - 1].pid != pid {
            rest.push(s[n - 1])
        } else {
            rest
        }
    }
}

fn retain_others(records: &Vec<ProcessRecord>, pid: u32) -> (r: Vec<ProcessRecord>)
    ensures
        records_view(r@) == without_pid(records_view(records@), pid, records@.len()),
{
    let ghost all = records_view(records@);
    let mut out: Vec<ProcessRecord> = Vec::new();
    let mut i: usize = 0;
    assert(records_view(out@) =~= Seq::empty());
    while i < records.len()
        invariant
            i <= records@.len(),
            all == records_view(records@),
            records_view(out@) == without_pid(all, pid, i as nat),
        decreases records@.len() - i,
    {
        assert(all[i as int] == records@[i as int]@);
        if records[i].pid != pid {
            let ghost before = out@;
            let c = records[i].copy();
            out.push(c);
            assert(records_view(out@) =~= records_view(before).push(c@));
        }
        i = i + 1;
    }
    out
}

/// The records after a process was recorded. Nothing is recorded of process 0.
pub open spec fn recorded(s: Seq<RecordView>, r: RecordView) -> Seq<RecordView> {
    if r.pid == 0 {
        s
    } else {
        without_pid(s, r.pid, s.len()).push(r)
    }
}

/// Records a process at the time `now`, in place of an older record of the same
/// id.
pub fn record_process(
    records: &mut Vec<ProcessRecord>,
    pid: u32,
    kind: &str,
    verify_substrings: Vec<String>,
    now: u64,
)
    ensures
        records_view(final(records)@) == recorded(
            records_view(old(records)@),
            RecordView {
                pid,
                kind: kind@,
                verify_substrings: text::texts(verify_substrings@),
                added_at_unix_secs: now,
            },
        ),
{
    if pid == 0 {
        return;
    }
    let mut kept = retain_others(records, pid);
    let r = ProcessRecord {
        pid,
        kind: owned(kind),
        verify_substrings,
        added_at_unix_secs: now,
    };
    let ghost before = kept@;
    kept.push(r);
    assert(records_view(kept@) =~= records_view(before).push(r@));
    *records = kept;
}

/// Removes the record of a process. Whether there was one, so that the records
/// are to be written.
pub fn unrecord_process(records: &mut Vec<ProcessRecord>, pid: u32) -> (r: bool)
    ensures
        pid == 0 ==> !r && *final(records) == *old(records),
        pid != 0 ==> records_view(final(records)@) == without_pid(
            records_view(old(records)@),
            pid,
            old(records)@.len(),
        ) && r == (final(records)@.len() != old(records)@.len()),
{
    if pid == 0 {
        return false;
    }
    let kept = retain_others(records, pid);
    let changed = kept.len() != records.len();
    *records = kept;
    changed
}

proof fn lemma_without_pid(s: Seq<RecordView>, pid: u32, n: nat)
    requires
        n <= s.len(),
    ensures
        (forall|i: int| 0 <= i < n ==> (#[trigger] s[i]).pid != pid) ==> without_pid(s, pid, n)
            == s.take(n as int),
    decreases n,
{
    if n == 0 {
        assert(s.take(0) =~= Seq::<RecordView>::empty());
    } else {
        lemma_without_pid(s, pid, (n - 1) as nat);
        assert(s.take(n as int) =~= s.take(n - 1).push(s[n - 1]));
    }
}

/// A process that was recorded has exactly one record, and the records of
/// others stay; once it is removed again, none is left of it.
pub proof fn law_record_and_unrecord(s: Seq<RecordView>, r: RecordView)
    requires
        r.pid != 0,
        forall|i: int| 0 <= i < s.len() ==> (#[trigger] s[i]).pid != r.pid,
    ensures
        recorded(s, r) == s.push(r),
        without_pid(recorded(s, r), r.pid, recorded(s, r).len()) == s,
        recorded(recorded(s, r), r) == recorded(s, r),
{
    lemma_without_pid(s, r.pid, s.len());
    assert(s.take(s.len() as int) =~= s);
    let t = s.push(r);
    assert(t.take(s.len() as int) =~= s);
    lemma_without_prefix(s, t, r.pid, s.len());
    assert(without_pid(t, r.pid, t.len()) == without_pid(t, r.pid, s.len()));
}

proof fn lemma_without_prefix(s: Seq<RecordView>, t: Seq<RecordView>, pid: u32, n: nat)
    requires
        n <= s.len(),
        s.len() <= t.len(),
        t.take(s.len() as int) == s,
    ensures
        without_pid(t, pid, n) == without_pid(s, pid, n),
    decreases n,
{
    if n > 0 {
        lemma_without_prefix(s, t, pid, (n - 1) as nat);
        assert(t[n - 1] == t.take(s.len() as int)[n - 1]);
    }
}

// ---------------------------------------------------------------------------
// Cleaning up
// ---------------------------------------------------------------------------

/// What is found of a recorded process.
pub enum Liveness {
    /// There is no such process.
    Gone,
    /// Its command line.
    CommandLine(String),
    /// Its command line cannot be looked at.
    Unknown,
}

/// A command line holds all of the given texts.
pub open spec fn matches_all(cmdline: Seq<char>, needles: Seq<Seq<char>>) -> bool {
    forall|i: int| 0 <= i < needles.len() ==> text::contains_text(cmdline, #[trigger] needles[i])
}

fn holds_all(cmdline: &str, needles: &Vec<String>) -> (r: bool)
    ensures
        r == matches_all(cmdline@, text::texts(needles@)),
{
    let ghost all = text::texts(needles@);
    let mut i: usize = 0;
    while i < needles.len()
        invariant
            i <= needles@.len(),
            all == text::texts(needles@),
            forall|j: int| 0 <= j < i ==> text::contains_text(cmdline@, #[trigger] all[j]),
        decreases needles@.len() - i,
    {
        assert(all[i as int] == needles@[i as int]@);
        if !contains(cmdline, &needles[i]) {
            return false;
        }
        i = i + 1;
    }
    true
}

/// What becomes of a recorded process.
#[derive(Clone, Copy, PartialEq, Eq, Structural, Debug)]
pub enum Fate {
    /// It is left alone, and its record stays.
    Keep,
    /// Its record goes.
    Forget,
    /// It is ended, and its record goes.
    End,
}

/// What becomes of a recorded process: the host itself, and a process that may
/// be another, is left alone.
pub open spec fn fate_of(r: RecordView, current_pid: u32, found: Liveness) -> Fate {
    if r.pid == current_pid {
        Fate::Keep
    } else {
        match found {
            Liveness::Gone => Fate::Forget,
            Liveness::Unknown => Fate::Keep,
            Liveness::CommandLine(c) => if matches_all(c@, r.verify_substrings) {
                Fate::End
            } else {
                Fate::Keep
            },
        }
    }
}

/// What becomes of a recorded process.
pub fn decide_fate(record: &ProcessRecord, current_pid: u32, found: &Liveness) -> (r: Fate)
    ensures
        r == fate_of(record@, current_pid, *found),
{
    if record.pid == current_pid {
        return Fate::Keep;
    }
    match found {
        Liveness::Gone => Fate::Forget,
        Liveness::Unknown => Fate::Keep,
        Liveness::CommandLine(c) => if holds_all(c, &record.verify_substrings) {
            Fate::End
        } else {
            Fate::Keep
        },
    }
}

/// The records among the first `n` that stay.
pub open spec fn kept_records(
    s: Seq<RecordView>,
    current_pid: u32,
    found: Seq<Liveness>,
    n: nat,
) -> Seq<RecordView>
    decreases n,
{
    if n == 0 || n > s.len() {
        Seq::empty()
    } else {
        let rest = kept_records(s, current_pid, found, (n - 1) as nat);
        if fate_of(s[n - 1], current_pid, found[n - 1]) == Fate::Keep {
            rest.push(s[n - 1])
        } else {
            rest
        }
    }
}

/// The processes among the first `n` that are ended, in the order of their
/// records.
pub open spec fn ended_pids(
    s: Seq<RecordView>,
    current_pid: u32,
    found: Seq<Liveness>,
    n: nat,
) -> Seq<u32>
    decreases n,
{
    if n == 0 || n > s.len() {
        Seq::empty()
    } else {
        let rest = ended_pids(s, current_pid, found, (n - 1) as nat);
        if fate_of(s[n - 1], current_pid, found[n - 1]) == Fate::End {
            rest.push(s[n - 1].pid)
        } else {
            rest
        }
    }
}

/// Decides, when the host starts or ends, which of the recorded processes are
/// ended, given what was found of each. The others keep their records, but for
/// those that are gone.
pub fn startup_cleanup(
    records: &mut Vec<ProcessRecord>,
    current_pid: u32,
    found: &Vec<Liveness>,
) -> (r: Vec<u32>)
    requires
        found@.len() == old(records)@.len(),
    ensures
        r@ == ended_pids(
            records_view(old(records)@),
            current_pid,
            found@,
            old(records)@.len(),
        ),
        records_view(final(records)@) == kept_records(
            records_view(old(records)@),
            current_pid,
            found@,
            old(records)@.len(),
        ),
{
    let ghost all = records_view(records@);
    let mut kept: Vec<ProcessRecord> = Vec::new();
    let mut ended: Vec<u32> = Vec::new();
    let mut i: usize = 0;
    assert(records_view(kept@) =~= Seq::empty());
    while i < records.len()
        invariant
            i <= records@.len(),
            found@.len() == records@.len(),
            records@ == old(records)@,
            all == records_view(records@),
            records_view(kept@) == kept_records(all, current_pid, found@, i as nat),
            ended@ == ended_pids(all, current_pid, found@, i as nat),
        decreases records@.len() - i,
    {
        assert(all[i as int] == records@[i as int]@);
        match decide_fate(&records[i], current_pid, &found[i]) {
            Fate::Keep => {
                let ghost before = kept@;
                let c = records[i].copy();
                kept.push(c);
                assert(records_view(kept@) =~= records_view(before).push(c@));
            },
            Fate::Forget => {},
            Fate::End => {
                ended.push(records[i].pid);
            },
        }
        i = i + 1;
    }
    *records = kept;
    ended
}

/// The host never ends itself, nor a process whose command line does not hold
/// what its record says.
pub proof fn law_only_own_processes_end(
    s: Seq<RecordView>,
    current_pid: u32,
    found: Seq<Liveness>,
    n: nat,
)
    requires
        n <= s.len(),
    ensures
        !ended_pids(s, current_pid, found, n).contains(current_pid),
        forall|pid: u32| #[trigger]
            ended_pids(s, current_pid, found, n).contains(pid) ==> exists|i: int|
                0 <= i < n && (#[trigger] s[i]).pid == pid && found[i] is CommandLine
                    && matches_all(found[i]->0@, s[i].verify_substrings),
    decreases n,
{
    if n > 0 {
        law_only_own_processes_end(s, current_pid, found, (n - 1) as nat);
        let rest = ended_pids(s, current_pid, found, (n - 1) as nat);
        let all = ended_pids(s, current_pid, found, n);
        assert forall|pid: u32| #[trigger] all.contains(pid) implies pid != current_pid && exists|
            i: int,
        |
            0 <= i < n && (#[trigger] s[i]).pid == pid && found[i] is CommandLine && matches_all(
                found[i]->0@,
                s[i].verify_substrings,
            ) by {
            if rest.contains(pid) {
                let i = choose|i: int|
                    0 <= i < n - 1 && (#[trigger] s[i]).pid == pid && found[i] is CommandLine
                        && matches_all(found[i]->0@, s[i].verify_substrings);
                assert(s[i].pid == pid);
            } else {
                let k = choose|k: int| 0 <= k < all.len() && all[k] == pid;
                if k < rest.len() {
                    assert(rest[k] == pid);
                }
                assert(s[n - 1].pid == pid);
            }
        }
    }
}

/// Recording a process puts its record behind the others, in place of an older one
/// of the same process; the records of other processes stay, in their order.
pub proof fn law_recorded_process_is_last(s: Seq<RecordView>, r: RecordView)
    requires
        r.pid != 0,
    ensures
        recorded(s, r).last() == r,
        recorded(s, r).drop_last() == s.filter(|x: RecordView| x.pid != r.pid),
{
    law_unrecorded_are_gone(s, r.pid, s.len());
    assert(s.take(s.len() as int) =~= s);
    let kept = without_pid(s, r.pid, s.len());
    assert(kept.push(r).drop_last() =~= kept);
}

/// Taking a process out of the records takes every record of it, and no other.
pub proof fn law_unrecorded_are_gone(s: Seq<RecordView>, pid: u32, n: nat)
    requires
        n <= s.len(),
    ensures
        without_pid(s, pid, n) == s.take(n as int).filter(|x: RecordView| x.pid != pid),
    decreases n,
{
    reveal(Seq::filter);
    if n > 0 {
        let m = (n - 1) as nat;
        law_unrecorded_are_gone(s, pid, m);
        assert(s.take(n as int).drop_last() =~= s.take(m as int));
        assert(s.take(n as int).last() == s[m as int]);
    }
}

/// A recorded process is ended exactly where it is not the host, runs, and its
/// command line holds every text that was recorded of it. Its record is dropped
/// then, and also where the process is gone; in every other case it stays.
pub proof fn law_fate_of_a_process(r: RecordView, current_pid: u32, found: Liveness)
    ensures
        fate_of(r, current_pid, found) == Fate::End <==> r.pid != current_pid && (
        found matches Liveness::CommandLine(c) && forall|i: int|
            0 <= i < r.verify_substrings.len() ==> text::contains_text(
                c@,
                #[trigger] r.verify_substrings[i],
            )),
        fate_of(r, current_pid, found) == Fate::Forget <==> r.pid != current_pid && found is Gone,
        found is Unknown ==> fate_of(r, current_pid, found) == Fate::Keep,
        r.pid == current_pid ==> fate_of(r, current_pid, found) == Fate::Keep,
{
}

/// A record stays exactly where its process is kept: each such record does, and
/// those that stay are no others.
pub proof fn law_kept_records_are_kept(
    s: Seq<RecordView>,
    current_pid: u32,
    found: Seq<Liveness>,
    n: nat,
    r: RecordView,
)
    requires
        n <= s.len(),
    ensures
        kept_records(s, current_pid, found, n).contains(r) <==> exists|k: int|
            0 <= k < n && #[trigger] s[k] == r && fate_of(s[k], current_pid, found[k])
                == Fate::Keep,
    decreases n,
{
    let now = kept_records(s, current_pid, found, n);
    if n > 0 {
        let m = (n - 1) as nat;
        law_kept_records_are_kept(s, current_pid, found, m, r);
        let before = kept_records(s, current_pid, found, m);
        if now.contains(r) {
            let t = choose|t: int| 0 <= t < now.len() && now[t] == r;
            if t < before.len() {
                assert(before[t] == r);
            } else {
                assert(s[m as int] == r);
            }
        }
        if exists|k: int|
            0 <= k < n && #[trigger] s[k] == r && fate_of(s[k], current_pid, found[k])
                == Fate::Keep {
            let k = choose|k: int|
                0 <= k < n && #[trigger] s[k] == r && fate_of(s[k], current_pid, found[k])
                    == Fate::Keep;
            if k < m {
                let t = choose|t: int| 0 <= t < before.len() && before[t] == r;
                assert(now[t] == r);
            } else {
                assert(now[before.len() as int] == r);
            }
        }
    }
}

/// Every process whose fate is to end is ended.
pub proof fn law_fated_processes_end(
    s: Seq<RecordView>,
    current_pid: u32,
    found: Seq<Liveness>,
    n: nat,
    k: int,
)
    requires
        0 <= k < n <= s.len(),
        fate_of(s[k], current_pid, found[k]) == Fate::End,
    ensures
        ended_pids(s, current_pid, found, n).contains(s[k].pid),
    decreases n,
{
    let now = ended_pids(s, current_pid, found, n);
    let m = (n - 1) as nat;
    let before = ended_pids(s, current_pid, found, m);
    if k < m {
        law_fated_processes_end(s, current_pid, found, m, k);
        let t = choose|t: int| 0 <= t < before.len() && before[t] == s[k].pid;
        assert(now[t] == s[k].pid);
    } else {
        assert(now[before.len() as int] == s[k].pid);
    }
}

} // verus!
