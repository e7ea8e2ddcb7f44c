//! Cadence scheduler: files perpetual and one-off schedules into quantized
//! time buckets and classifies each poll as wait, ready or overrun.
//!
//! Time is quantized into buckets of `group_interval` milliseconds starting
//! at the construction instant `offset`; the bucket of an instant `t` is
//! `(t - offset) / group_interval`. A schedule's next fire is filed in the
//! bucket of its fire instant, and all schedules of the earliest bucket are
//! handed out together, ordered by fire instant (ties keep registration
//! order). On every fire, a perpetual schedule is re-filed at its previous
//! fire instant plus its interval — never relative to the current time — so
//! its cadence is preserved across overruns.

use vstd::prelude::*;
use vstd::arithmetic::div_mod::lemma_div_is_ordered;
use vstd::arithmetic::div_mod::lemma_fundamental_div_mod;
use crate::timer::TimeSource;

verus! {

/// A bucket index.
pub type RunGroup = u64;

/// The error of a blocking poll.
#[derive(Clone, Copy, Debug, PartialEq, Eq, Structural)]
pub enum SchedulerRunError {
    /// No schedules are filed.
    ScheduleEmpty,
    /// The earliest bucket had already elapsed; it was dropped and this many
    /// fires were skipped.
    TasksSkipped(u64),
}

/// A non-committing classification of the scheduler state at the current
/// instant.
#[derive(Clone, Debug, PartialEq, Eq)]
pub enum RunAction {
    /// No schedules are filed.
    Empty,
    /// The earliest bucket lies ahead; its lower edge is this many
    /// milliseconds away.
    Wait(u64),
    /// These buckets lie strictly in the past, in ascending order.
    Skip(Vec<RunGroup>),
    /// The earliest bucket is the current one.
    Run(RunGroup),
}

/// The committing decision of one poll.
#[derive(Clone, Debug, PartialEq, Eq)]
pub enum Decision {
    /// The earliest bucket lies ahead; its lower edge is this many
    /// milliseconds away.
    Wait(u64),
    /// The earliest bucket is the current one; these tokens fire now.
    Ready(Vec<u64>),
    /// The earliest bucket had already elapsed; these tokens fired too late
    /// and were not run, but their schedules keep their cadence.
    Overrun(Vec<u64>),
}

/// One filed schedule.
#[derive(Clone, Copy, Debug, PartialEq, Eq, Structural)]
pub struct ScheduleEntry {
    /// Bucket of `next_fire`.
    pub bucket: u64,
    /// Absolute fire instant, in milliseconds.
    pub next_fire: u64,
    /// Fire interval, in milliseconds.
    pub every: u64,
    /// The caller's opaque handle for this schedule.
    pub token: u64,
    /// Whether the schedule re-files itself after firing.
    pub perpetual: bool,
}

/// The abstract state of a scheduler.
pub struct SchedulerV {
    /// Reference instant `T0`, in absolute milliseconds.
    pub offset: u64,
    /// Bucket width `W`, in milliseconds.
    pub width: u64,
    /// Filed schedules, ordered by fire instant (ties in registration order).
    pub entries: Seq<ScheduleEntry>,
    /// Latest observed instant, in absolute milliseconds.
    pub now: u64,
    /// The bucket most recently handed out.
    pub last_group: u64,
    /// Total schedules handed out in `Ready` batches.
    pub ready_count: u64,
    /// Total schedules handed out in `Overrun` batches.
    pub overrun_count: u64,
}

/// The bucket of instant `t` relative to reference `offset` and width
/// `width`.
pub open spec fn group_at(offset: u64, width: u64, t: int) -> int {
    (t - offset) / (width as int)
}

/// Addition on instants, pinned at the end of time instead of wrapping.
pub open spec fn sat_add_spec(a: u64, b: u64) -> u64 {
    if a + b > u64::MAX {
        u64::MAX
    } else {
        (a + b) as u64
    }
}

fn sat_add(a: u64, b: u64) -> (r: u64)
    ensures
        r == sat_add_spec(a, b),
{
    if a > u64::MAX - b {
        u64::MAX
    } else {
        a + b
    }
}

/// Where a schedule with fire instant `nf` is filed in `entries`: after every
/// entry that fires no later, so ties keep registration order.
pub open spec fn insert_pos(entries: Seq<ScheduleEntry>, nf: u64) -> int
    decreases entries.len(),
{
    if entries.len() == 0 {
        0
    } else if entries[0].next_fire > nf {
        0
    } else {
        1 + insert_pos(entries.drop_first(), nf)
    }
}

/// `entries` with `e` filed at its position.
pub open spec fn insert_sorted(entries: Seq<ScheduleEntry>, e: ScheduleEntry) -> Seq<ScheduleEntry> {
    entries.insert(insert_pos(entries, e.next_fire), e)
}

/// The length of the leading run of entries filed in bucket `g`.
pub open spec fn run_len(entries: Seq<ScheduleEntry>, g: u64) -> int
    decreases entries.len(),
{
    if entries.len() == 0 {
        0
    } else if entries[0].bucket != g {
        0
    } else {
        1 + run_len(entries.drop_first(), g)
    }
}

/// The batch handed out when the earliest bucket fires: the leading run of
/// entries in that bucket.
pub open spec fn batch_of(entries: Seq<ScheduleEntry>) -> Seq<ScheduleEntry>
    recommends
        entries.len() > 0,
{
    entries.subrange(0, run_len(entries, entries[0].bucket))
}

/// The tokens of a batch, in batch order.
pub open spec fn tokens_of(batch: Seq<ScheduleEntry>) -> Seq<u64> {
    batch.map_values(|e: ScheduleEntry| e.token)
}

/// Whether some entry carries token `t`.
pub open spec fn token_among(entries: Seq<ScheduleEntry>, t: u64) -> bool {
    exists|j: int| 0 <= j < entries.len() && (#[trigger] entries[j]).token == t
}

/// The observation an exact clock yields: its reading, clamped to never
/// fall behind what was already observed.
pub open spec fn exact_observation(now: u64, elapsed: int) -> int {
    if elapsed > now as int {
        elapsed
    } else {
        now as int
    }
}

/// Whether every entry re-files itself after firing.
pub open spec fn all_perpetual(entries: Seq<ScheduleEntry>) -> bool {
    forall|i: int| 0 <= i < entries.len() ==> (#[trigger] entries[i]).perpetual
}

/// Whether a perpetual schedule with this token and interval is filed.
pub open spec fn token_filed(entries: Seq<ScheduleEntry>, token: u64, every: u64) -> bool {
    exists|j: int|
        0 <= j < entries.len() && (#[trigger] entries[j]).token == token && entries[j].every
            == every && entries[j].perpetual
}

/// Filing one more schedule keeps every filed schedule filed.
pub proof fn lemma_insert_keeps_filed(
    entries: Seq<ScheduleEntry>,
    e: ScheduleEntry,
    token: u64,
    every: u64,
)
    requires
        token_filed(entries, token, every),
    ensures
        token_filed(insert_sorted(entries, e), token, every),
{
    lemma_insert_pos_char(entries, e.next_fire);
    let p = insert_pos(entries, e.next_fire);
    let j = choose|j: int|
        0 <= j < entries.len() && (#[trigger] entries[j]).token == token && entries[j].every
            == every && entries[j].perpetual;
    if j < p {
        assert(insert_sorted(entries, e)[j] == entries[j]);
    } else {
        assert(insert_sorted(entries, e)[j + 1] == entries[j]);
    }
}

/// The re-filed successors of an all-perpetual batch number the batch.
pub proof fn lemma_refiled_len(offset: u64, width: u64, batch: Seq<ScheduleEntry>)
    requires
        all_perpetual(batch),
    ensures
        refiled_of(offset, width, batch).len() == batch.len(),
    decreases batch.len(),
{
    if batch.len() == 0 {
    } else {
        assert(all_perpetual(batch.drop_last())) by {
            assert(forall|i: int|
                0 <= i < batch.drop_last().len() ==> #[trigger] batch.drop_last()[i] == batch[i]);
        }
        lemma_refiled_len(offset, width, batch.drop_last());
        assert(batch.last() == batch[batch.len() - 1]);
    }
}

/// Filing a sequence of schedules grows the schedule by its length.
pub proof fn lemma_inserted_all_len(acc: Seq<ScheduleEntry>, s: Seq<ScheduleEntry>)
    ensures
        inserted_all(acc, s).len() == acc.len() + s.len(),
    decreases s.len(),
{
    if s.len() == 0 {
    } else {
        lemma_inserted_all_len(acc, s.drop_last());
        lemma_insert_pos_char(inserted_all(acc, s.drop_last()), s.last().next_fire);
    }
}

/// Whether some entry is filed in bucket `b`.
pub open spec fn bucket_present(entries: Seq<ScheduleEntry>, b: u64) -> bool {
    exists|jj: int| 0 <= jj < entries.len() && (#[trigger] entries[jj]).bucket == b
}

/// A schedule re-filed after firing: the next fire advances by exactly its
/// interval.
pub open spec fn refile_entry(offset: u64, width: u64, e: ScheduleEntry) -> ScheduleEntry {
    ScheduleEntry {
        bucket: group_at(offset, width, sat_add_spec(e.next_fire, e.every) as int) as u64,
        next_fire: sat_add_spec(e.next_fire, e.every),
        ..e
    }
}

/// The re-filed successors of the perpetual members of `batch`, in batch
/// order.
pub open spec fn refiled_of(offset: u64, width: u64, batch: Seq<ScheduleEntry>) -> Seq<ScheduleEntry>
    decreases batch.len(),
{
    if batch.len() == 0 {
        Seq::empty()
    } else {
        let rest = refiled_of(offset, width, batch.drop_last());
        if batch.last().perpetual {
            rest.push(refile_entry(offset, width, batch.last()))
        } else {
            rest
        }
    }
}

/// `acc` with each element of `s` filed in order.
pub open spec fn inserted_all(acc: Seq<ScheduleEntry>, s: Seq<ScheduleEntry>) -> Seq<ScheduleEntry>
    decreases s.len(),
{
    if s.len() == 0 {
        acc
    } else {
        insert_sorted(inserted_all(acc, s.drop_last()), s.last())
    }
}

/// The schedules after the earliest bucket is handed out: its batch leaves,
/// and the perpetual members are re-filed one interval later.
pub open spec fn after_commit(offset: u64, width: u64, entries: Seq<ScheduleEntry>) -> Seq<ScheduleEntry>
    recommends
        entries.len() > 0,
{
    let c = run_len(entries, entries[0].bucket);
    inserted_all(entries.skip(c), refiled_of(offset, width, entries.subrange(0, c)))
}

/// The instant of the `k`-th fire of a schedule stepped from `offset`.
pub open spec fn fire_at(offset: u64, every: u64, k: int) -> int {
    offset + k * every
}

/// Whether `nf` is the first fire of a new schedule with interval `every`:
/// the least multiple of `every` past `offset` whose bucket lies strictly
/// beyond the current bucket `cur`.
/// Whether no step of the cadence that fits the machine range crosses the
/// current bucket `cur` (so a first fire cannot be filed beyond it).
pub open spec fn no_reachable_fire(offset: u64, width: u64, every: u64, cur: int) -> bool {
    forall|j: int|
        1 <= j && #[trigger] fire_at(offset, every, j) <= u64::MAX as int ==> group_at(
            offset,
            width,
            fire_at(offset, every, j),
        ) <= cur
}

pub open spec fn is_initial_fire(offset: u64, width: u64, every: u64, cur: int, nf: u64) -> bool {
    exists|k: int|
        1 <= k && nf as int == #[trigger] fire_at(offset, every, k) && group_at(
            offset,
            width,
            nf as int,
        ) > cur && (k == 1 || group_at(offset, width, fire_at(offset, every, k - 1)) <= cur)
}

/// What a filed schedule satisfies.
pub open spec fn entry_ok(v: SchedulerV, e: ScheduleEntry) -> bool {
    &&& e.every >= v.width
    &&& e.next_fire >= v.offset
    &&& e.bucket as int == group_at(v.offset, v.width, e.next_fire as int)
    &&& e.bucket >= v.last_group
}

/// The scheduler invariant: a positive bucket width, a current instant at or
/// past the reference, no bucket handed out beyond the current one, every
/// entry filed consistently at or past the last handed-out bucket, and
/// entries ordered by fire instant.
pub open spec fn inv_v(v: SchedulerV) -> bool {
    &&& v.width > 0
    &&& v.now >= v.offset
    &&& v.last_group as int <= group_at(v.offset, v.width, v.now as int)
    &&& forall|i: int| 0 <= i < v.entries.len() ==> entry_ok(v, #[trigger] v.entries[i])
    &&& forall|i: int, j: int|
        0 <= i < j < v.entries.len() ==> v.entries[i].next_fire <= v.entries[j].next_fire
}

/// Bounds of the bucket of an instant: the instant lies within the bucket's
/// half-open window.
pub proof fn lemma_group_bounds(offset: u64, width: u64, t: int)
    requires
        width > 0,
        t >= offset,
    ensures
        group_at(offset, width, t) >= 0,
        offset + group_at(offset, width, t) * width <= t,
        t < offset + (group_at(offset, width, t) + 1) * width,
{
    let x = t - offset;
    let d = width as int;
    lemma_fundamental_div_mod(x, d);
    vstd::arithmetic::div_mod::lemma_mod_bound(x, d);
    vstd::arithmetic::div_mod::lemma_div_pos_is_pos(x, d);
    let q = x / d;
    assert(x == d * q + x % d);
    assert(q * d == d * q) by (nonlinear_arith);
    assert((q + 1) * d == d * q + d) by (nonlinear_arith);
}

/// Buckets never decrease as the instant grows.
pub proof fn lemma_group_monotone(offset: u64, width: u64, t1: int, t2: int)
    requires
        width > 0,
        t1 <= t2,
    ensures
        group_at(offset, width, t1) <= group_at(offset, width, t2),
{
    lemma_div_is_ordered(t1 - offset, t2 - offset, width as int);
}

/// Advancing an instant by at least one bucket width advances its bucket.
pub proof fn lemma_group_step(offset: u64, width: u64, t: int, step: int)
    requires
        width > 0,
        t >= offset,
        step >= width,
    ensures
        group_at(offset, width, t + step) >= group_at(offset, width, t) + 1,
{
    let d = width as int;
    let x = t - offset;
    lemma_fundamental_div_mod(x, d);
    lemma_fundamental_div_mod(x + step, d);
    vstd::arithmetic::div_mod::lemma_mod_bound(x, d);
    vstd::arithmetic::div_mod::lemma_mod_bound(x + step, d);
    let q1 = x / d;
    let q2 = (x + step) / d;
    assert(x == d * q1 + x % d);
    assert(x + step == d * q2 + (x + step) % d);
    if q2 < q1 + 1 {
        assert(d * q2 <= d * q1) by (nonlinear_arith)
            requires
                q2 <= q1,
                d > 0,
        ;
        assert(x + step < d * q1 + d);
        assert(x + step >= d * q1 + d);
        assert(false);
    }
}

/// Characterization of the filing position: everything before it fires no
/// later, and the entry at it (if any) fires strictly later.
pub proof fn lemma_insert_pos_char(s: Seq<ScheduleEntry>, nf: u64)
    ensures
        0 <= insert_pos(s, nf) <= s.len(),
        forall|j: int| 0 <= j < insert_pos(s, nf) ==> s[j].next_fire <= nf,
        insert_pos(s, nf) < s.len() ==> s[insert_pos(s, nf)].next_fire > nf,
    decreases s.len(),
{
    if s.len() == 0 {
    } else if s[0].next_fire > nf {
    } else {
        lemma_insert_pos_char(s.drop_first(), nf);
        let p0 = insert_pos(s.drop_first(), nf);
        assert(insert_pos(s, nf) == 1 + p0);
        assert forall|j: int| 0 <= j < 1 + p0 implies s[j].next_fire <= nf by {
            if j > 0 {
                assert(s.drop_first()[j - 1] == s[j]);
            }
        }
        if 1 + p0 < s.len() {
            assert(s.drop_first()[p0] == s[p0 + 1]);
        }
    }
}

/// Characterization of the leading run: a maximal prefix filed in bucket `g`.
pub proof fn lemma_run_len_char(s: Seq<ScheduleEntry>, g: u64)
    ensures
        0 <= run_len(s, g) <= s.len(),
        forall|j: int| 0 <= j < run_len(s, g) ==> s[j].bucket == g,
        run_len(s, g) < s.len() ==> s[run_len(s, g)].bucket != g,
    decreases s.len(),
{
    if s.len() == 0 {
    } else if s[0].bucket != g {
    } else {
        lemma_run_len_char(s.drop_first(), g);
        let c0 = run_len(s.drop_first(), g);
        assert(run_len(s, g) == 1 + c0);
        assert forall|j: int| 0 <= j < 1 + c0 implies s[j].bucket == g by {
            if j > 0 {
                assert(s.drop_first()[j - 1] == s[j]);
            }
        }
        if 1 + c0 < s.len() {
            assert(s.drop_first()[c0] == s[c0 + 1]);
        }
    }
}

/// With entries ordered by fire instant, buckets are ordered too, so the
/// head's bucket is the earliest.
pub proof fn lemma_buckets_monotone(v: SchedulerV)
    requires
        inv_v(v),
    ensures
        forall|i: int, j: int|
            0 <= i < j < v.entries.len() ==> v.entries[i].bucket <= v.entries[j].bucket,
{
    assert forall|i: int, j: int|
        0 <= i < j < v.entries.len() implies v.entries[i].bucket <= v.entries[j].bucket by {
        assert(entry_ok(v, v.entries[i]));
        assert(entry_ok(v, v.entries[j]));
        lemma_group_monotone(v.offset, v.width, v.entries[i].next_fire as int, v.entries[j].next_fire as int);
    }
}

/// What remains of `entries` once every schedule with handle `token` is
/// cancelled.
pub open spec fn retained(entries: Seq<ScheduleEntry>, token: u64) -> Seq<ScheduleEntry>
    decreases entries.len(),
{
    if entries.len() == 0 {
        Seq::empty()
    } else {
        let r = retained(entries.drop_last(), token);
        if entries.last().token == token {
            r
        } else {
            r.push(entries.last())
        }
    }
}

/// Filing a well-formed schedule at its position preserves the invariant.
pub proof fn lemma_insert_sorted_inv(v: SchedulerV, e: ScheduleEntry)
    requires
        inv_v(v),
        entry_ok(v, e),
    ensures
        inv_v(SchedulerV { entries: insert_sorted(v.entries, e), ..v }),
{
    lemma_insert_pos_char(v.entries, e.next_fire);
    let p = insert_pos(v.entries, e.next_fire);
    let s2 = insert_sorted(v.entries, e);
    let v2 = SchedulerV { entries: s2, ..v };
    assert forall|i: int| 0 <= i < s2.len() implies entry_ok(v2, #[trigger] s2[i]) by {
        if i < p {
            assert(s2[i] == v.entries[i]);
            assert(entry_ok(v, v.entries[i]));
        } else if i == p {
            assert(s2[i] == e);
        } else {
            assert(s2[i] == v.entries[i - 1]);
            assert(entry_ok(v, v.entries[i - 1]));
        }
    }
    assert forall|i: int, j: int|
        0 <= i < j < s2.len() implies s2[i].next_fire <= s2[j].next_fire by {
        if j < p {
            assert(s2[i] == v.entries[i] && s2[j] == v.entries[j]);
        } else if j == p {
            assert(s2[i] == v.entries[i] && v.entries[i].next_fire <= e.next_fire);
        } else {
            assert(s2[j] == v.entries[j - 1]);
            if i < p {
                assert(s2[i] == v.entries[i]);
                if i == j - 1 {
                } else {
                    assert(v.entries[i].next_fire <= v.entries[j - 1].next_fire);
                }
            } else if i == p {
                assert(s2[i] == e);
                assert(v.entries[p].next_fire > e.next_fire);
                if p == j - 1 {
                } else {
                    assert(v.entries[p].next_fire <= v.entries[j - 1].next_fire);
                }
            } else {
                assert(s2[i] == v.entries[i - 1]);
                assert(v.entries[i - 1].next_fire <= v.entries[j - 1].next_fire);
            }
        }
    }
}

/// Cancelling a token keeps the remaining schedules well formed: they are a
/// subsequence of the original ones, in the same order.
pub proof fn lemma_retained_props(s: Seq<ScheduleEntry>, token: u64)
    ensures
        retained(s, token).len() <= s.len(),
        forall|i: int|
            0 <= i < retained(s, token).len() ==> #[trigger] retained(s, token)[i].token != token,
        forall|i: int|
            0 <= i < retained(s, token).len() ==> exists|j: int|
                0 <= j < s.len() && #[trigger] retained(s, token)[i] == s[j],
        (forall|i: int, j: int| 0 <= i < j < s.len() ==> s[i].next_fire <= s[j].next_fire)
            ==> (forall|i: int, j: int|
            0 <= i < j < retained(s, token).len() ==> retained(s, token)[i].next_fire <= retained(
                s,
                token,
            )[j].next_fire),
    decreases s.len(),
{
    if s.len() == 0 {
    } else {
        let head = s.drop_last();
        lemma_retained_props(head, token);
        let r0 = retained(head, token);
        assert forall|i: int| 0 <= i < r0.len() implies exists|j: int|
            0 <= j < s.len() && #[trigger] r0[i] == s[j] by {
            let j0 = choose|j: int| 0 <= j < head.len() && r0[i] == head[j];
            assert(s[j0] == head[j0]);
        }
        if s.last().token != token {
            let r = retained(s, token);
            assert(r == r0.push(s.last()));
            assert(s[s.len() - 1] == s.last());
            if forall|i: int, j: int| 0 <= i < j < s.len() ==> s[i].next_fire <= s[j].next_fire {
                assert forall|i: int, j: int|
                    0 <= i < j < r.len() implies r[i].next_fire <= r[j].next_fire by {
                    if j < r0.len() {
                        assert(r[i] == r0[i] && r[j] == r0[j]);
                        assert(forall|a: int, b: int|
                            0 <= a < b < head.len() ==> head[a].next_fire <= head[b].next_fire);
                    } else {
                        assert(r[j] == s.last());
                        assert(r[i] == r0[i]);
                        let j0 = choose|j0: int| 0 <= j0 < s.len() && r0[i] == s[j0];
                        if j0 < s.len() - 1 {
                            assert(s[j0].next_fire <= s[s.len() - 1].next_fire);
                        }
                    }
                }
            }
        }
    }
}

/// The cadence scheduler. `T` supplies the current instant and the ability
/// to block until a requested delay has elapsed.
pub struct Scheduler<T: TimeSource> {
    offset: u64,
    group_interval: u64,
    tasks: Vec<ScheduleEntry>,
    time_source: T,
    last_now: u64,
    last_group: Ghost<u64>,
    ready_count: u64,
    overrun_count: u64,
}

impl<T: TimeSource> View for Scheduler<T> {
    type V = SchedulerV;

    closed spec fn view(&self) -> SchedulerV {
        SchedulerV {
            offset: self.offset,
            width: self.group_interval,
            entries: self.tasks@,
            now: self.last_now,
            last_group: self.last_group@,
            ready_count: self.ready_count,
            overrun_count: self.overrun_count,
        }
    }
}

/// Finds the filing position of fire instant `nf` in `tasks`.
fn find_insert_pos(tasks: &Vec<ScheduleEntry>, nf: u64) -> (p: usize)
    ensures
        p as int == insert_pos(tasks@, nf),
{
    proof {
        lemma_insert_pos_char(tasks@, nf);
    }
    let mut i: usize = 0;
    while i < tasks.len() && tasks[i].next_fire <= nf
        invariant
            0 <= i <= tasks@.len(),
            forall|j: int| 0 <= j < i ==> tasks@[j].next_fire <= nf,
        decreases tasks@.len() - i,
    {
        i = i + 1;
    }
    proof {
        let p = insert_pos(tasks@, nf);
        if p < i {
            assert(tasks@[p].next_fire <= nf);
        }
        if i < p {
            assert(tasks@[i as int].next_fire <= nf);
        }
    }
    i
}

impl<T: TimeSource> Scheduler<T> {
    /// The scheduler invariant, over its abstract state.
    pub closed spec fn wf(&self) -> bool {
        inv_v(self@)
    }

    /// The reading of the owned time source.
    pub closed spec fn time_elapsed(&self) -> int {
        self.time_source.elapsed_ms()
    }

    /// Whether the owned time source is exact: its reading moves only
    /// through `advance`, and by exactly the requested amount.
    pub closed spec fn time_exact(&self) -> bool {
        self.time_source.exact()
    }


    pub proof fn lemma_wf_inv(&self)
        requires
            self.wf(),
        ensures
            inv_v(self@),
    {
    }

    /// Creates a scheduler with bucket width `group_interval`, taking the
    /// construction instant as the bucket reference.
    pub fn new(group_interval: u64, time_source: T) -> (s: Scheduler<T>)
        requires
            group_interval > 0,
        ensures
            s.wf(),
            s@.width == group_interval,
            s@.entries =~= Seq::<ScheduleEntry>::empty(),
            s@.offset == s@.now,
            s@.last_group == 0,
            s@.ready_count == 0,
            s@.overrun_count == 0,
            s.time_exact() == time_source.exact(),
            time_source.exact() ==> s@.offset as int == time_source.elapsed_ms()
                && s.time_elapsed() == time_source.elapsed_ms(),
    {
        let mut ts = time_source;
        let t = ts.now();
        let s = Scheduler {
            offset: t,
            group_interval,
            tasks: Vec::new(),
            time_source: ts,
            last_now: t,
            last_group: Ghost(0u64),
            ready_count: 0,
            overrun_count: 0,
        };
        proof {
            vstd::arithmetic::div_mod::lemma_div_pos_is_pos(0, group_interval as int);
        }
        s
    }

    /// Reads the time source and clamps the observation so the current
    /// instant never decreases.
    fn observe_now(&mut self) -> (t: u64)
        requires
            old(self).wf(),
        ensures
            final(self).wf(),
            t == final(self)@.now,
            t >= old(self)@.now,
            final(self)@.offset == old(self)@.offset,
            final(self)@.width == old(self)@.width,
            final(self)@.entries == old(self)@.entries,
            final(self)@.last_group == old(self)@.last_group,
            final(self)@.ready_count == old(self)@.ready_count,
            final(self)@.overrun_count == old(self)@.overrun_count,
            final(self).time_elapsed() <= t as int,
            final(self).time_elapsed() >= old(self).time_elapsed(),
            final(self).time_exact() == old(self).time_exact(),
            old(self).time_exact() ==> final(self).time_elapsed() == old(self).time_elapsed()
                && t as int == exact_observation(old(self)@.now, old(self).time_elapsed()),
    {
        let w = self.time_source.now();
        if w > self.last_now {
            let ghost pre = self@;
            self.last_now = w;
            proof {
                lemma_group_monotone(pre.offset, pre.width, pre.now as int, w as int);
                assert forall|i: int|
                    0 <= i < self@.entries.len() implies entry_ok(
                    self@,
                    #[trigger] self@.entries[i],
                ) by {
                    assert(entry_ok(pre, pre.entries[i]));
                }
            }
        }
        proof {
            let v1 = self@;
            assert forall|i: int, j: int|
                0 <= i < j < v1.entries.len() implies v1.entries[i].next_fire
                <= v1.entries[j].next_fire by {
                assert(old(self)@.entries[i].next_fire <= old(self)@.entries[j].next_fire);
            }
        }
        self.last_now
    }

    /// Files a schedule. The first fire is found by stepping from the
    /// reference instant in `duration`-sized steps until its bucket lies
    /// strictly beyond the current bucket.
    fn schedule(&mut self, duration: u64, token: u64, perpetual: bool)
        requires
            old(self).wf(),
            duration >= old(self)@.width,
        ensures
            final(self).wf(),
            final(self)@.offset == old(self)@.offset,
            final(self)@.width == old(self)@.width,
            final(self)@.now >= old(self)@.now,
            final(self)@.last_group == old(self)@.last_group,
            final(self)@.ready_count == old(self)@.ready_count,
            final(self)@.overrun_count == old(self)@.overrun_count,
            final(self).time_exact() == old(self).time_exact(),
            old(self).time_exact() ==> final(self).time_elapsed() == old(self).time_elapsed()
                && final(self)@.now as int == exact_observation(
                old(self)@.now,
                old(self).time_elapsed(),
            ),
            exists|e: ScheduleEntry|
                {
                    &&& final(self)@.entries == #[trigger] insert_sorted(old(self)@.entries, e)
                    &&& e.token == token
                    &&& e.every == duration
                    &&& e.perpetual == perpetual
                    &&& e.next_fire >= final(self)@.offset
                    &&& e.bucket as int == group_at(
                        final(self)@.offset,
                        final(self)@.width,
                        e.next_fire as int,
                    )
                    &&& (is_initial_fire(
                        final(self)@.offset,
                        final(self)@.width,
                        duration,
                        group_at(final(self)@.offset, final(self)@.width, final(self)@.now as int),
                        e.next_fire,
                    ) || (e.next_fire == u64::MAX && no_reachable_fire(
                        final(self)@.offset,
                        final(self)@.width,
                        duration,
                        group_at(final(self)@.offset, final(self)@.width, final(self)@.now as int),
                    )))
                },
    {
        let now = self.observe_now();
        let offset = self.offset;
        let width = self.group_interval;
        let cur: u64 = (now - offset) / width;
        let ghost v1 = self@;
        let mut t: u64 = sat_add(offset, duration);
        let ghost mut k: int = 1;
        proof {
            assert(fire_at(offset, duration, 1) == offset + duration) by (nonlinear_arith);
        }
        while (t - offset) / width <= cur && t < u64::MAX
            invariant
                width > 0,
                duration >= width,
                t >= offset,
                k >= 1,
                (t as int == fire_at(offset, duration, k)) || t == u64::MAX,
                k == 1 || group_at(offset, width, fire_at(offset, duration, k - 1)) <= cur as int,
                forall|j: int|
                    1 <= j < k ==> group_at(offset, width, #[trigger] fire_at(offset, duration, j))
                        <= cur as int,
                t == u64::MAX ==> offset + k * duration >= u64::MAX as int,
            decreases u64::MAX - t,
        {
            proof {
                assert(t < u64::MAX);
                assert(t as int == fire_at(offset, duration, k));
                assert(group_at(offset, width, t as int) <= cur as int);
                assert(fire_at(offset, duration, k + 1) == fire_at(offset, duration, k)
                    + duration) by (nonlinear_arith);
                k = k + 1;
            }
            t = sat_add(t, duration);
        }
        proof {
            if t == u64::MAX {
                if t as int == fire_at(offset, duration, k) && group_at(offset, width, t as int)
                    > cur as int {
                    assert(is_initial_fire(offset, width, duration, cur as int, t));
                } else {
                    assert forall|j: int|
                        1 <= j && #[trigger] fire_at(offset, duration, j)
                            <= u64::MAX as int implies group_at(
                        offset,
                        width,
                        fire_at(offset, duration, j),
                    ) <= cur as int by {
                        if j >= k {
                            assert(fire_at(offset, duration, j) >= offset + k * duration) by (
                            nonlinear_arith)
                                requires
                                    j >= k,
                                    duration > 0,
                            ;
                            if j > k {
                                assert(fire_at(offset, duration, j) >= offset + k * duration
                                    + duration) by (nonlinear_arith)
                                    requires
                                        j >= k + 1,
                                        duration > 0,
                                ;
                            }
                            assert(fire_at(offset, duration, j) == u64::MAX as int);
                            assert(j == k);
                            assert(group_at(offset, width, u64::MAX as int) <= cur as int);
                        }
                    }
                    assert(no_reachable_fire(offset, width, duration, cur as int));
                }
            }
        }
        let bucket: u64 = (t - offset) / width;
        let e = ScheduleEntry { bucket, next_fire: t, every: duration, token, perpetual };
        proof {
            assert(entry_ok(v1, e)) by {
                if t < u64::MAX {
                    assert(bucket as int > cur as int);
                } else {
                    lemma_group_monotone(offset, width, now as int, t as int);
                }
            }
            lemma_insert_sorted_inv(v1, e);
            lemma_insert_pos_char(v1.entries, t);
        }
        let p = find_insert_pos(&self.tasks, t);
        self.tasks.insert(p, e);
        proof {
            assert(self@.entries == insert_sorted(v1.entries, e));
            if t < u64::MAX {
                assert(is_initial_fire(offset, width, duration, cur as int, t));
            }
        }
    }

    /// Files a perpetual schedule with interval `duration` under `token`.
    pub fn every(&mut self, duration: u64, token: u64)
        requires
            old(self).wf(),
            duration >= old(self)@.width,
        ensures
            final(self).wf(),
            final(self)@.offset == old(self)@.offset,
            final(self)@.width == old(self)@.width,
            final(self)@.now >= old(self)@.now,
            final(self)@.last_group == old(self)@.last_group,
            final(self)@.ready_count == old(self)@.ready_count,
            final(self)@.overrun_count == old(self)@.overrun_count,
            final(self).time_exact() == old(self).time_exact(),
            old(self).time_exact() ==> final(self).time_elapsed() == old(self).time_elapsed()
                && final(self)@.now as int == exact_observation(
                old(self)@.now,
                old(self).time_elapsed(),
            ),
            exists|e: ScheduleEntry|
                {
                    &&& final(self)@.entries == #[trigger] insert_sorted(old(self)@.entries, e)
                    &&& e.token == token
                    &&& e.every == duration
                    &&& e.perpetual == true
                    &&& e.next_fire >= final(self)@.offset
                    &&& e.bucket as int == group_at(
                        final(self)@.offset,
                        final(self)@.width,
                        e.next_fire as int,
                    )
                    &&& (is_initial_fire(
                        final(self)@.offset,
                        final(self)@.width,
                        duration,
                        group_at(final(self)@.offset, final(self)@.width, final(self)@.now as int),
                        e.next_fire,
                    ) || (e.next_fire == u64::MAX && no_reachable_fire(
                        final(self)@.offset,
                        final(self)@.width,
                        duration,
                        group_at(final(self)@.offset, final(self)@.width, final(self)@.now as int),
                    )))
                },
    {
        self.schedule(duration, token, true)
    }

    /// Files a one-off schedule that fires once, `duration` from the
    /// reference instant (stepped past the current bucket).
    pub fn after(&mut self, duration: u64, token: u64)
        requires
            old(self).wf(),
            duration >= old(self)@.width,
        ensures
            final(self).wf(),
            final(self)@.offset == old(self)@.offset,
            final(self)@.width == old(self)@.width,
            final(self)@.now >= old(self)@.now,
            final(self)@.last_group == old(self)@.last_group,
            final(self)@.ready_count == old(self)@.ready_count,
            final(self)@.overrun_count == old(self)@.overrun_count,
            final(self).time_exact() == old(self).time_exact(),
            old(self).time_exact() ==> final(self).time_elapsed() == old(self).time_elapsed()
                && final(self)@.now as int == exact_observation(
                old(self)@.now,
                old(self).time_elapsed(),
            ),
            exists|e: ScheduleEntry|
                {
                    &&& final(self)@.entries == #[trigger] insert_sorted(old(self)@.entries, e)
                    &&& e.token == token
                    &&& e.every == duration
                    &&& e.perpetual == false
                    &&& e.next_fire >= final(self)@.offset
                    &&& e.bucket as int == group_at(
                        final(self)@.offset,
                        final(self)@.width,
                        e.next_fire as int,
                    )
                    &&& (is_initial_fire(
                        final(self)@.offset,
                        final(self)@.width,
                        duration,
                        group_at(final(self)@.offset, final(self)@.width, final(self)@.now as int),
                        e.next_fire,
                    ) || (e.next_fire == u64::MAX && no_reachable_fire(
                        final(self)@.offset,
                        final(self)@.width,
                        duration,
                        group_at(final(self)@.offset, final(self)@.width, final(self)@.now as int),
                    )))
                },
    {
        self.schedule(duration, token, false)
    }

    /// Removes every schedule filed under `token`.
    pub fn cancel(&mut self, token: u64)
        requires
            old(self).wf(),
        ensures
            final(self).wf(),
            final(self)@.offset == old(self)@.offset,
            final(self)@.width == old(self)@.width,
            final(self)@.now == old(self)@.now,
            final(self)@.last_group == old(self)@.last_group,
            final(self)@.ready_count == old(self)@.ready_count,
            final(self)@.overrun_count == old(self)@.overrun_count,
            final(self).time_elapsed() == old(self).time_elapsed(),
            final(self).time_exact() == old(self).time_exact(),
            final(self)@.entries == retained(old(self)@.entries, token),
            forall|i: int|
                0 <= i < final(self)@.entries.len() ==> (#[trigger] final(self)@.entries[i]).token
                    != token,
    {
        let ghost v0 = self@;
        let mut kept: Vec<ScheduleEntry> = Vec::new();
        let mut i: usize = 0;
        while i < self.tasks.len()
            invariant
                0 <= i <= self.tasks@.len(),
                self.tasks@ == v0.entries,
                kept@ == retained(v0.entries.subrange(0, i as int), token),
            decreases self.tasks@.len() - i,
        {
            let ghost pre = v0.entries.subrange(0, i as int);
            let ghost cur_pre = v0.entries.subrange(0, i as int + 1);
            proof {
                assert(cur_pre.drop_last() =~= pre);
                assert(cur_pre.last() == v0.entries[i as int]);
            }
            let e = self.tasks[i];
            if e.token != token {
                kept.push(e);
            }
            i = i + 1;
        }
        proof {
            assert(v0.entries.subrange(0, v0.entries.len() as int) =~= v0.entries);
            lemma_retained_props(v0.entries, token);
        }
        self.tasks = kept;
        proof {
            let v2 = self@;
            assert forall|a: int| 0 <= a < v2.entries.len() implies entry_ok(
                v2,
                #[trigger] v2.entries[a],
            ) by {
                let j = choose|j: int| 0 <= j < v0.entries.len() && v2.entries[a] == v0.entries[j];
                assert(entry_ok(v0, v0.entries[j]));
            }
        }
    }

    /// Total schedules handed out in overrun batches so far.
    pub fn overrun_count(&self) -> (n: u64)
        ensures
            n == self@.overrun_count,
    {
        self.overrun_count
    }

    /// Total schedules handed out in ready batches so far.
    pub fn ready_count(&self) -> (n: u64)
        ensures
            n == self@.ready_count,
    {
        self.ready_count
    }

    /// The owned time source.
    pub fn time_source(&self) -> &T {
        &self.time_source
    }

    /// One poll of the scheduler, per the current instant.
    ///
    /// With no schedules filed it reports the schedule as empty. Otherwise it
    /// compares the earliest filed bucket `g` against the current bucket:
    /// strictly ahead gives `Wait` with the time to `g`'s lower edge; equal
    /// gives `Ready` with the tokens of `g`'s batch; strictly behind gives
    /// `Overrun` with those tokens. In both committing cases the batch leaves
    /// the schedule, its perpetual members are re-filed at their previous
    /// fire instant plus their interval, the matching counter grows by the
    /// batch size, and the bucket handed out never decreases across calls.
    pub fn next(&mut self) -> (r: Result<Decision, SchedulerRunError>)
        requires
            old(self).wf(),
        ensures
            final(self).wf(),
            final(self)@.offset == old(self)@.offset,
            final(self)@.width == old(self)@.width,
            final(self)@.now >= old(self)@.now,
            final(self)@.last_group >= old(self)@.last_group,
            final(self).time_elapsed() <= final(self)@.now as int,
            final(self).time_elapsed() >= old(self).time_elapsed(),
            final(self).time_exact() == old(self).time_exact(),
            old(self).time_exact() ==> final(self).time_elapsed() == old(self).time_elapsed()
                && final(self)@.now as int == exact_observation(
                old(self)@.now,
                old(self).time_elapsed(),
            ),
            match r {
                Result::Err(e) => {
                    &&& e == SchedulerRunError::ScheduleEmpty
                    &&& old(self)@.entries.len() == 0
                    &&& final(self)@.entries == old(self)@.entries
                    &&& final(self)@.last_group == old(self)@.last_group
                    &&& final(self)@.ready_count == old(self)@.ready_count
                    &&& final(self)@.overrun_count == old(self)@.overrun_count
                },
                Result::Ok(d) => {
                    let v0 = old(self)@;
                    let v1 = final(self)@;
                    let g = v0.entries[0].bucket;
                    let cur = group_at(v1.offset, v1.width, v1.now as int);
                    &&& v0.entries.len() > 0
                    &&& match d {
                        Decision::Wait(ms) => {
                            &&& g as int > cur
                            &&& v1.offset + g as int * v1.width == v1.now + ms
                            &&& ms > 0
                            &&& v1.entries == v0.entries
                            &&& v1.last_group == v0.last_group
                            &&& v1.ready_count == v0.ready_count
                            &&& v1.overrun_count == v0.overrun_count
                        },
                        Decision::Ready(toks) => {
                            &&& g as int == cur
                            &&& (all_perpetual(v0.entries) ==> all_perpetual(v1.entries)
                                && v1.entries.len() == v0.entries.len())
                            &&& (toks@ =~= tokens_of(batch_of(v0.entries)))
                            &&& toks@.len() > 0
                            &&& forall|i: int|
                                0 <= i < v1.entries.len() ==> token_among(
                                    v0.entries,
                                    (#[trigger] v1.entries[i]).token,
                                )
                            &&& v1.entries == after_commit(v1.offset, v1.width, v0.entries)
                            &&& v1.last_group == g
                            &&& v1.ready_count == sat_add_spec(
                                v0.ready_count,
                                toks@.len() as u64,
                            )
                            &&& v1.overrun_count == v0.overrun_count
                        },
                        Decision::Overrun(toks) => {
                            &&& (g as int) < cur
                            &&& (all_perpetual(v0.entries) ==> all_perpetual(v1.entries)
                                && v1.entries.len() == v0.entries.len())
                            &&& (toks@ =~= tokens_of(batch_of(v0.entries)))
                            &&& toks@.len() > 0
                            &&& forall|i: int|
                                0 <= i < v1.entries.len() ==> token_among(
                                    v0.entries,
                                    (#[trigger] v1.entries[i]).token,
                                )
                            &&& v1.entries == after_commit(v1.offset, v1.width, v0.entries)
                            &&& v1.last_group == g
                            &&& v1.overrun_count == sat_add_spec(
                                v0.overrun_count,
                                toks@.len() as u64,
                            )
                            &&& v1.ready_count == v0.ready_count
                            &&& forall|i: int|
                                0 <= i < v1.entries.len() ==> (#[trigger] v1.entries[i]).bucket > g
                        },
                    }
                },
            },
    {
        let now = self.observe_now();
        if self.tasks.len() == 0 {
            return Result::Err(SchedulerRunError::ScheduleEmpty);
        }
        let ghost v0 = self@;
        let offset = self.offset;
        let width = self.group_interval;
        let cur: u64 = (now - offset) / width;
        let g: u64 = self.tasks[0].bucket;
        proof {
            assert(entry_ok(v0, v0.entries[0]));
            lemma_buckets_monotone(v0);
        }
        if g > cur {
            proof {
                lemma_group_bounds(offset, width, self.tasks[0].next_fire as int);
                lemma_group_bounds(offset, width, now as int);
                assert((cur as int + 1) * width <= g as int * width) by (nonlinear_arith)
                    requires
                        cur as int + 1 <= g as int,
                        width > 0,
                ;
            }
            let deadline: u64 = offset + g * width;
            return Result::Ok(Decision::Wait(deadline - now));
        }
        // The earliest bucket fires: hand its batch out and re-file the
        // perpetual schedules.
        let mut cut: usize = 0;
        while cut < self.tasks.len() && self.tasks[cut].bucket == g
            invariant
                0 <= cut <= v0.entries.len(),
                self.tasks@ == v0.entries,
                g == v0.entries[0].bucket,
                forall|j: int| 0 <= j < cut ==> v0.entries[j].bucket == g,
            decreases v0.entries.len() - cut,
        {
            cut = cut + 1;
        }
        proof {
            lemma_run_len_char(v0.entries, g);
            let c = run_len(v0.entries, g);
            if c < cut {
                assert(v0.entries[c].bucket == g);
            }
            if cut < c {
                assert(v0.entries[cut as int].bucket == g);
            }
            assert(cut as int == c);
            assert(cut >= 1);
        }
        let mut batch: Vec<ScheduleEntry> = Vec::new();
        let mut i: usize = 0;
        while i < cut
            invariant
                0 <= i <= cut <= v0.entries.len(),
                self.tasks@ == v0.entries,
                batch@ =~= v0.entries.subrange(0, i as int),
            decreases cut - i,
        {
            batch.push(self.tasks[i]);
            i = i + 1;
        }
        let mut rest: Vec<ScheduleEntry> = Vec::new();
        let mut j: usize = cut;
        while j < self.tasks.len()
            invariant
                cut <= j <= v0.entries.len(),
                self.tasks@ == v0.entries,
                rest@ =~= v0.entries.subrange(cut as int, j as int),
            decreases v0.entries.len() - j,
        {
            rest.push(self.tasks[j]);
            j = j + 1;
        }
        self.tasks = rest;
        proof {
            self.last_group = Ghost(g);
        }
        proof {
            assert(self@.entries =~= v0.entries.skip(cut as int));
            assert forall|a: int| 0 <= a < self@.entries.len() implies entry_ok(
                self@,
                #[trigger] self@.entries[a],
            ) && self@.entries[a].bucket > g by {
                assert(self@.entries[a] == v0.entries[cut + a]);
                assert(entry_ok(v0, v0.entries[cut + a]));
                assert(v0.entries[cut + a].bucket >= v0.entries[0].bucket);
                lemma_run_len_char(v0.entries, g);
                assert(v0.entries[cut as int].bucket != g);
                assert(v0.entries[cut + a].bucket >= v0.entries[cut as int].bucket);
            }
            assert(inv_v(self@));
            assert forall|a: int| 0 <= a < self@.entries.len() implies token_among(
                v0.entries,
                (#[trigger] self@.entries[a]).token,
            ) by {
                assert(self@.entries[a] == v0.entries[cut + a]);
            }
            if all_perpetual(v0.entries) {
                assert forall|a: int| 0 <= a < self@.entries.len() implies (
                #[trigger] self@.entries[a]).perpetual by {
                    assert(self@.entries[a] == v0.entries[cut + a]);
                }
                assert(self@.entries.len() == v0.entries.len() - cut);
            }
            assert(batch@.subrange(0, 0) =~= Seq::<ScheduleEntry>::empty());
            assert(self@.entries == inserted_all(
                v0.entries.skip(cut as int),
                refiled_of(v0.offset, v0.width, batch@.subrange(0, 0)),
            ));
        }
        let mut toks: Vec<u64> = Vec::new();
        let mut bi: usize = 0;
        while bi < batch.len()
            invariant
                0 <= bi <= batch@.len(),
                batch@ =~= v0.entries.subrange(0, cut as int),
                1 <= cut <= v0.entries.len(),
                cut as int == run_len(v0.entries, v0.entries[0].bucket),
                g == v0.entries[0].bucket,
                inv_v(v0),
                forall|a: int| 0 <= a < batch@.len() ==> batch@[a] == v0.entries[a],
                self@.offset == v0.offset,
                self@.width == v0.width,
                self@.now == v0.now,
                self@.last_group == g,
                self@.ready_count == v0.ready_count,
                self@.overrun_count == v0.overrun_count,
                g as int <= group_at(v0.offset, v0.width, v0.now as int),
                toks@.len() == bi,
                forall|a: int| 0 <= a < bi ==> toks@[a] == batch@[a].token,
                self@.entries == inserted_all(
                    v0.entries.skip(cut as int),
                    refiled_of(v0.offset, v0.width, batch@.subrange(0, bi as int)),
                ),
                inv_v(self@),
                forall|a: int|
                    0 <= a < self@.entries.len() ==> (#[trigger] self@.entries[a]).bucket >= g && (
                    self@.entries[a].bucket == g ==> g as int == group_at(
                        v0.offset,
                        v0.width,
                        v0.now as int,
                    )),
                forall|a: int|
                    0 <= a < self@.entries.len() ==> token_among(
                        v0.entries,
                        (#[trigger] self@.entries[a]).token,
                    ),
                all_perpetual(v0.entries) ==> all_perpetual(self@.entries)
                    && self@.entries.len() == v0.entries.len() - cut + bi,
                self.time_elapsed() <= self@.now as int,
                self.time_elapsed() >= old(self).time_elapsed(),
                self.time_exact() == old(self).time_exact(),
                old(self).time_exact() ==> self.time_elapsed() == old(self).time_elapsed(),
            decreases batch@.len() - bi,
        {
            let e = batch[bi];
            toks.push(e.token);
            proof {
                assert(entry_ok(v0, v0.entries[bi as int]));
            }
            let ghost sub1 = batch@.subrange(0, bi as int + 1);
            proof {
                assert(sub1.drop_last() =~= batch@.subrange(0, bi as int));
                assert(sub1.last() == batch@[bi as int]);
            }
            if e.perpetual {
                let nf2 = sat_add(e.next_fire, e.every);
                let b2: u64 = (nf2 - self.offset) / self.group_interval;
                let e2 = ScheduleEntry {
                    bucket: b2,
                    next_fire: nf2,
                    every: e.every,
                    token: e.token,
                    perpetual: true,
                };
                proof {
                    lemma_run_len_char(v0.entries, g);
                    assert(e == v0.entries[bi as int]);
                    assert(e.bucket == g);
                    assert(nf2 >= e.next_fire);
                    lemma_group_bounds(v0.offset, v0.width, nf2 as int);
                    assert(e2 == refile_entry(v0.offset, v0.width, e));
                    lemma_group_monotone(v0.offset, v0.width, e.next_fire as int, nf2 as int);
                    assert(entry_ok(self@, e2));
                    lemma_insert_sorted_inv(self@, e2);
                    lemma_insert_pos_char(self@.entries, nf2);
                }
                let ghost acc_pre = self@.entries;
                let p = find_insert_pos(&self.tasks, nf2);
                self.tasks.insert(p, e2);
                proof {
                    assert(self@.entries == insert_sorted(acc_pre, e2));
                    if nf2 < u64::MAX {
                        lemma_group_step(v0.offset, v0.width, e.next_fire as int, e.every as int);
                        assert(e2.bucket > g);
                    } else {
                        lemma_group_monotone(v0.offset, v0.width, v0.now as int, u64::MAX as int);
                        assert(e2.bucket as int >= group_at(v0.offset, v0.width, v0.now as int));
                    }
                    lemma_insert_pos_char(acc_pre, nf2);
                    assert forall|a: int|
                        0 <= a < self@.entries.len() implies (#[trigger] self@.entries[a]).bucket
                        >= g && (self@.entries[a].bucket == g ==> g as int == group_at(
                        v0.offset,
                        v0.width,
                        v0.now as int,
                    )) && token_among(v0.entries, self@.entries[a].token) by {
                        let p = insert_pos(acc_pre, nf2);
                        if a < p {
                            assert(self@.entries[a] == acc_pre[a]);
                        } else if a == p {
                            assert(self@.entries[a] == e2);
                            assert(e2.token == v0.entries[bi as int].token);
                        } else {
                            assert(self@.entries[a] == acc_pre[a - 1]);
                        }
                    }
                    if all_perpetual(v0.entries) {
                        assert forall|a: int| 0 <= a < self@.entries.len() implies (
                        #[trigger] self@.entries[a]).perpetual by {
                            let p = insert_pos(acc_pre, nf2);
                            if a < p {
                                assert(self@.entries[a] == acc_pre[a]);
                            } else if a > p {
                                assert(self@.entries[a] == acc_pre[a - 1]);
                            }
                        }
                    }
                    let rf_prev = refiled_of(v0.offset, v0.width, batch@.subrange(0, bi as int));
                    let rf_new = refiled_of(v0.offset, v0.width, sub1);
                    assert(rf_new == rf_prev.push(e2));
                    assert(rf_prev.push(e2).drop_last() =~= rf_prev);
                    assert(inserted_all(v0.entries.skip(cut as int), rf_prev.push(e2))
                        == insert_sorted(
                        inserted_all(v0.entries.skip(cut as int), rf_prev),
                        e2,
                    ));
                }
            } else {
                proof {
                    let rf_prev = refiled_of(v0.offset, v0.width, batch@.subrange(0, bi as int));
                    assert(refiled_of(v0.offset, v0.width, sub1) == rf_prev);
                    if all_perpetual(v0.entries) {
                        assert(v0.entries[bi as int].perpetual);
                    }
                }
            }
            bi = bi + 1;
        }
        proof {
            assert(batch@.subrange(0, batch@.len() as int) =~= batch@);
            assert(batch_of(v0.entries) =~= batch@);
            assert(toks@ =~= tokens_of(batch_of(v0.entries)));
            assert(self@.entries == after_commit(v0.offset, v0.width, v0.entries));
        }
        let n = toks.len();
        if g == cur {
            self.ready_count = sat_add(self.ready_count, n as u64);
            Result::Ok(Decision::Ready(toks))
        } else {
            self.overrun_count = sat_add(self.overrun_count, n as u64);
            Result::Ok(Decision::Overrun(toks))
        }
    }

    /// A non-committing classification of the current instant: whether the
    /// schedule is empty, the earliest bucket lies ahead (and how far), is
    /// current, or which distinct buckets lie strictly in the past.
    pub fn run_action(&mut self) -> (r: RunAction)
        requires
            old(self).wf(),
        ensures
            final(self).wf(),
            final(self)@.offset == old(self)@.offset,
            final(self)@.width == old(self)@.width,
            final(self)@.entries == old(self)@.entries,
            final(self)@.last_group == old(self)@.last_group,
            final(self)@.ready_count == old(self)@.ready_count,
            final(self)@.overrun_count == old(self)@.overrun_count,
            final(self)@.now >= old(self)@.now,
            final(self).time_exact() == old(self).time_exact(),
            old(self).time_exact() ==> final(self).time_elapsed() == old(self).time_elapsed()
                && final(self)@.now as int == exact_observation(
                old(self)@.now,
                old(self).time_elapsed(),
            ),
            ({
                let v = final(self)@;
                let cur = group_at(v.offset, v.width, v.now as int);
                match r {
                    RunAction::Empty => v.entries.len() == 0,
                    RunAction::Wait(ms) => {
                        &&& v.entries.len() > 0
                        &&& v.entries[0].bucket as int > cur
                        &&& v.offset + v.entries[0].bucket as int * v.width == v.now + ms
                        &&& ms > 0
                    },
                    RunAction::Run(gr) => {
                        &&& v.entries.len() > 0
                        &&& gr == v.entries[0].bucket
                        &&& gr as int == cur
                    },
                    RunAction::Skip(groups) => {
                        &&& v.entries.len() > 0
                        &&& (v.entries[0].bucket as int) < cur
                        &&& groups@.len() > 0
                        &&& (forall|a: int, b: int|
                            0 <= a < b < groups@.len() ==> groups@[a] < groups@[b])
                        &&& (forall|a: int|
                            0 <= a < groups@.len() ==> ((#[trigger] groups@[a]) as int) < cur)
                        &&& (forall|a: int|
                            0 <= a < groups@.len() ==> bucket_present(
                                v.entries,
                                #[trigger] groups@[a],
                            ))
                        &&& (forall|i: int|
                            0 <= i < v.entries.len() && ((#[trigger] v.entries[i]).bucket as int)
                                < cur ==> groups@.contains(v.entries[i].bucket))
                    },
                }
            }),
    {
        let now = self.observe_now();
        if self.tasks.len() == 0 {
            return RunAction::Empty;
        }
        let offset = self.offset;
        let width = self.group_interval;
        let cur: u64 = (now - offset) / width;
        let g: u64 = self.tasks[0].bucket;
        proof {
            assert(entry_ok(self@, self@.entries[0]));
            lemma_buckets_monotone(self@);
        }
        if g > cur {
            proof {
                lemma_group_bounds(offset, width, self.tasks[0].next_fire as int);
                lemma_group_bounds(offset, width, now as int);
                assert((cur as int + 1) * width <= g as int * width) by (nonlinear_arith)
                    requires
                        cur as int + 1 <= g as int,
                        width > 0,
                ;
            }
            let deadline: u64 = offset + g * width;
            RunAction::Wait(deadline - now)
        } else if g == cur {
            RunAction::Run(g)
        } else {
            let ghost v = self@;
            let mut groups: Vec<u64> = Vec::new();
            let mut i: usize = 0;
            while i < self.tasks.len() && self.tasks[i].bucket < cur
                invariant
                    0 <= i <= v.entries.len(),
                    self.tasks@ == v.entries,
                    inv_v(v),
                    forall|j: int| 0 <= j < i ==> v.entries[j].bucket < cur,
                    i > 0 ==> groups@.len() > 0 && groups@[groups@.len() - 1] == v.entries[i
                        - 1].bucket,
                    i == 0 ==> groups@.len() == 0,
                    forall|a: int, b: int| 0 <= a < b < groups@.len() ==> groups@[a] < groups@[b],
                    forall|a: int| 0 <= a < groups@.len() ==> (#[trigger] groups@[a]) < cur,
                    forall|a: int|
                        0 <= a < groups@.len() ==> bucket_present(v.entries, #[trigger] groups@[a]),
                    forall|j: int| 0 <= j < i ==> groups@.contains((#[trigger] v.entries[j]).bucket),
                decreases v.entries.len() - i,
            {
                let ghost groups_pre = groups@;
                let b = self.tasks[i].bucket;
                if groups.len() == 0 {
                    groups.push(b);
                } else {
                    let lastb = groups[groups.len() - 1];
                    if lastb != b {
                        proof {
                            lemma_buckets_monotone(v);
                            assert(v.entries[i - 1].bucket <= v.entries[i as int].bucket);
                        }
                        groups.push(b);
                    }
                }
                proof {
                    assert forall|a: int| 0 <= a < groups@.len() implies (
                    #[trigger] groups@[a]) < cur by {
                        if a < groups_pre.len() {
                            assert(groups@[a] == groups_pre[a]);
                        }
                    }
                    assert forall|j: int| 0 <= j < i + 1 implies groups@.contains(
                        (#[trigger] v.entries[j]).bucket,
                    ) by {
                        if j < i {
                            let a = choose|a: int|
                                0 <= a < groups_pre.len() && groups_pre[a] == v.entries[j].bucket;
                            assert(groups@[a] == v.entries[j].bucket);
                        } else {
                            assert(groups@[groups@.len() - 1] == b);
                        }
                    }
                    assert forall|a: int| 0 <= a < groups@.len() implies bucket_present(
                        v.entries,
                        #[trigger] groups@[a],
                    ) by {
                        if a < groups_pre.len() {
                            assert(groups@[a] == groups_pre[a]);
                        } else {
                            assert(v.entries[i as int].bucket == groups@[a]);
                        }
                    }
                }
                i = i + 1;
            }
            proof {
                lemma_buckets_monotone(v);
                assert forall|j: int|
                    0 <= j < v.entries.len() && ((#[trigger] v.entries[j]).bucket as int)
                        < cur as int implies groups@.contains(v.entries[j].bucket) by {
                    if j >= i {
                        assert(v.entries[i as int].bucket <= v.entries[j].bucket);
                    }
                }
            }
            RunAction::Skip(groups)
        }
    }

    /// One blocking poll: waits out any `Wait` decision on the owned time
    /// source, then reports the tokens of a ready batch, or the count of an
    /// overrun batch as skipped, or that the schedule is empty.
    pub fn run(&mut self) -> (r: Result<Vec<u64>, SchedulerRunError>)
        requires
            old(self).wf(),
        ensures
            final(self).wf(),
            final(self)@.offset == old(self)@.offset,
            final(self)@.width == old(self)@.width,
            final(self)@.now >= old(self)@.now,
            final(self)@.last_group >= old(self)@.last_group,
            final(self).time_exact() == old(self).time_exact(),
            (old(self).time_exact() && old(self).time_elapsed() == old(self)@.now as int) ==> ({
                let dl = if old(self)@.entries.len() == 0 {
                    old(self)@.now as int
                } else {
                    old(self)@.offset + old(self)@.entries[0].bucket * old(self)@.width
                };
                &&& final(self).time_elapsed() == final(self)@.now as int
                &&& final(self)@.now as int == (if dl > old(self)@.now as int {
                    dl
                } else {
                    old(self)@.now as int
                })
            }),
            match r {
                Result::Err(err) => match err {
                    SchedulerRunError::ScheduleEmpty => {
                        &&& old(self)@.entries.len() == 0
                        &&& final(self)@.entries == old(self)@.entries
                        &&& final(self)@.ready_count == old(self)@.ready_count
                        &&& final(self)@.overrun_count == old(self)@.overrun_count
                    },
                    SchedulerRunError::TasksSkipped(n) => {
                        let v0 = old(self)@;
                        let v1 = final(self)@;
                        let g = v0.entries[0].bucket;
                        &&& v0.entries.len() > 0
                        &&& n as int == run_len(v0.entries, g)
                        &&& n > 0
                        &&& (g as int) < group_at(v1.offset, v1.width, v1.now as int)
                        &&& v1.entries == after_commit(v1.offset, v1.width, v0.entries)
                        &&& v1.overrun_count == sat_add_spec(v0.overrun_count, n)
                        &&& v1.ready_count == v0.ready_count
                        &&& v1.last_group == g
                    },
                },
                Result::Ok(toks) => {
                    let v0 = old(self)@;
                    let v1 = final(self)@;
                    let g = v0.entries[0].bucket;
                    &&& v0.entries.len() > 0
                    &&& (toks@ =~= tokens_of(batch_of(v0.entries)))
                    &&& toks@.len() > 0
                    &&& g as int == group_at(v1.offset, v1.width, v1.now as int)
                    &&& v1.entries == after_commit(v1.offset, v1.width, v0.entries)
                    &&& v1.ready_count == sat_add_spec(v0.ready_count, toks@.len() as u64)
                    &&& v1.overrun_count == v0.overrun_count
                    &&& v1.last_group == g
                },
            },
    {
        loop
            invariant
                self.wf(),
                self@.offset == old(self)@.offset,
                self@.width == old(self)@.width,
                self@.entries == old(self)@.entries,
                self@.last_group == old(self)@.last_group,
                self@.ready_count == old(self)@.ready_count,
                self@.overrun_count == old(self)@.overrun_count,
                self@.now >= old(self)@.now,
                self.time_exact() == old(self).time_exact(),
                (old(self).time_exact() && old(self).time_elapsed() == old(self)@.now as int)
                    ==> ({
                    let dl = if old(self)@.entries.len() == 0 {
                        old(self)@.now as int
                    } else {
                        old(self)@.offset + old(self)@.entries[0].bucket * old(self)@.width
                    };
                    (self.time_elapsed() == old(self).time_elapsed() && self@.now == old(
                        self,
                    )@.now) || (self.time_elapsed() == dl && dl > old(self)@.now as int
                        && self@.now == old(self)@.now)
                }),
            decreases (if self@.entries.len() == 0 {
                0int
            } else {
                let dl = self@.offset + self@.entries[0].bucket * self@.width;
                if dl - self.time_elapsed() < 0 {
                    0int
                } else {
                    dl - self.time_elapsed()
                }
            }),
        {
            let ghost pre = self@;
            match self.next() {
                Result::Err(e) => {
                    return Result::Err(e);
                },
                Result::Ok(Decision::Ready(toks)) => {
                    proof {
                        if old(self).time_exact() && old(self).time_elapsed() == old(
                            self,
                        )@.now as int {
                            lemma_group_bounds(pre.offset, pre.width, old(self)@.now as int);
                        }
                    }
                    return Result::Ok(toks);
                },
                Result::Ok(Decision::Overrun(toks)) => {
                    let n = toks.len();
                    proof {
                        lemma_run_len_char(pre.entries, pre.entries[0].bucket);
                        if old(self).time_exact() && old(self).time_elapsed() == old(
                            self,
                        )@.now as int {
                            let g = pre.entries[0].bucket;
                            let w = pre.width;
                            lemma_group_bounds(pre.offset, w, old(self)@.now as int);
                            let cur = group_at(pre.offset, w, self@.now as int);
                            assert(g as int * w <= cur * w) by (nonlinear_arith)
                                requires
                                    g as int <= cur,
                                    w >= 0,
                            ;
                            vstd::arithmetic::div_mod::lemma_fundamental_div_mod_converse(
                                g as int * w,
                                w as int,
                                g as int,
                                0,
                            );
                        }
                    }
                    return Result::Err(SchedulerRunError::TasksSkipped(n as u64));
                },
                Result::Ok(Decision::Wait(d)) => {
                    proof {
                        assert(inv_v(self@));
                        assert(entry_ok(self@, self@.entries[0]));
                        lemma_group_bounds(
                            self@.offset,
                            self@.width,
                            self@.entries[0].next_fire as int,
                        );
                        if old(self).time_exact() && old(self).time_elapsed() == old(
                            self,
                        )@.now as int {
                            let dl = old(self)@.offset + old(self)@.entries[0].bucket * old(
                                self,
                            )@.width;
                            let g = self@.entries[0].bucket;
                            vstd::arithmetic::div_mod::lemma_fundamental_div_mod_converse(
                                g as int * self@.width,
                                self@.width as int,
                                g as int,
                                0,
                            );
                            assert(group_at(self@.offset, self@.width, dl) == g as int);
                        }
                    }
                    self.time_source.wait(d);
                },
            }
        }
    }

    /// Lets the owned time source advance by `ms`: a real source blocks that
    /// long, a manual one steps forward.
    pub fn advance(&mut self, ms: u64)
        requires
            old(self).wf(),
        ensures
            final(self).wf(),
            final(self)@ == old(self)@,
            final(self).time_exact() == old(self).time_exact(),
            old(self).time_exact() && old(self).time_elapsed() + ms <= u64::MAX as int
                ==> final(self).time_elapsed() == old(self).time_elapsed() + ms,
    {
        self.time_source.wait(ms);
    }
}


/// A schedule whose cadence equals the bucket width is re-filed in the next
/// consecutive bucket on every fire: no bucket is skipped and none repeats.
pub proof fn lemma_width_cadence_consecutive(offset: u64, width: u64, e: ScheduleEntry)
    requires
        width > 0,
        e.every == width,
        e.next_fire >= offset,
        e.bucket as int == group_at(offset, width, e.next_fire as int),
        e.next_fire + width <= u64::MAX,
    ensures
        refile_entry(offset, width, e).next_fire == e.next_fire + width,
        refile_entry(offset, width, e).bucket as int == e.bucket as int + 1,
{
    let d = width as int;
    let x = e.next_fire - offset;
    lemma_fundamental_div_mod(x, d);
    vstd::arithmetic::div_mod::lemma_mod_bound(x, d);
    assert(d * (x / d + 1) == d * (x / d) + d) by (nonlinear_arith);
    vstd::arithmetic::div_mod::lemma_fundamental_div_mod_converse(x + d, d, x / d + 1, x % d);
    lemma_group_bounds(offset, width, e.next_fire as int);
    lemma_group_bounds(offset, width, e.next_fire + width);
    let g2 = group_at(offset, width, e.next_fire + width);
    assert(g2 <= g2 * width) by (nonlinear_arith)
        requires
            g2 >= 0,
            width >= 1,
    ;
}

/// The instant of the `k`-th fire of a cadence starting at `first`.
pub open spec fn cadence_fire(first: int, every: int, k: int) -> int {
    first + k * every
}

/// Re-filing preserves the cadence: if a schedule's fire was the `k`-th
/// step of its cadence, its re-filed fire is the `k + 1`-th — the next fire
/// advances by exactly the interval, never relative to the current time.
pub proof fn lemma_refile_keeps_cadence(
    offset: u64,
    width: u64,
    e: ScheduleEntry,
    first: int,
    k: int,
)
    requires
        e.next_fire as int == cadence_fire(first, e.every as int, k),
        e.next_fire + e.every <= u64::MAX,
    ensures
        refile_entry(offset, width, e).next_fire as int == cadence_fire(
            first,
            e.every as int,
            k + 1,
        ),
{
    assert((k + 1) * (e.every as int) == k * (e.every as int) + e.every) by (nonlinear_arith);
}

/// Cadence accounting over an observation window (an interval of length
/// `n * every`). A schedule's attempted fire instants are `first + k * every`:
/// the initial filing steps from the reference instant in `every`-sized
/// steps, and each re-file adds exactly `every` to the previous fire. The
/// attempts that land in the window are exactly `n` consecutive steps — the
/// ones from the first step at or past the window's start. So a schedule
/// attempts exactly `n` fires per window of `n` cadences, and since only
/// overrun and gone fires do not run, the runs number at least `n` minus
/// those counts and at most `n`.
pub proof fn lemma_cadence_window(first: int, every: int, w: int, n: int)
    requires
        every > 0,
        n >= 0,
    ensures
        ({
            let klo = (w - first + every - 1) / every;
            forall|k: int|
                (w <= #[trigger] cadence_fire(first, every, k) && cadence_fire(first, every, k) < w
                    + n * every) <==> (klo <= k < klo + n)
        }),
{
    let x = w - first;
    let e = every;
    let klo = (x + e - 1) / e;
    lemma_fundamental_div_mod(x + e - 1, e);
    vstd::arithmetic::div_mod::lemma_mod_bound(x + e - 1, e);
    let r = (x + e - 1) % e;
    assert forall|k: int|
        (w <= #[trigger] cadence_fire(first, every, k) && cadence_fire(first, every, k) < w + n
            * e) <==> (klo <= k < klo + n) by {
        assert(x + e - 1 == e * klo + r);
        assert(klo * e == e * klo) by (nonlinear_arith);
        assert((klo - 1) * e == klo * e - e) by (nonlinear_arith);
        assert((k - n) * e == k * e - n * e) by (nonlinear_arith);
        if k >= klo {
            assert(k * e >= klo * e) by (nonlinear_arith)
                requires
                    k >= klo,
                    e > 0,
            ;
        }
        if k <= klo - 1 {
            assert(k * e <= (klo - 1) * e) by (nonlinear_arith)
                requires
                    k <= klo - 1,
                    e > 0,
            ;
        }
        if k - n >= klo {
            assert((k - n) * e >= klo * e) by (nonlinear_arith)
                requires
                    k - n >= klo,
                    e > 0,
            ;
        }
        if k - n <= klo - 1 {
            assert((k - n) * e <= (klo - 1) * e) by (nonlinear_arith)
                requires
                    k - n <= klo - 1,
                    e > 0,
            ;
        }
    }
}

} // verus!
