//! Probes, modules and the probe scheduler: the dispatcher-facing layer
//! that files each module's schedules with the cadence scheduler, resolves
//! fired tokens back to probes, and accounts for every fire as dispatched,
//! overrun or gone.

use vstd::prelude::*;
use crate::scheduler::Decision;
use crate::scheduler::SchedulerV;
use crate::scheduler::after_commit;
use crate::scheduler::all_perpetual;
use crate::scheduler::token_filed;
use crate::scheduler::lemma_insert_keeps_filed;
use crate::scheduler::ScheduleEntry;
use crate::scheduler::Scheduler;
use crate::scheduler::SchedulerRunError;
use crate::scheduler::batch_of;
use crate::scheduler::group_at;
use crate::scheduler::lemma_group_monotone;
use crate::scheduler::lemma_retained_props;
use crate::scheduler::lemma_run_len_char;
use crate::scheduler::retained;
use crate::scheduler::run_len;
use crate::scheduler::sat_add_spec;
use crate::scheduler::tokens_of;
use crate::timer::TimeSource;

verus! {

/// Where a probe runs. The runtime executes every probe on the dispatcher's
/// own thread; the variant set is an extensibility point.
#[derive(Clone, Copy, Debug, PartialEq, Eq, Structural)]
#[non_exhaustive]
pub enum ProbeRunMode {
    SharedThread,
}

/// Another name for the run mode.
pub type RunMode = ProbeRunMode;

/// One schedule a module contributes: run `probe` every `every`
/// milliseconds.
#[derive(Clone, Copy, Debug, PartialEq, Eq)]
pub struct ProbeSchedule<P> {
    pub every: u64,
    pub probe: P,
}

/// Another name for a contributed schedule.
pub type ProbeRunPlan<P> = ProbeSchedule<P>;

/// A unit of measurement work: emits zero or more measurements through a
/// collector when run.
pub trait Probe<C> {
    fn name(&self) -> String;

    fn run(&self, collector: &mut C) -> Result<(), String>;

    fn run_mode(&self) -> ProbeRunMode;
}

/// A named group of probes and their cadences.
pub trait Module<P> {
    fn name(&self) -> String;

    fn schedule(&self) -> Vec<ProbeSchedule<P>>;
}

/// Runs a batch of probes one after another on the current thread, in push
/// order, collecting each probe's outcome.
pub struct SharedThreadProbeExecutor<P> {
    probes: Vec<P>,
}

/// Another name for the shared-thread executor.
pub type SharedThreadProbeRunner<P> = SharedThreadProbeExecutor<P>;

impl<P> SharedThreadProbeExecutor<P> {
    /// How many probes are queued.
    pub closed spec fn count(&self) -> int {
        self.probes@.len() as int
    }

    pub fn new() -> (e: SharedThreadProbeExecutor<P>)
        ensures
            e.count() == 0,
    {
        SharedThreadProbeExecutor { probes: Vec::new() }
    }

    pub fn push(&mut self, probe: P)
        ensures
            final(self).count() == old(self).count() + 1,
    {
        self.probes.push(probe);
    }

    /// Runs every queued probe in order against the collector; the result
    /// holds one outcome per probe, in the same order.
    pub fn run<C>(self, collector: &mut C) -> (r: Vec<Result<(), String>>) where P: Probe<C>
        ensures
            r@.len() == self.count(),
    {
        let mut out: Vec<Result<(), String>> = Vec::new();
        let n: usize = self.probes.len();
        let mut i: usize = 0;
        while i < n
            invariant
                0 <= i <= n,
                n == self.probes@.len(),
                out@.len() == i,
            decreases n - i,
        {
            let outcome = self.probes[i].run(collector);
            out.push(outcome);
            i = i + 1;
        }
        out
    }
}

/// What one poll of the probe scheduler asks the dispatcher to do: wait out
/// a delay, or run the probes behind these tokens.
#[derive(Clone, Debug, PartialEq, Eq)]
pub enum Schedule {
    Wait(u64),
    Probes(Vec<u64>),
}

/// A count clamped into the machine range for reporting.
pub open spec fn clamp64(x: int) -> u64 {
    if x >= u64::MAX {
        u64::MAX
    } else if x < 0 {
        0
    } else {
        x as u64
    }
}

fn sat_add(a: u64, b: u64) -> (r: u64)
    ensures
        r == sat_add_spec(a, b),
{
    if a > u64::MAX - b {
        u64::MAX
    } else {
        a + b
    }
}

/// The tokens of `toks` whose slot in `probes` holds a live probe, in
/// order.
pub open spec fn resolved_of<P>(probes: Seq<Option<P>>, toks: Seq<u64>) -> Seq<u64>
    decreases toks.len(),
{
    if toks.len() == 0 {
        Seq::empty()
    } else {
        let r = resolved_of(probes, toks.drop_last());
        let t = toks.last();
        if 0 <= t < probes.len() && probes[t as int] is Some {
            r.push(t)
        } else {
            r
        }
    }
}

/// A run of overrun commits: each state but the last holds a batch whose
/// bucket lies strictly before `cur`, and each next state is the schedule
/// after that batch is handed out.
pub open spec fn overrun_chain(
    offset: u64,
    width: u64,
    chain: Seq<Seq<ScheduleEntry>>,
    cur: int,
) -> bool {
    &&& chain.len() >= 1
    &&& forall|i: int|
        0 <= i < chain.len() - 1 ==> (#[trigger] chain[i]).len() > 0 && (chain[i][0].bucket as int)
            < cur && chain[i + 1] == after_commit(offset, width, chain[i])
}

/// How many fires the overrun commits of a chain hand out.
pub open spec fn chain_overruns(chain: Seq<Seq<ScheduleEntry>>) -> int
    decreases chain.len(),
{
    if chain.len() <= 1 {
        0
    } else {
        crate::scheduler::run_len(chain[0], chain[0][0].bucket) + chain_overruns(
            chain.drop_first(),
        )
    }
}

/// Extending a chain by one commit adds the fires of what was its last
/// state.
pub proof fn lemma_chain_overruns_push(chain: Seq<Seq<ScheduleEntry>>, x: Seq<ScheduleEntry>)
    requires
        chain.len() >= 1,
        chain.last().len() > 0,
    ensures
        chain_overruns(chain.push(x)) == chain_overruns(chain) + crate::scheduler::run_len(
            chain.last(),
            chain.last()[0].bucket,
        ),
    decreases chain.len(),
{
    reveal_with_fuel(chain_overruns, 3);
    if chain.len() == 1 {
        assert(chain.push(x).drop_first() =~= seq![x]);
        assert(chain.push(x)[0] == chain[0]);
        assert(chain.last() == chain[0]);
    } else {
        assert(chain.push(x).drop_first() =~= chain.drop_first().push(x));
        assert(chain.push(x)[0] == chain[0]);
        assert(chain.drop_first().last() == chain.last());
        lemma_chain_overruns_push(chain.drop_first(), x);
    }
}

/// The plans a registration honors: those whose cadence is no finer than
/// the bucket width.
pub open spec fn honored<P>(plans: Seq<ProbeSchedule<P>>) -> Seq<ProbeSchedule<P>>
    decreases plans.len(),
{
    if plans.len() == 0 {
        Seq::empty()
    } else {
        let r = honored(plans.drop_last());
        if plans.last().every >= 100 {
            r.push(plans.last())
        } else {
            r
        }
    }
}

/// Whether a perpetual schedule with this token and interval is filed
/// consistently, with its first fire stepped from the reference instant
/// past the bucket `cur` (or pinned at the end of time).
pub open spec fn plan_filed(
    entries: Seq<ScheduleEntry>,
    token: u64,
    every: u64,
    offset: u64,
    width: u64,
    cur: int,
) -> bool {
    exists|j: int|
        0 <= j < entries.len() && (#[trigger] entries[j]).token == token && entries[j].every
            == every && entries[j].perpetual && entries[j].bucket as int == group_at(
            offset,
            width,
            entries[j].next_fire as int,
        ) && (crate::scheduler::is_initial_fire(offset, width, every, cur, entries[j].next_fire)
            || entries[j].next_fire == u64::MAX)
}

/// Filing one more schedule keeps every consistently filed schedule so.
pub proof fn lemma_insert_keeps_plan_filed(
    entries: Seq<ScheduleEntry>,
    e: ScheduleEntry,
    token: u64,
    every: u64,
    offset: u64,
    width: u64,
    cur: int,
)
    requires
        plan_filed(entries, token, every, offset, width, cur),
    ensures
        plan_filed(crate::scheduler::insert_sorted(entries, e), token, every, offset, width, cur),
{
    crate::scheduler::lemma_insert_pos_char(entries, e.next_fire);
    let p = crate::scheduler::insert_pos(entries, e.next_fire);
    let j = choose|j: int|
        0 <= j < entries.len() && (#[trigger] entries[j]).token == token && entries[j].every
            == every && entries[j].perpetual && entries[j].bucket as int == group_at(
            offset,
            width,
            entries[j].next_fire as int,
        ) && (crate::scheduler::is_initial_fire(offset, width, every, cur, entries[j].next_fire)
            || entries[j].next_fire == u64::MAX);
    if j < p {
        assert(crate::scheduler::insert_sorted(entries, e)[j] == entries[j]);
    } else {
        assert(crate::scheduler::insert_sorted(entries, e)[j + 1] == entries[j]);
    }
}

/// Files every module's probes with a cadence scheduler at a 100 ms bucket
/// width, hands out batches of fired tokens, and accounts for every
/// attempted fire: dispatched to a live probe, overrun, or gone because its
/// probe no longer resolves (in which case the schedule is cancelled).
pub struct ProbeScheduler<P, T: TimeSource> {
    scheduler: Scheduler<T>,
    probes: Vec<Option<P>>,
    overrun: u64,
    dispatched: u64,
    gone: u64,
    declined: u64,
    g_attempts: Ghost<int>,
    g_overrun: Ghost<int>,
    g_dispatched: Ghost<int>,
    g_gone: Ghost<int>,
    g_declined: Ghost<int>,
}

impl<P, T: TimeSource> ProbeScheduler<P, T> {
    /// Fires the scheduler has handed out so far, ready and overrun alike.
    pub closed spec fn attempted_fires(&self) -> int {
        self.g_attempts@
    }

    /// Fires handed out too late to run.
    pub closed spec fn overrun_fires(&self) -> int {
        self.g_overrun@
    }

    /// Fires resolved to a live probe and handed to the dispatcher.
    pub closed spec fn dispatched_fires(&self) -> int {
        self.g_dispatched@
    }

    /// Fires whose probe no longer resolved.
    pub closed spec fn gone_fires(&self) -> int {
        self.g_gone@
    }

    /// Plans declined at registration because their cadence was finer than
    /// the bucket width.
    pub closed spec fn declined_plans(&self) -> int {
        self.g_declined@
    }

    /// How many probes have been filed (live or gone).
    pub closed spec fn probe_count(&self) -> int {
        self.probes@.len() as int
    }

    /// Whether `token` resolves to a live probe.
    pub closed spec fn resolves(&self, token: u64) -> bool {
        0 <= token < self.probes@.len() && self.probes@[token as int] is Some
    }

    /// The probe table: one slot per filed probe, `None` once it is gone.
    pub closed spec fn probes_view(&self) -> Seq<Option<P>> {
        self.probes@
    }

    /// The abstract state of the owned cadence scheduler.
    pub closed spec fn sched(&self) -> SchedulerV {
        self.scheduler@
    }

    /// Whether the owned time source is exact (see `TimeSource::exact`).
    pub closed spec fn time_exact(&self) -> bool {
        self.scheduler.time_exact()
    }

    /// The reading of the owned time source.
    pub closed spec fn time_elapsed(&self) -> int {
        self.scheduler.time_elapsed()
    }

    /// The invariant: the owned scheduler is well formed at the fixed 100 ms
    /// bucket width, every filed token indexes a probe slot, counters mirror
    /// their (unbounded) tallies, and every attempted fire is accounted
    /// exactly once as overrun, dispatched or gone.
    pub closed spec fn wf(&self) -> bool {
        &&& self.scheduler.wf()
        &&& self.scheduler@.width == 100
        &&& all_perpetual(self.scheduler@.entries)
        &&& forall|i: int|
            0 <= i < self.scheduler@.entries.len() ==> (#[trigger] self.scheduler@.entries[i]).token
                < self.probes@.len()
        &&& self.g_overrun@ >= 0
        &&& self.g_dispatched@ >= 0
        &&& self.g_gone@ >= 0
        &&& self.g_attempts@ == self.g_overrun@ + self.g_dispatched@ + self.g_gone@
        &&& self.overrun == clamp64(self.g_overrun@)
        &&& self.dispatched == clamp64(self.g_dispatched@)
        &&& self.gone == clamp64(self.g_gone@)
        &&& self.g_declined@ >= 0
        &&& self.declined == clamp64(self.g_declined@)
    }

    /// Every attempted fire is accounted exactly once: the overrun,
    /// dispatched and gone tallies always sum to the attempted tally.
    pub proof fn lemma_fire_accounting(&self)
        requires
            self.wf(),
        ensures
            self.overrun_fires() + self.dispatched_fires() + self.gone_fires()
                == self.attempted_fires(),
    {
    }

    /// Creates an empty probe scheduler over the given time source, with the
    /// 100 ms bucket width.
    pub fn new(time_source: T) -> (s: ProbeScheduler<P, T>)
        ensures
            s.wf(),
            s.attempted_fires() == 0,
            s.overrun_fires() == 0,
            s.dispatched_fires() == 0,
            s.gone_fires() == 0,
            s.declined_plans() == 0,
            s.probe_count() == 0,
            s.sched().entries.len() == 0,
            s.sched().width == 100,
            s.sched().now == s.sched().offset,
            s.time_exact() == time_source.exact(),
            time_source.exact() ==> s.sched().offset as int == time_source.elapsed_ms()
                && s.time_elapsed() == time_source.elapsed_ms(),
    {
        ProbeScheduler {
            scheduler: Scheduler::new(100, time_source),
            probes: Vec::new(),
            overrun: 0,
            dispatched: 0,
            gone: 0,
            declined: 0,
            g_attempts: Ghost(0),
            g_overrun: Ghost(0),
            g_dispatched: Ghost(0),
            g_gone: Ghost(0),
            g_declined: Ghost(0),
        }
    }

    /// Files the given plans in order: each plan whose cadence is no finer
    /// than the bucket width becomes a perpetual schedule under the next
    /// free token; a finer plan cannot be honored at this bucket width and
    /// is not filed. The probe table grows by exactly the honored plans'
    /// probes, in plan order.
    pub fn schedule_plans(&mut self, plans: Vec<ProbeSchedule<P>>)
        requires
            old(self).wf(),
        ensures
            final(self).wf(),
            final(self).attempted_fires() == old(self).attempted_fires(),
            final(self).overrun_fires() == old(self).overrun_fires(),
            final(self).dispatched_fires() == old(self).dispatched_fires(),
            final(self).gone_fires() == old(self).gone_fires(),
            final(self).declined_plans() == old(self).declined_plans() + (plans@.len() - honored(
                plans@,
            ).len()),
            (final(self).probes_view() =~= old(self).probes_view() + honored(
                plans@,
            ).map_values(|p: ProbeSchedule<P>| Option::Some(p.probe))),
            final(self).sched().entries.len() == old(self).sched().entries.len() + honored(
                plans@,
            ).len(),
            forall|k: int|
                0 <= k < honored(plans@).len() ==> token_filed(
                    final(self).sched().entries,
                    (old(self).probe_count() + k) as u64,
                    (#[trigger] honored(plans@)[k]).every,
                ),
            final(self).sched().offset == old(self).sched().offset,
            final(self).sched().width == old(self).sched().width,
            final(self).time_exact() == old(self).time_exact(),
            old(self).time_exact() ==> final(self).time_elapsed() == old(self).time_elapsed(),
            old(self).time_exact() ==> forall|k: int|
                0 <= k < honored(plans@).len() ==> plan_filed(
                    final(self).sched().entries,
                    (old(self).probe_count() + k) as u64,
                    (#[trigger] honored(plans@)[k]).every,
                    old(self).sched().offset,
                    old(self).sched().width,
                    group_at(
                        old(self).sched().offset,
                        old(self).sched().width,
                        crate::scheduler::exact_observation(
                            old(self).sched().now,
                            old(self).time_elapsed(),
                        ),
                    ),
                ),
    {
        let mut plans = plans;
        let total: usize = plans.len();
        let ghost all = plans@;
        let mut idx: usize = 0;
        proof {
            assert(all.take(0) =~= Seq::<ProbeSchedule<P>>::empty());
            assert(honored(all.take(0)) =~= Seq::<ProbeSchedule<P>>::empty());
            assert(self.probes@ =~= old(self).probes@ + honored(all.take(0)).map_values(
                |p: ProbeSchedule<P>| Option::Some(p.probe),
            ));
        }
        while plans.len() > 0
            invariant
                self.wf(),
                self.g_attempts@ == old(self).g_attempts@,
                self.g_overrun@ == old(self).g_overrun@,
                self.g_dispatched@ == old(self).g_dispatched@,
                self.g_gone@ == old(self).g_gone@,
                self.g_declined@ == old(self).g_declined@ + (idx - honored(
                    all.take(idx as int),
                ).len()),
                honored(all.take(idx as int)).len() <= idx,
                0 <= idx <= all.len(),
                all.len() == total as int,
                idx + plans@.len() == all.len(),
                (plans@ =~= all.skip(idx as int)),
                (self.probes@ =~= old(self).probes@ + honored(all.take(idx as int)).map_values(
                    |p: ProbeSchedule<P>| Option::Some(p.probe),
                )),
                self.scheduler@.entries.len() == old(self).sched().entries.len() + honored(
                    all.take(idx as int),
                ).len(),
                forall|k: int|
                    0 <= k < honored(all.take(idx as int)).len() ==> token_filed(
                        self.scheduler@.entries,
                        (old(self).probe_count() + k) as u64,
                        (#[trigger] honored(all.take(idx as int))[k]).every,
                    ),
                self.scheduler@.offset == old(self).sched().offset,
                self.scheduler@.width == old(self).sched().width,
                self.time_exact() == old(self).time_exact(),
                old(self).time_exact() ==> self.time_elapsed() == old(self).time_elapsed() && (
                self.scheduler@.now == old(self).sched().now || self.scheduler@.now as int
                    == crate::scheduler::exact_observation(
                    old(self).sched().now,
                    old(self).time_elapsed(),
                )),
                old(self).time_exact() ==> forall|k: int|
                    0 <= k < honored(all.take(idx as int)).len() ==> plan_filed(
                        self.scheduler@.entries,
                        (old(self).probe_count() + k) as u64,
                        (#[trigger] honored(all.take(idx as int))[k]).every,
                        old(self).sched().offset,
                        old(self).sched().width,
                        group_at(
                            old(self).sched().offset,
                            old(self).sched().width,
                            crate::scheduler::exact_observation(
                                old(self).sched().now,
                                old(self).time_elapsed(),
                            ),
                        ),
                    ),
            decreases plans@.len(),
        {
            let ghost pre_take = all.take(idx as int);
            let ghost cur_take = all.take(idx as int + 1);
            proof {
                assert(cur_take.drop_last() =~= pre_take);
                assert(cur_take.last() == all[idx as int]);
                assert(plans@[0] == all[idx as int]);
            }
            let plan = plans.remove(0);
            proof {
                assert(plans@ =~= all.skip(idx as int + 1));
            }
            if plan.every >= 100 {
                let token = self.probes.len() as u64;
                self.probes.push(Option::Some(plan.probe));
                let ghost pre = self.scheduler@;
                self.scheduler.every(plan.every, token);
                proof {
                    let e = choose|e: ScheduleEntry|
                        self.scheduler@.entries == #[trigger] crate::scheduler::insert_sorted(
                            pre.entries,
                            e,
                        ) && e.token == token && e.every == plan.every && e.perpetual == true
                            && e.next_fire >= self.scheduler@.offset && e.bucket as int
                            == group_at(
                            self.scheduler@.offset,
                            self.scheduler@.width,
                            e.next_fire as int,
                        ) && (crate::scheduler::is_initial_fire(
                            self.scheduler@.offset,
                            self.scheduler@.width,
                            plan.every,
                            group_at(
                                self.scheduler@.offset,
                                self.scheduler@.width,
                                self.scheduler@.now as int,
                            ),
                            e.next_fire,
                        ) || e.next_fire == u64::MAX);
                    crate::scheduler::lemma_insert_pos_char(pre.entries, e.next_fire);
                    let p = crate::scheduler::insert_pos(pre.entries, e.next_fire);
                    assert forall|i: int|
                        0 <= i < self.scheduler@.entries.len() implies (
                    #[trigger] self.scheduler@.entries[i]).token < self.probes@.len()
                        && self.scheduler@.entries[i].perpetual by {
                        if i < p {
                            assert(self.scheduler@.entries[i] == pre.entries[i]);
                        } else if i == p {
                            assert(self.scheduler@.entries[i] == e);
                        } else {
                            assert(self.scheduler@.entries[i] == pre.entries[i - 1]);
                        }
                    }
                    // The honored prefix grows by this plan: its probe fills
                    // the new slot and its schedule is now filed.
                    assert(honored(cur_take) =~= honored(pre_take).push(all[idx as int]));
                    assert(self.probes@ =~= old(self).probes@ + honored(cur_take).map_values(
                        |pp: ProbeSchedule<P>| Option::Some(pp.probe),
                    ));
                    assert(self.scheduler@.entries[p] == e);
                    assert(token_filed(self.scheduler@.entries, token, plan.every));
                    assert(token as int == old(self).probe_count() + honored(pre_take).len());
                    assert forall|k: int|
                        0 <= k < honored(cur_take).len() implies token_filed(
                        self.scheduler@.entries,
                        (old(self).probe_count() + k) as u64,
                        (#[trigger] honored(cur_take)[k]).every,
                    ) by {
                        if k < honored(pre_take).len() {
                            assert(honored(cur_take)[k] == honored(pre_take)[k]);
                            lemma_insert_keeps_filed(
                                pre.entries,
                                e,
                                (old(self).probe_count() + k) as u64,
                                honored(pre_take)[k].every,
                            );
                        } else {
                            assert(honored(cur_take)[k] == all[idx as int]);
                        }
                    }
                    if old(self).time_exact() {
                        let cur_g = group_at(
                            old(self).sched().offset,
                            old(self).sched().width,
                            crate::scheduler::exact_observation(
                                old(self).sched().now,
                                old(self).time_elapsed(),
                            ),
                        );
                        assert(self.scheduler@.now as int == crate::scheduler::exact_observation(
                            old(self).sched().now,
                            old(self).time_elapsed(),
                        ));
                        assert(plan_filed(
                            self.scheduler@.entries,
                            token,
                            plan.every,
                            old(self).sched().offset,
                            old(self).sched().width,
                            cur_g,
                        ));
                        assert forall|k: int|
                            0 <= k < honored(cur_take).len() implies plan_filed(
                            self.scheduler@.entries,
                            (old(self).probe_count() + k) as u64,
                            (#[trigger] honored(cur_take)[k]).every,
                            old(self).sched().offset,
                            old(self).sched().width,
                            cur_g,
                        ) by {
                            if k < honored(pre_take).len() {
                                assert(honored(cur_take)[k] == honored(pre_take)[k]);
                                lemma_insert_keeps_plan_filed(
                                    pre.entries,
                                    e,
                                    (old(self).probe_count() + k) as u64,
                                    honored(pre_take)[k].every,
                                    old(self).sched().offset,
                                    old(self).sched().width,
                                    cur_g,
                                );
                            } else {
                                assert(honored(cur_take)[k] == all[idx as int]);
                            }
                        }
                    }
                }
            } else {
                self.declined = sat_add(self.declined, 1);
                proof {
                    self.g_declined = Ghost(self.g_declined@ + 1);
                    assert(honored(cur_take) =~= honored(pre_take));
                    assert(self.probes@ =~= old(self).probes@ + honored(cur_take).map_values(
                        |pp: ProbeSchedule<P>| Option::Some(pp.probe),
                    ));
                }
            }
            idx = idx + 1;
        }
        proof {
            assert(all.take(all.len() as int) =~= all);
        }
    }

    /// Files every schedule the module contributes, per
    /// [`Self::schedule_plans`]: the module is asked once for its plans, and
    /// the honored ones are filed in order.
    pub fn schedule<M: Module<P>>(&mut self, module: &M)
        requires
            old(self).wf(),
        ensures
            final(self).wf(),
            final(self).attempted_fires() == old(self).attempted_fires(),
            final(self).overrun_fires() == old(self).overrun_fires(),
            final(self).dispatched_fires() == old(self).dispatched_fires(),
            final(self).gone_fires() == old(self).gone_fires(),
            final(self).sched().offset == old(self).sched().offset,
            final(self).sched().width == old(self).sched().width,
            exists|plans: Seq<ProbeSchedule<P>>|
                #![trigger honored(plans)]
                {
                    &&& final(self).declined_plans() == old(self).declined_plans() + (plans.len()
                        - honored(plans).len())
                    &&& (final(self).probes_view() =~= old(self).probes_view() + honored(
                        plans,
                    ).map_values(|p: ProbeSchedule<P>| Option::Some(p.probe)))
                    &&& final(self).sched().entries.len() == old(self).sched().entries.len()
                        + honored(plans).len()
                    &&& forall|k: int|
                        0 <= k < honored(plans).len() ==> token_filed(
                            final(self).sched().entries,
                            (old(self).probe_count() + k) as u64,
                            (#[trigger] honored(plans)[k]).every,
                        )
                },
            final(self).time_exact() == old(self).time_exact(),
            old(self).time_exact() ==> final(self).time_elapsed() == old(self).time_elapsed(),
    {
        let plans = module.schedule();
        let ghost witness = plans@;
        self.schedule_plans(plans);
        proof {
            assert(final(self).probes_view() =~= old(self).probes_view() + honored(
                witness,
            ).map_values(|p: ProbeSchedule<P>| Option::Some(p.probe)));
        }
    }

    /// Runs the probe behind `token` against the collector, or reports it
    /// gone.
    pub fn run_token<C>(&self, token: u64, collector: &mut C) -> (r: Result<(), String>) where
        P: Probe<C>,
        requires
            0 <= token < self.probe_count(),
        ensures
            !self.resolves(token) ==> r is Err,
    {
        let n: usize = self.probes.len();
        match &self.probes[token as usize] {
            Option::Some(p) => p.run(collector),
            Option::None => Result::Err("probe is gone".to_owned()),
        }
    }

    /// The declared run mode of the probe behind `token`, or nothing if it
    /// is gone.
    pub fn token_run_mode<C>(&self, token: u64) -> (r: Option<ProbeRunMode>) where P: Probe<C>
        requires
            0 <= token < self.probe_count(),
        ensures
            r is Some <==> self.resolves(token),
    {
        let n: usize = self.probes.len();
        match &self.probes[token as usize] {
            Option::Some(p) => Option::Some(p.run_mode()),
            Option::None => Option::None,
        }
    }

    /// Fires handed out too late to run, since start.
    pub fn overrun(&self) -> (n: u64)
        requires
            self.wf(),
        ensures
            n == clamp64(self.overrun_fires()),
    {
        self.overrun
    }

    /// Another name for [`Self::overrun`]: fires that missed their slot.
    pub fn missed(&self) -> (n: u64)
        requires
            self.wf(),
        ensures
            n == clamp64(self.overrun_fires()),
    {
        self.overrun
    }

    /// Fires whose probe no longer resolved, since start.
    pub fn gone_count(&self) -> (n: u64)
        requires
            self.wf(),
        ensures
            n == clamp64(self.gone_fires()),
    {
        self.gone
    }

    /// Plans declined at registration for a cadence finer than the bucket
    /// width: such a probe is never filed and never runs.
    pub fn declined_count(&self) -> (n: u64)
        requires
            self.wf(),
        ensures
            n == clamp64(self.declined_plans()),
    {
        self.declined
    }

    /// Fires handed to the dispatcher, since start.
    pub fn dispatched_count(&self) -> (n: u64)
        requires
            self.wf(),
        ensures
            n == clamp64(self.dispatched_fires()),
    {
        self.dispatched
    }

    /// Lets the owned time source advance by `ms`.
    pub fn advance(&mut self, ms: u64)
        requires
            old(self).wf(),
        ensures
            final(self).wf(),
            final(self).attempted_fires() == old(self).attempted_fires(),
            final(self).overrun_fires() == old(self).overrun_fires(),
            final(self).dispatched_fires() == old(self).dispatched_fires(),
            final(self).gone_fires() == old(self).gone_fires(),
            final(self).probe_count() == old(self).probe_count(),
    {
        self.scheduler.advance(ms);
    }

    /// Removes the probe behind `token`, as a registry rebuild would: the
    /// token stops resolving, and its next fire is counted gone.
    pub fn remove_probe(&mut self, token: u64)
        requires
            old(self).wf(),
            0 <= token < old(self).probe_count(),
        ensures
            final(self).wf(),
            !final(self).resolves(token),
            final(self).attempted_fires() == old(self).attempted_fires(),
            final(self).overrun_fires() == old(self).overrun_fires(),
            final(self).dispatched_fires() == old(self).dispatched_fires(),
            final(self).gone_fires() == old(self).gone_fires(),
            final(self).probe_count() == old(self).probe_count(),
    {
        let n: usize = self.probes.len();
        let idx: usize = token as usize;
        self.probes[idx] = Option::None;
        proof {
            assert(!final(self).resolves(token));
        }
    }

    /// One poll: waits are handed back as the delay to the next bucket's
    /// edge; overrun batches are counted and skipped; a ready batch is
    /// resolved, counting and cancelling gone tokens, and the tokens of the
    /// live probes are handed out in fire order.
    ///
    /// The poll reports the schedule empty exactly when nothing is filed.
    /// Otherwise its outcome is characterized by a run of overrun commits
    /// (possibly none) from the filed schedules: a wait points at the edge
    /// of the earliest remaining bucket, which lies ahead; a batch is handed
    /// out exactly when the earliest remaining bucket is current, and holds
    /// the live tokens of that bucket's batch in fire order, while its gone
    /// tokens are counted and their schedules cancelled.
    #[verifier::rlimit(100)]
    #[verifier::spinoff_prover]
    pub fn next(&mut self) -> (r: Result<Schedule, SchedulerRunError>)
        requires
            old(self).wf(),
        ensures
            final(self).wf(),
            final(self).probe_count() == old(self).probe_count(),
            final(self).probes_view() == old(self).probes_view(),
            final(self).overrun_fires() >= old(self).overrun_fires(),
            final(self).gone_fires() >= old(self).gone_fires(),
            final(self).sched().offset == old(self).sched().offset,
            final(self).sched().width == old(self).sched().width,
            final(self).sched().now >= old(self).sched().now,
            final(self).time_exact() == old(self).time_exact(),
            old(self).time_exact() ==> final(self).time_elapsed() == old(self).time_elapsed()
                && final(self).sched().now as int == crate::scheduler::exact_observation(
                old(self).sched().now,
                old(self).time_elapsed(),
            ),
            (r matches Result::Err(_)) <==> old(self).sched().entries.len() == 0,
            match r {
                Result::Err(e) => {
                    &&& e == SchedulerRunError::ScheduleEmpty
                    &&& final(self).sched().entries == old(self).sched().entries
                    &&& final(self).attempted_fires() == old(self).attempted_fires()
                    &&& final(self).overrun_fires() == old(self).overrun_fires()
                    &&& final(self).dispatched_fires() == old(self).dispatched_fires()
                    &&& final(self).gone_fires() == old(self).gone_fires()
                },
                Result::Ok(s) => exists|chain: Seq<Seq<ScheduleEntry>>|
                    #![trigger chain_overruns(chain)]
                    {
                        let off = final(self).sched().offset;
                        let w = final(self).sched().width;
                        let cur = group_at(off, w, final(self).sched().now as int);
                        &&& overrun_chain(off, w, chain, cur)
                        &&& chain[0] == old(self).sched().entries
                        &&& final(self).overrun_fires() == old(self).overrun_fires()
                            + chain_overruns(chain)
                        &&& match s {
                            Schedule::Wait(ms) => {
                                &&& final(self).sched().entries == chain.last()
                                &&& chain.last().len() > 0
                                &&& (chain.last()[0].bucket as int) > cur
                                &&& off + chain.last()[0].bucket * w == final(self).sched().now
                                    + ms
                                &&& ms > 0
                                &&& final(self).dispatched_fires() == old(
                                    self,
                                ).dispatched_fires()
                                &&& final(self).gone_fires() == old(self).gone_fires()
                            },
                            Schedule::Probes(toks) => {
                                let due = chain.last();
                                let batch = tokens_of(batch_of(due));
                                &&& due.len() > 0
                                &&& (due[0].bucket as int) == cur
                                &&& (toks@ =~= resolved_of(old(self).probes_view(), batch))
                                &&& batch.len() > 0
                                &&& final(self).dispatched_fires() == old(
                                    self,
                                ).dispatched_fires() + toks@.len()
                                &&& final(self).gone_fires() == old(self).gone_fires() + (
                                batch.len() - toks@.len())
                                &&& forall|j: int|
                                    0 <= j < batch.len() && !old(self).resolves(#[trigger] batch[j])
                                        ==> !crate::scheduler::token_among(
                                        final(self).sched().entries,
                                        batch[j],
                                    )
                                &&& forall|i: int|
                                    0 <= i < toks@.len() ==> final(self).resolves(
                                        #[trigger] toks@[i],
                                    )
                            },
                        }
                    },
            },
    {
        let ghost mut chain: Seq<Seq<ScheduleEntry>> = seq![old(self).sched().entries];
        loop
            invariant
                old(self).wf(),
                self.wf(),
                self.probes@ == old(self).probes@,
                self.g_dispatched@ == old(self).g_dispatched@,
                self.g_gone@ == old(self).g_gone@,
                self.g_overrun@ >= old(self).g_overrun@,
                self.g_attempts@ == old(self).g_attempts@ + (self.g_overrun@ - old(
                    self,
                ).g_overrun@),
                self.scheduler@.offset == old(self).sched().offset,
                self.scheduler@.width == old(self).sched().width,
                self.scheduler@.now >= old(self).sched().now,
                self.time_exact() == old(self).time_exact(),
                old(self).time_exact() ==> self.time_elapsed() == old(self).time_elapsed() && (
                self.scheduler@.now == old(self).sched().now || self.scheduler@.now as int
                    == crate::scheduler::exact_observation(
                    old(self).sched().now,
                    old(self).time_elapsed(),
                )),
                chain.len() >= 1,
                chain[0] == old(self).sched().entries,
                chain.last() == self.scheduler@.entries,
                forall|i: int|
                    0 <= i < chain.len() - 1 ==> (#[trigger] chain[i]).len() > 0 && (
                    chain[i][0].bucket as int) < group_at(
                        self.scheduler@.offset,
                        self.scheduler@.width,
                        self.scheduler@.now as int,
                    ) && chain[i + 1] == after_commit(
                        self.scheduler@.offset,
                        self.scheduler@.width,
                        chain[i],
                    ),
                self.g_overrun@ == old(self).g_overrun@ + chain_overruns(chain),
                old(self).sched().entries.len() > 0 ==> self.scheduler@.entries.len() > 0,
                old(self).sched().entries.len() == 0 ==> chain.len() == 1,
            decreases (if self.scheduler@.entries.len() == 0 {
                0int
            } else {
                group_at(self.scheduler@.offset, self.scheduler@.width, u64::MAX as int)
                    - self.scheduler@.entries[0].bucket
            }),
        {
            let ghost pre = self.scheduler@;
            proof {
                if pre.entries.len() > 0 {
                    self.scheduler.lemma_wf_inv();
                    assert(crate::scheduler::entry_ok(pre, pre.entries[0]));
                    lemma_group_monotone(
                        pre.offset,
                        pre.width,
                        pre.entries[0].next_fire as int,
                        u64::MAX as int,
                    );
                }
            }
            match self.scheduler.next() {
                Result::Err(e) => {
                    proof {
                        if old(self).time_exact() {
                            assert(self.scheduler@.now as int
                                == crate::scheduler::exact_observation(
                                old(self).sched().now,
                                old(self).time_elapsed(),
                            ));
                        }
                        assert(pre.entries.len() == 0);
                        assert(old(self).sched().entries.len() == 0);
                        assert(chain.len() == 1);
                        assert(chain_overruns(chain) == 0);
                        assert(chain.last() == chain[0]);
                    }
                    return Result::Err(e);
                },
                Result::Ok(Decision::Wait(ms)) => {
                    proof {
                        if old(self).time_exact() {
                            assert(self.scheduler@.now as int
                                == crate::scheduler::exact_observation(
                                old(self).sched().now,
                                old(self).time_elapsed(),
                            ));
                        }
                        assert forall|i: int|
                            0 <= i < chain.len() - 1 implies (#[trigger] chain[i]).len() > 0 && (
                        chain[i][0].bucket as int) < group_at(
                            self.scheduler@.offset,
                            self.scheduler@.width,
                            self.scheduler@.now as int,
                        ) && chain[i + 1] == after_commit(
                            self.scheduler@.offset,
                            self.scheduler@.width,
                            chain[i],
                        ) by {
                            lemma_group_monotone(
                                pre.offset,
                                pre.width,
                                pre.now as int,
                                self.scheduler@.now as int,
                            );
                        }
                        assert(overrun_chain(
                            self.scheduler@.offset,
                            self.scheduler@.width,
                            chain,
                            group_at(
                                self.scheduler@.offset,
                                self.scheduler@.width,
                                self.scheduler@.now as int,
                            ),
                        ));
                    }
                    return Result::Ok(Schedule::Wait(ms));
                },
                Result::Ok(Decision::Ready(toks)) => {
                    let ghost o_batch = self.g_overrun@;
                    let ghost g_batch = self.g_gone@;
                    proof {
                        if old(self).time_exact() {
                            assert(self.scheduler@.now as int
                                == crate::scheduler::exact_observation(
                                old(self).sched().now,
                                old(self).time_elapsed(),
                            ));
                        }
                        self.g_attempts = Ghost(self.g_attempts@ + toks@.len() as int);
                        lemma_run_len_char(pre.entries, pre.entries[0].bucket);
                        let c = run_len(pre.entries, pre.entries[0].bucket);
                        assert forall|j: int| 0 <= j < c implies toks@[j] == (
                        #[trigger] pre.entries[j]).token by {
                            assert(batch_of(pre.entries)[j] == pre.entries[j]);
                            assert(tokens_of(batch_of(pre.entries))[j] == batch_of(
                                pre.entries,
                            )[j].token);
                        }
                        assert forall|k: int|
                            0 <= k < self.scheduler@.entries.len() implies (
                        #[trigger] self.scheduler@.entries[k]).token < self.probes@.len() by {
                            assert(crate::scheduler::token_among(
                                pre.entries,
                                self.scheduler@.entries[k].token,
                            ));
                            let j = choose|j: int|
                                0 <= j < pre.entries.len() && (#[trigger] pre.entries[j]).token
                                    == self.scheduler@.entries[k].token;
                        }
                        assert forall|i: int|
                            0 <= i < chain.len() - 1 implies (#[trigger] chain[i]).len() > 0 && (
                        chain[i][0].bucket as int) < group_at(
                            self.scheduler@.offset,
                            self.scheduler@.width,
                            self.scheduler@.now as int,
                        ) && chain[i + 1] == after_commit(
                            self.scheduler@.offset,
                            self.scheduler@.width,
                            chain[i],
                        ) by {
                            lemma_group_monotone(
                                pre.offset,
                                pre.width,
                                pre.now as int,
                                self.scheduler@.now as int,
                            );
                        }
                    }
                    let mut runnable: Vec<u64> = Vec::new();
                    let n: usize = toks.len();
                    let mut i: usize = 0;
                    // Each fire of the batch is accounted exactly once, as
                    // dispatched or gone, while the tail of the batch stays
                    // to be accounted.
                    while i < n
                        invariant
                            0 <= i <= n,
                            n == toks@.len(),
                            (toks@ =~= tokens_of(batch_of(pre.entries))),
                            pre.entries.len() > 0,
                            forall|j: int|
                                0 <= j < run_len(pre.entries, pre.entries[0].bucket)
                                    ==> (#[trigger] pre.entries[j]).token < self.probes@.len(),
                            n as int == run_len(pre.entries, pre.entries[0].bucket),
                            n as int <= pre.entries.len(),
                            forall|j: int| 0 <= j < n ==> toks@[j] == pre.entries[j].token,
                            self.scheduler.wf(),
                            self.scheduler@.width == 100,
                            all_perpetual(self.scheduler@.entries),
                            forall|k: int|
                                0 <= k < self.scheduler@.entries.len() ==> (
                                #[trigger] self.scheduler@.entries[k]).token
                                    < self.probes@.len(),
                            self.probes@ == old(self).probes@,
                            self.g_overrun@ >= old(self).g_overrun@,
                            self.g_overrun@ == o_batch,
                            self.g_overrun@ >= 0,
                            self.g_dispatched@ >= 0,
                            self.g_gone@ >= 0,
                            self.g_dispatched@ == old(self).g_dispatched@ + runnable@.len(),
                            self.g_gone@ >= old(self).g_gone@,
                            g_batch == old(self).g_gone@,
                            self.g_gone@ == g_batch + (i - runnable@.len()),
                            n > 0,
                            self.g_attempts@ == self.g_overrun@ + self.g_dispatched@
                                + self.g_gone@ + (n - i),
                            self.overrun == clamp64(self.g_overrun@),
                            self.dispatched == clamp64(self.g_dispatched@),
                            self.gone == clamp64(self.g_gone@),
                            self.g_declined@ >= 0,
                            self.declined == clamp64(self.g_declined@),
                            (runnable@ =~= resolved_of(
                                self.probes@,
                                toks@.subrange(0, i as int),
                            )),
                            chain.len() >= 1,
                            chain[0] == old(self).sched().entries,
                            chain.last() == pre.entries,
                            self.g_overrun@ == old(self).g_overrun@ + chain_overruns(chain),
                            self.scheduler@.offset == pre.offset,
                            self.scheduler@.width == pre.width,
                            pre.offset == old(self).sched().offset,
                            pre.width == old(self).sched().width,
                            self.scheduler@.now >= old(self).sched().now,
                            (pre.entries[0].bucket as int) == group_at(
                                pre.offset,
                                pre.width,
                                self.scheduler@.now as int,
                            ),
                            forall|ii: int|
                                0 <= ii < chain.len() - 1 ==> (#[trigger] chain[ii]).len() > 0
                                    && (chain[ii][0].bucket as int) < group_at(
                                    pre.offset,
                                    pre.width,
                                    self.scheduler@.now as int,
                                ) && chain[ii + 1] == after_commit(
                                    pre.offset,
                                    pre.width,
                                    chain[ii],
                                ),
                            self.time_exact() == old(self).time_exact(),
                            old(self).time_exact() ==> self.time_elapsed() == old(
                                self,
                            ).time_elapsed() && self.scheduler@.now as int
                                == crate::scheduler::exact_observation(
                                old(self).sched().now,
                                old(self).time_elapsed(),
                            ),
                            old(self).sched().entries.len() > 0,
                            forall|j: int, k: int|
                                0 <= j < i && !self.resolves(#[trigger] toks@[j]) && 0 <= k
                                    < self.scheduler@.entries.len() ==> (
                                #[trigger] self.scheduler@.entries[k]).token != toks@[j],
                            forall|j: int|
                                0 <= j < runnable@.len() ==> self.resolves(
                                    #[trigger] runnable@[j],
                                ),
                        decreases n - i,
                    {
                        let tok = toks[i];
                        let plen: usize = self.probes.len();
                        let ghost sub_pre = toks@.subrange(0, i as int);
                        let ghost sub_cur = toks@.subrange(0, i as int + 1);
                        proof {
                            assert(toks@[i as int] == pre.entries[i as int].token);
                            assert(tok < plen as u64);
                            assert(sub_cur.drop_last() =~= sub_pre);
                            assert(sub_cur.last() == toks@[i as int]);
                        }
                        let live = self.probes[tok as usize].is_some();
                        if live {
                            runnable.push(tok);
                            self.dispatched = sat_add(self.dispatched, 1);
                            proof {
                                self.g_dispatched = Ghost(self.g_dispatched@ + 1);
                            }
                        } else {
                            self.gone = sat_add(self.gone, 1);
                            proof {
                                self.g_gone = Ghost(self.g_gone@ + 1);
                            }
                            let ghost sch_pre = self.scheduler@;
                            self.scheduler.cancel(tok);
                            proof {
                                lemma_retained_props(sch_pre.entries, tok);
                                assert forall|k: int|
                                    0 <= k < self.scheduler@.entries.len() implies (
                                #[trigger] self.scheduler@.entries[k]).token
                                    < self.probes@.len() && self.scheduler@.entries[k].perpetual by {
                                    let j = choose|j: int|
                                        0 <= j < sch_pre.entries.len() && retained(
                                            sch_pre.entries,
                                            tok,
                                        )[k] == sch_pre.entries[j];
                                    assert(sch_pre.entries[j].token < self.probes@.len());
                                    assert(sch_pre.entries[j].perpetual);
                                }
                                assert forall|j: int, k: int|
                                    0 <= j < i + 1 && !self.resolves(#[trigger] toks@[j]) && 0 <= k
                                        < self.scheduler@.entries.len() implies (
                                #[trigger] self.scheduler@.entries[k]).token != toks@[j] by {
                                    if j < i {
                                        let jj = choose|jj: int|
                                            0 <= jj < sch_pre.entries.len() && retained(
                                                sch_pre.entries,
                                                tok,
                                            )[k] == sch_pre.entries[jj];
                                        assert(sch_pre.entries[jj].token != toks@[j]);
                                    }
                                }
                            }
                        }
                        i = i + 1;
                    }
                    proof {
                        assert(toks@.subrange(0, n as int) =~= toks@);
                        assert(runnable@ =~= resolved_of(old(self).probes@, toks@));
                        let due = chain.last();
                        assert(due == pre.entries);
                        assert(toks@ == tokens_of(batch_of(due)));
                        assert(runnable@ =~= resolved_of(
                            old(self).probes@,
                            tokens_of(batch_of(due)),
                        ));
                        assert(overrun_chain(
                            self.scheduler@.offset,
                            self.scheduler@.width,
                            chain,
                            group_at(
                                self.scheduler@.offset,
                                self.scheduler@.width,
                                self.scheduler@.now as int,
                            ),
                        ));
                    }
                    return Result::Ok(Schedule::Probes(runnable));
                },
                Result::Ok(Decision::Overrun(toks)) => {
                    self.overrun = sat_add(self.overrun, toks.len() as u64);
                    proof {
                        self.g_attempts = Ghost(self.g_attempts@ + toks@.len() as int);
                        self.g_overrun = Ghost(self.g_overrun@ + toks@.len() as int);
                        assert forall|k: int|
                            0 <= k < self.scheduler@.entries.len() implies (
                        #[trigger] self.scheduler@.entries[k]).token < self.probes@.len() by {
                            assert(crate::scheduler::token_among(
                                pre.entries,
                                self.scheduler@.entries[k].token,
                            ));
                            let j = choose|j: int|
                                0 <= j < pre.entries.len() && (#[trigger] pre.entries[j]).token
                                    == self.scheduler@.entries[k].token;
                        }
                        if self.scheduler@.entries.len() > 0 {
                            self.scheduler.lemma_wf_inv();
                            assert(crate::scheduler::entry_ok(
                                self.scheduler@,
                                self.scheduler@.entries[0],
                            ));
                            lemma_group_monotone(
                                self.scheduler@.offset,
                                self.scheduler@.width,
                                self.scheduler@.entries[0].next_fire as int,
                                u64::MAX as int,
                            );
                        }
                        lemma_run_len_char(pre.entries, pre.entries[0].bucket);
                        assert(toks@.len() == run_len(pre.entries, pre.entries[0].bucket));
                        lemma_chain_overruns_push(chain, self.scheduler@.entries);
                        assert(chain.last() == pre.entries);
                        chain = chain.push(self.scheduler@.entries);
                        assert(chain.last() == self.scheduler@.entries);
                        assert forall|i: int|
                            0 <= i < chain.len() - 1 implies (#[trigger] chain[i]).len() > 0 && (
                        chain[i][0].bucket as int) < group_at(
                            self.scheduler@.offset,
                            self.scheduler@.width,
                            self.scheduler@.now as int,
                        ) && chain[i + 1] == after_commit(
                            self.scheduler@.offset,
                            self.scheduler@.width,
                            chain[i],
                        ) by {
                            lemma_group_monotone(
                                pre.offset,
                                pre.width,
                                pre.now as int,
                                self.scheduler@.now as int,
                            );
                            if i < chain.len() - 2 {
                                assert(chain[i] == chain.drop_last()[i]);
                                assert(chain[i + 1] == chain.drop_last()[i + 1]);
                            }
                        }
                    }
                },
            }
        }
    }
}

} // verus!
