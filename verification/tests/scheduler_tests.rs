use dms_agent::Decision;
use dms_agent::FakeTimeSource;
use dms_agent::RunAction;
use dms_agent::Scheduler;
use dms_agent::SchedulerRunError;

fn subject() -> Scheduler<FakeTimeSource> {
    let mut scheduler = Scheduler::new(500, FakeTimeSource::new());
    scheduler.after(1000, 1);
    scheduler.after(1100, 2);
    scheduler.after(2100, 3);
    scheduler.after(2500, 4);
    scheduler
}

#[test]
fn should_return_wait_with_duration_if_there_is_nothing_to_do_yet() {
    let mut scheduler = subject();
    assert_eq!(scheduler.run_action(), RunAction::Wait(1000));
    scheduler.advance(700);
    assert_eq!(scheduler.run_action(), RunAction::Wait(300));
}

#[test]
fn should_return_run_with_run_group_when_time_is_just_right() {
    let mut scheduler = subject();
    scheduler.advance(1000);
    assert_eq!(scheduler.run_action(), RunAction::Run(2));
}

#[test]
fn should_return_run_with_run_group_when_time_is_still_within_same_run_group() {
    let mut scheduler = subject();
    scheduler.advance(1499);
    assert_eq!(scheduler.run_action(), RunAction::Run(2));
}

#[test]
fn should_return_skip_with_list_of_skipped_run_groups_when_time_is_after_first_run_group() {
    let mut scheduler = subject();
    scheduler.advance(1500);
    assert_eq!(scheduler.run_action(), RunAction::Skip(vec![2]));
    scheduler.advance(1500);
    assert_eq!(scheduler.run_action(), RunAction::Skip(vec![2, 4, 5]));
}

#[test]
fn should_run_tasks_in_order_of_their_actual_run_time() {
    let mut scheduler = subject();
    scheduler.after(1050, 5);

    let out = scheduler.run();
    assert_eq!(out, Ok(vec![1, 5, 2]));
}

#[test]
fn should_execute_tasks_given_time_progress_until_empty() {
    let mut scheduler = subject();
    let out = scheduler.run();
    assert_eq!(out, Ok(vec![1, 2]));

    let out = scheduler.run();
    assert_eq!(out, Ok(vec![3]));

    let out = scheduler.run();
    assert_eq!(out, Ok(vec![4]));

    let out = scheduler.run();
    assert_eq!(out, Err(SchedulerRunError::ScheduleEmpty));
}

#[test]
fn should_continue_running_if_it_has_a_perpetual_task_scheduled() {
    let mut scheduler = subject();
    scheduler.every(1010, 5);

    // The perpetual task fires at 1010, 2020, 3030, ... : its cadence stays
    // anchored to its interval however the one-off tasks interleave.
    let out = scheduler.run();
    assert_eq!(out, Ok(vec![1, 5, 2]));

    let out = scheduler.run();
    assert_eq!(out, Ok(vec![5, 3]));

    let out = scheduler.run();
    assert_eq!(out, Ok(vec![4]));

    let out = scheduler.run();
    assert_eq!(out, Ok(vec![5]));

    let out = scheduler.run();
    assert_eq!(out, Ok(vec![5]));
}

#[test]
fn should_report_skipped_tasks_if_time_progresses_over_run_group() {
    let mut scheduler = subject();
    scheduler.advance(1500);
    let out = scheduler.run();
    assert_eq!(out, Err(SchedulerRunError::TasksSkipped(2)));

    let out = scheduler.run();
    assert_eq!(out, Ok(vec![3]));

    let out = scheduler.run();
    assert_eq!(out, Ok(vec![4]));

    let out = scheduler.run();
    assert_eq!(out, Err(SchedulerRunError::ScheduleEmpty));
}

#[test]
fn next_on_empty_scheduler_reports_empty() {
    let mut scheduler: Scheduler<FakeTimeSource> = Scheduler::new(100, FakeTimeSource::new());
    assert_eq!(scheduler.next(), Err(SchedulerRunError::ScheduleEmpty));
    assert_eq!(scheduler.run_action(), RunAction::Empty);
}

#[test]
fn overrun_batch_is_reported_once_and_cadence_is_preserved() {
    let mut scheduler: Scheduler<FakeTimeSource> = Scheduler::new(100, FakeTimeSource::new());
    scheduler.every(100, 1);
    scheduler.every(100, 2);
    scheduler.every(200, 3);

    // Nothing was polled for two full buckets.
    scheduler.advance(200);

    // The missed 100 ms bucket is handed back as overrun ...
    assert_eq!(scheduler.next(), Ok(Decision::Overrun(vec![1, 2])));
    assert_eq!(scheduler.overrun_count(), 2);

    // ... and the overrun schedules are re-filed one interval later, landing
    // in the current bucket beside the 200 ms schedule.
    assert_eq!(scheduler.next(), Ok(Decision::Ready(vec![3, 1, 2])));
    assert_eq!(scheduler.ready_count(), 3);
    assert_eq!(scheduler.overrun_count(), 2);
}

#[test]
fn overrun_advances_next_fire_by_interval_not_elapsed_time() {
    let mut scheduler: Scheduler<FakeTimeSource> = Scheduler::new(100, FakeTimeSource::new());
    scheduler.every(100, 7);

    scheduler.advance(250);
    assert_eq!(scheduler.next(), Ok(Decision::Overrun(vec![7])));
    // Re-filed at 200 ms — the stored fire plus one interval — which is the
    // current bucket, not at 350 ms.
    assert_eq!(scheduler.next(), Ok(Decision::Ready(vec![7])));
    // The next fire is at 300 ms, 50 ms ahead of the clock at 250 ms.
    assert_eq!(scheduler.next(), Ok(Decision::Wait(50)));
}

#[test]
fn ready_buckets_never_decrease_across_polls() {
    let mut scheduler: Scheduler<FakeTimeSource> = Scheduler::new(100, FakeTimeSource::new());
    scheduler.every(100, 1);
    scheduler.every(300, 2);

    let mut last_bucket: u64 = 0;
    let mut fires: u32 = 0;
    while fires < 20 {
        match scheduler.run_action() {
            RunAction::Wait(ms) => scheduler.advance(ms),
            RunAction::Run(bucket) => {
                assert!(bucket >= last_bucket);
                last_bucket = bucket;
                match scheduler.next() {
                    Ok(Decision::Ready(toks)) => fires += toks.len() as u32,
                    other => panic!("expected a ready batch, got {:?}", other),
                }
            }
            other => panic!("expected wait or run, got {:?}", other),
        }
    }
}

#[test]
fn cancel_removes_every_schedule_of_a_token() {
    let mut scheduler: Scheduler<FakeTimeSource> = Scheduler::new(100, FakeTimeSource::new());
    scheduler.every(100, 1);
    scheduler.every(200, 1);
    scheduler.every(100, 2);

    scheduler.cancel(1);
    scheduler.advance(100);
    assert_eq!(scheduler.next(), Ok(Decision::Ready(vec![2])));
    scheduler.cancel(2);
    assert_eq!(scheduler.next(), Err(SchedulerRunError::ScheduleEmpty));
}
