use voxel_engine::handles::{MtResource, MtSystem, StResource, StSystem};
use voxel_engine::input_state::RawInputState;
use voxel_engine::timing::RawQueryResults;
use voxel_engine::task_scheduler::TaskScheduler;

#[test]
fn five_tasks_on_two_workers() {
    let mut scheduler: TaskScheduler<u32> = TaskScheduler::new(2);
    let mut dispatched = Vec::new();
    for task in 0..5u32 {
        if let Some((channel, t)) = scheduler.publish_task(task) {
            scheduler.task_sent(channel, true);
            dispatched.push((channel, t));
        }
    }
    assert_eq!(dispatched, vec![(0, 0), (1, 1)]);
    assert_eq!(scheduler.num_queued(), 3);
    scheduler.task_completed(0);
    let mut next = Vec::new();
    while let Some((channel, t)) = scheduler.next_queued_task() {
        scheduler.task_sent(channel, false);
        next.push((channel, t));
    }
    assert_eq!(next, vec![(0, 2)]);
    assert_eq!(scheduler.num_queued(), 2);
}

#[test]
fn round_robin_starts_after_last_channel() {
    let mut scheduler: TaskScheduler<&str> = TaskScheduler::new(3);
    let (c, _) = scheduler.publish_task("a").unwrap();
    scheduler.task_sent(c, true);
    scheduler.task_completed(c);
    let (c2, _) = scheduler.publish_task("b").unwrap();
    assert_eq!((c, c2), (0, 1));
    scheduler.task_sent(c2, true);
    assert_eq!(scheduler.find_available_channel(), Some(2));
}

#[test]
fn failed_sends_are_requeued() {
    let mut scheduler: TaskScheduler<u8> = TaskScheduler::new(1);
    let (_, t) = scheduler.publish_task(1).unwrap();
    scheduler.send_failed(t);
    assert_eq!(scheduler.num_queued(), 1);
    let (c, t) = scheduler.next_queued_task().unwrap();
    assert_eq!((c, t), (0, 1));
    scheduler.requeue_front(t);
    assert_eq!(scheduler.num_queued(), 1);
}

#[test]
fn no_workers_means_everything_waits() {
    let mut scheduler: TaskScheduler<u8> = TaskScheduler::new(0);
    assert!(scheduler.publish_task(1).is_none());
    assert!(scheduler.next_queued_task().is_none());
    assert_eq!(scheduler.num_queued(), 1);
    assert_eq!(scheduler.num_channels(), 0);
}

#[test]
fn input_states() {
    assert_eq!(RawInputState::from_raw_states(false, true), RawInputState::Pressed);
    assert_eq!(RawInputState::from_raw_states(true, true), RawInputState::Held);
    assert_eq!(RawInputState::from_raw_states(true, false), RawInputState::Released);
    assert_eq!(RawInputState::from_raw_states(false, false), RawInputState::NotPressed);
    assert!(RawInputState::Held.is_active());
    assert!(!RawInputState::Released.is_active());
    assert!(RawInputState::Pressed.is_just_pressed());
    assert!(RawInputState::Released.is_just_released());
    assert_eq!(RawInputState::default(), RawInputState::NotPressed);
}

#[test]
fn shared_handles_reach_one_value() {
    let shared = MtResource::new(5u32);
    *shared.get_mut().unwrap() = 7;
    assert_eq!(*shared.get().unwrap(), 7);
    {
        let reader = shared.get().unwrap();
        assert!(shared.get_mut().is_none());
        assert_eq!(*shared.get().unwrap(), *reader);
    }
    {
        let _writer = shared.get_mut().unwrap();
        assert!(shared.get().is_none());
        assert!(shared.get_mut().is_none());
    }
    let local = StResource::new(vec![1u8]);
    local.get_mut().unwrap().push(2);
    assert_eq!(*local.get().unwrap(), vec![1, 2]);
    let system = MtSystem::new(Box::new(String::from("a")));
    system.get_mut().unwrap().push('b');
    assert_eq!(system.get().unwrap().as_str(), "ab");
    let st = StSystem::new(Box::new(3i64));
    **st.get_mut().unwrap() += 1;
    assert_eq!(**st.get().unwrap(), 4);
    {
        let _borrowed = st.get_mut().unwrap();
        assert!(st.get().is_none());
    }
}

#[test]
fn timestamp_pairs() {
    let r = RawQueryResults::from_raw_results(vec![100, 350]);
    assert_eq!(r.render_start_end_timestamps, [100, 350]);
    assert_eq!(r.elapsed_ticks(), 250);
    let wrapped = RawQueryResults::from_raw_results(vec![u64::MAX - 1, 3]);
    assert_eq!(wrapped.elapsed_ticks(), 5);
}
