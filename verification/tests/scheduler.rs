use simcore::sched::{Core, CoreError, LoopEvent, StoreAction};

#[test]
fn loops_register_with_stable_indices() {
    let mut c = Core::new();
    let app = c.add_loop("app".to_string());
    let sys = c.add_loop("sys".to_string());
    assert_eq!(app, 0);
    assert_eq!(sys, 1);
    assert_eq!(c.find_loop(&"app".to_string()), Some(0));
    assert_eq!(c.find_loop(&"sys".to_string()), Some(1));
    assert_eq!(c.find_loop(&"net".to_string()), None);
}

#[test]
fn find_loop_picks_the_first_match() {
    let mut c = Core::new();
    c.add_loop("world".to_string());
    c.add_loop("world".to_string());
    assert_eq!(c.find_loop(&"world".to_string()), Some(0));
}

#[test]
fn link_registration_resolves_names() {
    let mut c = Core::new();
    c.add_loop("app".to_string());
    c.add_loop("sys".to_string());
    assert_eq!(c.add_link(&"sys".to_string(), &"app".to_string()), Ok(0));
    assert_eq!(
        c.add_link(&"sys".to_string(), &"net".to_string()),
        Err(CoreError::UnknownLoop)
    );
    assert_eq!(
        c.add_link(&"app".to_string(), &"app".to_string()),
        Err(CoreError::SelfLink)
    );
}

#[test]
fn handshake_pauses_source_until_transfer_fires() {
    let mut c = Core::new();
    let x = c.add_loop("producer".to_string());
    let y = c.add_loop("consumer".to_string());
    let l = c.add_link(&"producer".to_string(), &"consumer".to_string()).unwrap();

    // X runs one tick.
    assert!(c.begin_tick(x));
    // The link does nothing while its source is mid-tick.
    assert!(!c.poll_link(l));
    assert!(c.begin_tick(y));
    c.finish_tick(y);
    c.finish_tick(x);

    // X quiesced: the link enters the waiting state.
    assert!(!c.poll_link(l));
    // Backpressure: X may not begin a new tick anywhere in this window.
    assert!(!c.begin_tick(x));
    // The consumer is free to run meanwhile; the link holds.
    assert!(c.begin_tick(y));
    assert!(!c.poll_link(l));
    assert!(!c.begin_tick(x));
    c.finish_tick(y);

    // Both quiesced: the handshake fires exactly once.
    assert!(c.poll_link(l));
    // Both loops return to normal scheduling.
    assert!(c.begin_tick(x));
    c.finish_tick(x);
}

#[test]
fn queued_events_apply_in_fifo_order() {
    let mut c = Core::new();
    let i = c.add_loop("world".to_string());
    c.enqueue(i, LoopEvent::ChangeComponent(7, 1, 10));
    c.enqueue(i, LoopEvent::RemoveComponent(8, 2));
    c.enqueue(i, LoopEvent::ChangeComponent(7, 1, -4));
    c.enqueue(i, LoopEvent::RemoveEntity(9));
    let actions = c.drain_events(i);
    assert_eq!(
        actions,
        vec![
            StoreAction::ChangeComponent(7, 1, 10),
            StoreAction::RemoveComponent(8, 2),
            StoreAction::ChangeComponent(7, 1, -4),
            StoreAction::RemoveEntity(9),
        ]
    );
    // The queue is consumed by the drain.
    assert_eq!(c.drain_events(i), Vec::new());
}

#[test]
fn disable_event_pauses_the_schedule_but_not_the_queue() {
    let mut c = Core::new();
    let i = c.add_loop("world".to_string());
    c.enqueue(i, LoopEvent::Disable);
    let actions = c.drain_events(i);
    assert!(actions.is_empty());
    // Disabled: no full tick, but mutation requests are still honored.
    assert!(!c.begin_tick(i));
    c.enqueue(i, LoopEvent::RemoveEntity(3));
    let actions = c.drain_events(i);
    assert_eq!(actions, vec![StoreAction::RemoveEntity(3)]);
    // Re-enabling through the queue restores ticking; last event wins.
    c.enqueue(i, LoopEvent::Enable);
    c.enqueue(i, LoopEvent::Disable);
    c.enqueue(i, LoopEvent::Enable);
    c.drain_events(i);
    assert!(c.begin_tick(i));
    c.finish_tick(i);
}
