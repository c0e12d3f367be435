use stock_trading_cli_with_async_streams::driver::{CycleDriver, DriverAction, DriverEvent, Phase};

#[test]
fn a_tick_dispatches_every_chunk_in_order() {
    let mut d = CycleDriver::new(3);
    assert_eq!(d.on_event(DriverEvent::Tick), DriverAction::Dispatch { chunk: 0 });
    assert_eq!(d.phase(), Phase::Dispatching { next: 0 });
    assert_eq!(d.on_event(DriverEvent::Dispatched), DriverAction::Dispatch { chunk: 1 });
    assert_eq!(d.on_event(DriverEvent::Dispatched), DriverAction::Dispatch { chunk: 2 });
    assert_eq!(d.on_event(DriverEvent::Dispatched), DriverAction::Wait);
    assert_eq!(d.phase(), Phase::Idle);
    assert_eq!(d.on_event(DriverEvent::Tick), DriverAction::Dispatch { chunk: 0 });
}

#[test]
fn shutdown_stops_new_ticks_and_drains() {
    let mut d = CycleDriver::new(2);
    assert_eq!(d.on_event(DriverEvent::Shutdown), DriverAction::Drain);
    assert!(d.is_stopping());
    assert_eq!(d.on_event(DriverEvent::Tick), DriverAction::Drain);
}

#[test]
fn shutdown_during_dispatch_finishes_the_tick_then_drains() {
    let mut d = CycleDriver::new(2);
    assert_eq!(d.on_event(DriverEvent::Tick), DriverAction::Dispatch { chunk: 0 });
    assert_eq!(d.on_event(DriverEvent::Shutdown), DriverAction::Wait);
    assert_eq!(d.on_event(DriverEvent::Dispatched), DriverAction::Dispatch { chunk: 1 });
    assert_eq!(d.on_event(DriverEvent::Dispatched), DriverAction::Drain);
}

#[test]
fn no_chunks_means_nothing_to_dispatch() {
    let mut d = CycleDriver::new(0);
    assert_eq!(d.on_event(DriverEvent::Tick), DriverAction::Wait);
    assert_eq!(d.phase(), Phase::Idle);
    assert_eq!(d.on_event(DriverEvent::Dispatched), DriverAction::Wait);
}
