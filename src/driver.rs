//! The cycle driver: a state machine from the current state and an event
//! (a timer tick, a chunk handed out, a shutdown request) to the next state
//! and the action its owner performs next.
use vstd::prelude::*;

verus! {

/// Where the driver stands within a cycle.
#[derive(Clone, Copy, Debug, PartialEq, Eq, Structural)]
pub enum Phase {
    /// Waiting for the next timer tick.
    Idle,
    /// Handing out the chunks of the current tick; `next` is the index of
    /// the chunk being handed out.
    Dispatching { next: usize },
}

/// What happened since the driver's last action.
#[derive(Clone, Copy, Debug, PartialEq, Eq, Structural)]
pub enum DriverEvent {
    /// The fixed-interval timer ticked.
    Tick,
    /// The chunk of the last `Dispatch` action was handed to a fresh
    /// fetch/compute pipeline.
    Dispatched,
    /// A shutdown was requested.
    Shutdown,
}

/// What the owner of the driver does next.
#[derive(Clone, Copy, Debug, PartialEq, Eq, Structural)]
pub enum DriverAction {
    /// Wait for the next event.
    Wait,
    /// Hand the chunk with this index to a fresh fetch/compute pipeline,
    /// without waiting for it to finish, then report `Dispatched`.
    Dispatch { chunk: usize },
    /// Stop the timer and give the pipelines in flight the grace period to
    /// finish before exiting.
    Drain,
}

/// The driver's state as a value.
pub struct DriverModel {
    pub phase: Phase,
    /// Number of chunks of every cycle.
    pub chunks: nat,
    /// Whether a shutdown was requested.
    pub stopping: bool,
}

impl DriverModel {
    pub open spec fn inv(self) -> bool {
        self.phase matches Phase::Dispatching { next } ==> next < self.chunks
    }

    /// The next state and action.
    pub open spec fn step(self, event: DriverEvent) -> (DriverModel, DriverAction) {
        match (self.phase, event) {
            (_, DriverEvent::Shutdown) => {
                let next = DriverModel { stopping: true, ..self };
                if self.phase is Idle {
                    (next, DriverAction::Drain)
                } else {
                    (next, DriverAction::Wait)
                }
            },
            (Phase::Idle, DriverEvent::Tick) => {
                if self.stopping {
                    (self, DriverAction::Drain)
                } else if self.chunks == 0 {
                    (self, DriverAction::Wait)
                } else {
                    (
                        DriverModel { phase: Phase::Dispatching { next: 0 }, ..self },
                        DriverAction::Dispatch { chunk: 0 },
                    )
                }
            },
            (Phase::Dispatching { next }, DriverEvent::Dispatched) => {
                if next + 1 < self.chunks {
                    (
                        DriverModel { phase: Phase::Dispatching { next: (next + 1) as usize }, ..self },
                        DriverAction::Dispatch { chunk: (next + 1) as usize },
                    )
                } else if self.stopping {
                    (DriverModel { phase: Phase::Idle, ..self }, DriverAction::Drain)
                } else {
                    (DriverModel { phase: Phase::Idle, ..self }, DriverAction::Wait)
                }
            },
            _ => (self, DriverAction::Wait),
        }
    }

    /// The state and the actions after the events `es`, in order.
    pub open spec fn run(self, es: Seq<DriverEvent>) -> (DriverModel, Seq<DriverAction>)
        decreases es.len(),
    {
        if es.len() == 0 {
            (self, seq![])
        } else {
            let (next, action) = self.step(es[0]);
            let (last, actions) = next.run(es.skip(1));
            (last, seq![action] + actions)
        }
    }
}

/// The actions `Dispatch` for the chunks `from` up to `chunks`, in order.
pub open spec fn dispatches(from: nat, chunks: nat) -> Seq<DriverAction>
    decreases chunks - from,
{
    if from >= chunks {
        seq![]
    } else {
        seq![DriverAction::Dispatch { chunk: from as usize }] + dispatches(from + 1, chunks)
    }
}

/// `n` events `Dispatched`.
pub open spec fn dispatched_events(n: nat) -> Seq<DriverEvent> {
    Seq::new(n, |i: int| DriverEvent::Dispatched)
}

proof fn lemma_dispatch_rest(m: DriverModel, next: usize)
    requires
        m.phase == (Phase::Dispatching { next }),
        next < m.chunks,
        m.chunks <= usize::MAX,
        !m.stopping,
    ensures
        m.run(dispatched_events((m.chunks - next) as nat)) == (
            DriverModel { phase: Phase::Idle, ..m },
            dispatches((next + 1) as nat, m.chunks).push(DriverAction::Wait),
        ),
    decreases m.chunks - next,
{
    let es = dispatched_events((m.chunks - next) as nat);
    assert(es[0] == DriverEvent::Dispatched);
    assert(es.skip(1) =~= dispatched_events((m.chunks - next - 1) as nat));
    let (n1, a1) = m.step(DriverEvent::Dispatched);
    if next + 1 < m.chunks {
        lemma_dispatch_rest(n1, (next + 1) as usize);
        assert(DriverModel { phase: Phase::Idle, ..n1 } == DriverModel { phase: Phase::Idle, ..m });
        assert(seq![a1] + dispatches((next + 2) as nat, m.chunks).push(DriverAction::Wait) =~= dispatches(
            (next + 1) as nat,
            m.chunks,
        ).push(DriverAction::Wait));
    } else {
        assert(es.skip(1) =~= Seq::<DriverEvent>::empty());
        assert(n1.run(es.skip(1)) == (n1, Seq::<DriverAction>::empty()));
        assert(dispatches((next + 1) as nat, m.chunks) =~= Seq::<DriverAction>::empty());
        assert(seq![a1] + Seq::<DriverAction>::empty() =~= seq![DriverAction::Wait]);
    }
}

/// A tick hands out every chunk exactly once, in index order, and returns
/// the driver to `Idle`, where it waits for the next tick.
pub proof fn lemma_tick_dispatches_every_chunk(m: DriverModel)
    requires
        m.phase == Phase::Idle,
        !m.stopping,
        0 < m.chunks <= usize::MAX,
    ensures
        m.run(seq![DriverEvent::Tick] + dispatched_events(m.chunks)) == (
            m,
            dispatches(0, m.chunks).push(DriverAction::Wait),
        ),
{
    let es = seq![DriverEvent::Tick] + dispatched_events(m.chunks);
    assert(es[0] == DriverEvent::Tick);
    assert(es.skip(1) =~= dispatched_events(m.chunks));
    let (n1, a1) = m.step(DriverEvent::Tick);
    lemma_dispatch_rest(n1, 0);
    assert(seq![a1] + dispatches(1, m.chunks).push(DriverAction::Wait) =~= dispatches(
        0,
        m.chunks,
    ).push(DriverAction::Wait));
}

/// After a shutdown request the driver never hands out a chunk of a new
/// tick: an idle driver answers every tick with `Drain`.
pub proof fn lemma_no_tick_after_shutdown(m: DriverModel)
    requires
        m.phase == Phase::Idle,
    ensures
        m.step(DriverEvent::Shutdown) == (DriverModel { stopping: true, ..m }, DriverAction::Drain),
        ({
            let s = m.step(DriverEvent::Shutdown).0;
            s.step(DriverEvent::Tick) == (s, DriverAction::Drain)
        }),
{
}

/// The cycle driver. Its owner performs each returned action and reports
/// the next event.
pub struct CycleDriver {
    phase: Phase,
    chunks: usize,
    stopping: bool,
}

impl View for CycleDriver {
    type V = DriverModel;

    closed spec fn view(&self) -> DriverModel {
        DriverModel { phase: self.phase, chunks: self.chunks as nat, stopping: self.stopping }
    }
}

impl CycleDriver {
    /// An idle driver for cycles of `chunks` chunks.
    pub fn new(chunks: usize) -> (r: Self)
        ensures
            r@ == (DriverModel { phase: Phase::Idle, chunks: chunks as nat, stopping: false }),
            r@.inv(),
    {
        CycleDriver { phase: Phase::Idle, chunks, stopping: false }
    }

    /// The current phase.
    pub fn phase(&self) -> (r: Phase)
        ensures
            r == self@.phase,
    {
        self.phase
    }

    /// Whether a shutdown was requested.
    pub fn is_stopping(&self) -> (r: bool)
        ensures
            r == self@.stopping,
    {
        self.stopping
    }

    /// Takes one event: moves to the next state and returns the action to
    /// perform.
    pub fn on_event(&mut self, event: DriverEvent) -> (r: DriverAction)
        requires
            old(self)@.inv(),
        ensures
            (final(self)@, r) == old(self)@.step(event),
            final(self)@.inv(),
    {
        match event {
            DriverEvent::Shutdown => {
                self.stopping = true;
                match self.phase {
                    Phase::Idle => DriverAction::Drain,
                    _ => DriverAction::Wait,
                }
            },
            DriverEvent::Tick => {
                match self.phase {
                    Phase::Idle => {
                        if self.stopping {
                            DriverAction::Drain
                        } else if self.chunks == 0 {
                            DriverAction::Wait
                        } else {
                            self.phase = Phase::Dispatching { next: 0 };
                            DriverAction::Dispatch { chunk: 0 }
                        }
                    },
                    _ => DriverAction::Wait,
                }
            },
            DriverEvent::Dispatched => {
                match self.phase {
                    Phase::Dispatching { next } => {
                        if next + 1 < self.chunks {
                            self.phase = Phase::Dispatching { next: next + 1 };
                            DriverAction::Dispatch { chunk: next + 1 }
                        } else {
                            self.phase = Phase::Idle;
                            if self.stopping {
                                DriverAction::Drain
                            } else {
                                DriverAction::Wait
                            }
                        }
                    },
                    _ => DriverAction::Wait,
                }
            },
        }
    }
}

} // verus!
