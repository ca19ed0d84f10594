use crate::state::{lemma_session_index, remove_session, session_index, AppInstance, AppState, PopupHandle};
use vstd::prelude::*;

verus! {

/// An editor lifecycle event on a buffer.
#[derive(Clone, Copy)]
pub enum LifecycleEvent {
    /// The buffer got the focus.
    BufEnter(u32),
    /// The buffer is being torn down.
    BufWipeout(u32),
}

/// What the editor has to do after a lifecycle event was applied.
#[derive(Clone, Copy)]
pub enum EventEffect {
    Nothing,
    /// Bring the selection summary of this buffer's session up to date
    /// (see `AppInstance::summary_action`).
    RefreshSummary(u32),
    /// Close the selection-summary popup of a session that is gone.
    ClosePopup(PopupHandle),
}

/// The registry after a lifecycle event: entering the buffer of a session
/// makes it active; tearing one down removes its session.
pub open spec fn apply_event(m: (Option<u32>, Seq<AppInstance>), ev: LifecycleEvent) -> (
    Option<u32>,
    Seq<AppInstance>,
) {
    match ev {
        LifecycleEvent::BufEnter(b) => if session_index(m.1, b) >= 0 {
            (Some(b), m.1)
        } else {
            m
        },
        LifecycleEvent::BufWipeout(b) => remove_session(m, b),
    }
}

/// What the editor has to do after a lifecycle event on registry `m`.
pub open spec fn event_effect(m: (Option<u32>, Seq<AppInstance>), ev: LifecycleEvent) -> EventEffect {
    match ev {
        LifecycleEvent::BufEnter(b) => if session_index(m.1, b) >= 0 {
            EventEffect::RefreshSummary(b)
        } else {
            EventEffect::Nothing
        },
        LifecycleEvent::BufWipeout(b) => {
            let i = session_index(m.1, b);
            if i >= 0 && m.1[i].selection_popup is Some {
                EventEffect::ClosePopup(m.1[i].selection_popup->0)
            } else {
                EventEffect::Nothing
            }
        },
    }
}

/// The registry after the events, applied first to last.
pub open spec fn drain_model(m: (Option<u32>, Seq<AppInstance>), evs: Seq<LifecycleEvent>) -> (
    Option<u32>,
    Seq<AppInstance>,
)
    decreases evs.len(),
{
    if evs.len() == 0 {
        m
    } else {
        apply_event(drain_model(m, evs.drop_last()), evs.last())
    }
}

/// The effects of the events, in the order in which they were applied.
pub open spec fn drain_effects(m: (Option<u32>, Seq<AppInstance>), evs: Seq<LifecycleEvent>) -> Seq<
    EventEffect,
>
    decreases evs.len(),
{
    if evs.len() == 0 {
        Seq::empty()
    } else {
        drain_effects(m, evs.drop_last()).push(
            event_effect(drain_model(m, evs.drop_last()), evs.last()),
        )
    }
}

impl AppState {
    /// Applies one lifecycle event to the registry.
    pub fn apply_event(&mut self, ev: LifecycleEvent) -> (r: EventEffect)
        requires
            old(self).wf(),
        ensures
            final(self).wf(),
            final(self).model() == apply_event(old(self).model(), ev),
            r == event_effect(old(self).model(), ev),
            final(self).selection == old(self).selection,
    {
        proof {
            lemma_session_index(self.instances@, match ev {
                LifecycleEvent::BufEnter(b) => b,
                LifecycleEvent::BufWipeout(b) => b,
            });
        }
        match ev {
            LifecycleEvent::BufEnter(b) => {
                if self.set_active_buf(b) {
                    EventEffect::RefreshSummary(b)
                } else {
                    EventEffect::Nothing
                }
            },
            LifecycleEvent::BufWipeout(b) => match self.remove_instance(b) {
                Some(inst) => match inst.selection_popup {
                    Some(p) => EventEffect::ClosePopup(p),
                    None => EventEffect::Nothing,
                },
                None => EventEffect::Nothing,
            },
        }
    }
}

/// Deferred Callback Queue: lifecycle events that arrived while the
/// registry may have been held, kept in arrival order until the holder
/// drains them.
pub struct DeferredQueue {
    pub events: Vec<LifecycleEvent>,
}

impl DeferredQueue {
    pub fn new() -> (r: DeferredQueue)
        ensures
            r.events@.len() == 0,
    {
        DeferredQueue { events: Vec::new() }
    }

    /// Queues an event behind those already queued.
    pub fn enqueue(&mut self, ev: LifecycleEvent)
        ensures
            final(self).events@ == old(self).events@.push(ev),
    {
        self.events.push(ev);
    }

    /// Applies every queued event to the registry, first queued first, and
    /// empties the queue. Returns the effect of each event, in that order.
    pub fn drain(&mut self, state: &mut AppState) -> (r: Vec<EventEffect>)
        requires
            old(state).wf(),
        ensures
            final(state).wf(),
            final(state).model() == drain_model(old(state).model(), old(self).events@),
            r@ == drain_effects(old(state).model(), old(self).events@),
            final(state).selection == old(state).selection,
            final(self).events@.len() == 0,
    {
        let mut effects: Vec<EventEffect> = Vec::new();
        let mut i: usize = 0;
        while i < self.events.len()
            invariant
                i <= self.events.len(),
                self.events@ == old(self).events@,
                state.wf(),
                state.model() == drain_model(old(state).model(), self.events@.take(i as int)),
                effects@ == drain_effects(old(state).model(), self.events@.take(i as int)),
                state.selection == old(state).selection,
            decreases self.events.len() - i,
        {
            assert(self.events@.take(i + 1).drop_last() =~= self.events@.take(i as int));
            let e = state.apply_event(self.events[i]);
            effects.push(e);
            i = i + 1;
        }
        assert(self.events@.take(self.events.len() as int) =~= self.events@);
        self.events = Vec::new();
        effects
    }
}

/// Draining the queue `[m1, m2]` applies `m1` to the registry in full and
/// then `m2` to what `m1` left, and reports their effects in that order.
pub proof fn lemma_drain_in_order(
    m: (Option<u32>, Seq<AppInstance>),
    m1: LifecycleEvent,
    m2: LifecycleEvent,
)
    ensures
        drain_model(m, seq![m1, m2]) == apply_event(apply_event(m, m1), m2),
        drain_effects(m, seq![m1, m2]) == seq![
            event_effect(m, m1),
            event_effect(apply_event(m, m1), m2),
        ],
{
    let evs = seq![m1, m2];
    assert(evs.drop_last() =~= seq![m1]);
    let none = Seq::<LifecycleEvent>::empty();
    assert(seq![m1].drop_last() =~= none);
    assert(drain_model(m, none) == m);
    assert(drain_effects(m, none) =~= Seq::<EventEffect>::empty());
    assert(seq![m1].last() == m1);
    assert(drain_model(m, seq![m1]) == apply_event(m, m1));
    assert(drain_effects(m, seq![m1]) =~= seq![event_effect(m, m1)]);
    assert(drain_effects(m, evs) =~= seq![event_effect(m, m1), event_effect(apply_event(m, m1), m2)]);
}

} // verus!
