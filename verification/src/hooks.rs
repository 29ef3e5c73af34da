//! An effect whose cleanup is guaranteed: whatever one run of the effect
//! leaves to be undone is undone once, before the effect runs again and when
//! its owner goes away.

use vstd::prelude::*;

verus! {

/// What an effect leaves behind to undo it.
pub trait UseEffectCleanup: Sized {
    /// What must hold for the cleanup to be called. An implementation that is
    /// verified states it here; one that is not leaves it at this default,
    /// and verified code then never calls it.
    open spec fn ready(&self) -> bool {
        false
    }

    /// What holds once the cleanup has been called.
    open spec fn done(&self) -> bool {
        true
    }

    /// Undoes what the effect did.
    fn call(self)
        requires
            self.ready(),
        ensures
            self.done(),
    ;
}

/// The effect that leaves nothing to undo.
impl UseEffectCleanup for () {
    open spec fn ready(&self) -> bool {
        true
    }

    open spec fn done(&self) -> bool {
        true
    }

    fn call(self) {
    }
}

/// A closure undoes the effect by being called.
impl<T: FnOnce()> UseEffectCleanup for T {
    open spec fn ready(&self) -> bool {
        self.requires(())
    }

    open spec fn done(&self) -> bool {
        self.ensures((), ())
    }

    fn call(self) {
        self()
    }
}

/// What a hook has done, in the order in which it did it.
pub enum HookEvent {
    /// The effect ran for the `generation`-th time, counting from zero.
    BodyRan { generation: nat },
    /// The cleanup that this run left behind was called.
    Disposed { generation: nat },
}

/// A hook as the contracts see it.
pub struct HookView<C> {
    /// The cleanup of the last run, until it is called.
    pub stored: Option<C>,
    pub history: Seq<HookEvent>,
}

impl<C> HookView<C> {
    /// The event that stands at the position `i` of every history.
    pub open spec fn event_at(i: int) -> HookEvent {
        if i % 2 == 0 {
            HookEvent::BodyRan { generation: (i / 2) as nat }
        } else {
            HookEvent::Disposed { generation: (i / 2) as nat }
        }
    }

    /// Runs and the calls of their cleanups alternate, and a cleanup is stored
    /// exactly while the last run's has not been called.
    pub open spec fn wf(self) -> bool {
        &&& forall|i: int|
            0 <= i < self.history.len() ==> #[trigger] self.history[i] == Self::event_at(i)
        &&& self.stored is Some <==> self.history.len() % 2 == 1
    }

    /// How often the effect has run.
    pub open spec fn runs(self) -> nat {
        ((self.history.len() + 1) / 2) as nat
    }

    /// What calling the stored cleanup adds to the history.
    pub open spec fn disposal(self) -> Seq<HookEvent> {
        if self.stored is Some {
            seq![HookEvent::Disposed { generation: (self.runs() - 1) as nat }]
        } else {
            Seq::empty()
        }
    }
}

/// Holds the cleanup of an effect between its runs.
pub struct EffectCleanupHook<C: UseEffectCleanup> {
    slot: Option<C>,
    history: Ghost<Seq<HookEvent>>,
}

impl<C: UseEffectCleanup> View for EffectCleanupHook<C> {
    type V = HookView<C>;

    closed spec fn view(&self) -> HookView<C> {
        HookView { stored: self.slot, history: self.history@ }
    }
}

impl<C: UseEffectCleanup> EffectCleanupHook<C> {
    #[verifier::type_invariant]
    spec fn inv(self) -> bool {
        &&& self@.wf()
        &&& self.slot matches Some(cleanup) ==> cleanup.ready()
    }

    /// A hook whose effect has not run yet.
    pub fn new() -> (r: Self)
        ensures
            r@.stored is None,
            r@.history == Seq::<HookEvent>::empty(),
    {
        EffectCleanupHook { slot: None, history: Ghost(Seq::empty()) }
    }

    /// Whether a cleanup is waiting to be called.
    pub fn is_armed(&self) -> (r: bool)
        ensures
            r == (self@.stored is Some),
    {
        self.slot.is_some()
    }

    /// Runs the effect: first the cleanup that the last run left behind is
    /// called, if it has not been yet; then `body` runs, and what it returns
    /// is stored as the new cleanup.
    ///
    /// The caller owes `body` its precondition only for the time after the
    /// stored cleanup was called. So `body` cannot run before the cleanup:
    /// until the cleanup is done, nothing says that `body` may be called.
    pub fn activate<F: FnOnce() -> C>(&mut self, body: F)
        requires
            (old(self)@.stored matches Some(previous) ==> previous.done()) ==> body.requires(()),
            forall|cleanup: C| body.ensures((), cleanup) ==> cleanup.ready(),
        ensures
            final(self)@.wf(),
            old(self)@.stored matches Some(previous) ==> previous.done(),
            final(self)@.stored matches Some(cleanup) && body.ensures((), cleanup),
            final(self)@.history == old(self)@.history + old(self)@.disposal() + seq![
                HookEvent::BodyRan { generation: old(self)@.runs() },
            ],
    {
        let ghost before = self@;
        let mut previous = Self::new();
        core::mem::swap(self, &mut previous);
        proof {
            use_type_invariant(&previous);
        }
        if let Some(cleanup) = previous.slot {
            cleanup.call();
        }
        let cleanup = body();
        *self = EffectCleanupHook {
            slot: Some(cleanup),
            history: Ghost(
                before.history + before.disposal() + seq![
                    HookEvent::BodyRan { generation: before.runs() },
                ],
            ),
        };
    }

    /// The owner goes away: the stored cleanup is called, if there is one,
    /// and none is stored afterwards. A second call does nothing.
    pub fn teardown(&mut self)
        ensures
            final(self)@.wf(),
            old(self)@.stored matches Some(previous) ==> previous.done(),
            final(self)@.stored is None,
            final(self)@.history == old(self)@.history + old(self)@.disposal(),
    {
        let ghost before = self@;
        let mut previous = Self::new();
        core::mem::swap(self, &mut previous);
        proof {
            use_type_invariant(&previous);
        }
        if let Some(cleanup) = previous.slot {
            cleanup.call();
        }
        *self = EffectCleanupHook {
            slot: None,
            history: Ghost(before.history + before.disposal()),
        };
    }
}

/// No event happens twice: each run of the effect happens once, and the
/// cleanup that it leaves behind is called at most once.
pub proof fn law_no_event_twice<C>(hook: HookView<C>, i: int, j: int)
    requires
        hook.wf(),
        0 <= i < hook.history.len(),
        0 <= j < hook.history.len(),
        hook.history[i] == hook.history[j],
    ensures
        i == j,
{
    assert(hook.history[i] == HookView::<C>::event_at(i));
    assert(hook.history[j] == HookView::<C>::event_at(j));
}

/// In every history a cleanup is called after the run that left it behind,
/// and before the effect runs again: a call stands right behind its run, and
/// every run but the first stands right behind the call of the cleanup of the
/// run before. That the calls themselves are made in this order is what
/// [`EffectCleanupHook::activate`] is held to by its precondition.
pub proof fn law_cleanup_between_runs<C>(hook: HookView<C>, i: int)
    requires
        hook.wf(),
        0 <= i < hook.history.len(),
    ensures
        hook.history[i] matches HookEvent::Disposed { generation } ==> i >= 1 && hook.history[i
            - 1] == (HookEvent::BodyRan { generation }),
        hook.history[i] matches HookEvent::BodyRan { generation } ==> generation == 0 || (i >= 1
            && hook.history[i - 1] == (HookEvent::Disposed {
            generation: (generation - 1) as nat,
        })),
{
    assert(hook.history[i] == HookView::<C>::event_at(i));
    if i >= 1 {
        assert(hook.history[i - 1] == HookView::<C>::event_at(i - 1));
    }
}

/// Every cleanup but a stored one has been called: once none is stored, the
/// cleanup of every run has been; while one is stored, that of every run but
/// the last.
pub proof fn law_cleanups_called<C>(hook: HookView<C>, generation: nat)
    requires
        hook.wf(),
        generation < hook.runs(),
        hook.stored is Some ==> generation + 1 < hook.runs(),
    ensures
        2 * generation + 1 < hook.history.len(),
        hook.history[2 * generation as int + 1] == (HookEvent::Disposed { generation }),
{
    let i = 2 * generation as int + 1;
    assert(hook.history[i] == HookView::<C>::event_at(i));
}

} // verus!
