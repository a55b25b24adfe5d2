//! The order and outcome of a multi-source lookup. A query asks every
//! provider, in registration (priority) order, for every key, in order; each
//! value found becomes a record of its key, so the records arrive key by key
//! and, for one key, in provider priority order. A cancellation stops the
//! walk; a provider reload makes it fail. Running the providers (threads,
//! waiting) is the shell's part: it asks the walk what to fetch next and
//! reports what came back.
use vstd::prelude::*;
use crate::record::Record;

verus! {

/// Where a lookup walk stands.
#[derive(Debug, Clone, Copy, PartialEq, Eq, Structural)]
pub enum WalkState {
    Running,
    Finished,
    Cancelled,
    Failed,
}

/// What came back from the current step.
pub enum WalkEvent {
    /// The provider's answer for the key.
    Reply(Option<String>),
    /// The consumer cancelled the query.
    Cancelled,
    /// The providers were replaced while the query ran.
    Reload,
}

/// The next thing to do.
pub enum WalkRequest {
    /// Ask provider `provider` for `key`.
    Get { key: String, provider: usize },
    /// Nothing: the walk is over.
    Done,
}

/// A lookup walk over `keys` and `providers` providers.
pub struct QueryWalk {
    keys: Vec<String>,
    providers: usize,
    key_index: usize,
    provider_index: usize,
    records: Vec<Record>,
    state: WalkState,
}

/// A walk as plain values: keys, provider count, position, the found
/// (key, value) pairs and the state.
pub struct WalkView {
    pub keys: Seq<Seq<char>>,
    pub providers: nat,
    pub key_index: nat,
    pub provider_index: nat,
    pub found: Seq<(Seq<char>, Seq<char>)>,
    pub state: WalkState,
}

pub open spec fn record_pairs(rs: Seq<Record>) -> Seq<(Seq<char>, Seq<char>)> {
    rs.map_values(|r: Record| (r.key@, r.value@))
}

/// The walk at its start: finished at once when there is nothing to ask.
pub open spec fn walk_start(keys: Seq<Seq<char>>, providers: nat) -> WalkView {
    WalkView {
        keys,
        providers,
        key_index: 0,
        provider_index: 0,
        found: Seq::empty(),
        state: if keys.len() == 0 || providers == 0 {
            WalkState::Finished
        } else {
            WalkState::Running
        },
    }
}

/// The position after the current step: the next provider, or the first
/// provider of the next key; finished after the last key.
pub open spec fn walk_advance(w: WalkView) -> WalkView {
    if w.provider_index + 1 < w.providers {
        WalkView { provider_index: w.provider_index + 1, ..w }
    } else if w.key_index + 1 < w.keys.len() {
        WalkView { key_index: w.key_index + 1, provider_index: 0, ..w }
    } else {
        WalkView { key_index: w.key_index + 1, provider_index: 0, state: WalkState::Finished, ..w }
    }
}

/// Event spelled as plain values.
pub enum EventView {
    Reply(Option<Seq<char>>),
    Cancelled,
    Reload,
}

pub open spec fn event_view(e: WalkEvent) -> EventView {
    match e {
        WalkEvent::Reply(Some(v)) => EventView::Reply(Some(v@)),
        WalkEvent::Reply(None) => EventView::Reply(None),
        WalkEvent::Cancelled => EventView::Cancelled,
        WalkEvent::Reload => EventView::Reload,
    }
}

/// One step of the walk: a value found is recorded under the current key
/// and the walk moves on; a cancellation stops it; a reload fails it. A
/// walk that is over ignores events.
pub open spec fn walk_step(w: WalkView, e: EventView) -> WalkView {
    if w.state != WalkState::Running {
        w
    } else {
        match e {
            EventView::Reply(Some(v)) => walk_advance(
                WalkView { found: w.found.push((w.keys[w.key_index as int], v)), ..w },
            ),
            EventView::Reply(None) => walk_advance(w),
            EventView::Cancelled => WalkView { state: WalkState::Cancelled, ..w },
            EventView::Reload => WalkView { state: WalkState::Failed, ..w },
        }
    }
}

/// The walk after a sequence of events from its start.
pub open spec fn walk_run(keys: Seq<Seq<char>>, providers: nat, events: Seq<EventView>) -> WalkView
    decreases events.len(),
{
    if events.len() == 0 {
        walk_start(keys, providers)
    } else {
        walk_step(walk_run(keys, providers, events.drop_last()), events.last())
    }
}

impl QueryWalk {
    pub closed spec fn view(&self) -> WalkView {
        WalkView {
            keys: self.keys@.map_values(|s: String| s@),
            providers: self.providers as nat,
            key_index: self.key_index as nat,
            provider_index: self.provider_index as nat,
            found: record_pairs(self.records@),
            state: self.state,
        }
    }

    /// The walk is at a valid position: while running, on an existing key
    /// and provider.
    pub closed spec fn wf(&self) -> bool {
        &&& self.state == WalkState::Running ==> self.key_index < self.keys.len()
            && self.provider_index < self.providers
        &&& self.key_index <= self.keys.len()
    }

    /// A walk over `keys` with `providers` providers.
    pub fn new(keys: Vec<String>, providers: usize) -> (r: Self)
        ensures
            r.wf(),
            r.view() == walk_start(keys@.map_values(|s: String| s@), providers as nat),
    {
        let state = if keys.len() == 0 || providers == 0 {
            WalkState::Finished
        } else {
            WalkState::Running
        };
        let r = QueryWalk { keys, providers, key_index: 0, provider_index: 0, records: Vec::new(), state };
        assert(record_pairs(r.records@) =~= Seq::empty());
        r
    }

    /// What to do next: while running, ask the current provider for the
    /// current key.
    pub fn request(&self) -> (r: WalkRequest)
        requires
            self.wf(),
        ensures
            match r {
                WalkRequest::Get { key, provider } => self.view().state == WalkState::Running
                    && key@ == self.view().keys[self.view().key_index as int] && provider
                    == self.view().provider_index,
                WalkRequest::Done => self.view().state != WalkState::Running,
            },
    {
        if self.state == WalkState::Running {
            WalkRequest::Get { key: self.keys[self.key_index].clone(), provider: self.provider_index }
        } else {
            WalkRequest::Done
        }
    }

    /// Applies what came back from the current step (see [`walk_step`]).
    pub fn apply(&mut self, event: WalkEvent)
        requires
            old(self).wf(),
        ensures
            final(self).wf(),
            final(self).view() == walk_step(old(self).view(), event_view(event)),
    {
        if self.state != WalkState::Running {
            return;
        }
        match event {
            WalkEvent::Reply(found) => {
                if let Some(v) = found {
                    let ghost before = self.records@;
                    let rec = Record::new(self.keys[self.key_index].clone(), v);
                    self.records.push(rec);
                    assert(record_pairs(self.records@) =~= record_pairs(before).push(
                        (self.keys@[self.key_index as int]@, rec.value@),
                    ));
                }
                if self.provider_index + 1 < self.providers {
                    self.provider_index = self.provider_index + 1;
                } else if self.key_index + 1 < self.keys.len() {
                    self.key_index = self.key_index + 1;
                    self.provider_index = 0;
                } else {
                    self.key_index = self.key_index + 1;
                    self.provider_index = 0;
                    self.state = WalkState::Finished;
                }
            },
            WalkEvent::Cancelled => {
                self.state = WalkState::Cancelled;
            },
            WalkEvent::Reload => {
                self.state = WalkState::Failed;
            },
        }
    }

    /// The records found so far, in the order found.
    pub fn records(&self) -> (r: &Vec<Record>)
        ensures
            record_pairs(r@) == self.view().found,
    {
        &self.records
    }

    /// Where the walk stands.
    pub fn state(&self) -> (r: WalkState)
        ensures
            r == self.view().state,
    {
        self.state
    }
}

/// Replies as walk events.
pub open spec fn reply_events(replies: Seq<Option<Seq<char>>>) -> Seq<EventView> {
    replies.map_values(|r: Option<Seq<char>>| EventView::Reply(r))
}

/// The (key, value) pairs of the values found by the first replies, the
/// reply of step `i` being for key `i / providers`.
pub open spec fn found_of(keys: Seq<Seq<char>>, providers: nat, replies: Seq<Option<Seq<char>>>) -> Seq<
    (Seq<char>, Seq<char>),
>
    decreases replies.len(),
{
    if replies.len() == 0 {
        Seq::empty()
    } else {
        let prev = found_of(keys, providers, replies.drop_last());
        match replies.last() {
            Some(v) => prev.push((keys[(replies.len() - 1) / (providers as int)], v)),
            None => prev,
        }
    }
}

/// Without cancellation or reload, a lookup asks each provider in turn for
/// each key in turn: after the replies of the first steps, the records are
/// the values found, each under the key of its step, in step order (so for
/// one key, in provider priority order), and the walk is finished exactly
/// when every provider was asked for every key.
pub proof fn law_walk_order(keys: Seq<Seq<char>>, providers: nat, replies: Seq<Option<Seq<char>>>)
    requires
        providers > 0,
        replies.len() <= keys.len() * providers,
    ensures
        walk_run(keys, providers, reply_events(replies)).found == found_of(keys, providers, replies),
        walk_run(keys, providers, reply_events(replies)).state == (if replies.len() == keys.len()
            * providers {
            WalkState::Finished
        } else {
            WalkState::Running
        }),
        replies.len() < keys.len() * providers ==> ({
            let w = walk_run(keys, providers, reply_events(replies));
            w.key_index * providers + w.provider_index == replies.len() && w.provider_index
                < providers && w.key_index < keys.len() && w.keys == keys && w.providers
                == providers
        }),
    decreases replies.len(),
{
    let n = replies.len();
    let total = keys.len() * providers;
    if n == 0 {
        assert(reply_events(replies) =~= Seq::<EventView>::empty());
        let w0 = walk_run(keys, providers, reply_events(replies));
        assert(w0 == walk_start(keys, providers));
        assert(w0.key_index * providers == 0) by (nonlinear_arith)
            requires
                w0.key_index == 0,
        ;
        if keys.len() == 0 {
            assert(total == 0) by (nonlinear_arith)
                requires
                    keys.len() == 0,
                    total == keys.len() * providers,
            ;
        } else {
            assert(total > 0) by (nonlinear_arith)
                requires
                    keys.len() > 0,
                    providers > 0,
                    total == keys.len() * providers,
            ;
        }
    } else {
        let prev = replies.drop_last();
        assert(reply_events(replies).drop_last() =~= reply_events(prev));
        assert(reply_events(replies).last() == EventView::Reply(replies.last()));
        law_walk_order(keys, providers, prev);
        let w = walk_run(keys, providers, reply_events(prev));
        let (ki, pi) = (w.key_index as int, w.provider_index as int);
        let p = providers as int;
        vstd::arithmetic::div_mod::lemma_fundamental_div_mod_converse(n - 1, p, ki, pi);
        assert((ki + 1) * p == ki * p + p) by (nonlinear_arith);
        assert((ki + 2) * p == (ki + 1) * p + p) by (nonlinear_arith);
        let len = keys.len() as int;
        assert((ki + 1) * p <= len * p) by (nonlinear_arith)
            requires
                ki + 1 <= len,
                p > 0,
        ;
        if ki + 2 <= len {
            assert((ki + 2) * p <= len * p) by (nonlinear_arith)
                requires
                    ki + 2 <= len,
                    p > 0,
            ;
        }
        assert(total == len * p);
        let w2 = walk_run(keys, providers, reply_events(replies));
        if pi + 1 < p {
            assert(n < total);
            assert(w2.key_index * providers + w2.provider_index == n);
        } else if ki + 1 < len {
            assert(n < total);
            assert(w2.key_index == ki + 1 && w2.provider_index == 0);
            assert(w2.key_index * providers + w2.provider_index == n);
        } else {
            assert(n == total);
        }
    }
}

/// The walk `w` after the events `events`, in order.
pub open spec fn walk_steps(w: WalkView, events: Seq<EventView>) -> WalkView
    decreases events.len(),
{
    if events.len() == 0 {
        w
    } else {
        walk_step(walk_steps(w, events.drop_last()), events.last())
    }
}

/// A reload fails a running lookup: it ends `Failed`, with the records found
/// so far, and nothing that comes after changes it. (Replacing the providers
/// reloads; queries started afterwards ask the new providers, see
/// [`Hub::set_providers`] and [`Hub::walk`].)
pub proof fn law_reload_fails_running_walk(w: WalkView, later: Seq<EventView>)
    requires
        w.state == WalkState::Running,
    ensures
        walk_steps(w, seq![EventView::Reload] + later) == (WalkView { state: WalkState::Failed, ..w }),
    decreases later.len(),
{
    let evs = seq![EventView::Reload] + later;
    if later.len() == 0 {
        assert(evs.drop_last() =~= Seq::<EventView>::empty());
        assert(evs.last() == EventView::Reload);
        assert(walk_steps(w, evs.drop_last()) == w);
    } else {
        assert(evs.drop_last() =~= seq![EventView::Reload] + later.drop_last());
        assert(evs.last() == later.last());
        law_reload_fails_running_walk(w, later.drop_last());
    }
}

/// The epoch after a reload: the next number, wrapping to 0 after the
/// largest.
pub open spec fn next_epoch(e: u64) -> u64 {
    if e == u64::MAX {
        0
    } else {
        (e + 1) as u64
    }
}

/// A hub as plain values: its providers and its reload epoch.
pub struct HubView<P> {
    pub providers: Seq<P>,
    pub epoch: u64,
}

/// The hub after its providers are replaced by `new`: a reload moves it to
/// the next epoch.
pub open spec fn providers_replaced<P>(h: HubView<P>, new: Seq<P>) -> HubView<P> {
    HubView { providers: new, epoch: next_epoch(h.epoch) }
}

/// A query started in epoch `started` sees a reload once the hub's epoch is
/// `current` and differs.
pub open spec fn reload_seen(started: u64, current: u64) -> bool {
    started != current
}

/// Whether a query started in epoch `started` must fail with a reload, the
/// hub now being in epoch `current`.
pub fn reload_pending(started: u64, current: u64) -> (r: bool)
    ensures
        r == reload_seen(started, current),
{
    started != current
}

/// The registered record providers, in registration (priority) order, and
/// the reload epoch. The shell runs a query by taking [`Hub::walk`] and the
/// current [`Hub::epoch`], asking the providers what the walk requests, and
/// reporting a reload to the walk when [`reload_pending`] says so.
pub struct Hub<P> {
    providers: Vec<P>,
    epoch: u64,
}

impl<P> Hub<P> {
    pub closed spec fn spec_providers(&self) -> Seq<P> {
        self.providers@
    }

    pub closed spec fn spec_view(&self) -> HubView<P> {
        HubView { providers: self.providers@, epoch: self.epoch }
    }

    /// A hub without providers, in epoch 0.
    pub fn new() -> (r: Self)
        ensures
            r.spec_providers() == Seq::<P>::empty(),
            r.spec_view() == (HubView { providers: Seq::<P>::empty(), epoch: 0 }),
    {
        Hub { providers: Vec::new(), epoch: 0 }
    }

    /// Registers a provider after the existing ones (lowest priority); no
    /// reload.
    pub fn add_provider(&mut self, provider: P)
        ensures
            final(self).spec_providers() == old(self).spec_providers().push(provider),
            final(self).spec_view() == (HubView {
                providers: old(self).spec_view().providers.push(provider),
                epoch: old(self).spec_view().epoch,
            }),
    {
        self.providers.push(provider);
    }

    /// Replaces the providers and reloads: queries started before fail with
    /// a reload (see [`law_set_providers_reloads`]).
    pub fn set_providers(&mut self, new_providers: Vec<P>)
        ensures
            final(self).spec_providers() == new_providers@,
            final(self).spec_view() == providers_replaced(old(self).spec_view(), new_providers@),
    {
        self.providers = new_providers;
        self.epoch = if self.epoch == u64::MAX {
            0
        } else {
            self.epoch + 1
        };
    }

    /// The providers, in priority order.
    pub fn providers(&self) -> (r: &Vec<P>)
        ensures
            r@ == self.spec_providers(),
    {
        &self.providers
    }

    /// The current reload epoch.
    pub fn epoch(&self) -> (r: u64)
        ensures
            r == self.spec_view().epoch,
    {
        self.epoch
    }

    /// The lookup walk of a query of `keys` over the registered providers.
    pub fn walk(&self, keys: Vec<String>) -> (r: QueryWalk)
        ensures
            r.wf(),
            r.view() == walk_start(keys@.map_values(|s: String| s@), self.spec_providers().len()),
    {
        QueryWalk::new(keys, self.providers.len())
    }
}

impl<P> Default for Hub<P> {
    /// A hub without providers.
    fn default() -> (r: Self)
        ensures
            r.spec_providers() == Seq::<P>::empty(),
            r.spec_view() == (HubView { providers: Seq::<P>::empty(), epoch: 0 }),
    {
        Hub::new()
    }
}

/// Replacing the providers of hub `h` by `new` reloads: a query started in
/// `h`'s epoch sees the reload, and a walk of it that is still running ends
/// `Failed` with the records found so far, whatever comes after; a query
/// started afterwards starts in the new epoch (sees no reload) and asks the
/// `new` providers, in order.
pub proof fn law_set_providers_reloads<P>(
    h: HubView<P>,
    new: Seq<P>,
    w: WalkView,
    later: Seq<EventView>,
    keys: Seq<Seq<char>>,
)
    requires
        w.state == WalkState::Running,
    ensures
        reload_seen(h.epoch, providers_replaced(h, new).epoch),
        walk_steps(w, seq![EventView::Reload] + later) == (WalkView { state: WalkState::Failed, ..w }),
        !reload_seen(providers_replaced(h, new).epoch, providers_replaced(h, new).epoch),
        providers_replaced(h, new).providers == new,
        walk_start(keys, providers_replaced(h, new).providers.len()) == walk_start(keys, new.len()),
{
    law_reload_fails_running_walk(w, later);
}

} // verus!
