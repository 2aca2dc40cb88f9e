//! The multi-loop scheduler: independently ticking domain loops, the
//! queued cross-thread mutation events each loop drains between its own
//! ticks, and the handshake links that pause a source loop until its
//! destination has quiesced, so a transfer never races either store.
//!
//! The orchestrator's coordination cycle is driven from outside: the
//! caller polls every link (performing the transfer callback when a
//! poll reports the handshake fired), then asks every loop whether it
//! may run its schedule, and reports back when the schedule finished.
//! The decisions — who may tick, when a transfer fires, in which order
//! queued mutations apply — all live here.

use vstd::prelude::*;

verus! {

/// A queued cross-thread mutation request.  Events are a closed set of
/// typed variants; the store-shaped ones are handed back to the caller
/// as [`StoreAction`]s in queue order.
#[derive(Clone, Copy, Debug, PartialEq, Eq, Structural)]
pub enum LoopEvent {
    /// Let the owning domain run its schedule again.
    Enable,
    /// Pause the owning domain's schedule (its queue still drains).
    Disable,
    /// Delete an entity and all its components.
    RemoveEntity(u64),
    /// Strip one component type from an entity.
    RemoveComponent(u64, u32),
    /// Apply a typed value change to one component of an entity.
    ChangeComponent(u64, u32, i64),
}

/// A store mutation the owning loop's caller must apply, produced by
/// draining the event queue.
#[derive(Clone, Copy, Debug, PartialEq, Eq, Structural)]
pub enum StoreAction {
    RemoveEntity(u64),
    RemoveComponent(u64, u32),
    ChangeComponent(u64, u32, i64),
}

/// One independently ticking simulation domain: its identity, whether
/// its schedule may run, whether a tick is in flight, how many links
/// currently hold it paused, and its inbound event queue.
pub struct DomainLoop {
    pub name: String,
    pub enabled: bool,
    pub running: bool,
    pub waits: usize,
    pub queue: Vec<LoopEvent>,
}

/// A directed handshake between two loops: once the source stops
/// running the link waits (pausing the source); once the destination
/// also stops running the transfer fires and both return to normal
/// scheduling.
pub struct Link {
    pub src: usize,
    pub dst: usize,
    pub waiting: bool,
}

/// Setup-time configuration errors of the orchestrator.
#[derive(Clone, Copy, Debug, PartialEq, Eq, Structural)]
pub enum CoreError {
    /// A loop name did not resolve to a registered loop.
    UnknownLoop,
    /// A link must connect two distinct loops.
    SelfLink,
}

/// The orchestrator: owns every domain loop and every link.
pub struct Core {
    pub loops: Vec<DomainLoop>,
    pub links: Vec<Link>,
}

/// A loop may begin a tick only when enabled, not already running, and
/// not held back by a waiting link.
pub open spec fn can_tick(lp: DomainLoop) -> bool {
    lp.enabled && !lp.running && lp.waits == 0
}

/// The store mutation(s) one event stands for (none for the
/// enable/disable control events).
pub open spec fn action_of(e: LoopEvent) -> Seq<StoreAction> {
    match e {
        LoopEvent::Enable => Seq::<StoreAction>::empty(),
        LoopEvent::Disable => Seq::<StoreAction>::empty(),
        LoopEvent::RemoveEntity(id) => seq![StoreAction::RemoveEntity(id)],
        LoopEvent::RemoveComponent(id, t) => seq![StoreAction::RemoveComponent(id, t)],
        LoopEvent::ChangeComponent(id, t, v) => seq![StoreAction::ChangeComponent(id, t, v)],
    }
}

/// The store mutations a queue yields on a drain, in queue (FIFO)
/// order.
pub open spec fn store_actions(q: Seq<LoopEvent>) -> Seq<StoreAction>
    decreases q.len(),
{
    if q.len() == 0 {
        Seq::<StoreAction>::empty()
    } else {
        store_actions(q.drop_last()) + action_of(q.last())
    }
}

/// The enabled flag after a queue is drained: the last enable/disable
/// event wins; with none, the flag is unchanged.
pub open spec fn enabled_after(en: bool, q: Seq<LoopEvent>) -> bool
    decreases q.len(),
{
    if q.len() == 0 {
        en
    } else {
        match q.last() {
            LoopEvent::Enable => true,
            LoopEvent::Disable => false,
            _ => enabled_after(en, q.drop_last()),
        }
    }
}

/// What one link contributes to its source loop's outstanding waits.
pub open spec fn link_contrib(link: Link, i: int) -> int {
    if link.waiting && link.src == i {
        1
    } else {
        0
    }
}

/// How many links currently hold loop `i` paused.
pub open spec fn waiting_count(links: Seq<Link>, i: int) -> int
    decreases links.len(),
{
    if links.len() == 0 {
        0
    } else {
        waiting_count(links.drop_last(), i) + link_contrib(links.last(), i)
    }
}

proof fn lemma_waiting_count_nonneg(links: Seq<Link>, i: int)
    ensures
        0 <= waiting_count(links, i) <= links.len(),
    decreases links.len(),
{
    if links.len() > 0 {
        lemma_waiting_count_nonneg(links.drop_last(), i);
    }
}

proof fn lemma_waiting_count_at_least(links: Seq<Link>, l: int, i: int)
    requires
        0 <= l < links.len(),
        links[l].waiting,
        links[l].src == i,
    ensures
        waiting_count(links, i) >= 1,
    decreases links.len(),
{
    lemma_waiting_count_nonneg(links.drop_last(), i);
    if l < links.len() - 1 {
        lemma_waiting_count_at_least(links.drop_last(), l, i);
    }
}

proof fn lemma_waiting_count_update(links: Seq<Link>, l: int, v: Link, i: int)
    requires
        0 <= l < links.len(),
    ensures
        waiting_count(links.update(l, v), i) == waiting_count(links, i) - link_contrib(
            links[l],
            i,
        ) + link_contrib(v, i),
    decreases links.len(),
{
    let upd = links.update(l, v);
    if l == links.len() - 1 {
        assert(upd.drop_last() =~= links.drop_last());
    } else {
        assert(upd.drop_last() =~= links.drop_last().update(l, v));
        lemma_waiting_count_update(links.drop_last(), l, v, i);
    }
}

proof fn lemma_waiting_count_no_src(links: Seq<Link>, i: int)
    requires
        forall|l: int| 0 <= l < links.len() ==> (#[trigger] links[l]).src != i,
    ensures
        waiting_count(links, i) == 0,
    decreases links.len(),
{
    if links.len() > 0 {
        lemma_waiting_count_no_src(links.drop_last(), i);
    }
}

/// The first loop at or after position `i` carrying `name`.
pub open spec fn find_from(loops: Seq<DomainLoop>, name: Seq<char>, i: int) -> Option<int>
    decreases loops.len() - i,
{
    if i < 0 || i >= loops.len() {
        None
    } else if loops[i].name@ == name {
        Some(i)
    } else {
        find_from(loops, name, i + 1)
    }
}

proof fn lemma_find_from_bounds(loops: Seq<DomainLoop>, name: Seq<char>, i: int)
    ensures
        match find_from(loops, name, i) {
            Some(j) => 0 <= j < loops.len() && loops[j].name@ == name,
            None => true,
        },
    decreases loops.len() - i,
{
    if 0 <= i < loops.len() && loops[i].name@ != name {
        lemma_find_from_bounds(loops, name, i + 1);
    }
}

impl Core {
    /// Links are wired between distinct registered loops, each loop's
    /// wait counter agrees with the links actually holding it, and a
    /// loop paused by a waiting link is never mid-tick.
    pub open spec fn inv(&self) -> bool {
        &&& forall|l: int|
            0 <= l < self.links@.len() ==> (#[trigger] self.links@[l]).src < self.loops@.len()
                && self.links@[l].dst < self.loops@.len() && self.links@[l].src
                != self.links@[l].dst
        &&& forall|i: int|
            0 <= i < self.loops@.len() ==> (#[trigger] self.loops@[i]).waits as int
                == waiting_count(self.links@, i)
        &&& forall|l: int|
            0 <= l < self.links@.len() ==> ((#[trigger] self.links@[l]).waiting ==> !self.loops@[(
            self.links@[l].src) as int].running)
    }

    /// An orchestrator with no loops and no links.
    pub fn new() -> (r: Core)
        ensures
            r.inv(),
            r.loops@.len() == 0,
            r.links@.len() == 0,
    {
        Core { loops: Vec::new(), links: Vec::new() }
    }

    /// Register one domain loop at setup: enabled, idle, with an empty
    /// store queue.  Returns its stable index.
    pub fn add_loop(&mut self, name: String) -> (idx: usize)
        requires
            old(self).inv(),
        ensures
            final(self).inv(),
            idx == old(self).loops@.len(),
            final(self).links@ == old(self).links@,
            final(self).loops@.len() == old(self).loops@.len() + 1,
            forall|j: int|
                0 <= j < old(self).loops@.len() ==> final(self).loops@[j] == old(self).loops@[j],
            final(self).loops@[idx as int].name == name,
            final(self).loops@[idx as int].enabled,
            !final(self).loops@[idx as int].running,
            final(self).loops@[idx as int].waits == 0,
            final(self).loops@[idx as int].queue@ == Seq::<LoopEvent>::empty(),
    {
        let idx = self.loops.len();
        self.loops.push(
            DomainLoop { name, enabled: true, running: false, waits: 0, queue: Vec::new() },
        );
        proof {
            assert forall|i: int| 0 <= i < self.loops@.len() implies (
            #[trigger] self.loops@[i]).waits as int == waiting_count(self.links@, i) by {
                if i == idx {
                    lemma_waiting_count_no_src(self.links@, i);
                }
            }
        }
        idx
    }

    /// Number of registered loops.
    pub fn loop_count(&self) -> (n: usize)
        ensures
            n == self.loops@.len(),
    {
        self.loops.len()
    }

    /// Number of registered links.
    pub fn link_count(&self) -> (n: usize)
        ensures
            n == self.links@.len(),
    {
        self.links.len()
    }

    /// Resolve a loop name to its stable index.
    pub fn find_loop(&self, name: &String) -> (r: Option<usize>)
        ensures
            match r {
                Some(idx) => find_from(self.loops@, name@, 0) == Some(idx as int),
                None => find_from(self.loops@, name@, 0) is None,
            },
    {
        let n = self.loops.len();
        let mut i: usize = 0;
        while i < n
            invariant
                n == self.loops@.len(),
                i <= n,
                find_from(self.loops@, name@, 0) == find_from(self.loops@, name@, i as int),
            decreases n - i,
        {
            if self.loops[i].name == *name {
                return Some(i);
            }
            i = i + 1;
        }
        None
    }

    /// Register a handshake link at setup, resolving both loop names to
    /// stable indices.  An unresolved name or a link from a loop to
    /// itself is a configuration error; the orchestrator is unchanged.
    /// The transfer callback itself stays with the caller, keyed by the
    /// returned link index.
    pub fn add_link(&mut self, from_name: &String, to_name: &String) -> (r: Result<
        usize,
        CoreError,
    >)
        requires
            old(self).inv(),
        ensures
            final(self).inv(),
            ({
                let f = find_from(old(self).loops@, from_name@, 0);
                let t = find_from(old(self).loops@, to_name@, 0);
                match r {
                    Ok(idx) => {
                        &&& f is Some
                        &&& t is Some
                        &&& f != t
                        &&& idx == old(self).links@.len()
                        &&& final(self).loops@ == old(self).loops@
                        &&& final(self).links@.len() == old(self).links@.len() + 1
                        &&& forall|l: int|
                            0 <= l < old(self).links@.len() ==> final(self).links@[l] == old(
                                self,
                            ).links@[l]
                        &&& final(self).links@[idx as int].src as int == f->Some_0
                        &&& final(self).links@[idx as int].dst as int == t->Some_0
                        &&& !final(self).links@[idx as int].waiting
                    },
                    Err(e) => {
                        &&& final(self).loops@ == old(self).loops@
                        &&& final(self).links@ == old(self).links@
                        &&& (e == CoreError::UnknownLoop <==> (f is None || t is None))
                        &&& (e == CoreError::SelfLink <==> (f is Some && t is Some && f == t))
                    },
                }
            }),
    {
        let f = self.find_loop(from_name);
        let t = self.find_loop(to_name);
        proof {
            lemma_find_from_bounds(self.loops@, from_name@, 0);
            lemma_find_from_bounds(self.loops@, to_name@, 0);
        }
        match (f, t) {
            (Some(src), Some(dst)) => {
                if src == dst {
                    return Err(CoreError::SelfLink);
                }
                let idx = self.links.len();
                self.links.push(Link { src, dst, waiting: false });
                proof {
                    assert forall|i: int| 0 <= i < self.loops@.len() implies (
                    #[trigger] self.loops@[i]).waits as int == waiting_count(self.links@, i) by {
                        assert(self.links@.drop_last() =~= old(self).links@);
                    }
                }
                Ok(idx)
            },
            _ => Err(CoreError::UnknownLoop),
        }
    }

    /// Thread-safe, fire-and-forget event submission: append one event
    /// to loop `i`'s inbound queue.  Order between two events from the
    /// same sender is preserved; order across senders is unspecified.
    pub fn enqueue(&mut self, i: usize, e: LoopEvent)
        requires
            old(self).inv(),
            i < old(self).loops@.len(),
        ensures
            final(self).inv(),
            final(self).links@ == old(self).links@,
            final(self).loops@.len() == old(self).loops@.len(),
            forall|j: int|
                0 <= j < old(self).loops@.len() && j != i ==> final(self).loops@[j] == old(
                    self,
                ).loops@[j],
            final(self).loops@[i as int].queue@ == old(self).loops@[i as int].queue@.push(e),
            final(self).loops@[i as int].name == old(self).loops@[i as int].name,
            final(self).loops@[i as int].enabled == old(self).loops@[i as int].enabled,
            final(self).loops@[i as int].running == old(self).loops@[i as int].running,
            final(self).loops@[i as int].waits == old(self).loops@[i as int].waits,
    {
        self.loops[i].queue.push(e);
    }

    /// May loop `i` begin a full tick?  If so, mark it running and
    /// answer true: the caller now executes the loop's compiled system
    /// schedule, then drains the queue and reports back through
    /// [`Core::finish_tick`].  Otherwise (disabled, already running, or
    /// paused by a link) answer false: the caller only drains the
    /// queue, so mutation requests are honored even while paused.
    pub fn begin_tick(&mut self, i: usize) -> (full: bool)
        requires
            old(self).inv(),
            i < old(self).loops@.len(),
        ensures
            final(self).inv(),
            full == can_tick(old(self).loops@[i as int]),
            final(self).links@ == old(self).links@,
            final(self).loops@.len() == old(self).loops@.len(),
            forall|j: int|
                0 <= j < old(self).loops@.len() && j != i ==> final(self).loops@[j] == old(
                    self,
                ).loops@[j],
            final(self).loops@[i as int].running == (old(self).loops@[i as int].running || full),
            final(self).loops@[i as int].name == old(self).loops@[i as int].name,
            final(self).loops@[i as int].enabled == old(self).loops@[i as int].enabled,
            final(self).loops@[i as int].waits == old(self).loops@[i as int].waits,
            final(self).loops@[i as int].queue == old(self).loops@[i as int].queue,
    {
        let lp_enabled = self.loops[i].enabled;
        let lp_running = self.loops[i].running;
        let lp_waits = self.loops[i].waits;
        if lp_enabled && !lp_running && lp_waits == 0 {
            self.loops[i].running = true;
            proof {
                assert forall|l: int|
                    0 <= l < self.links@.len() && (#[trigger] self.links@[l]).waiting implies !self.loops@[(
                self.links@[l].src) as int].running by {
                    if self.links@[l].src == i {
                        lemma_waiting_count_at_least(self.links@, l, i as int);
                    }
                }
            }
            true
        } else {
            false
        }
    }

    /// The caller reports that loop `i`'s tick (schedule plus drain)
    /// has completed; the loop returns to normal scheduling.
    pub fn finish_tick(&mut self, i: usize)
        requires
            old(self).inv(),
            i < old(self).loops@.len(),
        ensures
            final(self).inv(),
            final(self).links@ == old(self).links@,
            final(self).loops@.len() == old(self).loops@.len(),
            forall|j: int|
                0 <= j < old(self).loops@.len() && j != i ==> final(self).loops@[j] == old(
                    self,
                ).loops@[j],
            !final(self).loops@[i as int].running,
            final(self).loops@[i as int].name == old(self).loops@[i as int].name,
            final(self).loops@[i as int].enabled == old(self).loops@[i as int].enabled,
            final(self).loops@[i as int].waits == old(self).loops@[i as int].waits,
            final(self).loops@[i as int].queue == old(self).loops@[i as int].queue,
    {
        self.loops[i].running = false;
    }

    /// Drain loop `i`'s inbound queue in FIFO order: enable/disable
    /// events flip the loop's enabled flag (last one wins), and the
    /// store-shaped events come back, in order, for the caller to apply
    /// to the loop's own store before its next tick.
    pub fn drain_events(&mut self, i: usize) -> (actions: Vec<StoreAction>)
        requires
            old(self).inv(),
            i < old(self).loops@.len(),
        ensures
            final(self).inv(),
            final(self).links@ == old(self).links@,
            final(self).loops@.len() == old(self).loops@.len(),
            forall|j: int|
                0 <= j < old(self).loops@.len() && j != i ==> final(self).loops@[j] == old(
                    self,
                ).loops@[j],
            actions@ == store_actions(old(self).loops@[i as int].queue@),
            final(self).loops@[i as int].enabled == enabled_after(
                old(self).loops@[i as int].enabled,
                old(self).loops@[i as int].queue@,
            ),
            final(self).loops@[i as int].queue@ == Seq::<LoopEvent>::empty(),
            final(self).loops@[i as int].name == old(self).loops@[i as int].name,
            final(self).loops@[i as int].running == old(self).loops@[i as int].running,
            final(self).loops@[i as int].waits == old(self).loops@[i as int].waits,
    {
        let ghost q = self.loops@[i as int].queue@;
        let n = self.loops[i].queue.len();
        let mut actions: Vec<StoreAction> = Vec::new();
        let mut en = self.loops[i].enabled;
        let mut k: usize = 0;
        proof {
            assert(q.take(0) =~= Seq::<LoopEvent>::empty());
        }
        while k < n
            invariant
                self == old(self),
                old(self).inv(),
                i < self.loops@.len(),
                q == self.loops@[i as int].queue@,
                n == q.len(),
                k <= n,
                actions@ == store_actions(q.take(k as int)),
                en == enabled_after(self.loops@[i as int].enabled, q.take(k as int)),
            decreases n - k,
        {
            let e = self.loops[i].queue[k];
            proof {
                assert(q.take(k + 1).drop_last() =~= q.take(k as int));
                assert(q.take(k + 1).last() == q[k as int]);
            }
            match e {
                LoopEvent::Enable => {
                    en = true;
                },
                LoopEvent::Disable => {
                    en = false;
                },
                LoopEvent::RemoveEntity(id) => {
                    actions.push(StoreAction::RemoveEntity(id));
                },
                LoopEvent::RemoveComponent(id, t) => {
                    actions.push(StoreAction::RemoveComponent(id, t));
                },
                LoopEvent::ChangeComponent(id, t, v) => {
                    actions.push(StoreAction::ChangeComponent(id, t, v));
                },
            }
            k = k + 1;
        }
        proof {
            assert(q.take(n as int) =~= q);
        }
        self.loops[i].enabled = en;
        self.loops[i].queue = Vec::new();
        actions
    }

    /// Evaluate one link's handshake.  A link whose source has stopped
    /// running enters the waiting state and holds the source back from
    /// new ticks.  A waiting link whose destination has also stopped
    /// running fires: the answer is true exactly then, and the caller
    /// must perform the transfer callback now — both loops are
    /// quiescent, so the transfer races neither store.
    pub fn poll_link(&mut self, l: usize) -> (fire: bool)
        requires
            old(self).inv(),
            l < old(self).links@.len(),
        ensures
            final(self).inv(),
            final(self).links@.len() == old(self).links@.len(),
            final(self).loops@.len() == old(self).loops@.len(),
            ({
                let link = old(self).links@[l as int];
                let src = link.src as int;
                if !link.waiting && !old(self).loops@[src].running {
                    &&& !fire
                    &&& final(self).links@[l as int].waiting
                    &&& final(self).links@[l as int].src == link.src
                    &&& final(self).links@[l as int].dst == link.dst
                    &&& forall|m: int|
                        0 <= m < old(self).links@.len() && m != l ==> final(self).links@[m] == old(
                            self,
                        ).links@[m]
                    &&& forall|j: int|
                        0 <= j < old(self).loops@.len() && j != src ==> final(self).loops@[j]
                            == old(self).loops@[j]
                    &&& final(self).loops@[src].waits as int == old(self).loops@[src].waits + 1
                    &&& final(self).loops@[src].name == old(self).loops@[src].name
                    &&& final(self).loops@[src].enabled == old(self).loops@[src].enabled
                    &&& final(self).loops@[src].running == old(self).loops@[src].running
                    &&& final(self).loops@[src].queue == old(self).loops@[src].queue
                } else if link.waiting && !old(self).loops@[link.dst as int].running {
                    &&& fire
                    &&& !final(self).links@[l as int].waiting
                    &&& final(self).links@[l as int].src == link.src
                    &&& final(self).links@[l as int].dst == link.dst
                    &&& forall|m: int|
                        0 <= m < old(self).links@.len() && m != l ==> final(self).links@[m] == old(
                            self,
                        ).links@[m]
                    &&& forall|j: int|
                        0 <= j < old(self).loops@.len() && j != src ==> final(self).loops@[j]
                            == old(self).loops@[j]
                    &&& final(self).loops@[src].waits as int == old(self).loops@[src].waits - 1
                    &&& final(self).loops@[src].name == old(self).loops@[src].name
                    &&& final(self).loops@[src].enabled == old(self).loops@[src].enabled
                    &&& final(self).loops@[src].running == old(self).loops@[src].running
                    &&& final(self).loops@[src].queue == old(self).loops@[src].queue
                    &&& !old(self).loops@[src].running
                    &&& !old(self).loops@[link.dst as int].running
                } else {
                    &&& !fire
                    &&& final(self).links@ == old(self).links@
                    &&& final(self).loops@ == old(self).loops@
                }
            }),
    {
        let link_waiting = self.links[l].waiting;
        let src = self.links[l].src;
        let dst = self.links[l].dst;
        let n_links = self.links.len();
        if !link_waiting && !self.loops[src].running {
            proof {
                lemma_waiting_count_nonneg(
                    self.links@.update(l as int, (Link { src, dst, waiting: true })),
                    src as int,
                );
                lemma_waiting_count_update(
                    self.links@,
                    l as int,
                    (Link { src, dst, waiting: true }),
                    src as int,
                );
                assert(link_contrib(self.links@[l as int], src as int) == 0);
                assert(waiting_count(self.links@, src as int) + 1 <= n_links);
                assert forall|i: int|
                    0 <= i < self.loops@.len() && i != src implies waiting_count(
                    self.links@.update(l as int, (Link { src, dst, waiting: true })),
                    i,
                ) == waiting_count(self.links@, i) by {
                    lemma_waiting_count_update(
                        self.links@,
                        l as int,
                        (Link { src, dst, waiting: true }),
                        i,
                    );
                }
            }
            self.links[l].waiting = true;
            let w = self.loops[src].waits;
            self.loops[src].waits = w + 1;
            false
        } else if link_waiting && !self.loops[dst].running {
            proof {
                lemma_waiting_count_at_least(self.links@, l as int, src as int);
                lemma_waiting_count_update(
                    self.links@,
                    l as int,
                    (Link { src, dst, waiting: false }),
                    src as int,
                );
                assert forall|i: int|
                    0 <= i < self.loops@.len() && i != src implies waiting_count(
                    self.links@.update(l as int, (Link { src, dst, waiting: false })),
                    i,
                ) == waiting_count(self.links@, i) by {
                    lemma_waiting_count_update(
                        self.links@,
                        l as int,
                        (Link { src, dst, waiting: false }),
                        i,
                    );
                }
            }
            self.links[l].waiting = false;
            let w = self.loops[src].waits;
            self.loops[src].waits = w - 1;
            true
        } else {
            false
        }
    }
}

/// Backpressure safety of the handshake: while a link is waiting, its
/// source loop carries at least one outstanding wait, is not mid-tick,
/// and cannot begin a new tick — so the source stays quiescent through
/// the whole window between finishing its tick and the transfer firing.
pub proof fn lemma_waiting_blocks_source(c: Core, l: int)
    requires
        c.inv(),
        0 <= l < c.links@.len(),
        c.links@[l].waiting,
    ensures
        c.loops@[c.links@[l].src as int].waits >= 1,
        !c.loops@[c.links@[l].src as int].running,
        !can_tick(c.loops@[c.links@[l].src as int]),
{
    lemma_waiting_count_at_least(c.links@, l, c.links@[l].src as int);
}

/// FIFO event delivery: draining a queue that ends in events `e1` then
/// `e2` yields the earlier queue's actions, then `e1`'s, then `e2`'s —
/// two mutations enqueued in order by one sender are applied in that
/// order.
pub proof fn lemma_event_order(q: Seq<LoopEvent>, e1: LoopEvent, e2: LoopEvent)
    ensures
        store_actions(q.push(e1).push(e2)) == store_actions(q) + action_of(e1) + action_of(e2),
{
    assert(q.push(e1).push(e2).drop_last() =~= q.push(e1));
    assert(q.push(e1).drop_last() =~= q);
    assert(q.push(e1).push(e2).last() == e2);
    assert(q.push(e1).last() == e1);
    assert(store_actions(q.push(e1)) == store_actions(q) + action_of(e1));
    assert(store_actions(q.push(e1).push(e2)) == store_actions(q.push(e1)) + action_of(e2));
}

} // verus!
