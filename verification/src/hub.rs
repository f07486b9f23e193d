//! Broadcast hub: the process-wide registry of relay channels, one per live
//! connection.  Each poll tick prunes the channels whose handler terminated
//! and drains at most one decoded message per connection, re-broadcasting it
//! to every other registered channel in registration order.

use vstd::prelude::*;

verus! {

/// The payloads a message queue holds, in order.
pub open spec fn queue_view(q: Seq<Vec<u8>>) -> Seq<Seq<u8>> {
    q.map(|i: int, m: Vec<u8>| m@)
}

/// One relay channel as the hub holds it: an unbounded ordered queue in each
/// direction and the flag the handler's termination clears.
pub struct RelayChannel {
    /// The connection this channel serves; no two registry entries share one.
    pub id: u64,
    /// Messages decoded by the connection, waiting for the hub.
    pub inbound: Vec<Vec<u8>>,
    /// Messages relayed by the hub, waiting for the connection.
    pub outbound: Vec<Vec<u8>>,
    /// Cleared when the connection's handler terminates; the next tick
    /// removes the channel.
    pub connected: bool,
}

/// The mathematical state of one relay channel.
#[verifier::ext_equal]
pub ghost struct ChannelModel {
    pub id: u64,
    pub inbound: Seq<Seq<u8>>,
    pub outbound: Seq<Seq<u8>>,
    pub connected: bool,
}

impl View for RelayChannel {
    type V = ChannelModel;

    open spec fn view(&self) -> ChannelModel {
        ChannelModel {
            id: self.id,
            inbound: queue_view(self.inbound@),
            outbound: queue_view(self.outbound@),
            connected: self.connected,
        }
    }
}

impl ChannelModel {
    /// The channel a newly accepted connection starts with.
    pub open spec fn fresh(id: u64) -> ChannelModel {
        ChannelModel { id: id, inbound: Seq::empty(), outbound: Seq::empty(), connected: true }
    }

    /// This channel with one more message queued for the hub.
    pub open spec fn with_queued(self, m: Seq<u8>) -> ChannelModel {
        ChannelModel {
            id: self.id,
            inbound: self.inbound.push(m),
            outbound: self.outbound,
            connected: self.connected,
        }
    }

    /// This channel with the first message for the connection taken off.
    pub open spec fn with_delivered(self) -> ChannelModel {
        ChannelModel {
            id: self.id,
            inbound: self.inbound,
            outbound: self.outbound.drop_first(),
            connected: self.connected,
        }
    }

    /// This channel after its handler terminated.
    pub open spec fn dropped(self) -> ChannelModel {
        ChannelModel {
            id: self.id,
            inbound: self.inbound,
            outbound: self.outbound,
            connected: false,
        }
    }
}

/// The models of a sequence of channels, in the same order.
pub open spec fn models(v: Seq<RelayChannel>) -> Seq<ChannelModel> {
    v.map(|i: int, c: RelayChannel| c@)
}

/// The channels that survive a pruning pass: those still connected, in
/// registration order.
pub open spec fn live(cs: Seq<ChannelModel>) -> Seq<ChannelModel> {
    cs.filter(|c: ChannelModel| c.connected)
}

proof fn lemma_live_empty()
    ensures
        live(Seq::<ChannelModel>::empty()) == Seq::<ChannelModel>::empty(),
{
    reveal(Seq::filter);
}

/// Pruning looks at each channel in turn: the last one is kept exactly when
/// it is still connected.
proof fn lemma_live_push(cs: Seq<ChannelModel>, c: ChannelModel)
    ensures
        live(cs.push(c)) == (if c.connected {
            live(cs).push(c)
        } else {
            live(cs)
        }),
{
    reveal(Seq::filter);
    assert(cs.push(c).drop_last() =~= cs);
    assert(cs.push(c).last() == c);
}

/// How long the pruned registry can be at most.
proof fn lemma_live_len(cs: Seq<ChannelModel>)
    ensures
        live(cs).len() <= cs.len(),
    decreases cs.len(),
{
    if cs.len() == 0 {
        assert(cs =~= Seq::<ChannelModel>::empty());
        lemma_live_empty();
    } else {
        let dl = cs.drop_last();
        assert(dl.push(cs.last()) =~= cs);
        lemma_live_push(dl, cs.last());
        lemma_live_len(dl);
    }
}

/// Every survivor of a pruning pass is one of the original channels, and a
/// connected one: hands back where it stood.
proof fn lemma_live_member_at(cs: Seq<ChannelModel>, i: int) -> (j: int)
    requires
        0 <= i < live(cs).len(),
    ensures
        0 <= j < cs.len(),
        live(cs)[i] == cs[j],
        cs[j].connected,
    decreases cs.len(),
{
    if cs.len() == 0 {
        assert(cs =~= Seq::<ChannelModel>::empty());
        lemma_live_empty();
        0
    } else {
        let dl = cs.drop_last();
        assert(dl.push(cs.last()) =~= cs);
        lemma_live_push(dl, cs.last());
        if cs.last().connected {
            if i < live(dl).len() {
                lemma_live_member_at(dl, i)
            } else {
                cs.len() - 1
            }
        } else {
            lemma_live_member_at(dl, i)
        }
    }
}

/// Pruning removes nothing from a registry whose channels are all connected.
proof fn lemma_live_all(cs: Seq<ChannelModel>)
    requires
        forall|i: int| 0 <= i < cs.len() ==> (#[trigger] cs[i]).connected,
    ensures
        live(cs) == cs,
    decreases cs.len(),
{
    if cs.len() == 0 {
        assert(cs =~= Seq::<ChannelModel>::empty());
        lemma_live_empty();
    } else {
        let dl = cs.drop_last();
        lemma_live_all(dl);
        assert(dl.push(cs.last()) =~= cs);
        lemma_live_push(dl, cs.last());
        assert(live(cs) =~= cs);
    }
}

/// Pruning keeps the registered identifiers distinct and within any bound
/// they respected before.
proof fn lemma_live_ids(cs: Seq<ChannelModel>, bound: u64)
    requires
        forall|i: int| 0 <= i < cs.len() ==> (#[trigger] cs[i]).id < bound,
        forall|i: int, j: int| 0 <= i < j < cs.len() ==> cs[i].id != cs[j].id,
    ensures
        forall|i: int| 0 <= i < live(cs).len() ==> (#[trigger] live(cs)[i]).id < bound,
        forall|i: int, j: int| 0 <= i < j < live(cs).len() ==> live(cs)[i].id != live(cs)[j].id,
    decreases cs.len(),
{
    lemma_live_len(cs);
    assert forall|i: int| 0 <= i < live(cs).len() implies (#[trigger] live(cs)[i]).id < bound by {
        let j = lemma_live_member_at(cs, i);
    }
    if cs.len() > 0 {
        let dl = cs.drop_last();
        lemma_live_ids(dl, bound);
        lemma_live_len(dl);
        assert(dl.push(cs.last()) =~= cs);
        lemma_live_push(dl, cs.last());
        if cs.last().connected {
            assert forall|i: int, j: int| 0 <= i < j < live(cs).len() implies live(cs)[i].id
                != live(cs)[j].id by {
                if j == live(dl).len() {
                    let m = lemma_live_member_at(dl, i);
                    assert(dl[m] == cs[m]);
                    assert(cs[m].id != cs[cs.len() - 1].id);
                    assert(live(cs)[j] == cs.last());
                } else {
                    assert(live(dl)[i].id != live(dl)[j].id);
                }
            }
        }
    }
}

/// The messages channel `i` receives in one relay pass from the origins
/// `0..upto`: the head of every other channel's inbound queue, in
/// registration order.
pub open spec fn fanout(cs: Seq<ChannelModel>, upto: int, i: int) -> Seq<Seq<u8>>
    decreases upto,
{
    if upto <= 0 {
        Seq::empty()
    } else {
        let prev = fanout(cs, upto - 1, i);
        if upto - 1 != i && cs[upto - 1].inbound.len() > 0 {
            prev.push(cs[upto - 1].inbound[0])
        } else {
            prev
        }
    }
}

/// Where channel `i` of the pruned registry stands after one relay pass: at
/// most one of its own messages drained, and the other channels' drained
/// heads appended to what it owes its connection.
pub open spec fn after_relay(cs: Seq<ChannelModel>, i: int) -> ChannelModel {
    ChannelModel {
        id: cs[i].id,
        inbound: if cs[i].inbound.len() > 0 {
            cs[i].inbound.drop_first()
        } else {
            cs[i].inbound
        },
        outbound: cs[i].outbound + fanout(cs, cs.len() as int, i),
        connected: cs[i].connected,
    }
}

/// The mathematical state of the hub: the registered channels in
/// registration order, and the next connection identifier.
#[verifier::ext_equal]
pub ghost struct HubModel {
    pub channels: Seq<ChannelModel>,
    pub next_id: u64,
}

impl HubModel {
    /// No registered identifier was handed out twice, and none anticipates
    /// an identifier still to be handed out.
    pub open spec fn wf(self) -> bool {
        &&& forall|i: int|
            0 <= i < self.channels.len() ==> (#[trigger] self.channels[i]).id < self.next_id
        &&& forall|i: int, j: int|
            0 <= i < j < self.channels.len() ==> self.channels[i].id != self.channels[j].id
    }
}

/// The broadcast hub: the registry of live relay channels.
pub struct Hub {
    pub registry: Vec<RelayChannel>,
    pub next_id: u64,
}

impl View for Hub {
    type V = HubModel;

    open spec fn view(&self) -> HubModel {
        HubModel { channels: models(self.registry@), next_id: self.next_id }
    }
}

impl Hub {
    /// A hub with no connections yet.
    pub fn new() -> (h: Hub)
        ensures
            h@.wf(),
            h@.channels == Seq::<ChannelModel>::empty(),
            h@.next_id == 0,
    {
        let h = Hub { registry: Vec::new(), next_id: 0 };
        proof {
            assert(h@.channels =~= Seq::<ChannelModel>::empty());
        }
        h
    }

    /// Registers a newly accepted connection: appends a fresh channel to the
    /// registry and hands back the identifier its handler will use.
    pub fn register(&mut self) -> (id: u64)
        requires
            old(self)@.wf(),
            old(self)@.next_id < u64::MAX,
        ensures
            final(self)@.wf(),
            id == old(self)@.next_id,
            final(self)@.next_id == id + 1,
            final(self)@.channels == old(self)@.channels.push(ChannelModel::fresh(id)),
    {
        let id = self.next_id;
        let c = RelayChannel { id: id, inbound: Vec::new(), outbound: Vec::new(), connected: true };
        proof {
            assert(c@ =~= ChannelModel::fresh(id));
        }
        self.registry.push(c);
        self.next_id = id + 1;
        proof {
            assert(self@.channels =~= old(self)@.channels.push(ChannelModel::fresh(id)));
        }
        id
    }

    /// Queues a message a connection decoded, on the channel registered
    /// under its identifier.  Fails — leaving the hub unchanged — when no
    /// such channel is registered and connected any more, as a send on a
    /// dropped channel fails.
    pub fn send_to_hub(&mut self, id: u64, msg: Vec<u8>) -> (ok: bool)
        requires
            old(self)@.wf(),
        ensures
            final(self)@.wf(),
            final(self)@.next_id == old(self)@.next_id,
            ok == exists|k: int|
                0 <= k < old(self)@.channels.len() && (#[trigger] old(self)@.channels[k]).id == id
                    && old(self)@.channels[k].connected,
            forall|k: int|
                0 <= k < old(self)@.channels.len() && (#[trigger] old(self)@.channels[k]).id == id
                    && old(self)@.channels[k].connected
                    ==> final(self)@.channels
                    == old(self)@.channels.update(k, old(self)@.channels[k].with_queued(msg@)),
            !ok ==> final(self)@.channels == old(self)@.channels,
    {
        let ghost cs = self@.channels;
        let n = self.registry.len();
        let mut k: usize = 0;
        while k < n
            invariant
                old(self)@.wf(),
                n == cs.len(),
                k <= n,
                self == old(self),
                cs == self@.channels,
                forall|t: int| 0 <= t < k ==> (#[trigger] cs[t]).id != id,
            decreases n - k,
        {
            if self.registry[k].id == id {
                proof {
                    assert forall|t: int| 0 <= t < cs.len() && (#[trigger] cs[t]).id == id
                        implies t == k as int by {
                        if t != k as int {
                            assert(cs[t].id != cs[k as int].id);
                        }
                    }
                }
                if self.registry[k].connected {
                    self.registry[k].inbound.push(msg);
                    proof {
                        assert(self@.channels =~~= cs.update(k as int, cs[k as int].with_queued(
                            msg@,
                        )));
                    }
                    return true;
                }
                return false;
            }
            k = k + 1;
        }
        false
    }

    /// Marks the channel registered under `id` as disconnected: its handler
    /// terminated.  The next tick removes it.  Reports whether such a
    /// channel was registered.
    pub fn disconnect(&mut self, id: u64) -> (found: bool)
        requires
            old(self)@.wf(),
        ensures
            final(self)@.wf(),
            final(self)@.next_id == old(self)@.next_id,
            found == exists|k: int|
                0 <= k < old(self)@.channels.len() && (#[trigger] old(self)@.channels[k]).id == id,
            forall|k: int|
                0 <= k < old(self)@.channels.len() && (#[trigger] old(self)@.channels[k]).id == id
                    ==> final(self)@.channels
                    == old(self)@.channels.update(k, old(self)@.channels[k].dropped()),
            !found ==> final(self)@.channels == old(self)@.channels,
    {
        let ghost cs = self@.channels;
        let n = self.registry.len();
        let mut k: usize = 0;
        while k < n
            invariant
                old(self)@.wf(),
                n == cs.len(),
                k <= n,
                self == old(self),
                cs == self@.channels,
                forall|t: int| 0 <= t < k ==> (#[trigger] cs[t]).id != id,
            decreases n - k,
        {
            if self.registry[k].id == id {
                proof {
                    assert forall|t: int| 0 <= t < cs.len() && (#[trigger] cs[t]).id == id
                        implies t == k as int by {
                        if t != k as int {
                            assert(cs[t].id != cs[k as int].id);
                        }
                    }
                }
                self.registry[k].connected = false;
                proof {
                    assert(self@.channels =~~= cs.update(k as int, cs[k as int].dropped()));
                }
                return true;
            }
            k = k + 1;
        }
        false
    }

    /// Takes the first message the hub relayed to the connection registered
    /// under `id`, if any waits.
    pub fn take_outgoing(&mut self, id: u64) -> (m: Option<Vec<u8>>)
        requires
            old(self)@.wf(),
        ensures
            final(self)@.wf(),
            final(self)@.next_id == old(self)@.next_id,
            forall|k: int|
                0 <= k < old(self)@.channels.len() && (#[trigger] old(self)@.channels[k]).id == id
                    && old(self)@.channels[k].outbound.len() > 0
                    ==> (m matches Some(v) && v@ == old(self)@.channels[k].outbound[0]
                    && final(self)@.channels
                    == old(self)@.channels.update(k, old(self)@.channels[k].with_delivered())),
            (forall|k: int|
                0 <= k < old(self)@.channels.len()
                    ==> !((#[trigger] old(self)@.channels[k]).id == id
                    && old(self)@.channels[k].outbound.len() > 0))
                ==> (m is None && final(self)@.channels == old(self)@.channels),
    {
        let ghost cs = self@.channels;
        let n = self.registry.len();
        let mut k: usize = 0;
        while k < n
            invariant
                old(self)@.wf(),
                n == cs.len(),
                k <= n,
                self == old(self),
                cs == self@.channels,
                forall|t: int| 0 <= t < k ==> (#[trigger] cs[t]).id != id,
            decreases n - k,
        {
            if self.registry[k].id == id {
                proof {
                    assert forall|t: int| 0 <= t < cs.len() && (#[trigger] cs[t]).id == id
                        implies t == k as int by {
                        if t != k as int {
                            assert(cs[t].id != cs[k as int].id);
                        }
                    }
                }
                if self.registry[k].outbound.len() > 0 {
                    let v = self.registry[k].outbound.remove(0);
                    proof {
                        assert(queue_view(self.registry@[k as int].outbound@) =~= cs[
                            k as int
                        ].outbound.drop_first());
                        assert(self@.channels =~~= cs.update(k as int, cs[
                            k as int
                        ].with_delivered()));
                    }
                    return Some(v);
                }
                return None;
            }
            k = k + 1;
        }
        None
    }

    /// Removes every channel whose handler terminated: what survives is
    /// `live` of the registry, in order, with its queues untouched.
    #[verifier::loop_isolation(false)]
    fn prune(&mut self)
        requires
            old(self)@.wf(),
        ensures
            final(self)@.wf(),
            final(self)@.next_id == old(self)@.next_id,
            final(self)@.channels == live(old(self)@.channels),
            forall|i: int|
                0 <= i < final(self)@.channels.len()
                    ==> (#[trigger] final(self)@.channels[i]).connected,
    {
        let ghost cs0 = self@.channels;
        let mut pending: Vec<RelayChannel> = Vec::new();
        core::mem::swap(&mut pending, &mut self.registry);
        proof {
            assert(models(self.registry@) =~= Seq::<ChannelModel>::empty());
            assert(cs0.take(0) =~= Seq::<ChannelModel>::empty());
            assert(cs0.skip(0) =~= cs0);
            lemma_live_empty();
        }
        while pending.len() > 0
            invariant
                pending@.len() <= cs0.len(),
                models(pending@) == cs0.skip(cs0.len() - pending@.len()),
                models(self.registry@) == live(cs0.take(cs0.len() - pending@.len())),
                self.next_id == old(self).next_id,
            decreases pending@.len(),
        {
            let ghost t = cs0.len() - pending@.len();
            let ghost pend0 = pending@;
            let c = pending.remove(0);
            proof {
                assert(c@ == models(pend0)[0]);
                assert(models(pend0)[0] == cs0[t as int]);
                assert(models(pending@) =~= models(pend0).drop_first());
                assert(models(pend0).drop_first() =~= cs0.skip(t as int + 1));
            }
            if c.connected {
                self.registry.push(c);
                proof {
                    assert(models(self.registry@) =~= live(cs0.take(t as int)).push(cs0[t as int]));
                }
            }
            proof {
                assert(cs0.take(t as int + 1) =~= cs0.take(t as int).push(cs0[t as int]));
                lemma_live_push(cs0.take(t as int), cs0[t as int]);
            }
        }
        proof {
            assert(cs0.take(cs0.len() as int) =~= cs0);
            lemma_live_ids(cs0, old(self)@.next_id);
            lemma_live_len(cs0);
            assert forall|i: int| 0 <= i < live(cs0).len() implies (#[trigger] live(
                cs0,
            )[i]).connected by {
                let j = lemma_live_member_at(cs0, i);
            }
        }
    }

    /// One relay pass over an all-connected registry: drains at most one
    /// message per channel and appends each drained message to every other
    /// channel's outbound queue, origins taken in registration order.
    #[verifier::loop_isolation(false)]
    fn relay_round(&mut self)
        requires
            old(self)@.wf(),
            forall|i: int|
                0 <= i < old(self)@.channels.len() ==> (#[trigger] old(
                    self,
                )@.channels[i]).connected,
        ensures
            final(self)@.wf(),
            final(self)@.next_id == old(self)@.next_id,
            final(self)@.channels.len() == old(self)@.channels.len(),
            forall|i: int|
                0 <= i < old(self)@.channels.len() ==> final(self)@.channels[i] == after_relay(
                    old(self)@.channels,
                    i,
                ),
    {
        let ghost cs = self@.channels;
        let n = self.registry.len();
        proof {
            assert forall|i: int| 0 <= i < n implies (#[trigger] models(
                self.registry@,
            )[i]).outbound == cs[i].outbound + fanout(cs, 0, i) by {
                assert(cs[i].outbound + Seq::<Seq<u8>>::empty() =~= cs[i].outbound);
            }
        }
        let mut j: usize = 0;
        while j < n
            invariant
                j <= n,
                self.registry@.len() == n,
                self.next_id == old(self).next_id,
                forall|i: int|
                    0 <= i < n ==> (#[trigger] models(self.registry@)[i]).id == cs[i].id,
                forall|i: int|
                    0 <= i < n ==> (#[trigger] models(self.registry@)[i]).connected == cs[
                        i
                    ].connected,
                forall|i: int|
                    0 <= i < n ==> (#[trigger] models(self.registry@)[i]).inbound == (if i < j
                        && cs[i].inbound.len() > 0 {
                        cs[i].inbound.drop_first()
                    } else {
                        cs[i].inbound
                    }),
                forall|i: int|
                    0 <= i < n ==> (#[trigger] models(self.registry@)[i]).outbound == cs[
                        i
                    ].outbound + fanout(cs, j as int, i),
            decreases n - j,
        {
            let ghost before = models(self.registry@);
            if self.registry[j].inbound.len() > 0 {
                let m = self.registry[j].inbound.remove(0);
                proof {
                    assert(before[j as int].inbound == cs[j as int].inbound);
                    assert(m@ == cs[j as int].inbound[0]);
                    assert(models(self.registry@) =~~= before.update(
                        j as int,
                        ChannelModel {
                            id: before[j as int].id,
                            inbound: before[j as int].inbound.drop_first(),
                            outbound: before[j as int].outbound,
                            connected: before[j as int].connected,
                        },
                    ));
                }
                let ghost mid = models(self.registry@);
                let mut i: usize = 0;
                while i < n
                    invariant
                        i <= n,
                        self.registry@.len() == n,
                        self.next_id == old(self).next_id,
                        forall|t: int|
                            0 <= t < n ==> (#[trigger] models(self.registry@)[t]).id == mid[t].id,
                        forall|t: int|
                            0 <= t < n ==> (#[trigger] models(self.registry@)[t]).connected == mid[
                                t
                            ].connected,
                        forall|t: int|
                            0 <= t < n ==> (#[trigger] models(self.registry@)[t]).inbound == mid[
                                t
                            ].inbound,
                        forall|t: int|
                            0 <= t < n ==> (#[trigger] models(self.registry@)[t]).outbound == (if t
                                < i && t != j {
                                mid[t].outbound.push(m@)
                            } else {
                                mid[t].outbound
                            }),
                    decreases n - i,
                {
                    if i != j {
                        let ghost pre = models(self.registry@);
                        let mc = clone_message(&m);
                        self.registry[i].outbound.push(mc);
                        proof {
                            assert(models(self.registry@) =~~= pre.update(
                                i as int,
                                ChannelModel {
                                    id: pre[i as int].id,
                                    inbound: pre[i as int].inbound,
                                    outbound: pre[i as int].outbound.push(m@),
                                    connected: pre[i as int].connected,
                                },
                            ));
                        }
                    }
                    i = i + 1;
                }
                proof {
                    assert forall|t: int| 0 <= t < n implies (#[trigger] models(
                        self.registry@,
                    )[t]).outbound == cs[t].outbound + fanout(cs, j as int + 1, t) by {
                        if t == j as int {
                            assert(models(self.registry@)[t].outbound == mid[t].outbound);
                            assert(fanout(cs, j as int + 1, t) == fanout(cs, j as int, t));
                        } else {
                            assert(mid[t].outbound == cs[t].outbound + fanout(cs, j as int, t));
                            assert((cs[t].outbound + fanout(cs, j as int, t)).push(m@) =~= cs[
                                t
                            ].outbound + fanout(cs, j as int, t).push(m@));
                            assert(fanout(cs, j as int + 1, t) == fanout(cs, j as int, t).push(
                                cs[j as int].inbound[0],
                            ));
                        }
                    }
                    assert forall|t: int| 0 <= t < n implies (#[trigger] models(
                        self.registry@,
                    )[t]).inbound == (if t < j + 1 && cs[t].inbound.len() > 0 {
                        cs[t].inbound.drop_first()
                    } else {
                        cs[t].inbound
                    }) by {
                        assert(models(self.registry@)[t].inbound == mid[t].inbound);
                    }
                }
            } else {
                proof {
                    assert(models(self.registry@)[j as int] == self.registry@[j as int]@);
                    assert(models(self.registry@)[j as int].inbound == cs[j as int].inbound);
                    assert(cs[j as int].inbound.len() == 0);
                    assert forall|t: int| 0 <= t < n implies cs[t].outbound + fanout(
                        cs,
                        j as int + 1,
                        t,
                    ) == cs[t].outbound + fanout(cs, j as int, t) by {
                        assert(fanout(cs, j as int + 1, t) == fanout(cs, j as int, t));
                    }
                }
            }
            j = j + 1;
        }
        proof {
            assert forall|i: int| 0 <= i < n implies models(self.registry@)[i] == after_relay(
                cs,
                i,
            ) by {
                assert(models(self.registry@)[i].outbound == cs[i].outbound + fanout(
                    cs,
                    n as int,
                    i,
                ));
            }
        }
    }

    /// One hub poll tick: prunes the channels whose handlers terminated,
    /// then relays.  Each surviving channel has at most one of its decoded
    /// messages drained and re-broadcast to every other surviving channel,
    /// in registration order; nothing is delivered back to its origin or to
    /// a pruned channel.
    pub fn tick(&mut self)
        requires
            old(self)@.wf(),
        ensures
            final(self)@.wf(),
            final(self)@.next_id == old(self)@.next_id,
            final(self)@.channels.len() == live(old(self)@.channels).len(),
            forall|i: int|
                0 <= i < final(self)@.channels.len() ==> final(self)@.channels[i] == after_relay(
                    live(old(self)@.channels),
                    i,
                ),
    {
        self.prune();
        self.relay_round();
    }
}

/// A verified copy of a message's bytes.
fn clone_message(m: &Vec<u8>) -> (r: Vec<u8>)
    ensures
        r@ == m@,
{
    let mut r: Vec<u8> = Vec::new();
    proof {
        assert(m@.take(0) =~= Seq::<u8>::empty());
    }
    let mut k: usize = 0;
    while k < m.len()
        invariant
            k <= m@.len(),
            r@ == m@.take(k as int),
        decreases m@.len() - k,
    {
        let b = m[k];
        r.push(b);
        k = k + 1;
        proof {
            assert(m@.take(k - 1).push(b) =~= m@.take(k as int));
        }
    }
    proof {
        assert(m@.take(m@.len() as int) =~= m@);
    }
    r
}

/// Registry pruning: when exactly one channel's handler has terminated, one
/// pruning pass shrinks the registry by exactly one entry, and no surviving
/// entry carries the terminated connection's identifier — nothing further is
/// delivered to or attributed to that connection.
pub proof fn lemma_registry_pruning(cs: Seq<ChannelModel>, k: int)
    requires
        0 <= k < cs.len(),
        !cs[k].connected,
        forall|i: int| 0 <= i < cs.len() && i != k ==> (#[trigger] cs[i]).connected,
        forall|i: int, j: int| 0 <= i < j < cs.len() ==> cs[i].id != cs[j].id,
    ensures
        live(cs).len() == cs.len() - 1,
        forall|i: int| 0 <= i < live(cs).len() ==> (#[trigger] live(cs)[i]).id != cs[k].id,
    decreases cs.len(),
{
    let dl = cs.drop_last();
    assert(dl.push(cs.last()) =~= cs);
    lemma_live_push(dl, cs.last());
    lemma_live_len(cs);
    assert forall|i: int| 0 <= i < live(cs).len() implies (#[trigger] live(cs)[i]).id != cs[k].id by {
        let j = lemma_live_member_at(cs, i);
        assert(j != k);
        if j < k {
            assert(cs[j].id != cs[k].id);
        } else {
            assert(cs[k].id != cs[j].id);
        }
    }
    if k == cs.len() - 1 {
        lemma_live_all(dl);
    } else {
        lemma_registry_pruning(dl, k);
    }
}

proof fn lemma_fanout_single(cs: Seq<ChannelModel>, a: int, upto: int, i: int)
    requires
        0 <= a < cs.len(),
        0 <= upto <= cs.len(),
        cs[a].inbound.len() > 0,
        forall|j: int| 0 <= j < cs.len() && j != a ==> (#[trigger] cs[j]).inbound.len() == 0,
    ensures
        fanout(cs, upto, i) == (if a < upto && i != a {
            seq![cs[a].inbound[0]]
        } else {
            Seq::<Seq<u8>>::empty()
        }),
    decreases upto,
{
    if upto > 0 {
        lemma_fanout_single(cs, a, upto - 1, i);
        if upto - 1 == a && i != a {
            assert(Seq::<Seq<u8>>::empty().push(cs[a].inbound[0]) =~= seq![cs[a].inbound[0]]);
        }
    }
}

/// Fan-out completeness: when one channel has a pending message and the
/// others have none, one relay pass hands that message to every other
/// channel — and not back to its origin — leaving all other queues as they
/// were.
pub proof fn lemma_fanout_completeness(cs: Seq<ChannelModel>, a: int)
    requires
        0 <= a < cs.len(),
        cs[a].inbound.len() > 0,
        forall|j: int| 0 <= j < cs.len() && j != a ==> (#[trigger] cs[j]).inbound.len() == 0,
    ensures
        forall|i: int|
            0 <= i < cs.len() && i != a ==> (#[trigger] after_relay(cs, i)).outbound == cs[
                i
            ].outbound.push(cs[a].inbound[0]),
        after_relay(cs, a).outbound == cs[a].outbound,
        after_relay(cs, a).inbound == cs[a].inbound.drop_first(),
        forall|i: int|
            0 <= i < cs.len() && i != a ==> (#[trigger] after_relay(cs, i)).inbound == cs[
                i
            ].inbound,
{
    assert forall|i: int| 0 <= i < cs.len() && i != a implies (#[trigger] after_relay(
        cs,
        i,
    )).outbound == cs[i].outbound.push(cs[a].inbound[0]) by {
        lemma_fanout_single(cs, a, cs.len() as int, i);
        assert(cs[i].outbound + seq![cs[a].inbound[0]] =~= cs[i].outbound.push(
            cs[a].inbound[0],
        ));
    }
    lemma_fanout_single(cs, a, cs.len() as int, a);
    assert(cs[a].outbound + Seq::<Seq<u8>>::empty() =~= cs[a].outbound);
}

} // verus!
