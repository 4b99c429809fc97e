//! The replicated store: an authoritative `u64 -> u64` mapping together with
//! a registry of subscriber queues.  A subscriber receives a full snapshot
//! the moment it subscribes and afterwards every change, in emission order,
//! until its queue overflows (it is then dropped from the registry) or it
//! unsubscribes.

use vstd::prelude::*;
use std::collections::HashMap;

verus! {

/// Capacity of each subscriber's delivery queue.  The snapshot sent at
/// subscribe time always fits: the queue is freshly created and empty.
pub const CHANNEL_CAPACITY: usize = 16;

/// Mathematical description of one change notification.
pub enum Change {
    Added(u64, u64),
    Modified(u64, u64),
    Removed(u64),
    Restart(Map<u64, u64>),
}

/// A change notification as delivered to subscribers.
///
/// `Added(k, v)`: key `k` is newly present with value `v`.
/// `Modified(k, v)`: key `k` was present and its value changed to `v`.
/// `Removed(k)`: key `k` was deleted.
/// `Restart(m)`: the whole mapping was replaced by `m`; sent once at
/// subscribe time and once per whole-state replacement.
pub enum Event {
    Added(u64, u64),
    Modified(u64, u64),
    Removed(u64),
    Restart(HashMap<u64, u64>),
}

impl View for Event {
    type V = Change;

    open spec fn view(&self) -> Change {
        match self {
            Event::Added(k, v) => Change::Added(*k, *v),
            Event::Modified(k, v) => Change::Modified(*k, *v),
            Event::Removed(k) => Change::Removed(*k),
            Event::Restart(m) => Change::Restart(m@),
        }
    }
}

impl Event {
    /// An independent copy carrying the same change.
    pub fn duplicate(&self) -> (r: Event)
        ensures
            r@ == self@,
    {
        match self {
            Event::Added(k, v) => Event::Added(*k, *v),
            Event::Modified(k, v) => Event::Modified(*k, *v),
            Event::Removed(k) => Event::Removed(*k),
            Event::Restart(m) => Event::Restart(m.clone()),
        }
    }

    /// Applies this change to a subscriber's local mirror of the mapping:
    /// consuming events in emission order, starting from the snapshot,
    /// reconstructs the store's mapping.
    pub fn apply_to(&self, m: &mut HashMap<u64, u64>)
        ensures
            final(m)@ == step(old(m)@, self@),
    {
        match self {
            Event::Added(k, v) => {
                m.insert(*k, *v);
            },
            Event::Modified(k, v) => {
                m.insert(*k, *v);
            },
            Event::Removed(k) => {
                m.remove(k);
            },
            Event::Restart(s) => {
                *m = s.clone();
            },
        }
    }
}

/// The mapping that results from applying one change to a mapping a
/// subscriber has reconstructed so far.
pub open spec fn step(m: Map<u64, u64>, c: Change) -> Map<u64, u64> {
    match c {
        Change::Added(k, v) => m.insert(k, v),
        Change::Modified(k, v) => m.insert(k, v),
        Change::Removed(k) => m.remove(k),
        Change::Restart(s) => s,
    }
}

/// The mapping a subscriber reconstructs by applying a queue of pending
/// changes, in order, on top of what it has already seen.
pub open spec fn replay(base: Map<u64, u64>, q: Seq<Change>) -> Map<u64, u64>
    decreases q.len(),
{
    if q.len() == 0 {
        base
    } else {
        replay(step(base, q[0]), q.drop_first())
    }
}

/// One registered subscriber, as the contracts speak of it: its identifier,
/// the mapping it has reconstructed from the events it already consumed,
/// and the queue of changes still awaiting it.
pub struct SubView {
    pub id: u128,
    pub base: Map<u64, u64>,
    pub queue: Seq<Change>,
}

/// The whole store: the authoritative mapping and the registered
/// subscribers, in registration order.
pub struct StateView {
    pub state: Map<u64, u64>,
    pub subs: Seq<SubView>,
}

/// The registry after one broadcast of `c`: every subscriber with room in
/// its queue receives the change; every subscriber whose queue is full is
/// dropped from the registry.
pub open spec fn deliver(subs: Seq<SubView>, c: Change) -> Seq<SubView>
    decreases subs.len(),
{
    if subs.len() == 0 {
        Seq::empty()
    } else {
        let rest = deliver(subs.drop_first(), c);
        if subs[0].queue.len() < CHANNEL_CAPACITY {
            seq![
                (SubView { id: subs[0].id, base: subs[0].base, queue: subs[0].queue.push(c) }),
            ] + rest
        } else {
            rest
        }
    }
}

/// The registry after a mutation: unchanged when the mutation produced no
/// change, one broadcast otherwise.
pub open spec fn after(subs: Seq<SubView>, c: Option<Change>) -> Seq<SubView> {
    match c {
        Some(c) => deliver(subs, c),
        None => subs,
    }
}

/// The registry with every entry registered under `id` removed.
pub open spec fn without(subs: Seq<SubView>, id: u128) -> Seq<SubView>
    decreases subs.len(),
{
    if subs.len() == 0 {
        Seq::empty()
    } else if subs[0].id == id {
        without(subs.drop_first(), id)
    } else {
        seq![subs[0]] + without(subs.drop_first(), id)
    }
}

/// Whether some subscriber is registered under `id`.
pub open spec fn has_sub(subs: Seq<SubView>, id: u128) -> bool {
    exists|i: int| 0 <= i < subs.len() && subs[i].id == id
}

/// The position of the subscriber registered under `id`.
pub open spec fn index_of(subs: Seq<SubView>, id: u128) -> int {
    choose|i: int| 0 <= i < subs.len() && subs[i].id == id
}

/// The registry after the subscriber at position `i` consumed the change
/// at the head of its queue.
pub open spec fn consume_at(subs: Seq<SubView>, i: int) -> Seq<SubView> {
    subs.update(
        i,
        (SubView {
            id: subs[i].id,
            base: step(subs[i].base, subs[i].queue[0]),
            queue: subs[i].queue.drop_first(),
        }),
    )
}

/// The value currently stored under `key`, if any.
pub open spec fn current(state: Map<u64, u64>, key: u64) -> Option<u64> {
    if state.contains_key(key) {
        Some(state[key])
    } else {
        None
    }
}

/// The change a mutation emits, given the store's mapping, the key and
/// what the update function returned: an `Added` for a fresh key, a
/// `Modified` for a changed value, a `Removed` for a deleted entry, and
/// nothing when the returned value equals the stored one or an absent key
/// stays absent.
pub open spec fn decide(state: Map<u64, u64>, key: u64, r: Option<u64>) -> Option<Change> {
    match r {
        Some(v) => if !state.contains_key(key) {
            Some(Change::Added(key, v))
        } else if state[key] != v {
            Some(Change::Modified(key, v))
        } else {
            None
        },
        None => if state.contains_key(key) {
            Some(Change::Removed(key))
        } else {
            None
        },
    }
}

/// The mapping after a mutation of `key`, given what the update function
/// returned.
pub open spec fn apply_update(state: Map<u64, u64>, key: u64, r: Option<u64>) -> Map<u64, u64> {
    match r {
        Some(v) => state.insert(key, v),
        None => state.remove(key),
    }
}

/// No two subscribers share an identifier.
pub open spec fn sub_ids_distinct(subs: Seq<SubView>) -> bool {
    forall|i: int, j: int| 0 <= i < j < subs.len() ==> subs[i].id != subs[j].id
}

/// No queue exceeds its capacity.
pub open spec fn queues_bounded(subs: Seq<SubView>) -> bool {
    forall|i: int| 0 <= i < subs.len() ==> subs[i].queue.len() <= CHANNEL_CAPACITY
}

/// Every subscriber's pending queue, replayed on top of what it already
/// consumed, reconstructs exactly the mapping `s`.
pub open spec fn mirrors(subs: Seq<SubView>, s: Map<u64, u64>) -> bool {
    forall|i: int| 0 <= i < subs.len() ==> replay(subs[i].base, subs[i].queue) == s
}

/// The store's invariant.
pub open spec fn inv(v: StateView) -> bool {
    &&& sub_ids_distinct(v.subs)
    &&& queues_bounded(v.subs)
    &&& mirrors(v.subs, v.state)
}

proof fn lemma_replay_push(base: Map<u64, u64>, q: Seq<Change>, c: Change)
    ensures
        replay(base, q.push(c)) == step(replay(base, q), c),
    decreases q.len(),
{
    if q.len() == 0 {
        assert(q.push(c)[0] == c);
        assert(q.push(c).drop_first() =~= Seq::<Change>::empty());
        assert(replay(step(base, c), Seq::<Change>::empty()) == step(base, c));
        assert(replay(base, q.push(c)) == replay(step(base, c), q.push(c).drop_first()));
    } else {
        assert(q.push(c)[0] == q[0]);
        assert(q.push(c).drop_first() =~= q.drop_first().push(c));
        lemma_replay_push(step(base, q[0]), q.drop_first(), c);
        assert(replay(base, q.push(c)) == replay(step(base, q[0]), q.drop_first().push(c)));
    }
}

/// Broadcasting preserves the invariant: afterwards every remaining
/// subscriber still mirrors the (stepped) mapping, queues stay within
/// capacity, identifiers stay distinct, and no identifier appears that was
/// not registered before.
proof fn lemma_deliver_props(subs: Seq<SubView>, c: Change, s0: Map<u64, u64>)
    requires
        sub_ids_distinct(subs),
        queues_bounded(subs),
        mirrors(subs, s0),
    ensures
        sub_ids_distinct(deliver(subs, c)),
        queues_bounded(deliver(subs, c)),
        mirrors(deliver(subs, c), step(s0, c)),
        forall|id: u128| has_sub(deliver(subs, c), id) ==> has_sub(subs, id),
    decreases subs.len(),
{
    if subs.len() > 0 {
        let rest = subs.drop_first();
        assert(sub_ids_distinct(rest) && queues_bounded(rest) && mirrors(rest, s0)) by {
            assert(forall|i: int| 0 <= i < rest.len() ==> rest[i] == subs[i + 1]);
        }
        lemma_deliver_props(rest, c, s0);
        lemma_replay_push(subs[0].base, subs[0].queue, c);
        let d = deliver(subs, c);
        let dr = deliver(rest, c);
        if subs[0].queue.len() < CHANNEL_CAPACITY {
            assert(d.len() == 1 + dr.len());
            assert(forall|i: int| 0 < i < d.len() ==> d[i] == dr[i - 1]);
            assert(replay(d[0].base, d[0].queue) == step(s0, c));
        } else {
            assert(d == dr);
        }
        assert forall|id: u128| has_sub(d, id) implies has_sub(subs, id) by {
            let i = choose|i: int| 0 <= i < d.len() && d[i].id == id;
            if subs[0].queue.len() < CHANNEL_CAPACITY && i == 0 {
                assert(subs[0].id == id);
            } else {
                assert(has_sub(dr, id));
                assert(has_sub(rest, id));
                let j = choose|j: int| 0 <= j < rest.len() && rest[j].id == id;
                assert(subs[j + 1].id == id);
            }
        }
        assert forall|i: int, j: int| 0 <= i < j < d.len() implies d[i].id != d[j].id by {
            if subs[0].queue.len() < CHANNEL_CAPACITY && i == 0 {
                assert(dr[j - 1].id == d[j].id);
                assert(has_sub(dr, d[j].id));
                assert(has_sub(rest, d[j].id));
                let k = choose|k: int| 0 <= k < rest.len() && rest[k].id == d[j].id;
                assert(subs[k + 1].id == d[j].id);
            }
        }
        assert forall|i: int| 0 <= i < d.len() implies d[i].queue.len() <= CHANNEL_CAPACITY
            && replay(d[i].base, d[i].queue) == step(s0, c) by {
            if subs[0].queue.len() < CHANNEL_CAPACITY && i == 0 {
            } else {
                assert(d[i] == dr[if subs[0].queue.len() < CHANNEL_CAPACITY { i - 1 } else { i }]);
            }
        }
    }
}

/// One broadcast distributes over splitting the registry at the end.
proof fn lemma_deliver_snoc(subs: Seq<SubView>, x: SubView, c: Change)
    ensures
        deliver(subs.push(x), c) == deliver(subs, c) + deliver(seq![x], c),
    decreases subs.len(),
{
    if subs.len() == 0 {
        assert(subs.push(x) =~= seq![x]);
        assert(deliver(subs, c) + deliver(seq![x], c) =~= deliver(seq![x], c));
    } else {
        assert(subs.push(x).drop_first() =~= subs.drop_first().push(x));
        lemma_deliver_snoc(subs.drop_first(), x, c);
        assert(deliver(subs.push(x), c) =~= deliver(subs, c) + deliver(seq![x], c));
    }
}

/// A registry that contains no subscriber `id` is left whole by removing
/// `id`.
proof fn lemma_without_absent(subs: Seq<SubView>, id: u128)
    requires
        !has_sub(subs, id),
    ensures
        without(subs, id) == subs,
    decreases subs.len(),
{
    if subs.len() > 0 {
        assert(subs[0].id != id);
        assert(!has_sub(subs.drop_first(), id)) by {
            if has_sub(subs.drop_first(), id) {
                let j = choose|j: int| 0 <= j < subs.drop_first().len() && subs.drop_first()[j].id == id;
                assert(subs[j + 1].id == id);
            }
        }
        lemma_without_absent(subs.drop_first(), id);
        assert(without(subs, id) =~= subs);
    }
}

/// An update function that hands back exactly what the store already holds
/// — the stored value for a present key, nothing for an absent one —
/// produces no change, leaves the mapping as it was, and so leaves every
/// subscriber queue untouched.
pub proof fn lemma_noop_suppression(state: Map<u64, u64>, key: u64, subs: Seq<SubView>)
    ensures
        decide(state, key, current(state, key)) is None,
        apply_update(state, key, current(state, key)) == state,
        after(subs, decide(state, key, current(state, key))) == subs,
{
    if state.contains_key(key) {
        assert(state.insert(key, state[key]) =~= state);
    } else {
        assert(state.remove(key) =~= state);
    }
}

/// What one mutation does to the mapping and which single change it
/// emits: an absent key updated to `Some(v)` is added and announced with
/// `Added(key, v)`; a present key updated to an unequal `Some(v)` is
/// replaced and announced with `Modified(key, v)`; a present key updated
/// to `None` is deleted and announced with `Removed(key)`.
pub proof fn lemma_mutation_correctness(state: Map<u64, u64>, key: u64, v: u64)
    ensures
        !state.contains_key(key) ==> decide(state, key, Some(v)) == Some(Change::Added(key, v)),
        state.contains_key(key) && state[key] != v ==> decide(state, key, Some(v)) == Some(
            Change::Modified(key, v),
        ),
        state.contains_key(key) ==> decide(state, key, None) == Some(Change::Removed(key)),
        apply_update(state, key, Some(v)).contains_key(key),
        apply_update(state, key, Some(v))[key] == v,
        !apply_update(state, key, None).contains_key(key),
        forall|k: u64| k != key ==> apply_update(state, key, Some(v)).contains_key(k)
            == state.contains_key(k),
        forall|k: u64| k != key && state.contains_key(k) ==> apply_update(state, key, Some(v))[k]
            == state[k],
{
}

/// A broadcast to a registry in which no queue is full delivers the
/// change to every subscriber, in place, and removes nobody.
pub proof fn lemma_deliver_to_all(subs: Seq<SubView>, c: Change)
    requires
        forall|i: int| 0 <= i < subs.len() ==> subs[i].queue.len() < CHANNEL_CAPACITY,
    ensures
        deliver(subs, c).len() == subs.len(),
        forall|i: int| 0 <= i < subs.len() ==> deliver(subs, c)[i] == (SubView {
            id: subs[i].id,
            base: subs[i].base,
            queue: subs[i].queue.push(c),
        }),
    decreases subs.len(),
{
    if subs.len() > 0 {
        let rest = subs.drop_first();
        lemma_deliver_to_all(rest, c);
        let d = deliver(subs, c);
        assert(forall|i: int| 0 < i < d.len() ==> d[i] == deliver(rest, c)[i - 1]);
    }
}

/// Every subscriber that stayed within its queue's capacity can rebuild
/// the store's current mapping exactly: replaying its pending changes, in
/// order, on top of the mapping it has already reconstructed yields the
/// authoritative mapping.
pub proof fn lemma_subscriber_reconstruction(v: StateView, i: int)
    requires
        inv(v),
        0 <= i < v.subs.len(),
    ensures
        replay(v.subs[i].base, v.subs[i].queue) == v.state,
{
}

/// Removing a subscriber a second time changes nothing: the registry
/// holds no entry under the identifier any more, so the second removal
/// leaves it whole.
pub proof fn lemma_unsubscribe_idempotent(subs: Seq<SubView>, id: u128)
    ensures
        without(without(subs, id), id) == without(subs, id),
{
    lemma_without_removes(subs, id);
    lemma_without_absent(without(subs, id), id);
}

/// After removing `id`, no subscriber `id` remains.
proof fn lemma_without_removes(subs: Seq<SubView>, id: u128)
    ensures
        !has_sub(without(subs, id), id),
    decreases subs.len(),
{
    if subs.len() > 0 {
        lemma_without_removes(subs.drop_first(), id);
        let w = without(subs, id);
        let wr = without(subs.drop_first(), id);
        if subs[0].id != id {
            assert forall|i: int| 0 <= i < w.len() implies w[i].id != id by {
                if i > 0 {
                    assert(w[i] == wr[i - 1]);
                }
            }
        }
    }
}

/// A subscriber's bounded delivery queue, first in first out.
struct Channel {
    buf: Vec<Event>,
}

impl View for Channel {
    type V = Seq<Change>;

    closed spec fn view(&self) -> Seq<Change> {
        self.buf@.map(|i: int, e: Event| e@)
    }
}

impl Channel {
    fn new() -> (c: Channel)
        ensures
            c@ == Seq::<Change>::empty(),
    {
        let c = Channel { buf: Vec::new() };
        proof {
            assert(c@ =~= Seq::<Change>::empty());
        }
        c
    }

    /// Enqueues the event unless the queue is full; reports whether the
    /// delivery was accepted.
    fn try_send(&mut self, e: Event) -> (ok: bool)
        ensures
            ok == (old(self)@.len() < CHANNEL_CAPACITY),
            ok ==> final(self)@ == old(self)@.push(e@),
            !ok ==> final(self)@ == old(self)@,
    {
        if self.buf.len() < CHANNEL_CAPACITY {
            self.buf.push(e);
            proof {
                assert(self@ =~= old(self)@.push(e@));
            }
            true
        } else {
            false
        }
    }

    /// Dequeues the oldest pending event, if there is one.
    fn pop_front(&mut self) -> (r: Option<Event>)
        ensures
            old(self)@.len() == 0 ==> r is None && final(self)@ == old(self)@,
            old(self)@.len() > 0 ==> r is Some && r->Some_0@ == old(self)@[0] && final(self)@
                == old(self)@.drop_first(),
    {
        if self.buf.len() == 0 {
            None
        } else {
            let e = self.buf.remove(0);
            proof {
                assert(self@ =~= old(self)@.drop_first());
            }
            Some(e)
        }
    }
}

/// One registered subscriber: its identifier, its queue, and (as ghost
/// bookkeeping) the mapping it has reconstructed from the events it
/// already consumed.
struct Listener {
    id: u128,
    chan: Channel,
    base: Ghost<Map<u64, u64>>,
}

impl Listener {
    spec fn sub_view(&self) -> SubView {
        SubView { id: self.id, base: self.base@, queue: self.chan@ }
    }
}

spec fn lview(ls: Seq<Listener>) -> Seq<SubView> {
    ls.map(|i: int, l: Listener| l.sub_view())
}

/// The handle returned by `subscribe`: it names the registration it
/// stands for.  Events are read through `State::recv` and the
/// registration is released through `State::unsubscribe`, which is
/// idempotent, so releasing an already removed handle is harmless.
pub struct Subscription {
    id: u128,
}

impl View for Subscription {
    type V = u128;

    closed spec fn view(&self) -> u128 {
        self.id
    }
}

impl Subscription {
    /// Bundles the identifier under which a subscriber was registered.
    pub fn new(id: u128) -> (s: Subscription)
        ensures
            s@ == id,
    {
        Subscription { id }
    }

    /// The identifier under which this subscriber is registered.
    pub fn id(&self) -> (r: u128)
        ensures
            r == self@,
    {
        self.id
    }
}

/// The authoritative mapping and the live subscriber registry, mutated
/// only as one unit.
struct Inner {
    state: HashMap<u64, u64>,
    listeners: Vec<Listener>,
}

/// The store facade: the authoritative `u64 -> u64` mapping together
/// with the registry of subscribers and the broadcast algorithm.
pub struct State {
    inner: Inner,
}

impl View for State {
    type V = StateView;

    closed spec fn view(&self) -> StateView {
        StateView { state: self.inner.state@, subs: lview(self.inner.listeners@) }
    }
}

/// Relies on `uuid::Uuid::new_v4` for a freshly generated random
/// identifier (returned through `Uuid::as_u128`).  Nothing is assumed of
/// the value; the caller retries while it collides with a registered one.
#[verifier::external_body]
fn fresh_id() -> u128 {
    uuid::Uuid::new_v4().as_u128()
}

/// The set of identifiers below `k`.
spec fn small_ids(k: nat) -> Set<u128> {
    Set::new(|id: u128| (id as nat) < k)
}

proof fn lemma_small_ids_card(k: nat)
    requires
        k <= u128::MAX as nat,
    ensures
        small_ids(k).finite(),
        small_ids(k).len() == k,
    decreases k,
{
    if k == 0 {
        assert(small_ids(0) =~= Set::<u128>::empty());
    } else {
        lemma_small_ids_card((k - 1) as nat);
        assert(small_ids(k) =~= small_ids((k - 1) as nat).insert(((k - 1) as u128)));
    }
}

/// In a registry of `n` subscribers with distinct identifiers, one of the
/// `n + 1` identifiers `0 ..= n` is free.
proof fn lemma_free_small_id(subs: Seq<SubView>)
    requires
        sub_ids_distinct(subs),
        subs.len() < u128::MAX as nat,
    ensures
        exists|c: u128| (c as nat) <= subs.len() && !has_sub(subs, c),
{
    let n = subs.len() as nat;
    if forall|c: u128| (c as nat) <= n ==> #[trigger] has_sub(subs, c) {
        let idseq = subs.map_values(|s: SubView| s.id);
        assert(idseq.no_duplicates()) by {
            assert(forall|i: int| 0 <= i < subs.len() ==> idseq[i] == subs[i].id);
        }
        idseq.unique_seq_to_set();
        let idset = idseq.to_set();
        lemma_small_ids_card(n + 1);
        assert(small_ids(n + 1).subset_of(idset)) by {
            assert forall|c: u128| small_ids(n + 1).contains(c) implies idset.contains(c) by {
                assert(has_sub(subs, c));
                let i = choose|i: int| 0 <= i < subs.len() && subs[i].id == c;
                assert(idseq[i] == c);
            }
        }
        vstd::set_lib::lemma_len_subset(small_ids(n + 1), idset);
        assert(false);
    }
}

/// When the one subscriber `id` sits at position `i`, removing `id` is
/// removing that position.
proof fn lemma_without_found(subs: Seq<SubView>, i: int, id: u128)
    requires
        sub_ids_distinct(subs),
        0 <= i < subs.len(),
        subs[i].id == id,
    ensures
        without(subs, id) == subs.remove(i),
    decreases i,
{
    if i == 0 {
        assert(!has_sub(subs.drop_first(), id)) by {
            if has_sub(subs.drop_first(), id) {
                let j = choose|j: int| 0 <= j < subs.drop_first().len() && subs.drop_first()[j].id
                    == id;
                assert(subs[j + 1].id == id);
            }
        }
        lemma_without_absent(subs.drop_first(), id);
        assert(without(subs, id) =~= subs.remove(0));
    } else {
        let rest = subs.drop_first();
        assert(sub_ids_distinct(rest)) by {
            assert(forall|k: int| 0 <= k < rest.len() ==> rest[k] == subs[k + 1]);
        }
        lemma_without_found(rest, i - 1, id);
        assert(subs[0].id != id);
        assert(without(subs, id) =~= subs.remove(i)) by {
            assert(forall|k: int| 0 <= k < rest.remove(i - 1).len() ==> #[trigger] rest.remove(
                i - 1,
            )[k] == subs.remove(i)[k + 1]);
        }
    }
}

/// Removing one position preserves the invariant's three conditions.
proof fn lemma_remove_keeps_inv(subs: Seq<SubView>, i: int, s: Map<u64, u64>)
    requires
        sub_ids_distinct(subs),
        queues_bounded(subs),
        mirrors(subs, s),
        0 <= i < subs.len(),
    ensures
        sub_ids_distinct(subs.remove(i)),
        queues_bounded(subs.remove(i)),
        mirrors(subs.remove(i), s),
{
    let r = subs.remove(i);
    assert(forall|k: int| 0 <= k < i ==> r[k] == subs[k]);
    assert(forall|k: int| i <= k < r.len() ==> r[k] == subs[k + 1]);
}

proof fn lemma_deliver_one(x: SubView, c: Change)
    ensures
        x.queue.len() < CHANNEL_CAPACITY ==> deliver(seq![x], c) == seq![
            (SubView { id: x.id, base: x.base, queue: x.queue.push(c) }),
        ],
        x.queue.len() >= CHANNEL_CAPACITY ==> deliver(seq![x], c) == Seq::<SubView>::empty(),
{
    let s = seq![x];
    assert(s.drop_first() =~= Seq::<SubView>::empty());
    assert(deliver(Seq::<SubView>::empty(), c) == Seq::<SubView>::empty());
    if x.queue.len() < CHANNEL_CAPACITY {
        assert(deliver(s, c) =~= seq![
            (SubView { id: x.id, base: x.base, queue: x.queue.push(c) }),
        ]);
    }
}

impl Inner {
    /// Delivers a copy of the event to every registered subscriber queue;
    /// a subscriber whose queue is full misses the event and is dropped
    /// from the registry.
    fn broadcast(&mut self, evt: Event)
        ensures
            final(self).state == old(self).state,
            lview(final(self).listeners@) == deliver(lview(old(self).listeners@), evt@),
    {
        let ghost lv0 = lview(self.listeners@);
        let mut rest: Vec<Listener> = self.listeners.split_off(0);
        proof {
            assert(self.listeners@ =~= Seq::<Listener>::empty());
            assert(lview(self.listeners@) =~= Seq::<SubView>::empty());
            assert(lview(rest@) =~= lv0);
            assert(lv0.skip(0) =~= lv0);
            assert(lv0.take(0) =~= Seq::<SubView>::empty());
            assert(deliver(lv0.take(0), evt@) =~= Seq::<SubView>::empty());
        }
        while rest.len() > 0
            invariant
                rest@.len() <= lv0.len(),
                lview(rest@) == lv0.skip(lv0.len() - rest@.len()),
                lview(self.listeners@) == deliver(lv0.take(lv0.len() - rest@.len()), evt@),
                self.state == old(self).state,
            decreases rest@.len(),
        {
            let ghost j = lv0.len() - rest@.len();
            let ghost prev = rest@;
            let mut l = rest.remove(0);
            proof {
                assert(lview(prev)[0] == l.sub_view());
                assert(lv0.skip(j)[0] == lv0[j]);
                assert(l.sub_view() == lv0[j]);
                assert(lview(rest@) =~= lv0.skip(j + 1)) by {
                    assert(forall|k: int| 0 <= k < rest@.len() ==> rest@[k] == prev[k + 1]);
                    assert(forall|k: int| 0 <= k < rest@.len() ==> lview(rest@)[k] == lview(
                        prev,
                    )[k + 1]);
                    assert(forall|k: int| 0 <= k < rest@.len() ==> #[trigger] lview(prev)[k + 1]
                        == lv0.skip(j)[k + 1]);
                }
                assert(lv0.take(j + 1) =~= lv0.take(j).push(lv0[j]));
                lemma_deliver_snoc(lv0.take(j), lv0[j], evt@);
                lemma_deliver_one(lv0[j], evt@);
            }
            let ghost kept0 = self.listeners@;
            let ok = l.chan.try_send(evt.duplicate());
            if ok {
                proof {
                    assert(l.sub_view() == (SubView {
                        id: lv0[j].id,
                        base: lv0[j].base,
                        queue: lv0[j].queue.push(evt@),
                    }));
                }
                self.listeners.push(l);
                proof {
                    assert(lview(self.listeners@) =~= lview(kept0).push(l.sub_view())) by {
                        assert(forall|k: int| 0 <= k < kept0.len() ==> self.listeners@[k]
                            == kept0[k]);
                    }
                    assert(lview(self.listeners@) =~= deliver(lv0.take(j + 1), evt@));
                }
            } else {
                proof {
                    assert(deliver(seq![lv0[j]], evt@) =~= Seq::<SubView>::empty());
                    assert(deliver(lv0.take(j + 1), evt@) =~= deliver(lv0.take(j), evt@));
                }
            }
        }
        proof {
            assert(lv0.take(lv0.len() as int) =~= lv0);
        }
    }
}

impl Default for State {
    /// An empty store: nothing mapped, nobody subscribed.
    fn default() -> (s: State)
        ensures
            s.wf(),
            s@.state == Map::<u64, u64>::empty(),
            s@.subs == Seq::<SubView>::empty(),
    {
        let s = State { inner: Inner { state: HashMap::new(), listeners: Vec::new() } };
        proof {
            assert(s@.subs =~= Seq::<SubView>::empty());
        }
        s
    }
}

impl State {
    /// The store's invariant; every operation requires and preserves it.
    pub open spec fn wf(&self) -> bool {
        inv(self@)
    }

    /// A copy of the authoritative mapping.
    pub fn get_state(&self) -> (m: HashMap<u64, u64>)
        ensures
            m@ == self@.state,
    {
        self.inner.state.clone()
    }

    /// Registers a new subscriber under a fresh identifier and returns its
    /// handle.  Its queue starts with exactly one event: a `Restart`
    /// carrying a snapshot of the current mapping, which always fits
    /// because the queue is freshly created.
    pub fn subscribe(&mut self) -> (s: Subscription)
        requires
            old(self).wf(),
        ensures
            final(self).wf(),
            final(self)@.state == old(self)@.state,
            !has_sub(old(self)@.subs, s@),
            final(self)@.subs == old(self)@.subs.push(
                (SubView {
                    id: s@,
                    base: Map::<u64, u64>::empty(),
                    queue: seq![Change::Restart(old(self)@.state)],
                }),
            ),
    {
        let mut chan = Channel::new();
        let snapshot = self.inner.state.clone();
        let ok = chan.try_send(Event::Restart(snapshot));
        proof {
            assert(ok);
            assert(chan@ =~= seq![Change::Restart(old(self)@.state)]);
        }
        let mut id = fresh_id();
        if self.contains_listener(id) {
            // The random identifier collided with a registered one, which
            // is vanishingly unlikely.  Fall back to the smallest free
            // identifier: the registry is finite, so one of the
            // identifiers `0 ..= n` is free.
            let n = self.inner.listeners.len();
            id = 0;
            loop
                invariant
                    old(self).wf(),
                    self == old(self),
                    chan@ == seq![Change::Restart(old(self)@.state)],
                    n == self.inner.listeners.len(),
                    id as nat <= n as nat,
                    forall|c: u128| c < id ==> has_sub(self@.subs, c),
                ensures
                    self == old(self),
                    chan@ == seq![Change::Restart(old(self)@.state)],
                    !has_sub(self@.subs, id),
                decreases n as int - id as int,
            {
                if !self.contains_listener(id) {
                    break;
                }
                proof {
                    assert(self@.subs.len() == n as nat);
                    lemma_free_small_id(self@.subs);
                    let c = choose|c: u128| (c as nat) <= self@.subs.len() && !has_sub(
                        self@.subs,
                        c,
                    );
                    if id == n as u128 {
                        assert(has_sub(self@.subs, c));
                        assert(false);
                    }
                }
                id = id + 1;
            }
        }
        let ghost l0 = self.inner.listeners@;
        self.inner.listeners.push(Listener { id, chan, base: Ghost(Map::empty()) });
        proof {
            let new_sub = SubView {
                id: id,
                base: Map::<u64, u64>::empty(),
                queue: seq![Change::Restart(old(self)@.state)],
            };
            assert(self.inner.listeners@[l0.len() as int].sub_view() == new_sub);
            assert(lview(self.inner.listeners@) =~= lview(l0).push(new_sub)) by {
                assert(forall|k: int| 0 <= k < l0.len() ==> self.inner.listeners@[k] == l0[k]);
            }
            let subs = self@.subs;
            let os = old(self)@.subs;
            assert(subs == os.push(new_sub));
            assert(sub_ids_distinct(subs)) by {
                assert(forall|i: int| 0 <= i < os.len() ==> subs[i] == os[i]);
            }
            assert(queues_bounded(subs)) by {
                assert(forall|i: int| 0 <= i < os.len() ==> subs[i] == os[i]);
            }
            assert(mirrors(subs, self@.state)) by {
                assert(forall|i: int| 0 <= i < os.len() ==> subs[i] == os[i]);
                let q = new_sub.queue;
                assert(q.drop_first() =~= Seq::<Change>::empty());
                assert(step(new_sub.base, q[0]) == old(self)@.state);
                assert(replay(old(self)@.state, q.drop_first()) == old(self)@.state);
                assert(replay(new_sub.base, q) == old(self)@.state);
            }
        }
        Subscription::new(id)
    }

    /// Replaces the mapping wholesale and broadcasts a `Restart` carrying
    /// the new mapping to every subscriber.
    pub fn set_state(&mut self, state: HashMap<u64, u64>)
        requires
            old(self).wf(),
        ensures
            final(self).wf(),
            final(self)@.state == state@,
            final(self)@.subs == deliver(old(self)@.subs, Change::Restart(state@)),
    {
        let evt = Event::Restart(state.clone());
        self.inner.state = state;
        proof {
            lemma_deliver_props(old(self)@.subs, Change::Restart(state@), old(self)@.state);
        }
        self.inner.broadcast(evt);
    }

    /// Deregisters the subscriber registered under `id`.  Idempotent:
    /// removing an identifier that is no longer registered — because it
    /// was already released, or because the store dropped it after a
    /// failed delivery — changes nothing.
    pub fn unsubscribe(&mut self, id: u128)
        requires
            old(self).wf(),
        ensures
            final(self).wf(),
            final(self)@.state == old(self)@.state,
            final(self)@.subs == without(old(self)@.subs, id),
    {
        let mut i: usize = 0;
        while i < self.inner.listeners.len()
            invariant
                old(self).wf(),
                self == old(self),
                i <= self.inner.listeners.len(),
                forall|j: int| 0 <= j < i ==> self@.subs[j].id != id,
            decreases self.inner.listeners.len() - i,
        {
            if self.inner.listeners[i].id == id {
                proof {
                    assert(self@.subs[i as int].id == id);
                }
                let ghost l0 = self.inner.listeners@;
                self.inner.listeners.remove(i);
                proof {
                    assert(forall|k: int| 0 <= k < i ==> self.inner.listeners@[k] == l0[k]);
                    assert(forall|k: int| i <= k < self.inner.listeners@.len()
                        ==> self.inner.listeners@[k] == l0[k + 1]);
                    assert(lview(self.inner.listeners@) =~= lview(l0).remove(i as int));
                    lemma_without_found(old(self)@.subs, i as int, id);
                    lemma_remove_keeps_inv(old(self)@.subs, i as int, old(self)@.state);
                }
                return;
            }
            i += 1;
        }
        proof {
            lemma_without_absent(old(self)@.subs, id);
        }
    }

    /// Hands the subscriber registered under `id` its oldest undelivered
    /// event: the snapshot first, then every later change in emission
    /// order.  Yields nothing when the queue is empty or the identifier is
    /// not registered.
    pub fn recv(&mut self, id: u128) -> (r: Option<Event>)
        requires
            old(self).wf(),
        ensures
            final(self).wf(),
            final(self)@.state == old(self)@.state,
            !has_sub(old(self)@.subs, id) ==> r is None && final(self)@ == old(self)@,
            has_sub(old(self)@.subs, id) && old(self)@.subs[index_of(old(self)@.subs, id)].queue.len()
                == 0 ==> r is None && final(self)@ == old(self)@,
            has_sub(old(self)@.subs, id) && old(self)@.subs[index_of(old(self)@.subs, id)].queue.len()
                > 0 ==> r is Some && r->Some_0@ == old(self)@.subs[index_of(
                old(self)@.subs,
                id,
            )].queue[0] && final(self)@.subs == consume_at(old(self)@.subs, index_of(
                old(self)@.subs,
                id,
            )),
    {
        let mut i: usize = 0;
        while i < self.inner.listeners.len()
            invariant
                old(self).wf(),
                self == old(self),
                i <= self.inner.listeners.len(),
                forall|j: int| 0 <= j < i ==> self@.subs[j].id != id,
            decreases self.inner.listeners.len() - i,
        {
            if self.inner.listeners[i].id == id {
                proof {
                    assert(self@.subs[i as int].id == id);
                    assert(has_sub(old(self)@.subs, id));
                    let j = index_of(old(self)@.subs, id);
                    assert(0 <= j < old(self)@.subs.len() && old(self)@.subs[j].id == id);
                    assert(j == i as int);
                }
                let ghost l0 = self.inner.listeners@;
                let mut l = self.inner.listeners.remove(i);
                let ghost q0 = l.chan@;
                let ghost b0 = l.base@;
                let r = l.chan.pop_front();
                match r {
                    None => {
                        self.inner.listeners.insert(i, l);
                        proof {
                            assert(forall|k: int| 0 <= k < self.inner.listeners@.len() && k != i
                                ==> self.inner.listeners@[k] == l0[k]);
                            assert(l.sub_view() == l0[i as int].sub_view());
                            assert(lview(self.inner.listeners@) =~= lview(l0));
                            assert(self@.subs == old(self)@.subs);
                            assert(self@ == old(self)@);
                        }
                        return None;
                    },
                    Some(e) => {
                        proof {
                            assert(q0.len() > 0);
                            assert(replay(b0, q0) == replay(step(b0, q0[0]), q0.drop_first()));
                        }
                        l.base = Ghost(step(l.base@, e@));
                        self.inner.listeners.insert(i, l);
                        proof {
                            assert(self.inner.listeners@ =~= l0.update(i as int, l));
                            let os = old(self)@.subs;
                            let ns = self@.subs;
                            assert(forall|k: int| 0 <= k < ns.len() && k != i ==> self.inner.listeners@[k] == l0[k]);
                            assert(ns =~= consume_at(os, i as int));
                            assert(sub_ids_distinct(ns)) by {
                                assert(forall|k: int| 0 <= k < ns.len() ==> ns[k].id == os[k].id);
                            }
                            assert(queues_bounded(ns)) by {
                                assert(forall|k: int| 0 <= k < ns.len() && k != i ==> ns[k] == os[k]);
                            }
                            assert(mirrors(ns, self@.state)) by {
                                assert(forall|k: int| 0 <= k < ns.len() && k != i ==> ns[k] == os[k]);
                                assert(replay(ns[i as int].base, ns[i as int].queue) == replay(
                                    os[i as int].base,
                                    os[i as int].queue,
                                ));
                            }
                        }
                        return Some(e);
                    },
                }
            }
            i += 1;
        }
        proof {
            if has_sub(old(self)@.subs, id) {
                let j = index_of(old(self)@.subs, id);
                assert(0 <= j < old(self)@.subs.len() && old(self)@.subs[j].id == id);
                assert(false);
            }
        }
        None
    }

    /// Mutates one key through a pure update function: the function is
    /// handed the value currently stored under `key` (or nothing) and
    /// returns the value to store (or nothing, to delete).  An actual
    /// change is broadcast as `Added`, `Modified` or `Removed`; handing
    /// back the stored value, or nothing for an absent key, changes
    /// nothing and notifies nobody.
    pub fn mutate_state<F: FnOnce(Option<u64>) -> Option<u64>>(&mut self, key: u64, f: F)
        requires
            old(self).wf(),
            call_requires(f, (current(old(self)@.state, key),)),
        ensures
            final(self).wf(),
            exists|r: Option<u64>|
                {
                    &&& #[trigger] call_ensures(f, (current(old(self)@.state, key),), r)
                    &&& final(self)@.state == apply_update(old(self)@.state, key, r)
                    &&& final(self)@.subs == after(
                        old(self)@.subs,
                        decide(old(self)@.state, key, r),
                    )
                },
    {
        let cur: Option<u64> = match self.inner.state.get(&key) {
            Some(v) => Some(*v),
            None => None,
        };
        proof {
            assert(cur == current(old(self)@.state, key));
        }
        let res = f(cur);
        let evt: Option<Event> = match res {
            Some(v) => match cur {
                Some(o) => if o == v {
                    proof {
                        assert(old(self)@.state.insert(key, v) =~= old(self)@.state);
                    }
                    None
                } else {
                    self.inner.state.insert(key, v);
                    Some(Event::Modified(key, v))
                },
                None => {
                    self.inner.state.insert(key, v);
                    Some(Event::Added(key, v))
                },
            },
            None => match cur {
                Some(_) => {
                    self.inner.state.remove(&key);
                    Some(Event::Removed(key))
                },
                None => {
                    proof {
                        assert(old(self)@.state.remove(key) =~= old(self)@.state);
                    }
                    None
                },
            },
        };
        proof {
            assert(self@.state == apply_update(old(self)@.state, key, res));
            match &evt {
                Some(e) => {
                    assert(decide(old(self)@.state, key, res) == Some(e@));
                    assert(step(old(self)@.state, e@) == self@.state);
                },
                None => {
                    assert(decide(old(self)@.state, key, res) is None);
                },
            }
        }
        match evt {
            Some(e) => {
                proof {
                    lemma_deliver_props(old(self)@.subs, e@, old(self)@.state);
                }
                self.inner.broadcast(e);
            },
            None => {},
        }
    }

    /// Whether a subscriber is still registered under `id`: `false` once
    /// it unsubscribed or was dropped after a failed delivery.
    pub fn is_subscribed(&self, id: u128) -> (b: bool)
        ensures
            b == has_sub(self@.subs, id),
    {
        self.contains_listener(id)
    }

    fn contains_listener(&self, id: u128) -> (b: bool)
        ensures
            b == has_sub(self@.subs, id),
    {
        let mut i: usize = 0;
        while i < self.inner.listeners.len()
            invariant
                i <= self.inner.listeners.len(),
                forall|j: int| 0 <= j < i ==> self@.subs[j].id != id,
            decreases self.inner.listeners.len() - i,
        {
            if self.inner.listeners[i].id == id {
                proof {
                    assert(self@.subs[i as int].id == id);
                }
                return true;
            }
            i += 1;
        }
        false
    }
}

} // verus!
