//! The connection registry: the one piece of state shared by every
//! connection's tasks.
//!
//! A registry maps connection identifiers to outbound queues. Broadcasting
//! appends a payload to every registered queue; each connection's writer
//! task drains its own queue from the front, so per-recipient delivery
//! order equals enqueue order. Identifiers come from a process-wide
//! monotonic counter and are never reused while the process runs.

use vstd::prelude::*;
use crate::UID_LIMIT;

verus! {

/// One live connection: its identifier paired with its outbound queue of
/// text payloads, oldest first. The queue models the unbounded send
/// channel whose receiving end the connection's writer task drains.
struct Entry {
    id: u64,
    queue: Vec<Vec<u8>>,
}

/// The registry of live connections, together with the counter that hands
/// out fresh identifiers. The surrounding server shares one registry among
/// all connection tasks behind a lock; every operation here is a complete
/// critical section.
pub struct Registry {
    entries: Vec<Entry>,
    next_id: u64,
}

impl View for Registry {
    type V = Seq<(u64, Seq<Seq<u8>>)>;

    closed spec fn view(&self) -> Seq<(u64, Seq<Seq<u8>>)> {
        self.entries@.map_values(|e: Entry| (e.id, e.queue@.map_values(|m: Vec<u8>| m@)))
    }
}

/// Does some entry of `v` carry the identifier `id`?
pub open spec fn has_id(v: Seq<(u64, Seq<Seq<u8>>)>, id: u64) -> bool {
    exists|i: int| 0 <= i < v.len() && #[trigger] v[i].0 == id
}

/// The registry after one broadcast of `msg`: every queue, and only the
/// queues, grow by `msg` at the back.
pub open spec fn broadcast_spec(
    v: Seq<(u64, Seq<Seq<u8>>)>,
    msg: Seq<u8>,
) -> Seq<(u64, Seq<Seq<u8>>)> {
    v.map_values(|p: (u64, Seq<Seq<u8>>)| (p.0, p.1.push(msg)))
}

/// The registry after removing `id`: entries for other identifiers stay,
/// in their original order.
pub open spec fn remove_entry(
    v: Seq<(u64, Seq<Seq<u8>>)>,
    id: u64,
) -> Seq<(u64, Seq<Seq<u8>>)>
    decreases v.len(),
{
    if v.len() == 0 {
        Seq::empty()
    } else if v.first().0 == id {
        remove_entry(v.drop_first(), id)
    } else {
        seq![v.first()] + remove_entry(v.drop_first(), id)
    }
}

/// `remove_entry` leaves a sequence without the identifier untouched.
proof fn lemma_remove_entry_absent(v: Seq<(u64, Seq<Seq<u8>>)>, id: u64)
    requires
        forall|k: int| 0 <= k < v.len() ==> #[trigger] v[k].0 != id,
    ensures
        remove_entry(v, id) == v,
    decreases v.len(),
{
    if v.len() > 0 {
        lemma_remove_entry_absent(v.drop_first(), id);
        assert(seq![v.first()] + v.drop_first() =~= v);
    } else {
        assert(remove_entry(v, id) =~= v);
    }
}

/// When `id` occurs exactly once, at index `i`, `remove_entry` deletes
/// precisely that index.
proof fn lemma_remove_entry_at(v: Seq<(u64, Seq<Seq<u8>>)>, id: u64, i: int)
    requires
        0 <= i < v.len(),
        v[i].0 == id,
        forall|k: int| 0 <= k < v.len() && k != i ==> #[trigger] v[k].0 != id,
    ensures
        remove_entry(v, id) == v.subrange(0, i) + v.subrange(i + 1, v.len() as int),
    decreases v.len(),
{
    if i == 0 {
        lemma_remove_entry_absent(v.drop_first(), id);
        assert(v.drop_first() =~= v.subrange(0, 0) + v.subrange(1, v.len() as int));
    } else {
        lemma_remove_entry_at(v.drop_first(), id, i - 1);
        assert(v.drop_first().subrange(0, i - 1) =~= v.subrange(1, i));
        assert(v.drop_first().subrange(i, v.len() - 1) =~= v.subrange(i + 1, v.len() as int));
        assert(seq![v.first()] + (v.subrange(1, i) + v.subrange(i + 1, v.len() as int)) =~= v
            .subrange(0, i) + v.subrange(i + 1, v.len() as int));
    }
}

impl Registry {
    /// The identifier the next connection will receive.
    pub closed spec fn next_id(&self) -> u64 {
        self.next_id
    }

    /// Well-formedness: identifiers are distinct, at least 1, and below
    /// the counter, and the counter never leaves the identifier space.
    pub open spec fn wf(&self) -> bool {
        &&& 1 <= self.next_id() <= UID_LIMIT
        &&& forall|i: int, j: int|
            0 <= i < j < self@.len() ==> #[trigger] self@[i].0 != #[trigger] self@[j].0
        &&& forall|i: int| 0 <= i < self@.len() ==> 1 <= #[trigger] self@[i].0 < self.next_id()
    }

    /// Is `id` currently registered?
    pub open spec fn registered(&self, id: u64) -> bool {
        has_id(self@, id)
    }

    /// An empty registry; the identifier counter starts at 1.
    pub fn new() -> (r: Registry)
        ensures
            r.wf(),
            r@ == Seq::<(u64, Seq<Seq<u8>>)>::empty(),
            r.next_id() == 1,
    {
        let r = Registry { entries: Vec::new(), next_id: 1 };
        proof {
            assert(r@ =~~= Seq::<(u64, Seq<Seq<u8>>)>::empty());
        }
        r
    }

    /// Register a new connection: allocate the next identifier and attach
    /// a fresh, empty outbound queue to it. The identifier is fresh: it
    /// was never registered before, and the counter only ever moves up.
    pub fn connect(&mut self) -> (id: u64)
        requires
            old(self).wf(),
            old(self).next_id() < UID_LIMIT,
        ensures
            final(self).wf(),
            id == old(self).next_id(),
            final(self).next_id() == id + 1,
            final(self)@ == old(self)@.push((id, Seq::<Seq<u8>>::empty())),
            !old(self).registered(id),
            final(self).registered(id),
            forall|j: u64|
                j != id ==> (final(self).registered(j) <==> old(self).registered(j)),
    {
        let id = self.next_id;
        self.next_id = id + 1;
        self.entries.push(Entry { id, queue: Vec::new() });
        proof {
            assert(self@ =~~= old(self)@.push((id, Seq::<Seq<u8>>::empty())));
            let n = old(self)@.len() as int;
            assert(self@[n].0 == id);
            assert(self.registered(id));
            assert forall|j: u64|
                j != id implies (self.registered(j) <==> old(self).registered(j)) by {
                if has_id(self@, j) {
                    let w = choose|k: int| 0 <= k < self@.len() && #[trigger] self@[k].0 == j;
                    assert(w < n);
                    assert(old(self)@[w].0 == j);
                }
                if has_id(old(self)@, j) {
                    let w = choose|k: int|
                        0 <= k < old(self)@.len() && #[trigger] old(self)@[k].0 == j;
                    assert(self@[w].0 == j);
                }
            }
        }
        id
    }

    /// Fan one payload out to every registered connection: each outbound
    /// queue — the sender's own as well — grows by a copy of `msg` at the
    /// back. No queue of an unregistered identifier exists, so a removed
    /// connection can never receive the payload. The set of registered
    /// identifiers is untouched.
    pub fn broadcast(&mut self, msg: &Vec<u8>)
        requires
            old(self).wf(),
        ensures
            final(self).wf(),
            final(self).next_id() == old(self).next_id(),
            final(self)@ == broadcast_spec(old(self)@, msg@),
            final(self)@.len() == old(self)@.len(),
            forall|i: int| 0 <= i < old(self)@.len() ==> #[trigger] final(self)@[i].0 == old(
                self,
            )@[i].0 && final(self)@[i].1 == old(self)@[i].1.push(msg@),
            forall|j: u64| final(self).registered(j) <==> old(self).registered(j),
    {
        let ghost v0 = self@;
        let ghost nid0 = self.next_id;
        let n = self.entries.len();
        let mut i: usize = 0;
        proof {
            assert(self@ =~~= broadcast_spec(v0, msg@).subrange(0, 0) + v0.subrange(
                0,
                n as int,
            ));
        }
        while i < n
            invariant
                i <= n,
                n == self.entries@.len(),
                self.next_id == nid0,
                n == v0.len(),
                self@ == broadcast_spec(v0, msg@).subrange(0, i as int) + v0.subrange(
                    i as int,
                    n as int,
                ),
            decreases n - i,
        {
            let m = clone_bytes(msg);
            proof {
                assert(self@[i as int] == v0[i as int]);
                assert(self@[i as int].1 == self.entries@[i as int].queue@.map_values(
                    |p: Vec<u8>| p@,
                ));
            }
            let ghost q0 = self.entries@[i as int].queue@;
            let ghost vpre = self@;
            let ghost epre = self.entries@;
            let e = &mut self.entries[i];
            e.queue.push(m);
            proof {
                assert(self.entries@ == epre.update(i as int, self.entries@[i as int]));
                assert(self.entries@[i as int].queue@ == q0.push(m));
                assert(self.entries@[i as int].id == epre[i as int].id);
                assert(self@[i as int].1 =~~= v0[i as int].1.push(msg@));
                assert(self@[i as int].0 == v0[i as int].0);
                assert(self@[i as int] == (v0[i as int].0, v0[i as int].1.push(msg@)));
                assert forall|k: int| 0 <= k < n && k != i implies self@[k] == vpre[k] by {
                    assert(self.entries@[k] == epre[k]);
                }
                let bs = broadcast_spec(v0, msg@);
                let rhs = bs.subrange(0, i + 1) + v0.subrange(i + 1, n as int);
                assert(vpre == bs.subrange(0, i as int) + v0.subrange(i as int, n as int));
                assert forall|k: int| 0 <= k < n implies self@[k] == rhs[k] by {
                    if k < i {
                        assert(self@[k] == vpre[k]);
                        assert(vpre[k] == bs.subrange(0, i as int)[k]);
                        assert(rhs[k] == bs.subrange(0, i + 1)[k]);
                    } else if k == i {
                        assert(rhs[k] == bs[k]);
                        assert(bs[k] == (v0[k].0, v0[k].1.push(msg@)));
                    } else {
                        assert(self@[k] == vpre[k]);
                        assert(vpre[k] == v0.subrange(i as int, n as int)[k - i]);
                        assert(rhs[k] == v0.subrange(i + 1, n as int)[k - i - 1]);
                    }
                }
                assert(self@ =~~= rhs);
            }
            i += 1;
        }
        proof {
            assert(self@ =~~= broadcast_spec(v0, msg@));
            assert forall|j: u64| final(self).registered(j) <==> old(self).registered(
                j,
            ) by {
                if has_id(v0, j) {
                    let w = choose|k: int| 0 <= k < v0.len() && #[trigger] v0[k].0 == j;
                    assert(self@[w].0 == j);
                }
                if has_id(self@, j) {
                    let w = choose|k: int| 0 <= k < self@.len() && #[trigger] self@[k].0 == j;
                    assert(v0[w].0 == j);
                }
            }
        }
    }

    /// Position of the entry for `id`, if it is registered.
    fn index_of(&self, id: u64) -> (r: Option<usize>)
        ensures
            r matches Some(i) ==> 0 <= i < self@.len() && self@[i as int].0 == id,
            r is None ==> !self.registered(id),
    {
        let n = self.entries.len();
        let mut i: usize = 0;
        while i < n
            invariant
                i <= n,
                n == self.entries@.len(),
                forall|k: int| 0 <= k < i ==> #[trigger] self@[k].0 != id,
            decreases n - i,
        {
            if self.entries[i].id == id {
                proof {
                    assert(self@[i as int].0 == id);
                }
                return Some(i);
            }
            i += 1;
        }
        None
    }

    /// Drop the entry for `id`, if there is one: the disconnect path.
    /// Removing an absent identifier is a no-op, not an error, so racing
    /// teardown paths may both call this safely. Entries for every other
    /// identifier survive, in their original order, queues untouched.
    pub fn remove(&mut self, id: u64)
        requires
            old(self).wf(),
        ensures
            final(self).wf(),
            final(self).next_id() == old(self).next_id(),
            final(self)@ == remove_entry(old(self)@, id),
            !final(self).registered(id),
            !old(self).registered(id) ==> final(self)@ == old(self)@,
            forall|j: u64|
                j != id ==> (final(self).registered(j) <==> old(self).registered(j)),
    {
        let ghost v0 = self@;
        match self.index_of(id) {
            None => {
                proof {
                    lemma_remove_entry_absent(v0, id);
                }
            },
            Some(i) => {
                proof {
                    assert forall|k: int| 0 <= k < v0.len() && k != i implies #[trigger] v0[k].0
                        != id by {}
                    lemma_remove_entry_at(v0, id, i as int);
                }
                self.entries.remove(i);
                proof {
                    let len0 = v0.len() as int;
                    assert(self@ =~~= v0.subrange(0, i as int) + v0.subrange(i + 1, len0));
                    assert forall|k: int| 0 <= k < self@.len() implies #[trigger] self@[k].0
                        != id by {
                        if k < i {
                            assert(self@[k] == v0[k]);
                        } else {
                            assert(self@[k] == v0[k + 1]);
                        }
                    }
                    assert forall|j: u64|
                        j != id implies (has_id(self@, j) <==> has_id(v0, j)) by {
                        if has_id(v0, j) {
                            let w = choose|k: int| 0 <= k < v0.len() && #[trigger] v0[k].0 == j;
                            if w < i {
                                assert(self@[w].0 == j);
                            } else {
                                assert(self@[w - 1].0 == j);
                            }
                        }
                        if has_id(self@, j) {
                            let w = choose|k: int|
                                0 <= k < self@.len() && #[trigger] self@[k].0 == j;
                            if w < i {
                                assert(v0[w].0 == j);
                            } else {
                                assert(v0[w + 1].0 == j);
                            }
                        }
                    }
                }
            },
        }
    }

    /// Disconnect `id`: the registry half of connection teardown, used by
    /// the connection's own exit path and by the privileged eviction
    /// endpoint alike. Exactly `remove`.
    pub fn disconnect(&mut self, id: u64)
        requires
            old(self).wf(),
        ensures
            final(self).wf(),
            final(self).next_id() == old(self).next_id(),
            final(self)@ == remove_entry(old(self)@, id),
            !final(self).registered(id),
            !old(self).registered(id) ==> final(self)@ == old(self)@,
            forall|j: u64|
                j != id ==> (final(self).registered(j) <==> old(self).registered(j)),
    {
        self.remove(id);
    }

    /// Hand the oldest queued payload for `id` to its writer task.
    /// Returns the front of the queue and drops it, keeping the rest in
    /// order; an empty queue or an unknown identifier yields nothing and
    /// changes nothing.
    pub fn pop_next(&mut self, id: u64) -> (r: Option<Vec<u8>>)
        requires
            old(self).wf(),
        ensures
            final(self).wf(),
            final(self).next_id() == old(self).next_id(),
            !old(self).registered(id) ==> r is None && final(self)@ == old(self)@,
            forall|i: int|
                0 <= i < old(self)@.len() && #[trigger] old(self)@[i].0 == id
                    && old(self)@[i].1.len() == 0 ==> r is None && final(self)@ == old(self)@,
            forall|i: int|
                0 <= i < old(self)@.len() && #[trigger] old(self)@[i].0 == id
                    && old(self)@[i].1.len() > 0
                    ==> (r matches Some(m) && m@ == old(self)@[i].1.first())
                    && final(self)@ == old(self)@.update(i, (id, old(self)@[i].1.drop_first())),
    {
        let ghost v0 = self@;
        match self.index_of(id) {
            None => None,
            Some(i) => {
                proof {
                    assert forall|k: int| 0 <= k < v0.len() && #[trigger] v0[k].0 == id implies k
                        == i by {}
                }
                if self.entries[i].queue.len() == 0 {
                    proof {
                        assert(v0[i as int].1.len() == 0);
                    }
                    None
                } else {
                    let m = self.entries[i].queue.remove(0);
                    proof {
                        assert(m@ == v0[i as int].1.first());
                        assert(self@[i as int].1 =~~= v0[i as int].1.drop_first());
                        assert(self@ =~~= v0.update(i as int, (id, v0[i as int].1.drop_first())));
                    }
                    Some(m)
                }
            },
        }
    }

    /// Is `id` currently registered?
    pub fn contains(&self, id: u64) -> (r: bool)
        ensures
            r == self.registered(id),
    {
        match self.index_of(id) {
            Some(i) => {
                proof {
                    assert(self@[i as int].0 == id);
                }
                true
            },
            None => false,
        }
    }

    /// How many payloads are queued toward `id`, if it is registered.
    pub fn queue_len(&self, id: u64) -> (r: Option<usize>)
        requires
            self.wf(),
        ensures
            !self.registered(id) ==> r is None,
            forall|i: int|
                0 <= i < self@.len() && #[trigger] self@[i].0 == id ==> (r matches Some(l) && l
                    == self@[i].1.len()),
    {
        match self.index_of(id) {
            None => None,
            Some(i) => {
                proof {
                    assert forall|k: int| 0 <= k < self@.len() && #[trigger] self@[k].0
                        == id implies k == i by {}
                }
                Some(self.entries[i].queue.len())
            },
        }
    }

    /// The identifier the next connection will receive, as a value: lets
    /// the caller test `connect`'s precondition before calling it.
    pub fn next_id_value(&self) -> (r: u64)
        ensures
            r == self.next_id(),
    {
        self.next_id
    }

    /// How many connections are registered.
    pub fn count(&self) -> (r: usize)
        ensures
            r == self@.len(),
    {
        self.entries.len()
    }
}

/// Outcome of a privileged eviction: both variants are a success — evicting
/// an identifier that is already gone is an idempotent no-op.
#[derive(Clone, Copy, PartialEq, Eq, Structural, Debug)]
pub enum Eviction {
    /// The target was registered and has now been removed.
    Removed,
    /// The target was not registered; nothing changed.
    AlreadyGone,
}

impl Registry {
    /// Forcibly evict `id`, as the privileged operator endpoint does.
    /// Same effect as `remove`; the outcome reports whether the target was
    /// still registered, and neither case is an error.
    pub fn force_disconnect(&mut self, id: u64) -> (r: Eviction)
        requires
            old(self).wf(),
        ensures
            final(self).wf(),
            final(self).next_id() == old(self).next_id(),
            final(self)@ == remove_entry(old(self)@, id),
            !final(self).registered(id),
            !old(self).registered(id) ==> final(self)@ == old(self)@,
            forall|j: u64|
                j != id ==> (final(self).registered(j) <==> old(self).registered(j)),
            r == Eviction::Removed <==> old(self).registered(id),
    {
        let was = self.contains(id);
        self.remove(id);
        if was {
            Eviction::Removed
        } else {
            Eviction::AlreadyGone
        }
    }
}

/// Removing an identifier leaves no entry carrying it.
proof fn lemma_remove_entry_gone(v: Seq<(u64, Seq<Seq<u8>>)>, id: u64)
    ensures
        !has_id(remove_entry(v, id), id),
    decreases v.len(),
{
    if v.len() > 0 {
        lemma_remove_entry_gone(v.drop_first(), id);
        if v.first().0 != id {
            let w = remove_entry(v, id);
            let rest = remove_entry(v.drop_first(), id);
            if has_id(w, id) {
                let k = choose|i: int| 0 <= i < w.len() && #[trigger] w[i].0 == id;
                if k > 0 {
                    assert(w[k] == rest[k - 1]);
                }
            }
        }
    }
}

/// Broadcast reaches every registered connection — the sender's entry
/// as much as any other: each queue grows by exactly the payload, at
/// the back, under its unchanged identifier.
pub proof fn lemma_broadcast_delivers_to_all(v: Seq<(u64, Seq<Seq<u8>>)>, msg: Seq<u8>, i: int)
    requires
        0 <= i < v.len(),
    ensures
        broadcast_spec(v, msg)[i].0 == v[i].0,
        broadcast_spec(v, msg)[i].1.len() == v[i].1.len() + 1,
        broadcast_spec(v, msg)[i].1.last() == msg,
        forall|k: int| 0 <= k < v[i].1.len() ==> #[trigger] broadcast_spec(v, msg)[i].1[k]
            == v[i].1[k],
{
}

/// A disconnected connection receives nothing afterwards: once `id` is
/// removed, no later broadcast creates an entry for it, so no payload
/// can ever be queued toward it again.
pub proof fn lemma_no_delivery_after_disconnect(v: Seq<(u64, Seq<Seq<u8>>)>, id: u64, msg: Seq<u8>)
    ensures
        !has_id(remove_entry(v, id), id),
        !has_id(broadcast_spec(remove_entry(v, id), msg), id),
{
    lemma_remove_entry_gone(v, id);
    let w = remove_entry(v, id);
    let b = broadcast_spec(w, msg);
    if has_id(b, id) {
        let k = choose|i: int| 0 <= i < b.len() && #[trigger] b[i].0 == id;
        assert(w[k].0 == id);
    }
}

/// Delivery is first-in-first-out per recipient: when one sender has m1
/// broadcast before m2, every recipient's queue holds m1 at an earlier
/// position than m2, and the writer task drains queues from the front.
pub proof fn lemma_fifo_two_broadcasts(v: Seq<(u64, Seq<Seq<u8>>)>, m1: Seq<u8>, m2: Seq<u8>, i: int)
    requires
        0 <= i < v.len(),
    ensures
        broadcast_spec(broadcast_spec(v, m1), m2)[i].1 == v[i].1.push(m1).push(m2),
        broadcast_spec(broadcast_spec(v, m1), m2)[i].1[v[i].1.len() as int] == m1,
        broadcast_spec(broadcast_spec(v, m1), m2)[i].1[v[i].1.len() as int + 1] == m2,
{
    assert(broadcast_spec(broadcast_spec(v, m1), m2)[i].1 == v[i].1.push(m1).push(m2));
}

/// Evicting an identifier twice is the same as evicting it once: the
/// second eviction finds nothing and changes nothing.
pub proof fn lemma_remove_idempotent(v: Seq<(u64, Seq<Seq<u8>>)>, id: u64)
    ensures
        remove_entry(remove_entry(v, id), id) == remove_entry(v, id),
{
    lemma_remove_entry_gone(v, id);
    lemma_remove_entry_absent(remove_entry(v, id), id);
}

/// Copy a byte payload, so each recipient's queue owns its own copy.
fn clone_bytes(v: &Vec<u8>) -> (r: Vec<u8>)
    ensures
        r@ == v@,
{
    let n = v.len();
    let mut r: Vec<u8> = Vec::new();
    let mut i: usize = 0;
    while i < n
        invariant
            i <= n,
            n == v@.len(),
            r@ == v@.subrange(0, i as int),
        decreases n - i,
    {
        r.push(v[i]);
        proof {
            assert(r@ =~= v@.subrange(0, i + 1));
        }
        i += 1;
    }
    proof {
        assert(r@ =~= v@);
    }
    r
}

} // verus!
