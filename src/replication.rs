use vstd::prelude::*;

use crate::frame::Frame;
use crate::resptype::push_all;

verus! {

/// The registry after `bytes` is queued for every replica.
pub open spec fn queue_for_all(reg: Seq<(u64, Seq<u8>)>, bytes: Seq<u8>) -> Seq<(u64, Seq<u8>)> {
    Seq::new(reg.len(), |i: int| (reg[i].0, reg[i].1 + bytes))
}

/// The registry after each write of `writes` is queued, first to last.
pub open spec fn queue_all(reg: Seq<(u64, Seq<u8>)>, writes: Seq<Seq<u8>>) -> Seq<(u64, Seq<u8>)>
    decreases writes.len(),
{
    if writes.len() == 0 {
        reg
    } else {
        queue_for_all(queue_all(reg, writes.drop_last()), writes.last())
    }
}

/// The writes one after another.
pub open spec fn concat(writes: Seq<Seq<u8>>) -> Seq<u8>
    decreases writes.len(),
{
    if writes.len() == 0 {
        Seq::empty()
    } else {
        concat(writes.drop_last()) + writes.last()
    }
}

/// `i` is where the first replica with id `id` stands.
pub open spec fn first_with(reg: Seq<(u64, Seq<u8>)>, id: u64, i: int) -> bool {
    0 <= i < reg.len() && reg[i].0 == id && forall|j: int| 0 <= j < i ==> reg[j].0 != id
}

/// The index of the first replica with id `id`.
pub open spec fn index_of(reg: Seq<(u64, Seq<u8>)>, id: u64) -> Option<int> {
    if exists|i: int| first_with(reg, id, i) {
        Some(choose|i: int| first_with(reg, id, i))
    } else {
        None
    }
}

/// A replica's connection as the primary sees it: an id, and the bytes queued for it.
#[derive(Debug)]
pub struct Replica {
    id: u64,
    pending: Vec<u8>,
}

/// The replicas attached to a primary, in the order they attached, each with the writes not
/// yet sent to it.
#[derive(Debug)]
pub struct ReplicaRegistry {
    replicas: Vec<Replica>,
}

impl View for ReplicaRegistry {
    type V = Seq<(u64, Seq<u8>)>;

    closed spec fn view(&self) -> Seq<(u64, Seq<u8>)> {
        self.replicas@.map_values(|r: Replica| (r.id, r.pending@))
    }
}

impl ReplicaRegistry {
    /// A registry with no replicas.
    pub fn new() -> (r: Self)
        ensures
            r@ == Seq::<(u64, Seq<u8>)>::empty(),
    {
        let r = ReplicaRegistry { replicas: Vec::new() };
        assert(r@ =~= Seq::<(u64, Seq<u8>)>::empty());
        r
    }

    /// Attaches a replica with nothing queued, after those already attached.
    pub fn register(&mut self, id: u64)
        ensures
            final(self)@ == old(self)@.push((id, Seq::<u8>::empty())),
    {
        self.replicas.push(Replica { id, pending: Vec::new() });
        assert(self@ =~= old(self)@.push((id, Seq::<u8>::empty())));
    }

    /// Queues `bytes` for every replica, after what each already has queued.
    pub fn propagate(&mut self, bytes: &[u8])
        ensures
            final(self)@ == queue_for_all(old(self)@, bytes@),
    {
        let mut i: usize = 0;
        while i < self.replicas.len()
            invariant
                i <= self.replicas@.len(),
                self.replicas@.len() == old(self).replicas@.len(),
                forall|j: int|
                    0 <= j < self.replicas@.len() ==> (#[trigger] self.replicas@[j]).id == old(
                        self,
                    ).replicas@[j].id,
                forall|j: int|
                    0 <= j < i ==> (#[trigger] self.replicas@[j]).pending@ == old(
                        self,
                    ).replicas@[j].pending@ + bytes@,
                forall|j: int|
                    i <= j < self.replicas@.len() ==> (#[trigger] self.replicas@[j]).pending@
                        == old(self).replicas@[j].pending@,
            decreases self.replicas.len() - i,
        {
            let mut r = self.replicas.remove(i);
            push_all(&mut r.pending, bytes);
            self.replicas.insert(i, r);
            i += 1;
        }
        assert(self@ =~= queue_for_all(old(self)@, bytes@));
    }

    /// Hands out, and empties, the queue of the first replica with id `id`; nothing where there
    /// is no such replica.
    pub fn take_pending(&mut self, id: u64) -> (r: Vec<u8>)
        ensures
            match index_of(old(self)@, id) {
                Some(i) => r@ == old(self)@[i].1 && final(self)@ == old(self)@.update(
                    i,
                    (id, Seq::<u8>::empty()),
                ),
                None => r@ == Seq::<u8>::empty() && final(self)@ == old(self)@,
            },
    {
        let mut i: usize = 0;
        while i < self.replicas.len()
            invariant
                i <= self.replicas@.len(),
                self == old(self),
                forall|j: int| 0 <= j < i ==> (#[trigger] self@[j]).0 != id,
            decreases self.replicas.len() - i,
        {
            if self.replicas[i].id == id {
                let ghost k = index_of(old(self)@, id)->0;
                proof {
                    assert(first_with(self@, id, i as int));
                    assert(self@[i as int].0 == id);
                    if k < i {
                        assert(self@[k].0 != id);
                    }
                    if k > i {
                        assert(self@[i as int].0 != id);
                    }
                }
                let mut r = self.replicas.remove(i);
                let out = r.pending;
                r.pending = Vec::new();
                self.replicas.insert(i, r);
                assert(self@ =~= old(self)@.update(i as int, (id, Seq::<u8>::empty())));
                return out;
            }
            i += 1;
        }
        Vec::new()
    }

    /// Detaches the first replica with id `id`, keeping the order of the others.
    pub fn remove(&mut self, id: u64)
        ensures
            match index_of(old(self)@, id) {
                Some(i) => final(self)@ == old(self)@.remove(i),
                None => final(self)@ == old(self)@,
            },
    {
        let mut i: usize = 0;
        while i < self.replicas.len()
            invariant
                i <= self.replicas@.len(),
                self == old(self),
                forall|j: int| 0 <= j < i ==> (#[trigger] self@[j]).0 != id,
            decreases self.replicas.len() - i,
        {
            if self.replicas[i].id == id {
                let ghost k = index_of(old(self)@, id)->0;
                proof {
                    assert(first_with(self@, id, i as int));
                    assert(self@[i as int].0 == id);
                    if k < i {
                        assert(self@[k].0 != id);
                    }
                    if k > i {
                        assert(self@[i as int].0 != id);
                    }
                }
                self.replicas.remove(i);
                assert(self@ =~= old(self)@.remove(i as int));
                return;
            }
            i += 1;
        }
    }

    /// The ids of the attached replicas, in order.
    pub fn ids(&self) -> (r: Vec<u64>)
        ensures
            r@ == self@.map_values(|p: (u64, Seq<u8>)| p.0),
    {
        let mut out: Vec<u64> = Vec::new();
        let mut i: usize = 0;
        while i < self.replicas.len()
            invariant
                i <= self.replicas@.len(),
                out@ == self@.take(i as int).map_values(|p: (u64, Seq<u8>)| p.0),
            decreases self.replicas.len() - i,
        {
            out.push(self.replicas[i].id);
            i += 1;
            assert(out@ =~= self@.take(i as int).map_values(|p: (u64, Seq<u8>)| p.0));
        }
        assert(self@.take(i as int) =~= self@);
        out
    }
}

/// Passes a write on to every replica: the request's bytes, as they came, are queued for each.
pub fn replicate(frame: &Frame, registry: &mut ReplicaRegistry)
    ensures
        final(registry)@ == queue_for_all(old(registry)@, frame@.bytes),
{
    let msg = frame.bytes_vec();
    registry.propagate(msg.as_slice());
}

/// Writes passed on in order reach every attached replica whole and in that order: after
/// `writes` are queued one by one, each replica's queue is what it held, then every write,
/// first to last; no replica is added, dropped or reordered.
pub proof fn law_replication_order(reg: Seq<(u64, Seq<u8>)>, writes: Seq<Seq<u8>>)
    ensures
        queue_all(reg, writes).len() == reg.len(),
        forall|i: int|
            0 <= i < reg.len() ==> #[trigger] queue_all(reg, writes)[i] == (
                reg[i].0,
                reg[i].1 + concat(writes),
            ),
    decreases writes.len(),
{
    if writes.len() == 0 {
        assert forall|i: int| 0 <= i < reg.len() implies #[trigger] queue_all(reg, writes)[i] == (
            reg[i].0,
            reg[i].1 + concat(writes),
        ) by {
            assert(reg[i].1 + Seq::<u8>::empty() =~= reg[i].1);
        }
    } else {
        law_replication_order(reg, writes.drop_last());
        assert forall|i: int| 0 <= i < reg.len() implies #[trigger] queue_all(reg, writes)[i] == (
            reg[i].0,
            reg[i].1 + concat(writes),
        ) by {
            let before = queue_all(reg, writes.drop_last());
            assert(before[i] == (reg[i].0, reg[i].1 + concat(writes.drop_last())));
            assert(reg[i].1 + concat(writes.drop_last()) + writes.last() =~= reg[i].1 + concat(
                writes,
            ));
        }
    }
}

} // verus!
