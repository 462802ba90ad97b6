//! The broadcast hub: fan-out of one published frame to every subscriber.
//!
//! Each subscriber owns a bounded queue. Publishing never blocks and never
//! fails: a full queue drops its oldest undelivered frame to make room, so a
//! stalled subscriber loses old frames but never stalls the publisher or any
//! other subscriber. Order among the frames a subscriber does hold is
//! publish order.
use crate::codec::deep;
use vstd::prelude::*;

verus! {

/// One subscription: the subscriber's identity and its pending frames,
/// oldest first.
pub struct Subscriber {
    pub id: u64,
    pub queue: Vec<Vec<u8>>,
}

/// The model of a subscriber list: identity paired with queued frames.
pub open spec fn sview(subs: Seq<Subscriber>) -> Seq<(u64, Seq<Seq<u8>>)> {
    Seq::new(subs.len(), |i: int| (subs[i].id, deep(subs[i].queue@)))
}

/// Does some subscription carry the identity `id`?
pub open spec fn has_sub(s: Seq<(u64, Seq<Seq<u8>>)>, id: u64) -> bool {
    exists|i: int| 0 <= i < s.len() && s[i].0 == id
}

/// All subscription identities distinct.
pub open spec fn uniq_subs(s: Seq<(u64, Seq<Seq<u8>>)>) -> bool {
    forall|i: int, j: int| 0 <= i < j < s.len() ==> s[i].0 != s[j].0
}

/// The subscription list without any entry for `id`, order kept.
pub open spec fn without_sub(s: Seq<(u64, Seq<Seq<u8>>)>, id: u64) -> Seq<(u64, Seq<Seq<u8>>)>
    decreases s.len(),
{
    if s.len() == 0 {
        Seq::empty()
    } else if s[0].0 == id {
        without_sub(s.drop_first(), id)
    } else {
        seq![s[0]] + without_sub(s.drop_first(), id)
    }
}

/// What one publish does to one queue: append, dropping the oldest frame
/// first if the queue is at capacity.
pub open spec fn push_drop(q: Seq<Seq<u8>>, f: Seq<u8>, cap: nat) -> Seq<Seq<u8>> {
    if q.len() < cap {
        q.push(f)
    } else {
        q.drop_first().push(f)
    }
}

/// `without_sub` distributes over concatenation.
pub proof fn lemma_without_sub_append(
    a: Seq<(u64, Seq<Seq<u8>>)>,
    b: Seq<(u64, Seq<Seq<u8>>)>,
    id: u64,
)
    ensures
        without_sub(a + b, id) == without_sub(a, id) + without_sub(b, id),
    decreases a.len(),
{
    if a.len() == 0 {
        assert(a + b =~= b);
        assert(without_sub(a, id) + without_sub(b, id) =~= without_sub(b, id));
    } else {
        assert((a + b).drop_first() =~= a.drop_first() + b);
        lemma_without_sub_append(a.drop_first(), b, id);
        assert(without_sub(a + b, id) =~= without_sub(a, id) + without_sub(b, id));
    }
}

/// Every subscription `without_sub` keeps is one of the originals.
pub proof fn lemma_without_sub_members(s: Seq<(u64, Seq<Seq<u8>>)>, id: u64)
    ensures
        forall|i: int|
            0 <= i < without_sub(s, id).len() ==> exists|j: int|
                0 <= j < s.len() && #[trigger] without_sub(s, id)[i] == s[j],
    decreases s.len(),
{
    let r = without_sub(s, id);
    if s.len() == 0 {
    } else {
        let t = s.drop_first();
        lemma_without_sub_members(t, id);
        assert(forall|i: int| 0 <= i < t.len() ==> t[i] == s[i + 1]);
        if s[0].0 == id {
            assert forall|i: int| 0 <= i < r.len() implies exists|j: int|
                0 <= j < s.len() && #[trigger] r[i] == s[j] by {
                let j0 = choose|j: int| 0 <= j < t.len() && without_sub(t, id)[i] == t[j];
                assert(r[i] == s[j0 + 1]);
            }
        } else {
            assert(r =~= seq![s[0]] + without_sub(t, id));
            assert forall|i: int| 0 <= i < r.len() implies exists|j: int|
                0 <= j < s.len() && #[trigger] r[i] == s[j] by {
                if i == 0 {
                    assert(r[0] == s[0]);
                } else {
                    assert(r[i] == without_sub(t, id)[i - 1]);
                    let j0 = choose|j: int| 0 <= j < t.len() && without_sub(t, id)[i - 1] == t[j];
                    assert(r[i] == s[j0 + 1]);
                }
            }
        }
    }
}

/// `without_sub` keeps exactly the other subscriptions, in order.
pub proof fn lemma_without_sub_props(s: Seq<(u64, Seq<Seq<u8>>)>, id: u64)
    ensures
        !has_sub(without_sub(s, id), id),
        forall|i: int| 0 <= i < without_sub(s, id).len() ==> has_sub(s, #[trigger] without_sub(
            s,
            id,
        )[i].0),
        forall|i: int| 0 <= i < s.len() && s[i].0 != id ==> has_sub(without_sub(s, id), s[i].0),
        without_sub(s, id).len() <= s.len(),
        uniq_subs(s) ==> uniq_subs(without_sub(s, id)),
        !has_sub(s, id) ==> without_sub(s, id) == s,
    decreases s.len(),
{
    let r = without_sub(s, id);
    if s.len() == 0 {
        assert(r =~= s);
    } else {
        let t = s.drop_first();
        lemma_without_sub_props(t, id);
        assert(forall|i: int| 0 <= i < t.len() ==> t[i] == s[i + 1]);
        if s[0].0 == id {
            assert(has_sub(s, id)) by {
                assert(s[0].0 == id);
            }
            assert(forall|i: int| 0 <= i < r.len() ==> has_sub(s, #[trigger] r[i].0)) by {
                assert(forall|i: int|
                    0 <= i < without_sub(t, id).len() ==> has_sub(t, #[trigger] without_sub(
                        t,
                        id,
                    )[i].0));
                assert(forall|x: u64| has_sub(t, x) ==> has_sub(s, x));
            }
            assert(forall|i: int|
                0 <= i < s.len() && s[i].0 != id ==> has_sub(without_sub(s, id), s[i].0)) by {
                assert(forall|i: int| 1 <= i < s.len() && s[i].0 != id ==> t[i - 1].0 == s[i].0);
            }
            if uniq_subs(s) {
                assert(uniq_subs(t));
            }
        } else {
            assert(r =~= seq![s[0]] + without_sub(t, id));
            assert(r[0] == s[0]);
            assert(forall|i: int| 1 <= i < r.len() ==> r[i] == without_sub(t, id)[i - 1]);
            if has_sub(r, id) {
                let i = choose|i: int| 0 <= i < r.len() && r[i].0 == id;
                assert(i >= 1);
                assert(without_sub(t, id)[i - 1].0 == id);
                assert(has_sub(without_sub(t, id), id));
            }
            assert(forall|i: int|
                0 <= i < s.len() && s[i].0 != id ==> has_sub(without_sub(s, id), s[i].0)) by {
                assert(forall|x: u64| has_sub(without_sub(t, id), x) ==> has_sub(r, x)) by {
                    assert(forall|j: int|
                        0 <= j < without_sub(t, id).len() ==> r[j + 1] == without_sub(t, id)[j]);
                }
                assert(forall|i: int| 1 <= i < s.len() ==> t[i - 1] == s[i]);
            }
            if uniq_subs(s) {
                assert(uniq_subs(t));
                assert(uniq_subs(r)) by {
                    assert(forall|i: int|
                        0 <= i < without_sub(t, id).len() ==> has_sub(t, #[trigger] without_sub(
                            t,
                            id,
                        )[i].0));
                    if !uniq_subs(r) {
                        let (i, j) = choose|i: int, j: int|
                            0 <= i < j < r.len() && r[i].0 == r[j].0;
                        if i == 0 {
                            assert(without_sub(t, id)[j - 1].0 == s[0].0);
                            assert(has_sub(t, s[0].0));
                            let k = choose|k: int| 0 <= k < t.len() && t[k].0 == s[0].0;
                            assert(s[k + 1].0 == s[0].0);
                        } else {
                            assert(without_sub(t, id)[i - 1].0 == without_sub(t, id)[j - 1].0);
                        }
                    }
                }
            }
            if !has_sub(s, id) {
                assert(!has_sub(t, id)) by {
                    assert(forall|i: int| 0 <= i < t.len() ==> t[i] == s[i + 1]);
                }
                assert(r =~= seq![s[0]] + t);
                assert(r =~= s);
            }
        }
    }
}

/// A stalled subscriber affects only itself: whatever one queue holds, every
/// queue still receives the published frame as its newest entry, a queue
/// below capacity receives it losslessly, and no queue exceeds capacity.
pub proof fn lemma_publish_isolation(q: Seq<Seq<u8>>, f: Seq<u8>, cap: nat)
    requires
        cap >= 1,
        q.len() <= cap,
    ensures
        push_drop(q, f, cap).last() == f,
        push_drop(q, f, cap).len() <= cap,
        q.len() < cap ==> push_drop(q, f, cap) == q.push(f),
        forall|i: int|
            0 <= i < push_drop(q, f, cap).len() - 1 ==> #[trigger] push_drop(q, f, cap)[i] == q[i
                + (if q.len() < cap {
                0int
            } else {
                1int
            })],
{
}

/// The broadcast hub.
pub struct Hub {
    cap: usize,
    subs: Vec<Subscriber>,
}

impl Hub {
    /// The subscription list: identity and pending frames, oldest first.
    pub closed spec fn view(&self) -> Seq<(u64, Seq<Seq<u8>>)> {
        sview(self.subs@)
    }

    /// The per-subscriber queue bound the hub was made with.
    pub closed spec fn capacity(&self) -> nat {
        self.cap as nat
    }

    /// Well-formed: positive capacity, distinct identities, queues bounded.
    pub open spec fn wf(&self) -> bool {
        &&& self.capacity() >= 1
        &&& uniq_subs(self@)
        &&& forall|i: int| 0 <= i < self@.len() ==> #[trigger] self@[i].1.len() <= self.capacity()
    }

    /// A hub with no subscribers and the given queue bound.
    pub fn new(cap: usize) -> (h: Hub)
        requires
            cap >= 1,
        ensures
            h@ == Seq::<(u64, Seq<Seq<u8>>)>::empty(),
            h.capacity() == cap,
            h.wf(),
    {
        let h = Hub { cap, subs: Vec::new() };
        proof {
            assert(h@ =~= Seq::<(u64, Seq<Seq<u8>>)>::empty());
        }
        h
    }

    /// Is `id` subscribed?
    pub fn is_subscribed(&self, id: u64) -> (b: bool)
        ensures
            b == has_sub(self@, id),
    {
        let mut i: usize = 0;
        while i < self.subs.len()
            invariant
                i <= self.subs@.len(),
                self@.len() == self.subs@.len(),
                forall|k: int| 0 <= k < i ==> self@[k].0 != id,
            decreases self.subs@.len() - i,
        {
            if self.subs[i].id == id {
                proof {
                    assert(self@[i as int].0 == id);
                }
                return true;
            }
            i = i + 1;
        }
        false
    }

    /// Opens a subscription for `id` with an empty queue.
    pub fn subscribe(&mut self, id: u64)
        requires
            old(self).wf(),
            !has_sub(old(self)@, id),
        ensures
            final(self)@ == old(self)@.push((id, Seq::<Seq<u8>>::empty())),
            final(self).capacity() == old(self).capacity(),
            final(self).wf(),
    {
        self.subs.push(Subscriber { id, queue: Vec::new() });
        proof {
            assert(deep(Seq::<Vec<u8>>::empty()) =~= Seq::<Seq<u8>>::empty());
            assert(final(self)@ =~= old(self)@.push((id, Seq::<Seq<u8>>::empty())));
            let s2 = final(self)@;
            assert(uniq_subs(s2)) by {
                if !uniq_subs(s2) {
                    let (i, j) = choose|i: int, j: int|
                        0 <= i < j < s2.len() && s2[i].0 == s2[j].0;
                    if j < old(self)@.len() {
                    } else {
                        assert(old(self)@[i].0 == id);
                    }
                }
            }
        }
    }

    /// Closes the subscription for `id`; a no-op if none is open.
    pub fn unsubscribe(&mut self, id: u64)
        requires
            old(self).wf(),
        ensures
            final(self)@ == without_sub(old(self)@, id),
            final(self).capacity() == old(self).capacity(),
            final(self).wf(),
    {
        let mut kept: Vec<Subscriber> = Vec::new();
        let mut i: usize = 0;
        proof {
            assert(old(self)@.take(0) =~= Seq::<(u64, Seq<Seq<u8>>)>::empty());
        }
        while i < self.subs.len()
            invariant
                i <= self.subs@.len(),
                self.subs@ == old(self).subs@,
                self@ == old(self)@,
                self.cap == old(self).cap,
                self@.len() == self.subs@.len(),
                sview(kept@) == without_sub(old(self)@.take(i as int), id),
            decreases self.subs@.len() - i,
        {
            let ghost pre = sview(kept@);
            let key = self.subs[i].id;
            if key != id {
                let q = clone_queue(&self.subs[i].queue);
                kept.push(Subscriber { id: key, queue: q });
            }
            proof {
                let cur = old(self)@[i as int];
                assert(old(self)@.take(i + 1) =~= old(self)@.take(i as int) + seq![cur]);
                lemma_without_sub_append(old(self)@.take(i as int), seq![cur], id);
                assert(seq![cur].len() == 1);
                assert(seq![cur][0] == cur);
                assert(seq![cur].drop_first() =~= Seq::<(u64, Seq<Seq<u8>>)>::empty());
                assert(without_sub(Seq::<(u64, Seq<Seq<u8>>)>::empty(), id) =~= Seq::<(
                    u64,
                    Seq<Seq<u8>>,
                )>::empty());
                if cur.0 == id {
                    assert(without_sub(seq![cur], id) =~= Seq::<(u64, Seq<Seq<u8>>)>::empty());
                    assert(sview(kept@) =~= without_sub(old(self)@.take(i + 1), id));
                } else {
                    assert(without_sub(seq![cur], id) =~= seq![cur]);
                    assert(sview(kept@) =~= pre + seq![cur]);
                    assert(sview(kept@) =~= without_sub(old(self)@.take(i + 1), id));
                }
            }
            i = i + 1;
        }
        proof {
            assert(old(self)@.take(old(self)@.len() as int) =~= old(self)@);
        }
        self.subs = kept;
        proof {
            lemma_without_sub_props(old(self)@, id);
            lemma_without_sub_members(old(self)@, id);
            assert forall|k: int| 0 <= k < self@.len() implies #[trigger] self@[k].1.len()
                <= self.capacity() by {
                let j = choose|j: int| 0 <= j < old(self)@.len() && self@[k] == old(self)@[j];
                assert(old(self)@[j].1.len() <= old(self).capacity());
            }
        }
    }

    /// Publishes one frame: every subscription receives it at the tail of
    /// its queue, the oldest queued frame making room where the queue is at
    /// capacity. Never blocks on, and never fails for, any subscriber.
    pub fn publish(&mut self, frame: &Vec<u8>)
        requires
            old(self).wf(),
        ensures
            final(self).wf(),
            final(self).capacity() == old(self).capacity(),
            final(self)@.len() == old(self)@.len(),
            forall|k: int|
                0 <= k < old(self)@.len() ==> #[trigger] final(self)@[k] == (
                old(self)@[k].0,
                push_drop(old(self)@[k].1, frame@, old(self).capacity()),
                ),
    {
        let mut updated: Vec<Subscriber> = Vec::new();
        let mut i: usize = 0;
        while i < self.subs.len()
            invariant
                i <= self.subs@.len(),
                self.subs@ == old(self).subs@,
                self@ == old(self)@,
                self.cap == old(self).cap,
                old(self).wf(),
                self@.len() == self.subs@.len(),
                updated@.len() == i,
                forall|k: int|
                    0 <= k < i ==> (#[trigger] updated@[k]).id == old(self)@[k].0 && deep(
                        updated@[k].queue@,
                    ) == push_drop(old(self)@[k].1, frame@, old(self).capacity()),
            decreases self.subs@.len() - i,
        {
            let key = self.subs[i].id;
            let mut q = clone_queue(&self.subs[i].queue);
            let ghost q0 = deep(q@);
            proof {
                assert(q0 == old(self)@[i as int].1);
                assert(q0.len() <= old(self).capacity());
            }
            if q.len() >= self.cap {
                q.remove(0);
                proof {
                    assert(deep(q@) =~= q0.drop_first());
                }
            }
            let f = clone_bytes(frame);
            q.push(f);
            proof {
                assert(deep(q@) =~= push_drop(q0, frame@, old(self).capacity()));
            }
            updated.push(Subscriber { id: key, queue: q });
            i = i + 1;
        }
        self.subs = updated;
        proof {
            assert(self@.len() == old(self)@.len());
            assert forall|k: int| 0 <= k < old(self)@.len() implies #[trigger] self@[k] == (
                old(self)@[k].0,
                push_drop(old(self)@[k].1, frame@, old(self).capacity()),
            ) by {
                assert(self@[k] == (updated@[k].id, deep(updated@[k].queue@)));
            }
            assert(uniq_subs(self@)) by {
                if !uniq_subs(self@) {
                    let (i, j) = choose|i: int, j: int|
                        0 <= i < j < self@.len() && self@[i].0 == self@[j].0;
                    assert(old(self)@[i].0 == old(self)@[j].0);
                }
            }
            assert forall|k: int| 0 <= k < self@.len() implies #[trigger] self@[k].1.len()
                <= self.capacity() by {
                assert(old(self)@[k].1.len() <= old(self).capacity());
            }
        }
    }

    /// Hands out the oldest pending frame for `id`, if any.
    pub fn take_next(&mut self, id: u64) -> (r: Option<Vec<u8>>)
        requires
            old(self).wf(),
        ensures
            final(self).wf(),
            final(self).capacity() == old(self).capacity(),
            match r {
                Some(f) => exists|k: int|
                    0 <= k < old(self)@.len() && old(self)@[k].0 == id && old(self)@[k].1.len() > 0
                        && f@ == old(self)@[k].1[0] && final(self)@ == old(self)@.update(
                        k,
                        (id, old(self)@[k].1.drop_first()),
                    ),
                None => final(self)@ == old(self)@ && (!has_sub(old(self)@, id) || exists|k: int|
                    0 <= k < old(self)@.len() && old(self)@[k].0 == id && old(self)@[k].1.len()
                        == 0),
            },
    {
        let mut i: usize = 0;
        while i < self.subs.len()
            invariant
                i <= self.subs@.len(),
                self.subs@ == old(self).subs@,
                self@ == old(self)@,
                self.cap == old(self).cap,
                old(self).wf(),
                self@.len() == self.subs@.len(),
                forall|k: int| 0 <= k < i ==> self@[k].0 != id,
            decreases self.subs@.len() - i,
        {
            if self.subs[i].id == id {
                proof {
                    assert(self@[i as int].0 == id);
                }
                if self.subs[i].queue.len() == 0 {
                    proof {
                        assert(old(self)@[i as int].1.len() == 0);
                    }
                    return None;
                }
                let mut sub = self.subs.remove(i);
                let f = sub.queue.remove(0);
                self.subs.insert(i, sub);
                proof {
                    let oldv = old(self)@;
                    assert(f@ == oldv[i as int].1[0]);
                    assert(deep(sub.queue@) =~= oldv[i as int].1.drop_first());
                    assert(final(self)@ =~= oldv.update(i as int, (id, oldv[i as int].1.drop_first())));
                    assert(final(self).wf()) by {
                        let s2 = final(self)@;
                        assert(forall|k: int| 0 <= k < s2.len() ==> s2[k].0 == oldv[k].0);
                        assert(forall|k: int|
                            0 <= k < s2.len() ==> #[trigger] s2[k].1.len() <= old(self).capacity());
                    }
                }
                return Some(f);
            }
            i = i + 1;
        }
        None
    }
}

/// Copies a byte vector.
pub fn clone_bytes(v: &Vec<u8>) -> (r: Vec<u8>)
    ensures
        r@ == v@,
{
    let mut r: Vec<u8> = Vec::new();
    crate::append_bytes(&mut r, v.as_slice());
    r
}

/// Copies a vector of byte vectors.
pub fn clone_queue(v: &Vec<Vec<u8>>) -> (r: Vec<Vec<u8>>)
    ensures
        r@.len() == v@.len(),
        forall|k: int| 0 <= k < v@.len() ==> #[trigger] r@[k]@ == v@[k]@,
        deep(r@) == deep(v@),
{
    let mut r: Vec<Vec<u8>> = Vec::new();
    let mut i: usize = 0;
    while i < v.len()
        invariant
            i <= v@.len(),
            r@.len() == i,
            forall|k: int| 0 <= k < i ==> #[trigger] r@[k]@ == v@[k]@,
        decreases v@.len() - i,
    {
        let b = clone_bytes(&v[i]);
        r.push(b);
        i = i + 1;
    }
    proof {
        assert(deep(r@) =~= deep(v@));
    }
    r
}

} // verus!
