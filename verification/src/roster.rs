//! The roster: the shared mapping from connection identity to display name.
//!
//! Keys are unique; iteration order is insertion order, so broadcasts are
//! reproducible. An entry exists exactly while its session is registered and
//! connected.
use vstd::prelude::*;

verus! {

/// An entry sequence without any entry keyed by `id`, order kept.
pub open spec fn without_id(s: Seq<(u64, Seq<u8>)>, id: u64) -> Seq<(u64, Seq<u8>)>
    decreases s.len(),
{
    if s.len() == 0 {
        Seq::empty()
    } else if s[0].0 == id {
        without_id(s.drop_first(), id)
    } else {
        seq![s[0]] + without_id(s.drop_first(), id)
    }
}

/// Does some entry carry the key `id`?
pub open spec fn has_id(s: Seq<(u64, Seq<u8>)>, id: u64) -> bool {
    exists|i: int| 0 <= i < s.len() && s[i].0 == id
}

/// The display names of the entries, in order.
pub open spec fn names_of(s: Seq<(u64, Seq<u8>)>) -> Seq<Seq<u8>> {
    Seq::new(s.len(), |i: int| s[i].1)
}

/// All keys distinct.
pub open spec fn uniq_ids(s: Seq<(u64, Seq<u8>)>) -> bool {
    forall|i: int, j: int| 0 <= i < j < s.len() ==> s[i].0 != s[j].0
}

/// `without_id` distributes over concatenation.
pub proof fn lemma_without_id_append(a: Seq<(u64, Seq<u8>)>, b: Seq<(u64, Seq<u8>)>, id: u64)
    ensures
        without_id(a + b, id) == without_id(a, id) + without_id(b, id),
    decreases a.len(),
{
    if a.len() == 0 {
        assert(a + b =~= b);
        assert(without_id(a, id) + without_id(b, id) =~= without_id(b, id));
    } else {
        assert((a + b).drop_first() =~= a.drop_first() + b);
        lemma_without_id_append(a.drop_first(), b, id);
        assert(without_id(a + b, id) =~= without_id(a, id) + without_id(b, id));
    }
}

/// What `without_id` leaves: exactly the entries with other keys, in order;
/// a subsequence-shaped fact stated elementwise.
pub proof fn lemma_without_id_props(s: Seq<(u64, Seq<u8>)>, id: u64)
    ensures
        !has_id(without_id(s, id), id),
        forall|i: int| 0 <= i < without_id(s, id).len() ==> has_id(s, #[trigger] without_id(
            s,
            id,
        )[i].0),
        forall|i: int| 0 <= i < s.len() && s[i].0 != id ==> has_id(without_id(s, id), s[i].0),
        without_id(s, id).len() <= s.len(),
        uniq_ids(s) ==> uniq_ids(without_id(s, id)),
        !has_id(s, id) ==> without_id(s, id) == s,
    decreases s.len(),
{
    let r = without_id(s, id);
    if s.len() == 0 {
        assert(r =~= s);
    } else {
        let t = s.drop_first();
        lemma_without_id_props(t, id);
        assert(forall|i: int| 0 <= i < t.len() ==> t[i] == s[i + 1]);
        if s[0].0 == id {
            assert(has_id(s, id)) by {
                assert(s[0].0 == id);
            }
            assert(forall|i: int| 0 <= i < r.len() ==> has_id(s, #[trigger] r[i].0)) by {
                assert(forall|i: int|
                    0 <= i < without_id(t, id).len() ==> has_id(t, #[trigger] without_id(
                        t,
                        id,
                    )[i].0));
                assert(forall|x: u64| has_id(t, x) ==> has_id(s, x));
            }
            assert(forall|i: int|
                0 <= i < s.len() && s[i].0 != id ==> has_id(without_id(s, id), s[i].0)) by {
                assert(forall|i: int| 1 <= i < s.len() && s[i].0 != id ==> t[i - 1].0 == s[i].0);
            }
            if uniq_ids(s) {
                assert(uniq_ids(t));
            }
        } else {
            assert(r =~= seq![s[0]] + without_id(t, id));
            assert(r[0] == s[0]);
            assert(forall|i: int| 1 <= i < r.len() ==> r[i] == without_id(t, id)[i - 1]);
            if has_id(r, id) {
                let i = choose|i: int| 0 <= i < r.len() && r[i].0 == id;
                assert(i >= 1);
                assert(without_id(t, id)[i - 1].0 == id);
                assert(has_id(without_id(t, id), id));
            }
            assert(forall|i: int|
                0 <= i < s.len() && s[i].0 != id ==> has_id(without_id(s, id), s[i].0)) by {
                assert(forall|x: u64| has_id(without_id(t, id), x) ==> has_id(r, x)) by {
                    assert(forall|j: int|
                        0 <= j < without_id(t, id).len() ==> r[j + 1] == without_id(t, id)[j]);
                }
                assert(forall|i: int| 1 <= i < s.len() ==> t[i - 1] == s[i]);
            }
            if uniq_ids(s) {
                assert(uniq_ids(t));
                assert(uniq_ids(r)) by {
                    assert(forall|i: int|
                        0 <= i < without_id(t, id).len() ==> has_id(t, #[trigger] without_id(
                            t,
                            id,
                        )[i].0));
                    if !uniq_ids(r) {
                        let (i, j) = choose|i: int, j: int|
                            0 <= i < j < r.len() && r[i].0 == r[j].0;
                        if i == 0 {
                            assert(without_id(t, id)[j - 1].0 == s[0].0);
                            assert(has_id(t, s[0].0));
                            let k = choose|k: int| 0 <= k < t.len() && t[k].0 == s[0].0;
                            assert(s[k + 1].0 == s[0].0);
                        } else {
                            assert(without_id(t, id)[i - 1].0 == without_id(t, id)[j - 1].0);
                        }
                    }
                }
            }
            if !has_id(s, id) {
                assert(!has_id(t, id)) by {
                    assert(forall|i: int| 0 <= i < t.len() ==> t[i] == s[i + 1]);
                }
                assert(r =~= seq![s[0]] + t);
                assert(r =~= s);
            }
        }
    }
}

/// Removing a key twice is the same as removing it once.
pub proof fn lemma_remove_idempotent(s: Seq<(u64, Seq<u8>)>, id: u64)
    ensures
        without_id(without_id(s, id), id) == without_id(s, id),
{
    lemma_without_id_props(s, id);
    lemma_without_id_props(without_id(s, id), id);
}

/// Two sessions may register the same display name: both stay listed, and
/// the name appears once per session in the roster names.
pub proof fn lemma_duplicate_names(s: Seq<(u64, Seq<u8>)>, id1: u64, id2: u64, n: Seq<u8>)
    requires
        id1 != id2,
        !has_id(s, id1),
        !has_id(s, id2),
    ensures
        ({
            let s2 = s.push((id1, n)).push((id2, n));
            &&& has_id(s2, id1)
            &&& has_id(s2, id2)
            &&& names_of(s2)[s.len() as int] == n
            &&& names_of(s2)[s.len() as int + 1] == n
            &&& uniq_ids(s) ==> uniq_ids(s2)
        }),
{
    let s2 = s.push((id1, n)).push((id2, n));
    assert(s2[s.len() as int] == (id1, n));
    assert(s2[s.len() as int + 1] == (id2, n));
    if uniq_ids(s) {
        assert(forall|i: int| 0 <= i < s.len() ==> s2[i] == s[i]);
        assert(uniq_ids(s2)) by {
            if !uniq_ids(s2) {
                let (i, j) = choose|i: int, j: int| 0 <= i < j < s2.len() && s2[i].0 == s2[j].0;
                if j < s.len() {
                } else if j == s.len() {
                    assert(s[i].0 == id1);
                } else {
                    if i < s.len() {
                        assert(s[i].0 == id2);
                    }
                }
            }
        }
    }
}

/// The live mapping of connected-and-registered sessions to display names.
pub struct Roster {
    entries: Vec<(u64, Vec<u8>)>,
}

impl Roster {
    /// The entry sequence: identity paired with name bytes, insertion order.
    pub closed spec fn view(&self) -> Seq<(u64, Seq<u8>)> {
        Seq::new(self.entries@.len(), |i: int| (self.entries@[i].0, self.entries@[i].1@))
    }

    /// Well-formed: one entry per identity.
    pub open spec fn wf(&self) -> bool {
        uniq_ids(self@)
    }

    /// An empty roster.
    pub fn new() -> (r: Roster)
        ensures
            r@ == Seq::<(u64, Seq<u8>)>::empty(),
            r.wf(),
    {
        let r = Roster { entries: Vec::new() };
        proof {
            assert(r@ =~= Seq::<(u64, Seq<u8>)>::empty());
        }
        r
    }

    /// Is `id` registered?
    pub fn contains(&self, id: u64) -> (b: bool)
        ensures
            b == has_id(self@, id),
    {
        let mut i: usize = 0;
        while i < self.entries.len()
            invariant
                i <= self@.len(),
                self@.len() == self.entries@.len(),
                forall|k: int| 0 <= k < i ==> self@[k].0 != id,
            decreases self@.len() - i,
        {
            if self.entries[i].0 == id {
                proof {
                    assert(self@[i as int].0 == id);
                }
                return true;
            }
            i = i + 1;
        }
        false
    }

    /// Removes every entry keyed by `id`; a no-op if none is present.
    /// Idempotent by construction.
    pub fn remove(&mut self, id: u64)
        ensures
            final(self)@ == without_id(old(self)@, id),
            old(self).wf() ==> final(self).wf(),
    {
        let mut kept: Vec<(u64, Vec<u8>)> = Vec::new();
        let mut i: usize = 0;
        proof {
            assert(old(self)@.take(0) =~= Seq::<(u64, Seq<u8>)>::empty());
        }
        while i < self.entries.len()
            invariant
                i <= self.entries@.len(),
                self.entries@ == old(self).entries@,
                self@ == old(self)@,
                self@.len() == self.entries@.len(),
                Seq::new(kept@.len(), |k: int| (kept@[k].0, kept@[k].1@)) == without_id(
                    old(self)@.take(i as int),
                    id,
                ),
            decreases self.entries@.len() - i,
        {
            let ghost pre = Seq::new(kept@.len(), |k: int| (kept@[k].0, kept@[k].1@));
            let key = self.entries[i].0;
            if key != id {
                let name = copy_bytes_at(&self.entries, i);
                kept.push((key, name));
            }
            proof {
                let cur = old(self)@[i as int];
                assert(old(self)@.take(i + 1) =~= old(self)@.take(i as int) + seq![cur]);
                lemma_without_id_append(old(self)@.take(i as int), seq![cur], id);
                assert(seq![cur].len() == 1);
                assert(seq![cur][0] == cur);
                assert(seq![cur].drop_first() =~= Seq::<(u64, Seq<u8>)>::empty());
                assert(without_id(Seq::<(u64, Seq<u8>)>::empty(), id) =~= Seq::<(
                    u64,
                    Seq<u8>,
                )>::empty());
                if cur.0 == id {
                    assert(without_id(seq![cur], id) =~= Seq::<(u64, Seq<u8>)>::empty());
                    assert(Seq::new(kept@.len(), |k: int| (kept@[k].0, kept@[k].1@)) =~= without_id(
                        old(self)@.take(i + 1),
                        id,
                    ));
                } else {
                    assert(without_id(seq![cur], id) =~= seq![cur]);
                    assert(Seq::new(kept@.len(), |k: int| (kept@[k].0, kept@[k].1@)) =~= pre + seq![
                        cur,
                    ]);
                    assert(Seq::new(kept@.len(), |k: int| (kept@[k].0, kept@[k].1@)) =~= without_id(
                        old(self)@.take(i + 1),
                        id,
                    ));
                }
            }
            i = i + 1;
        }
        proof {
            assert(old(self)@.take(old(self)@.len() as int) =~= old(self)@);
        }
        self.entries = kept;
        proof {
            lemma_without_id_props(old(self)@, id);
        }
    }

    /// Writes or overwrites the entry for `id`. A re-registration moves the
    /// entry to the end of the iteration order.
    pub fn upsert(&mut self, id: u64, name: Vec<u8>)
        ensures
            final(self)@ == without_id(old(self)@, id).push((id, name@)),
            old(self).wf() ==> final(self).wf(),
    {
        self.remove(id);
        let ghost mid = self@;
        self.entries.push((id, name));
        proof {
            assert(self@ =~= mid.push((id, name@)));
            lemma_without_id_props(old(self)@, id);
            if old(self).wf() {
                assert(uniq_ids(mid.push((id, name@)))) by {
                    let s2 = mid.push((id, name@));
                    if !uniq_ids(s2) {
                        let (i, j) = choose|i: int, j: int|
                            0 <= i < j < s2.len() && s2[i].0 == s2[j].0;
                        if j < mid.len() {
                        } else {
                            assert(mid[i].0 == id);
                            assert(has_id(mid, id));
                        }
                    }
                }
            }
        }
    }

    /// The roster snapshot: every display name, in iteration order.
    pub fn snapshot(&self) -> (r: Vec<Vec<u8>>)
        ensures
            crate::codec::deep(r@) == names_of(self@),
    {
        let mut out: Vec<Vec<u8>> = Vec::new();
        let mut i: usize = 0;
        while i < self.entries.len()
            invariant
                i <= self.entries@.len(),
                self@.len() == self.entries@.len(),
                out@.len() == i,
                forall|k: int| 0 <= k < i ==> out@[k]@ == self@[k].1,
            decreases self.entries@.len() - i,
        {
            let name = copy_bytes_at(&self.entries, i);
            out.push(name);
            i = i + 1;
        }
        proof {
            assert(crate::codec::deep(out@) =~= names_of(self@));
        }
        out
    }
}

/// Copies the name bytes of the entry at `i`.
fn copy_bytes_at(entries: &Vec<(u64, Vec<u8>)>, i: usize) -> (r: Vec<u8>)
    requires
        i < entries@.len(),
    ensures
        r@ == entries@[i as int].1@,
{
    let src = &entries[i].1;
    let mut r: Vec<u8> = Vec::new();
    let mut j: usize = 0;
    while j < src.len()
        invariant
            j <= src@.len(),
            src@ == entries@[i as int].1@,
            r@ == src@.take(j as int),
        decreases src@.len() - j,
    {
        r.push(src[j]);
        proof {
            assert(src@.take(j + 1) =~= src@.take(j as int).push(src@[j as int]));
        }
        j = j + 1;
    }
    proof {
        assert(src@.take(src@.len() as int) =~= src@);
    }
    r
}

} // verus!
