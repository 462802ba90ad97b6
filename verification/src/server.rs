//! The session lifecycle and broadcast fabric: how a connection becomes a
//! named participant, how one participant's frame fans out to the others,
//! and how a disconnect is reflected in the shared roster.
//!
//! Every decision is made here, on plain values; the surrounding process
//! performs the network reads and writes and hands frames and clock
//! readings in.
use crate::codec::{
    dec_digits, decode, encode, encode_meta, spec_decode, spec_decode_meta, spec_encode,
    spec_encode_meta, deep,
    EnvModel, Envelope, MessageMeta, MetaModel,
};
use crate::hub::{clone_bytes, has_sub, push_drop, without_sub, Hub};
use crate::roster::{has_id, names_of, without_id, Roster};
use vstd::prelude::*;

verus! {

/// Per-connection state: the connection's identity and its current display
/// name. The name starts as a generated guest tag and is overwritten by a
/// successful registration.
pub struct Session {
    pub id: u64,
    pub name: Vec<u8>,
}

/// The generated default display name for a connection: `guest-` and the
/// identity in decimal.
pub open spec fn guest_name(id: u64) -> Seq<u8> {
    seq![103u8, 117, 101, 115, 116, 45] + dec_digits(id)
}

/// The `users` broadcast frame for a roster state.
pub open spec fn users_frame(r: Seq<(u64, Seq<u8>)>) -> Seq<u8> {
    spec_encode(EnvModel::Users { names: names_of(r) })
}

/// The re-broadcast frame for one chat message: a `message` envelope whose
/// payload is the encoded metadata.
pub open spec fn message_frame(from: Seq<u8>, payload: Seq<u8>, now: u64) -> Seq<u8> {
    spec_encode(
        EnvModel::Message {
            payload: spec_encode_meta(MetaModel { from, message: payload, time: now }),
        },
    )
}

/// One publish happened between two hub states: every subscription kept its
/// place and received `f` at the tail of its queue, oldest-dropped at
/// capacity.
pub open spec fn hub_published(
    pre: Seq<(u64, Seq<Seq<u8>>)>,
    post: Seq<(u64, Seq<Seq<u8>>)>,
    f: Seq<u8>,
    cap: nat,
) -> bool {
    &&& post.len() == pre.len()
    &&& forall|k: int|
        0 <= k < pre.len() ==> #[trigger] post[k] == (pre[k].0, push_drop(pre[k].1, f, cap))
}

/// Builds the generated guest name for a connection identity.
pub fn make_guest_name(id: u64) -> (r: Vec<u8>)
    ensures
        r@ == guest_name(id),
{
    let mut v: Vec<u8> = Vec::new();
    v.push(103);
    v.push(117);
    v.push(101);
    v.push(115);
    v.push(116);
    v.push(45);
    proof {
        assert(v@ =~= seq![103u8, 117, 101, 115, 116, 45]);
    }
    crate::codec::push_dec(&mut v, id);
    v
}

/// The in-process chat hub: the roster of registered sessions and the
/// broadcast fan-out to every connected session.
pub struct ChatServer {
    pub roster: Roster,
    pub hub: Hub,
}

impl ChatServer {
    pub open spec fn wf(&self) -> bool {
        &&& self.roster.wf()
        &&& self.hub.wf()
    }

    /// A server with no sessions and the given per-subscriber queue bound.
    pub fn new(cap: usize) -> (s: ChatServer)
        requires
            cap >= 1,
        ensures
            s.wf(),
            s.roster@ == Seq::<(u64, Seq<u8>)>::empty(),
            s.hub@ == Seq::<(u64, Seq<Seq<u8>>)>::empty(),
            s.hub.capacity() == cap,
    {
        ChatServer { roster: Roster::new(), hub: Hub::new(cap) }
    }

    /// Accepts a connection: subscribes it to the broadcast fan-out and
    /// hands back its session state under a generated guest name. The
    /// roster is untouched until the session registers.
    pub fn connect(&mut self, id: u64) -> (s: Session)
        requires
            old(self).wf(),
            !has_sub(old(self).hub@, id),
        ensures
            final(self).wf(),
            final(self).hub.capacity() == old(self).hub.capacity(),
            s.id == id,
            s.name@ == guest_name(id),
            final(self).roster@ == old(self).roster@,
            final(self).hub@ == old(self).hub@.push((id, Seq::<Seq<u8>>::empty())),
    {
        self.hub.subscribe(id);
        let name = make_guest_name(id);
        Session { id, name }
    }

    /// Takes the current roster snapshot and publishes it as a `users`
    /// frame to every subscriber.
    fn notify_users(&mut self)
        requires
            old(self).wf(),
        ensures
            final(self).wf(),
            final(self).hub.capacity() == old(self).hub.capacity(),
            final(self).roster@ == old(self).roster@,
            hub_published(
                old(self).hub@,
                final(self).hub@,
                users_frame(old(self).roster@),
                old(self).hub.capacity(),
            ),
    {
        let names = self.roster.snapshot();
        let env = Envelope::Users { names };
        let f = encode(&env);
        proof {
            assert(f@ == users_frame(self.roster@));
        }
        self.hub.publish(&f);
    }

    /// Drives one received text frame through the protocol:
    /// a `register` stores the name in the session, writes the roster entry
    /// and broadcasts the new roster; a `message` is re-wrapped with the
    /// sender's name and the given clock reading and broadcast; a `users`
    /// frame from a client, like anything malformed, is ignored — the
    /// session stays connected and no state changes.
    pub fn handle_frame(&mut self, session: &mut Session, frame: &Vec<u8>, now: u64)
        requires
            old(self).wf(),
        ensures
            final(self).wf(),
            final(self).hub.capacity() == old(self).hub.capacity(),
            final(session).id == old(session).id,
            match spec_decode(frame@) {
                Some(m) => match m {
                    EnvModel::Register { name } => {
                        &&& final(session).name@ == name
                        &&& final(self).roster@ == without_id(
                            old(self).roster@,
                            old(session).id,
                        ).push((old(session).id, name))
                        &&& hub_published(
                            old(self).hub@,
                            final(self).hub@,
                            users_frame(final(self).roster@),
                            old(self).hub.capacity(),
                        )
                    },
                    EnvModel::Message { payload } => {
                        &&& *final(session) == *old(session)
                        &&& final(self).roster@ == old(self).roster@
                        &&& hub_published(
                            old(self).hub@,
                            final(self).hub@,
                            message_frame(old(session).name@, payload, now),
                            old(self).hub.capacity(),
                        )
                    },
                    EnvModel::Users { names } => {
                        &&& *final(session) == *old(session)
                        &&& final(self).roster@ == old(self).roster@
                        &&& final(self).hub@ == old(self).hub@
                    },
                },
                None => {
                    &&& *final(session) == *old(session)
                    &&& final(self).roster@ == old(self).roster@
                    &&& final(self).hub@ == old(self).hub@
                },
            },
    {
        match decode(frame) {
            Some(Envelope::Register { name }) => {
                session.name = clone_bytes(&name);
                self.roster.upsert(session.id, name);
                self.notify_users();
            },
            Some(Envelope::Message { payload }) => {
                let meta = MessageMeta {
                    from: clone_bytes(&session.name),
                    message: payload,
                    time: now,
                };
                let inner = encode_meta(&meta);
                let env = Envelope::Message { payload: inner };
                let f = encode(&env);
                proof {
                    assert(f@ == message_frame(old(session).name@, meta.message@, now));
                }
                self.hub.publish(&f);
            },
            Some(Envelope::Users { names: _ }) => {},
            None => {},
        }
    }

    /// Tears a session down: releases its subscription, removes its roster
    /// entry (a no-op if already absent) and broadcasts the new roster to
    /// the remaining sessions. Safe to call twice for the same identity.
    pub fn disconnect(&mut self, id: u64)
        requires
            old(self).wf(),
        ensures
            final(self).wf(),
            final(self).hub.capacity() == old(self).hub.capacity(),
            final(self).roster@ == without_id(old(self).roster@, id),
            !has_id(final(self).roster@, id),
            !has_sub(final(self).hub@, id),
            hub_published(
                without_sub(old(self).hub@, id),
                final(self).hub@,
                users_frame(final(self).roster@),
                old(self).hub.capacity(),
            ),
    {
        self.hub.unsubscribe(id);
        self.roster.remove(id);
        self.notify_users();
        proof {
            crate::roster::lemma_without_id_props(old(self).roster@, id);
            crate::hub::lemma_without_sub_props(old(self).hub@, id);
            assert forall|k: int| 0 <= k < final(self).hub@.len() implies final(self).hub@[k].0
                != id by {
                assert(final(self).hub@[k].0 == without_sub(old(self).hub@, id)[k].0);
            }
        }
    }

    /// Hands out the next frame queued for session `id`, oldest first.
    pub fn next_outbound(&mut self, id: u64) -> (r: Option<Vec<u8>>)
        requires
            old(self).wf(),
        ensures
            final(self).wf(),
            final(self).hub.capacity() == old(self).hub.capacity(),
            final(self).roster@ == old(self).roster@,
            match r {
                Some(f) => exists|k: int|
                    0 <= k < old(self).hub@.len() && old(self).hub@[k].0 == id && old(
                        self,
                    ).hub@[k].1.len() > 0 && f@ == old(self).hub@[k].1[0] && final(self).hub@ == old(
                        self,
                    ).hub@.update(k, (id, old(self).hub@[k].1.drop_first())),
                None => final(self).hub@ == old(self).hub@ && (!has_sub(old(self).hub@, id)
                    || exists|k: int|
                    0 <= k < old(self).hub@.len() && old(self).hub@[k].0 == id && old(
                        self,
                    ).hub@[k].1.len() == 0),
            },
    {
        self.hub.take_next(id)
    }
}

// ---------------------------------------------------------------------------
// Laws of the broadcast fabric.
// ---------------------------------------------------------------------------

/// Whenever the roster changes, the broadcast runs to every subscriber:
/// after the publish, every subscription's newest queued frame is the
/// `users` frame, and it decodes to exactly the roster's names at that
/// instant.
pub proof fn lemma_users_broadcast_newest(
    pre: Seq<(u64, Seq<Seq<u8>>)>,
    post: Seq<(u64, Seq<Seq<u8>>)>,
    r: Seq<(u64, Seq<u8>)>,
    cap: nat,
)
    requires
        hub_published(pre, post, users_frame(r), cap),
    ensures
        forall|k: int|
            0 <= k < post.len() ==> (#[trigger] post[k].1).len() > 0 && post[k].1.last()
                == users_frame(r),
        spec_decode(users_frame(r)) == Some(EnvModel::Users { names: names_of(r) }),
{
    crate::codec::lemma_round_trip(EnvModel::Users { names: names_of(r) });
    assert forall|k: int| 0 <= k < post.len() implies (#[trigger] post[k].1).len() > 0
        && post[k].1.last() == users_frame(r) by {
        assert(post[k].1 == push_drop(pre[k].1, users_frame(r), cap));
    }
}

/// A re-broadcast chat message carries exactly the sender's name, the raw
/// text and the clock reading it was stamped with.
pub proof fn lemma_message_frame_exact(from: Seq<u8>, payload: Seq<u8>, now: u64)
    ensures
        spec_decode(message_frame(from, payload, now)) == Some(
            EnvModel::Message {
                payload: spec_encode_meta(MetaModel { from, message: payload, time: now }),
            },
        ),
        spec_decode_meta(spec_encode_meta(MetaModel { from, message: payload, time: now }))
            == Some(MetaModel { from, message: payload, time: now }),
{
    crate::codec::lemma_round_trip(
        EnvModel::Message {
            payload: spec_encode_meta(MetaModel { from, message: payload, time: now }),
        },
    );
    crate::codec::lemma_meta_round_trip(MetaModel { from, message: payload, time: now });
}

/// Successive messages from one sender, stamped with non-decreasing clock
/// readings, decode to metadata with non-decreasing times.
pub proof fn lemma_message_time_monotone(
    from: Seq<u8>,
    p1: Seq<u8>,
    p2: Seq<u8>,
    t1: u64,
    t2: u64,
)
    requires
        t1 <= t2,
    ensures
        ({
            let m1 = spec_decode_meta(spec_encode_meta(MetaModel { from, message: p1, time: t1 }));
            let m2 = spec_decode_meta(spec_encode_meta(MetaModel { from, message: p2, time: t2 }));
            &&& m1 == Some(MetaModel { from, message: p1, time: t1 })
            &&& m2 == Some(MetaModel { from, message: p2, time: t2 })
            &&& m1.unwrap().time <= m2.unwrap().time
        }),
{
    crate::codec::lemma_meta_round_trip(MetaModel { from, message: p1, time: t1 });
    crate::codec::lemma_meta_round_trip(MetaModel { from, message: p2, time: t2 });
}

} // verus!
