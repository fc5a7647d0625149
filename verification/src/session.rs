//! Session controller: the non-reentrant begin/end contract.
//!
//! A *session* is one begin/end cycle, carrying one complete log record to
//! every active connection.  The controller owns the session flag (Idle or
//! Active) and the registry; it migrates pending connections into the active
//! set at both session boundaries, so a connection accepted mid-session is
//! never handed a truncated frame, and it drives the broadcast writer for the
//! frame-start marker, the emitted payloads and the frame-end marker.
//! Calling `begin_session` while a session is already open is a fatal
//! contract violation, modeled as an error value on which nothing is
//! broadcast; the embedding program is expected to terminate on it.

use vstd::prelude::*;
use crate::codec::{end_mark, start_mark, write_chunk};
use crate::registry::{
    broadcast_end, broadcast_start, broadcast_write, ids_of, Chunk, Connection, Registry,
};

verus! {

/// The process-wide session flag: transitions Idle to Active (`begin_session`)
/// and Active to Idle (`end_session`) only.
pub enum SessionState {
    Idle,
    Active,
}

/// A fatal violation of the calling contract.
#[derive(Debug)]
pub enum SessionFault {
    /// `begin_session` was called while a session was already open.
    ReentrantBegin,
}

/// The concatenated codec output for the payloads emitted into one frame, in
/// emission order: each payload's chunk is a function of the payload bytes
/// already in the frame and of the payload itself.
pub open spec fn chunks_out(ps: Seq<Seq<u8>>) -> Seq<u8>
    decreases ps.len(),
{
    if ps.len() == 0 {
        Seq::<u8>::empty()
    } else {
        chunks_out(ps.drop_last()) + write_chunk(ps.drop_last().flatten(), ps.last())
    }
}

/// The full byte stream one connection is handed over one session in which
/// the given payloads were emitted: the frame-start bytes (the initial
/// separator if this is the connection's first frame), the encoded payloads
/// in emission order, and the frame-end bytes.
pub open spec fn session_bytes(fresh: bool, payloads: Seq<Seq<u8>>) -> Seq<u8> {
    start_mark(!fresh) + chunks_out(payloads) + end_mark(payloads.flatten())
}

/// Appending one payload appends its chunk to the frame's codec output.
proof fn lemma_chunks_out_push(ps: Seq<Seq<u8>>, d: Seq<u8>)
    ensures
        chunks_out(ps.push(d)) == chunks_out(ps) + write_chunk(ps.flatten(), d),
{
    assert(ps.push(d).drop_last() =~= ps);
    assert(ps.push(d).last() == d);
}

pub struct Session {
    state: SessionState,
    reg: Registry,
    payloads: Ghost<Seq<Seq<u8>>>,
}

impl Session {
    /// The session flag.
    pub closed spec fn state(&self) -> SessionState {
        self.state
    }

    /// The connection registry.
    pub closed spec fn reg(&self) -> Registry {
        self.reg
    }

    /// The payloads emitted so far in the open session, in emission order.
    pub closed spec fn payloads(&self) -> Seq<Seq<u8>> {
        self.payloads@
    }

    /// The active connections, in admission order.
    pub open spec fn active_conns(&self) -> Seq<Connection> {
        self.reg().actives()
    }

    /// The pending connections, in accept order.
    pub open spec fn pending_conns(&self) -> Seq<Connection> {
        self.reg().pendings()
    }

    /// Controller invariant.  On top of the registry's own invariant: while
    /// Idle no active connection has an open frame; while Active every active
    /// connection has an open frame that has seen exactly the session's
    /// payloads, and has been handed exactly the frame-start bytes followed
    /// by the encoded payloads.
    pub open spec fn wf(&self) -> bool {
        &&& self.reg().wf()
        &&& match self.state() {
            SessionState::Idle => forall|i: int|
                0 <= i < self.active_conns().len() ==> {
                    &&& !(#[trigger] self.active_conns()[i]).codec().in_frame()
                    &&& self.active_conns()[i].codec().frame() == Seq::<u8>::empty()
                },
            SessionState::Active => forall|i: int|
                0 <= i < self.active_conns().len() ==> {
                    &&& (#[trigger] self.active_conns()[i]).codec().in_frame()
                    &&& self.active_conns()[i].codec().started()
                    &&& self.active_conns()[i].codec().frame() == self.payloads().flatten()
                    &&& self.active_conns()[i].sent() == start_mark(
                        !self.active_conns()[i].fresh(),
                    ) + chunks_out(self.payloads())
                },
        }
    }

    pub fn new() -> (s: Session)
        ensures
            s.wf(),
            s.state() is Idle,
            s.active_conns() == Seq::<Connection>::empty(),
            s.pending_conns() == Seq::<Connection>::empty(),
    {
        Session {
            state: SessionState::Idle,
            reg: Registry::new(),
            payloads: Ghost(Seq::<Seq<u8>>::empty()),
        }
    }

    /// Whether a session is currently open.
    pub fn is_active(&self) -> (b: bool)
        ensures
            b == (self.state() is Active),
    {
        match self.state {
            SessionState::Active => true,
            SessionState::Idle => false,
        }
    }

    /// Whether another connection can still be admitted (the handle counter
    /// has not been exhausted).
    pub fn can_admit(&self) -> (b: bool)
        ensures
            b == (self.reg().next_id() < u64::MAX),
    {
        self.reg.can_admit()
    }

    /// The handles of the active connections, in admission order.
    pub fn active_ids(&self) -> (ids: Vec<u64>)
        ensures
            ids@ == ids_of(self.active_conns()),
    {
        self.reg.active_handles()
    }

    /// The handles of the pending connections, in accept order.
    pub fn pending_ids(&self) -> (ids: Vec<u64>)
        ensures
            ids@ == ids_of(self.pending_conns()),
    {
        self.reg.pending_handles()
    }

    /// Admits a newly accepted connection into *pending* and returns its
    /// handle.  May be called at any time; the connection takes no part in an
    /// in-flight session and becomes active at the next session boundary.
    pub fn admit_pending(&mut self) -> (id: u64)
        requires
            old(self).wf(),
            old(self).reg().next_id() < u64::MAX,
        ensures
            final(self).wf(),
            final(self).state() == old(self).state(),
            final(self).payloads() == old(self).payloads(),
            final(self).active_conns() == old(self).active_conns(),
            final(self).pending_conns().len() == old(self).pending_conns().len() + 1,
            final(self).pending_conns().drop_last() == old(self).pending_conns(),
            final(self).pending_conns().last().id() == id,
            final(self).pending_conns().last().sent() == Seq::<u8>::empty(),
            id == old(self).reg().next_id(),
            final(self).reg().next_id() == old(self).reg().next_id() + 1,
    {
        let id = self.reg.admit_pending();
        proof {
            assert(self.active_conns() == old(self).active_conns());
            assert forall|i: int|
                0 <= i < self.active_conns().len() implies #[trigger] self.active_conns()[i]
                == old(self).active_conns()[i] by {}
        }
        id
    }

    /// Opens a session.  If one is already open this is a fatal contract
    /// violation: the fault is returned, nothing is broadcast and nothing
    /// changes.  Otherwise the flag goes to Active, pending connections are
    /// promoted into the active set, and the plan delivers each active
    /// connection its frame-start bytes.
    pub fn begin_session(&mut self) -> (r: Result<Vec<Chunk>, SessionFault>)
        requires
            old(self).wf(),
        ensures
            final(self).wf(),
            old(self).state() is Active ==> {
                &&& r is Err
                &&& r->Err_0 is ReentrantBegin
                &&& *final(self) == *old(self)
            },
            old(self).state() is Idle ==> {
                &&& r is Ok
                &&& final(self).state() is Active
                &&& final(self).payloads() == Seq::<Seq<u8>>::empty()
                &&& final(self).pending_conns() == Seq::<Connection>::empty()
                &&& final(self).active_conns().len() == old(self).active_conns().len() + old(self).pending_conns().len()
                &&& forall|i: int|
                    0 <= i < final(self).active_conns().len() ==> {
                        &&& (#[trigger] final(self).active_conns()[i]).id() == (old(self).active_conns() + old(self).pending_conns())[i].id()
                        &&& final(self).active_conns()[i].fresh() == !(old(self).active_conns()
                            + old(self).pending_conns())[i].codec().started()
                        &&& final(self).active_conns()[i].sent() == start_mark(
                            (old(self).active_conns() + old(self).pending_conns())[i].codec().started(),
                        )
                    }
                &&& r->Ok_0@.len() == final(self).active_conns().len()
                &&& forall|i: int|
                    0 <= i < r->Ok_0@.len() ==> (#[trigger] r->Ok_0@[i]).id == final(self).active_conns()[i].id() && r->Ok_0@[i].bytes@ == start_mark(
                        !final(self).active_conns()[i].fresh(),
                    )
            },
    {
        match self.state {
            SessionState::Active => Err(SessionFault::ReentrantBegin),
            SessionState::Idle => {
                self.state = SessionState::Active;
                self.payloads = Ghost(Seq::<Seq<u8>>::empty());
                let ghost joined = old(self).active_conns() + old(self).pending_conns();
                self.reg.promote_pending_to_active();
                proof {
                    assert forall|i: int|
                        0 <= i < self.reg.actives().len() implies !(#[trigger] self.reg.actives()[i]).codec().in_frame() by {
                        assert(self.reg.actives()[i] == joined[i]);
                        if i < old(self).active_conns().len() {
                            assert(joined[i] == old(self).active_conns()[i]);
                        } else {
                            assert(joined[i] == old(self).pending_conns()[i - old(self).active_conns().len()]);
                        }
                    }
                }
                let plan = broadcast_start(&mut self.reg);
                proof {
                    broadcast use vstd::seq_lib::group_seq_properties;

                    assert(Seq::<Seq<u8>>::empty().flatten() =~= Seq::<u8>::empty());
                    assert(chunks_out(Seq::<Seq<u8>>::empty()) == Seq::<u8>::empty());
                    assert forall|i: int|
                        0 <= i < self.active_conns().len() implies {
                        &&& (#[trigger] self.active_conns()[i]).codec().in_frame()
                        &&& self.active_conns()[i].codec().started()
                        &&& self.active_conns()[i].codec().frame() == self.payloads().flatten()
                        &&& self.active_conns()[i].sent() == start_mark(
                            !self.active_conns()[i].fresh(),
                        ) + chunks_out(self.payloads())
                        &&& self.active_conns()[i].id() == joined[i].id()
                        &&& self.active_conns()[i].fresh() == !joined[i].codec().started()
                        &&& self.active_conns()[i].sent() == start_mark(joined[i].codec().started())
                    } by {
                        assert(self.active_conns()[i].sent() == start_mark(
                            joined[i].codec().started(),
                        ));
                        assert(self.active_conns()[i].sent() + chunks_out(self.payloads())
                            =~= self.active_conns()[i].sent());
                    }
                }
                Ok(plan)
            },
        }
    }

    /// Emits one payload into the open session: every active connection's
    /// frame sees the payload, and the plan delivers each of them the bytes
    /// the codec emitted for it.  A call outside a session is a contract
    /// violation left to the caller to avoid.
    pub fn emit(&mut self, data: &[u8]) -> (plan: Vec<Chunk>)
        requires
            old(self).wf(),
            old(self).state() is Active,
        ensures
            final(self).wf(),
            final(self).state() is Active,
            final(self).payloads() == old(self).payloads().push(data@),
            final(self).pending_conns() == old(self).pending_conns(),
            final(self).active_conns().len() == old(self).active_conns().len(),
            forall|i: int|
                0 <= i < old(self).active_conns().len() ==> {
                    &&& (#[trigger] final(self).active_conns()[i]).id() == old(self).active_conns()[i].id()
                    &&& final(self).active_conns()[i].fresh() == old(self).active_conns()[i].fresh()
                    &&& final(self).active_conns()[i].sent() == old(self).active_conns()[i].sent()
                        + write_chunk(old(self).payloads().flatten(), data@)
                },
            plan@.len() == old(self).active_conns().len(),
            forall|i: int|
                0 <= i < plan@.len() ==> (#[trigger] plan@[i]).id == old(self).active_conns()[i].id()
                    && plan@[i].bytes@ == write_chunk(old(self).payloads().flatten(), data@),
    {
        let plan = broadcast_write(&mut self.reg, data);
        self.payloads = Ghost(self.payloads@.push(data@));
        proof {
            broadcast use vstd::seq_lib::group_seq_properties;

            lemma_chunks_out_push(old(self).payloads(), data@);
            old(self).payloads().lemma_flatten_push(data@);
            assert(self.payloads().flatten() == old(self).payloads().flatten() + data@);
            assert forall|i: int|
                0 <= i < self.active_conns().len() implies {
                &&& (#[trigger] self.active_conns()[i]).codec().in_frame()
                &&& self.active_conns()[i].codec().started()
                &&& self.active_conns()[i].codec().frame() == self.payloads().flatten()
                &&& self.active_conns()[i].sent() == start_mark(!self.active_conns()[i].fresh())
                    + chunks_out(self.payloads())
            } by {
                assert(old(self).active_conns()[i].codec().frame() == old(self).payloads().flatten());
                assert(self.active_conns()[i].codec().frame() == old(self).payloads().flatten()
                    + data@);
                assert(self.active_conns()[i].sent() == (start_mark(
                    !old(self).active_conns()[i].fresh(),
                ) + chunks_out(old(self).payloads())) + write_chunk(
                    old(self).payloads().flatten(),
                    data@,
                ));
                assert((start_mark(!old(self).active_conns()[i].fresh()) + chunks_out(
                    old(self).payloads(),
                )) + write_chunk(old(self).payloads().flatten(), data@) =~= start_mark(
                    !old(self).active_conns()[i].fresh(),
                ) + (chunks_out(old(self).payloads()) + write_chunk(
                    old(self).payloads().flatten(),
                    data@,
                )));
            }
        }
        plan
    }

    /// Closes the open session: the plan delivers each active connection its
    /// frame-end bytes, then the connections that arrived during the session
    /// are promoted into the active set, and the flag returns to Idle.  Over
    /// the whole session, every connection that was active for it has been
    /// handed exactly the full frame; a connection promoted only now was
    /// handed nothing.
    pub fn end_session(&mut self) -> (plan: Vec<Chunk>)
        requires
            old(self).wf(),
            old(self).state() is Active,
        ensures
            final(self).wf(),
            final(self).state() is Idle,
            final(self).pending_conns() == Seq::<Connection>::empty(),
            final(self).active_conns().len() == old(self).active_conns().len() + old(self).pending_conns().len(),
            forall|i: int|
                0 <= i < old(self).active_conns().len() ==> {
                    &&& (#[trigger] final(self).active_conns()[i]).id() == old(self).active_conns()[i].id()
                    &&& final(self).active_conns()[i].sent() == session_bytes(
                        old(self).active_conns()[i].fresh(),
                        old(self).payloads(),
                    )
                },
            forall|i: int|
                old(self).active_conns().len() <= i < final(self).active_conns().len() ==> {
                    &&& (#[trigger] final(self).active_conns()[i]).id() == old(self).pending_conns()[i - old(self).active_conns().len()].id()
                    &&& final(self).active_conns()[i].sent() == Seq::<u8>::empty()
                },
            plan@.len() == old(self).active_conns().len(),
            forall|i: int|
                0 <= i < plan@.len() ==> (#[trigger] plan@[i]).id == old(self).active_conns()[i].id()
                    && plan@[i].bytes@ == end_mark(old(self).payloads().flatten()),
    {
        let plan = broadcast_end(&mut self.reg);
        let ghost ended = self.reg.actives();
        self.reg.promote_pending_to_active();
        self.state = SessionState::Idle;
        proof {
            assert(self.reg.actives() == ended + old(self).pending_conns());
            assert forall|i: int|
                0 <= i < self.active_conns().len() implies {
                &&& !(#[trigger] self.active_conns()[i]).codec().in_frame()
                &&& self.active_conns()[i].codec().frame() == Seq::<u8>::empty()
            } by {
                if i < ended.len() {
                    assert(self.active_conns()[i] == ended[i]);
                } else {
                    assert(self.active_conns()[i] == old(self).pending_conns()[i - ended.len()]);
                }
            }
            assert forall|i: int|
                0 <= i < old(self).active_conns().len() implies {
                &&& (#[trigger] self.active_conns()[i]).id() == old(self).active_conns()[i].id()
                &&& self.active_conns()[i].sent() == session_bytes(
                    old(self).active_conns()[i].fresh(),
                    old(self).payloads(),
                )
            } by {
                assert(self.active_conns()[i] == ended[i]);
                assert(ended[i].sent() == old(self).active_conns()[i].sent() + end_mark(
                    old(self).active_conns()[i].codec().frame(),
                ));
                assert(old(self).active_conns()[i].sent() == start_mark(
                    !old(self).active_conns()[i].fresh(),
                ) + chunks_out(old(self).payloads()));
                assert((start_mark(!old(self).active_conns()[i].fresh()) + chunks_out(
                    old(self).payloads(),
                )) + end_mark(old(self).payloads().flatten()) =~= session_bytes(
                    old(self).active_conns()[i].fresh(),
                    old(self).payloads(),
                ));
            }
            assert forall|i: int|
                old(self).active_conns().len() <= i < self.active_conns().len() implies {
                &&& (#[trigger] self.active_conns()[i]).id() == old(self).pending_conns()[i - old(self).active_conns().len()].id()
                &&& self.active_conns()[i].sent() == Seq::<u8>::empty()
            } by {
                assert(self.active_conns()[i] == old(self).pending_conns()[i - ended.len()]);
            }
        }
        plan
    }

    /// Plans a socket-level flush: the handles of every active connection, in
    /// admission order.  Takes the controller by shared reference, so it never
    /// changes the session flag, the registry or any codec state, and may be
    /// called at any time, interleaved with `emit`.
    pub fn flush(&self) -> (ids: Vec<u64>)
        ensures
            ids@ == ids_of(self.active_conns()),
    {
        self.reg.active_handles()
    }

    /// Removes the connections whose sends failed or timed out from the
    /// active set.  No other connection is disturbed, delivery order is kept,
    /// and a removed handle is in neither collection afterwards.
    pub fn prune(&mut self, gone: &Vec<u64>)
        requires
            old(self).wf(),
        ensures
            final(self).wf(),
            final(self).state() == old(self).state(),
            final(self).payloads() == old(self).payloads(),
            final(self).pending_conns() == old(self).pending_conns(),
            final(self).active_conns() == old(self).active_conns().filter(
                crate::registry::keep_pred(gone@),
            ),
            forall|i: int|
                0 <= i < final(self).active_conns().len() ==> !gone@.contains(
                    (#[trigger] final(self).active_conns()[i]).id(),
                ),
            forall|i: int|
                0 <= i < old(self).active_conns().len() && !gone@.contains(
                    old(self).active_conns()[i].id(),
                ) ==> final(self).active_conns().contains(#[trigger] old(self).active_conns()[i]),
    {
        self.reg.remove(gone);
        proof {
            let orig = old(self).active_conns();
            let f = self.active_conns();
            match self.state() {
                SessionState::Idle => {
                    assert forall|i: int|
                        0 <= i < f.len() implies {
                        &&& !(#[trigger] f[i]).codec().in_frame()
                        &&& f[i].codec().frame() == Seq::<u8>::empty()
                    } by {
                        crate::registry::lemma_filter_elem_from(
                            orig,
                            crate::registry::keep_pred(gone@),
                            i,
                        );
                        let k = choose|k: int| 0 <= k < orig.len() && orig[k] == f[i];
                        assert(!orig[k].codec().in_frame());
                    }
                },
                SessionState::Active => {
                    assert forall|i: int|
                        0 <= i < f.len() implies {
                        &&& (#[trigger] f[i]).codec().in_frame()
                        &&& f[i].codec().started()
                        &&& f[i].codec().frame() == self.payloads().flatten()
                        &&& f[i].sent() == start_mark(!f[i].fresh()) + chunks_out(self.payloads())
                    } by {
                        crate::registry::lemma_filter_elem_from(
                            orig,
                            crate::registry::keep_pred(gone@),
                            i,
                        );
                        let k = choose|k: int| 0 <= k < orig.len() && orig[k] == f[i];
                        assert(orig[k].codec().in_frame());
                    }
                },
            }
        }
    }
}

/// The diagnostic a fatal fault carries.  The embedding program's panic hook
/// terminates the process with this message: verified code never aborts
/// itself, it models the abort as the fault value it returns.
pub fn defmt_panic(fault: &SessionFault) -> (msg: &'static str)
    ensures
        fault is ReentrantBegin ==> msg@ == "defmt logger taken reentrantly"@,
{
    match fault {
        SessionFault::ReentrantBegin => "defmt logger taken reentrantly",
    }
}

/// Law: while a session is open, any two connections in the active set whose
/// codecs entered the session equally fresh have been handed identical byte
/// streams, byte for byte.  (Two connections that differ in freshness differ
/// exactly by the codec's initial separator in front of the fresh one's
/// stream.)
pub proof fn lemma_uniform_delivery(s: &Session, i: int, j: int)
    requires
        s.wf(),
        s.state() is Active,
        0 <= i < s.active_conns().len(),
        0 <= j < s.active_conns().len(),
        s.active_conns()[i].fresh() == s.active_conns()[j].fresh(),
    ensures
        s.active_conns()[i].sent() == s.active_conns()[j].sent(),
{
    assert(s.active_conns()[i].sent() == start_mark(!s.active_conns()[i].fresh()) + chunks_out(
        s.payloads(),
    ));
    assert(s.active_conns()[j].sent() == start_mark(!s.active_conns()[j].fresh()) + chunks_out(
        s.payloads(),
    ));
}

/// Law: a pending connection has been handed no bytes at all: a connection
/// accepted while a session is in flight takes no part in that session.
pub proof fn lemma_pending_silent(s: &Session, i: int)
    requires
        s.wf(),
        0 <= i < s.pending_conns().len(),
    ensures
        s.pending_conns()[i].sent() == Seq::<u8>::empty(),
{
    assert(!s.pending_conns()[i].codec().started());
}

} // verus!
