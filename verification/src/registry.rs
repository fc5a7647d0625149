//! Connection registry: the two ordered collections of observer connections.
//!
//! *Pending* holds connections that were accepted but are not yet delivering
//! (insertion order is accept order); *active* holds the connections that
//! receive broadcasts (insertion order is admission order).  A connection
//! handle appears in exactly one of the two sequences, is never duplicated,
//! and never reappears once removed: handles are drawn from a counter that
//! only grows.

use vstd::prelude::*;
use crate::codec::{end_mark, start_mark, write_chunk, Codec};

verus! {

/// A live observer connection: a stable handle paired with its codec state.
///
/// The handle identifies the connection to the embedding program (which owns
/// the socket itself); it is assigned at admission time and is independent of
/// any network address.  `sent` is the ghost ledger of the bytes this
/// connection has been handed during the current session; `fresh` records
/// whether the current session is the first frame its codec ever produced.
pub struct Connection {
    pub(crate) id: u64,
    pub(crate) codec: Codec,
    pub(crate) sent: Ghost<Seq<u8>>,
    pub(crate) fresh: Ghost<bool>,
}

impl Connection {
    /// The stable handle of this connection.
    pub closed spec fn id(&self) -> u64 {
        self.id
    }

    /// This connection's codec state.
    pub closed spec fn codec(&self) -> Codec {
        self.codec
    }

    /// The bytes this connection has been handed during the current session.
    pub closed spec fn sent(&self) -> Seq<u8> {
        self.sent@
    }

    /// Whether the current session is the first frame this connection's codec
    /// ever produced.
    pub closed spec fn fresh(&self) -> bool {
        self.fresh@
    }
}

/// The handles of a sequence of connections, in the same order.
pub open spec fn ids_of(s: Seq<Connection>) -> Seq<u64> {
    s.map_values(|c: Connection| c.id())
}

/// The connections that survive a removal of the handles in `gone`.
pub open spec fn keep_pred(gone: Seq<u64>) -> spec_fn(Connection) -> bool {
    |c: Connection| !gone.contains(c.id())
}

/// Filtering a sequence of connections with pairwise distinct handles keeps
/// the handles pairwise distinct, and every surviving handle was present.
proof fn lemma_filter_keeps_distinct_ids(s: Seq<Connection>, pred: spec_fn(Connection) -> bool)
    requires
        forall|i: int, j: int| 0 <= i < j < s.len() ==> s[i].id() != s[j].id(),
    ensures
        forall|i: int, j: int|
            0 <= i < j < s.filter(pred).len() ==> s.filter(pred)[i].id() != s.filter(pred)[j].id(),
        forall|i: int|
            0 <= i < s.filter(pred).len() ==> exists|k: int|
                0 <= k < s.len() && s[k].id() == (#[trigger] s.filter(pred)[i]).id(),
    decreases s.len(),
{
    reveal(Seq::filter);
    if s.len() > 0 {
        let d = s.drop_last();
        lemma_filter_keeps_distinct_ids(d, pred);
        let f = s.filter(pred);
        let fd = d.filter(pred);
        assert forall|i: int|
            0 <= i < f.len() implies exists|k: int|
            0 <= k < s.len() && s[k].id() == (#[trigger] f[i]).id() by {
            if pred(s.last()) && i == f.len() - 1 {
                assert(s[s.len() - 1].id() == f[i].id());
            } else {
                assert(f[i] == fd[i]);
                let k = choose|k: int| 0 <= k < d.len() && d[k].id() == fd[i].id();
                assert(s[k].id() == f[i].id());
            }
        }
        assert forall|i: int, j: int|
            0 <= i < j < f.len() implies f[i].id() != f[j].id() by {
            if pred(s.last()) && j == f.len() - 1 {
                assert(f[i] == fd[i]);
                let k = choose|k: int| 0 <= k < d.len() && d[k].id() == fd[i].id();
                assert(s[k].id() == f[i].id());
                assert(s[k].id() != s[s.len() - 1].id());
            } else {
                assert(f[i] == fd[i]);
                assert(f[j] == fd[j]);
            }
        }
    }
}

/// Every element of a filtered sequence is an element of the original.
pub proof fn lemma_filter_elem_from(s: Seq<Connection>, pred: spec_fn(Connection) -> bool, i: int)
    requires
        0 <= i < s.filter(pred).len(),
    ensures
        exists|k: int| 0 <= k < s.len() && s[k] == s.filter(pred)[i],
    decreases s.len(),
{
    reveal(Seq::filter);
    if s.len() > 0 {
        let d = s.drop_last();
        let f = s.filter(pred);
        let fd = d.filter(pred);
        if pred(s.last()) && i == f.len() - 1 {
            assert(s[s.len() - 1] == f[i]);
        } else {
            assert(f[i] == fd[i]);
            lemma_filter_elem_from(d, pred, i);
            let k = choose|k: int| 0 <= k < d.len() && d[k] == fd[i];
            assert(s[k] == f[i]);
        }
    }
}

/// Whether `x` occurs in `v`.
fn contains_id(v: &Vec<u64>, x: u64) -> (b: bool)
    ensures
        b == v@.contains(x),
{
    let mut i: usize = 0;
    while i < v.len()
        invariant
            i <= v.len(),
            forall|j: int| 0 <= j < i ==> v@[j] != x,
        decreases v.len() - i,
    {
        if v[i] == x {
            return true;
        }
        i += 1;
    }
    false
}

pub struct Registry {
    pub(crate) pending: Vec<Connection>,
    pub(crate) active: Vec<Connection>,
    pub(crate) next_id: u64,
}

impl Registry {
    /// The pending connections, in accept order.
    pub closed spec fn pendings(&self) -> Seq<Connection> {
        self.pending@
    }

    /// The active connections, in admission order.
    pub closed spec fn actives(&self) -> Seq<Connection> {
        self.active@
    }

    /// The handle the next admitted connection will receive.
    pub closed spec fn next_id(&self) -> u64 {
        self.next_id
    }

    /// The handles of the pending connections, in accept order.
    pub open spec fn pending_ids(&self) -> Seq<u64> {
        ids_of(self.pendings())
    }

    /// The handles of the active connections, in admission order.
    pub open spec fn active_ids(&self) -> Seq<u64> {
        ids_of(self.actives())
    }

    /// All handles the registry currently holds, active first.
    pub open spec fn all_ids(&self) -> Seq<u64> {
        ids_of(self.actives() + self.pendings())
    }

    /// A pending connection has never delivered: its codec is unstarted, no
    /// frame is open, and its ledger is empty.
    pub open spec fn pending_quiet(&self) -> bool {
        forall|i: int|
            0 <= i < self.pendings().len() ==> {
                &&& !(#[trigger] self.pendings()[i]).codec().started()
                &&& !self.pendings()[i].codec().in_frame()
                &&& self.pendings()[i].codec().frame() == Seq::<u8>::empty()
                &&& self.pendings()[i].sent() == Seq::<u8>::empty()
            }
    }

    /// Registry invariant: every handle is below the counter and no handle
    /// occurs twice across the two collections, and pending connections are
    /// quiet.
    pub open spec fn wf(&self) -> bool {
        &&& forall|i: int| 0 <= i < self.all_ids().len() ==> #[trigger] self.all_ids()[i] < self.next_id()
        &&& forall|i: int, j: int|
            0 <= i < j < self.all_ids().len() ==> #[trigger] self.all_ids()[i] != #[trigger] self.all_ids()[j]
        &&& self.pending_quiet()
    }

    /// Well-formedness carries over to a registry with the same handles in
    /// *active*, the same *pending* connections, and the same counter.
    pub proof fn lemma_wf_same_ids(&self, other: &Registry)
        requires
            other.wf(),
            ids_of(self.actives()) == ids_of(other.actives()),
            self.pendings() == other.pendings(),
            self.next_id() == other.next_id(),
        ensures
            self.wf(),
    {
        let sa = self.actives();
        let oa = other.actives();
        let p = self.pendings();
        assert(ids_of(sa).len() == ids_of(oa).len());
        assert(sa.len() == oa.len());
        assert forall|m: int| 0 <= m < (sa + p).len() implies (#[trigger] self.all_ids()[m])
            == other.all_ids()[m] by {
            if m < sa.len() {
                assert(ids_of(sa)[m] == sa[m].id());
                assert(ids_of(oa)[m] == oa[m].id());
                assert((sa + p)[m] == sa[m]);
                assert((oa + p)[m] == oa[m]);
            } else {
                assert((sa + p)[m] == p[m - sa.len()]);
                assert((oa + p)[m] == p[m - oa.len()]);
            }
            assert(self.all_ids()[m] == (sa + p)[m].id());
            assert(other.all_ids()[m] == (oa + p)[m].id());
        }
        assert(self.all_ids() =~= other.all_ids());
        assert forall|i: int| 0 <= i < self.all_ids().len() implies #[trigger] self.all_ids()[i]
            < self.next_id() by {
            assert(other.all_ids()[i] < other.next_id());
        }
        assert forall|i: int, j: int| 0 <= i < j < self.all_ids().len() implies #[trigger] self
            .all_ids()[i] != #[trigger] self.all_ids()[j] by {
            assert(other.all_ids()[i] != other.all_ids()[j]);
        }
        assert forall|i: int| 0 <= i < self.pendings().len() implies {
            &&& !(#[trigger] self.pendings()[i]).codec().started()
            &&& !self.pendings()[i].codec().in_frame()
            &&& self.pendings()[i].codec().frame() == Seq::<u8>::empty()
            &&& self.pendings()[i].sent() == Seq::<u8>::empty()
        } by {
            assert(self.pendings()[i] == other.pendings()[i]);
        }
    }

    pub fn new() -> (r: Registry)
        ensures
            r.wf(),
            r.pendings() == Seq::<Connection>::empty(),
            r.actives() == Seq::<Connection>::empty(),
            r.next_id() == 0,
    {
        Registry { pending: Vec::new(), active: Vec::new(), next_id: 0 }
    }

    /// Appends a newly accepted connection to *pending* and returns its
    /// handle.  The connection starts quiet: unstarted codec, empty ledger.
    pub fn admit_pending(&mut self) -> (id: u64)
        requires
            old(self).wf(),
            old(self).next_id() < u64::MAX,
        ensures
            final(self).wf(),
            id == old(self).next_id(),
            final(self).next_id() == old(self).next_id() + 1,
            final(self).actives() == old(self).actives(),
            final(self).pendings().len() == old(self).pendings().len() + 1,
            final(self).pendings().drop_last() == old(self).pendings(),
            final(self).pendings().last().id() == id,
            final(self).pendings().last().sent() == Seq::<u8>::empty(),
            !final(self).pendings().last().codec().started(),
            !final(self).pendings().last().codec().in_frame(),
            final(self).pendings().last().codec().frame() == Seq::<u8>::empty(),
    {
        let id = self.next_id;
        self.next_id = id + 1;
        let c = Connection {
            id,
            codec: Codec::new(),
            sent: Ghost(Seq::<u8>::empty()),
            fresh: Ghost(false),
        };
        self.pending.push(c);
        proof {
            assert(self.pendings().drop_last() =~= old(self).pendings());
            assert(self.all_ids() =~= old(self).all_ids().push(id));
        }
        id
    }

    /// Atomically moves all of *pending* into *active*, preserving arrival
    /// order and clearing *pending*.  Called at every session boundary, so a
    /// connection accepted mid-session becomes eligible at the next boundary
    /// and is never handed a truncated frame.
    pub fn promote_pending_to_active(&mut self)
        requires
            old(self).wf(),
        ensures
            final(self).wf(),
            final(self).actives() == old(self).actives() + old(self).pendings(),
            final(self).pendings() == Seq::<Connection>::empty(),
            final(self).next_id() == old(self).next_id(),
    {
        while self.pending.len() > 0
            invariant
                old(self).wf(),
                self.next_id() == old(self).next_id(),
                self.actives() + self.pendings() == old(self).actives() + old(self).pendings(),
                self.pending_quiet(),
            decreases self.pending.len(),
        {
            let ghost prev = *self;
            let c = self.pending.remove(0);
            self.active.push(c);
            proof {
                assert(self.actives() + self.pendings()
                    =~= prev.actives() + prev.pendings());
                assert forall|i: int| 0 <= i < self.pendings().len() implies {
                    &&& !(#[trigger] self.pendings()[i]).codec().started()
                    &&& !self.pendings()[i].codec().in_frame()
                    &&& self.pendings()[i].codec().frame() == Seq::<u8>::empty()
                    &&& self.pendings()[i].sent() == Seq::<u8>::empty()
                } by {
                    assert(self.pendings()[i] == prev.pendings()[i + 1]);
                }
            }
        }
        proof {
            assert(self.pendings() =~= Seq::<Connection>::empty());
            assert(self.actives() =~= old(self).actives() + old(self).pendings());
            assert(self.actives() + self.pendings()
                =~= old(self).actives() + old(self).pendings());
            assert(self.all_ids() == old(self).all_ids());
            assert forall|i: int| 0 <= i < self.all_ids().len() implies #[trigger] self.all_ids()[i]
                < self.next_id() by {
                assert(old(self).all_ids()[i] < old(self).next_id());
            }
            assert forall|i: int, j: int| 0 <= i < j < self.all_ids().len() implies #[trigger] self
                .all_ids()[i] != #[trigger] self.all_ids()[j] by {
                assert(old(self).all_ids()[i] != old(self).all_ids()[j]);
            }
        }
    }

    /// The handles of the active connections, in admission order, as a vector.
    pub fn active_handles(&self) -> (ids: Vec<u64>)
        ensures
            ids@ == self.active_ids(),
    {
        let mut ids: Vec<u64> = Vec::new();
        let mut i: usize = 0;
        while i < self.active.len()
            invariant
                i <= self.actives().len(),
                ids@ == self.active_ids().take(i as int),
            decreases self.actives().len() - i,
        {
            ids.push(self.active[i].id);
            proof {
                assert(self.active_ids()[i as int] == self.actives()[i as int].id());
                assert(ids@ =~= self.active_ids().take(i + 1));
            }
            i += 1;
        }
        proof {
            assert(ids@ =~= self.active_ids());
        }
        ids
    }

    /// The handles of the pending connections, in accept order, as a vector.
    pub fn pending_handles(&self) -> (ids: Vec<u64>)
        ensures
            ids@ == self.pending_ids(),
    {
        let mut ids: Vec<u64> = Vec::new();
        let mut i: usize = 0;
        while i < self.pending.len()
            invariant
                i <= self.pendings().len(),
                ids@ == self.pending_ids().take(i as int),
            decreases self.pendings().len() - i,
        {
            ids.push(self.pending[i].id);
            proof {
                assert(self.pending_ids()[i as int] == self.pendings()[i as int].id());
                assert(ids@ =~= self.pending_ids().take(i + 1));
            }
            i += 1;
        }
        proof {
            assert(ids@ =~= self.pending_ids());
        }
        ids
    }

    /// Whether another connection can still be admitted (the handle counter
    /// has not been exhausted).
    pub fn can_admit(&self) -> (b: bool)
        ensures
            b == (self.next_id() < u64::MAX),
    {
        self.next_id < u64::MAX
    }

    /// Drops the connections with the given handles from *active*, leaving
    /// every other connection in place and in order.  Closing the dropped
    /// sockets is the embedding program's part; a dropped handle never
    /// reappears, since handles are never reissued.
    pub fn remove(&mut self, gone: &Vec<u64>)
        requires
            old(self).wf(),
        ensures
            final(self).wf(),
            final(self).next_id() == old(self).next_id(),
            final(self).pendings() == old(self).pendings(),
            final(self).actives() == old(self).actives().filter(keep_pred(gone@)),
            forall|i: int|
                0 <= i < final(self).actives().len() ==> !gone@.contains(
                    (#[trigger] final(self).actives()[i]).id(),
                ),
            forall|i: int|
                0 <= i < old(self).actives().len() && !gone@.contains(old(self).actives()[i].id())
                    ==> final(self).actives().contains(#[trigger] old(self).actives()[i]),
    {
        let ghost orig = old(self).actives();
        let ghost pred = keep_pred(gone@);
        let mut kept: Vec<Connection> = Vec::new();
        while self.active.len() > 0
            invariant
                old(self).wf(),
                orig == old(self).actives(),
                self.pendings() == old(self).pendings(),
                self.next_id() == old(self).next_id(),
                self.actives().len() <= orig.len(),
                self.actives() == orig.skip(orig.len() - self.actives().len()),
                pred == keep_pred(gone@),
                kept@ == orig.take(orig.len() - self.actives().len()).filter(pred),
            decreases self.active.len(),
        {
            let ghost k = orig.len() - self.actives().len();
            let c = self.active.remove(0);
            proof {
                assert(c == orig[k]);
                assert(self.actives() =~= orig.skip(k + 1));
                assert(orig.take(k + 1) =~= orig.take(k) + seq![orig[k]]);
                Seq::filter_distributes_over_add(orig.take(k), seq![orig[k]], pred);
                reveal_with_fuel(Seq::filter, 2);
                assert(seq![orig[k]].drop_last() =~= Seq::<Connection>::empty());
                assert(seq![orig[k]].filter(pred) == if pred(orig[k]) {
                    seq![orig[k]]
                } else {
                    Seq::<Connection>::empty()
                });
            }
            if !contains_id(gone, c.id) {
                kept.push(c);
                proof {
                    assert(pred(orig[k]));
                    assert(kept@ =~= orig.take(k).filter(pred) + seq![orig[k]]);
                    assert(kept@ == orig.take(k + 1).filter(pred));
                }
            } else {
                proof {
                    assert(!pred(orig[k]));
                    assert(orig.take(k).filter(pred) + Seq::<Connection>::empty()
                        =~= orig.take(k).filter(pred));
                    assert(kept@ == orig.take(k + 1).filter(pred));
                }
            }
        }
        self.active = kept;
        proof {
            assert(orig.take(orig.len() as int) =~= orig);
            let f = orig.filter(pred);
            assert(self.actives() == f);
            let pend = self.pendings();
            assert forall|i: int, j: int| 0 <= i < j < orig.len() implies orig[i].id()
                != orig[j].id() by {
                assert(old(self).all_ids()[i] == (orig + pend)[i].id());
                assert(old(self).all_ids()[j] == (orig + pend)[j].id());
            }
            lemma_filter_keeps_distinct_ids(orig, pred);
            assert forall|i: int|
                0 <= i < self.actives().len() implies !gone@.contains(
                (#[trigger] self.actives()[i]).id(),
            ) by {
                Seq::lemma_filter_pred(orig, pred, i);
            }
            assert forall|i: int|
                0 <= i < orig.len() && !gone@.contains(orig[i].id()) implies self
                .actives()
                .contains(#[trigger] orig[i]) by {
                Seq::lemma_filter_contains(orig, pred, i);
            }
            let al = self.actives() + self.pendings();
            assert forall|i: int| 0 <= i < self.all_ids().len() implies #[trigger] self.all_ids()[i]
                < self.next_id() by {
                assert(self.all_ids()[i] == al[i].id());
                if i < f.len() {
                    let k = choose|k: int|
                        0 <= k < orig.len() && orig[k].id() == (#[trigger] f[i]).id();
                    assert(old(self).all_ids()[k] == (orig + pend)[k].id());
                } else {
                    assert(al[i] == pend[i - f.len()]);
                    assert(old(self).all_ids()[orig.len() + (i - f.len())] == (orig + pend)[orig.len()
                        + (i - f.len())].id());
                }
            }
            assert forall|i: int, j: int| 0 <= i < j < self.all_ids().len() implies #[trigger] self
                .all_ids()[i] != #[trigger] self.all_ids()[j] by {
                assert(self.all_ids()[i] == al[i].id());
                assert(self.all_ids()[j] == al[j].id());
                if j < f.len() {
                    assert(al[i] == f[i]);
                    assert(al[j] == f[j]);
                } else if i >= f.len() {
                    assert(al[i] == pend[i - f.len()]);
                    assert(al[j] == pend[j - f.len()]);
                    assert(old(self).all_ids()[orig.len() + (i - f.len())] == (orig + pend)[orig.len()
                        + (i - f.len())].id());
                    assert(old(self).all_ids()[orig.len() + (j - f.len())] == (orig + pend)[orig.len()
                        + (j - f.len())].id());
                } else {
                    assert(al[i] == f[i]);
                    assert(al[j] == pend[j - f.len()]);
                    let k = choose|k: int|
                        0 <= k < orig.len() && orig[k].id() == (#[trigger] f[i]).id();
                    assert(old(self).all_ids()[k] == (orig + pend)[k].id());
                    assert(old(self).all_ids()[orig.len() + (j - f.len())] == (orig + pend)[orig.len()
                        + (j - f.len())].id());
                }
            }
        }
    }
}


//
// --- Broadcast writer ---
//
// The broadcast writer applies one codec operation to every active
// connection, in admission order, and returns the delivery plan: for each
// active connection, the bytes that must now be written to its socket.  The
// embedding program performs the socket writes and reports the handles whose
// write failed or timed out back through `Registry::remove`, so a failing
// connection never interrupts delivery to the rest and every remaining
// connection is attempted exactly once per broadcast.


/// One planned delivery: the bytes that must be written to the socket of the
/// connection with handle `id`.
pub struct Chunk {
    pub id: u64,
    pub bytes: Vec<u8>,
}

/// Opens a frame on every active connection and plans the frame-start bytes
/// for each.  Every connection's delivery ledger is restarted with exactly
/// those bytes.
pub fn broadcast_start(reg: &mut Registry) -> (plan: Vec<Chunk>)
    requires
        old(reg).wf(),
        forall|i: int|
            0 <= i < old(reg).actives().len() ==> !(#[trigger] old(reg).actives()[i]).codec().in_frame(),
    ensures
        final(reg).wf(),
        final(reg).pendings() == old(reg).pendings(),
        final(reg).next_id() == old(reg).next_id(),
        final(reg).actives().len() == old(reg).actives().len(),
        forall|i: int|
            0 <= i < old(reg).actives().len() ==> {
                &&& (#[trigger] final(reg).actives()[i]).id() == old(reg).actives()[i].id()
                &&& final(reg).actives()[i].codec().started()
                &&& final(reg).actives()[i].codec().in_frame()
                &&& final(reg).actives()[i].codec().frame() == Seq::<u8>::empty()
                &&& final(reg).actives()[i].fresh() == !old(reg).actives()[i].codec().started()
                &&& final(reg).actives()[i].sent() == start_mark(
                    old(reg).actives()[i].codec().started(),
                )
            },
        plan@.len() == old(reg).actives().len(),
        forall|i: int|
            0 <= i < plan@.len() ==> (#[trigger] plan@[i]).id == old(reg).actives()[i].id()
                && plan@[i].bytes@ == start_mark(old(reg).actives()[i].codec().started()),
{
    let ghost orig = old(reg).actives();
    let mut plan: Vec<Chunk> = Vec::new();
    let mut i: usize = 0;
    while i < reg.active.len()
        invariant
            old(reg).wf(),
            orig == old(reg).actives(),
            forall|j: int| 0 <= j < orig.len() ==> !(#[trigger] orig[j]).codec().in_frame(),
            reg.pendings() == old(reg).pendings(),
            reg.next_id() == old(reg).next_id(),
            reg.actives().len() == orig.len(),
            i <= orig.len(),
            plan@.len() == i,
            forall|j: int| i <= j < orig.len() ==> #[trigger] reg.actives()[j] == orig[j],
            forall|j: int|
                0 <= j < i ==> {
                    &&& (#[trigger] reg.actives()[j]).id() == orig[j].id()
                    &&& reg.actives()[j].codec().started()
                    &&& reg.actives()[j].codec().in_frame()
                    &&& reg.actives()[j].codec().frame() == Seq::<u8>::empty()
                    &&& reg.actives()[j].fresh() == !orig[j].codec().started()
                    &&& reg.actives()[j].sent() == start_mark(orig[j].codec().started())
                },
            forall|j: int|
                0 <= j < i ==> (#[trigger] plan@[j]).id == orig[j].id() && plan@[j].bytes@
                    == start_mark(orig[j].codec().started()),
        decreases orig.len() - i,
    {
        proof {
            assert(reg.actives()[i as int] == orig[i as int]);
        }
        let mut c = reg.active.remove(i);
        proof {
            assert(c == orig[i as int]);
        }
        let ghost was_started = c.codec().started();
        let bytes = c.codec.start_frame();
        c.fresh = Ghost(!was_started);
        c.sent = Ghost(start_mark(was_started));
        plan.push(Chunk { id: c.id, bytes });
        reg.active.insert(i, c);
        i += 1;
    }
    proof {
        assert(ids_of(reg.actives()) =~= ids_of(orig));
        reg.lemma_wf_same_ids(old(reg));
    }
    plan
}

/// Writes one payload into the open frame of every active connection and
/// plans the emitted bytes for each.  All open frames have seen the same
/// payloads, so all connections are handed the same chunk.
pub fn broadcast_write(reg: &mut Registry, data: &[u8]) -> (plan: Vec<Chunk>)
    requires
        old(reg).wf(),
        forall|i: int|
            0 <= i < old(reg).actives().len() ==> (#[trigger] old(reg).actives()[i]).codec().in_frame(),
    ensures
        final(reg).wf(),
        final(reg).pendings() == old(reg).pendings(),
        final(reg).next_id() == old(reg).next_id(),
        final(reg).actives().len() == old(reg).actives().len(),
        forall|i: int|
            0 <= i < old(reg).actives().len() ==> {
                &&& (#[trigger] final(reg).actives()[i]).id() == old(reg).actives()[i].id()
                &&& final(reg).actives()[i].codec().started() == old(reg).actives()[i].codec().started()
                &&& final(reg).actives()[i].codec().in_frame()
                &&& final(reg).actives()[i].codec().frame() == old(reg).actives()[i].codec().frame()
                    + data@
                &&& final(reg).actives()[i].fresh() == old(reg).actives()[i].fresh()
                &&& final(reg).actives()[i].sent() == old(reg).actives()[i].sent() + write_chunk(
                    old(reg).actives()[i].codec().frame(),
                    data@,
                )
            },
        plan@.len() == old(reg).actives().len(),
        forall|i: int|
            0 <= i < plan@.len() ==> (#[trigger] plan@[i]).id == old(reg).actives()[i].id()
                && plan@[i].bytes@ == write_chunk(old(reg).actives()[i].codec().frame(), data@),
{
    let ghost orig = old(reg).actives();
    let mut plan: Vec<Chunk> = Vec::new();
    let mut i: usize = 0;
    while i < reg.active.len()
        invariant
            old(reg).wf(),
            orig == old(reg).actives(),
            forall|j: int| 0 <= j < orig.len() ==> (#[trigger] orig[j]).codec().in_frame(),
            reg.pendings() == old(reg).pendings(),
            reg.next_id() == old(reg).next_id(),
            reg.actives().len() == orig.len(),
            i <= orig.len(),
            plan@.len() == i,
            forall|j: int| i <= j < orig.len() ==> #[trigger] reg.actives()[j] == orig[j],
            forall|j: int|
                0 <= j < i ==> {
                    &&& (#[trigger] reg.actives()[j]).id() == orig[j].id()
                    &&& reg.actives()[j].codec().started() == orig[j].codec().started()
                    &&& reg.actives()[j].codec().in_frame()
                    &&& reg.actives()[j].codec().frame() == orig[j].codec().frame() + data@
                    &&& reg.actives()[j].fresh() == orig[j].fresh()
                    &&& reg.actives()[j].sent() == orig[j].sent() + write_chunk(
                        orig[j].codec().frame(),
                        data@,
                    )
                },
            forall|j: int|
                0 <= j < i ==> (#[trigger] plan@[j]).id == orig[j].id() && plan@[j].bytes@
                    == write_chunk(orig[j].codec().frame(), data@),
        decreases orig.len() - i,
    {
        proof {
            assert(reg.actives()[i as int] == orig[i as int]);
        }
        let mut c = reg.active.remove(i);
        proof {
            assert(c == orig[i as int]);
        }
        let ghost prior = c.codec().frame();
        let bytes = c.codec.write(data);
        c.sent = Ghost(c.sent@ + write_chunk(prior, data@));
        plan.push(Chunk { id: c.id, bytes });
        reg.active.insert(i, c);
        i += 1;
    }
    proof {
        assert(ids_of(reg.actives()) =~= ids_of(orig));
        reg.lemma_wf_same_ids(old(reg));
    }
    plan
}

/// Closes the frame on every active connection and plans the frame-end bytes
/// for each.
pub fn broadcast_end(reg: &mut Registry) -> (plan: Vec<Chunk>)
    requires
        old(reg).wf(),
        forall|i: int|
            0 <= i < old(reg).actives().len() ==> (#[trigger] old(reg).actives()[i]).codec().in_frame(),
    ensures
        final(reg).wf(),
        final(reg).pendings() == old(reg).pendings(),
        final(reg).next_id() == old(reg).next_id(),
        final(reg).actives().len() == old(reg).actives().len(),
        forall|i: int|
            0 <= i < old(reg).actives().len() ==> {
                &&& (#[trigger] final(reg).actives()[i]).id() == old(reg).actives()[i].id()
                &&& final(reg).actives()[i].codec().started() == old(reg).actives()[i].codec().started()
                &&& !final(reg).actives()[i].codec().in_frame()
                &&& final(reg).actives()[i].codec().frame() == Seq::<u8>::empty()
                &&& final(reg).actives()[i].fresh() == old(reg).actives()[i].fresh()
                &&& final(reg).actives()[i].sent() == old(reg).actives()[i].sent() + end_mark(
                    old(reg).actives()[i].codec().frame(),
                )
            },
        plan@.len() == old(reg).actives().len(),
        forall|i: int|
            0 <= i < plan@.len() ==> (#[trigger] plan@[i]).id == old(reg).actives()[i].id()
                && plan@[i].bytes@ == end_mark(old(reg).actives()[i].codec().frame()),
{
    let ghost orig = old(reg).actives();
    let mut plan: Vec<Chunk> = Vec::new();
    let mut i: usize = 0;
    while i < reg.active.len()
        invariant
            old(reg).wf(),
            orig == old(reg).actives(),
            forall|j: int| 0 <= j < orig.len() ==> (#[trigger] orig[j]).codec().in_frame(),
            reg.pendings() == old(reg).pendings(),
            reg.next_id() == old(reg).next_id(),
            reg.actives().len() == orig.len(),
            i <= orig.len(),
            plan@.len() == i,
            forall|j: int| i <= j < orig.len() ==> #[trigger] reg.actives()[j] == orig[j],
            forall|j: int|
                0 <= j < i ==> {
                    &&& (#[trigger] reg.actives()[j]).id() == orig[j].id()
                    &&& reg.actives()[j].codec().started() == orig[j].codec().started()
                    &&& !reg.actives()[j].codec().in_frame()
                    &&& reg.actives()[j].codec().frame() == Seq::<u8>::empty()
                    &&& reg.actives()[j].fresh() == orig[j].fresh()
                    &&& reg.actives()[j].sent() == orig[j].sent() + end_mark(orig[j].codec().frame())
                },
            forall|j: int|
                0 <= j < i ==> (#[trigger] plan@[j]).id == orig[j].id() && plan@[j].bytes@
                    == end_mark(orig[j].codec().frame()),
        decreases orig.len() - i,
    {
        proof {
            assert(reg.actives()[i as int] == orig[i as int]);
        }
        let mut c = reg.active.remove(i);
        proof {
            assert(c == orig[i as int]);
        }
        let ghost prior = c.codec().frame();
        let bytes = c.codec.end_frame();
        c.sent = Ghost(c.sent@ + end_mark(prior));
        plan.push(Chunk { id: c.id, bytes });
        reg.active.insert(i, c);
        i += 1;
    }
    proof {
        assert(ids_of(reg.actives()) =~= ids_of(orig));
        reg.lemma_wf_same_ids(old(reg));
    }
    plan
}


} // verus!
