//! The worker correlation layer.
//!
//! A worker buffers each client's bytes while an assignment query is
//! outstanding, keyed by a worker-chosen client identifier. It may
//! pipeline several queries before reading any reply: every reply carries
//! the echoed identifier, so replies correlate correctly in whatever order
//! they arrive. Once a backend connection is open the worker records the
//! assignment, and keeps enough state to repair the coordinator's index
//! when a chosen backend turns out to be unreachable: one deregister for
//! the dead backend, and one release for every client still recorded
//! against it.

use vstd::prelude::*;

use crate::least_conn_server::key_eq;
use crate::protocol::Command;

verus! {

/// A client's buffered bytes, held while its assignment is outstanding.
pub struct PendingRequest {
    /// The worker-chosen identifier echoed by the coordinator.
    pub client_id: u32,
    /// The raw bytes received from the client so far.
    pub data: Vec<u8>,
}

/// A live record linking an open backend connection to the client it
/// serves and the backend it was opened to.
pub struct Assignment {
    /// The worker's identifier for the backend connection.
    pub conn_id: u32,
    /// The client the connection serves.
    pub client_id: u32,
    /// The 6-byte key of the backend.
    pub server: [u8; 6],
}

/// No two pending requests share a client identifier.
pub open spec fn distinct_ids(s: Seq<PendingRequest>) -> bool {
    forall|i: int, j: int| 0 <= i < j < s.len() ==> s[i].client_id != s[j].client_id
}

/// Whether some pending request carries `id`.
pub open spec fn has_pending(s: Seq<PendingRequest>, id: u32) -> bool {
    exists|i: int| 0 <= i < s.len() && s[i].client_id == id
}

/// The position of the pending request carrying `id`.
pub open spec fn pending_index(s: Seq<PendingRequest>, id: u32) -> int {
    choose|i: int| 0 <= i < s.len() && s[i].client_id == id
}

/// The buffered bytes of the pending request carrying `id`.
pub open spec fn pending_data(s: Seq<PendingRequest>, id: u32) -> Seq<u8> {
    s[pending_index(s, id)].data@
}

/// The pending table after the reply for `id` was consumed.
pub open spec fn taken(s: Seq<PendingRequest>, id: u32) -> Seq<PendingRequest> {
    s.remove(pending_index(s, id))
}

/// No two assignments share a backend connection.
pub open spec fn distinct_conns(s: Seq<Assignment>) -> bool {
    forall|i: int, j: int| 0 <= i < j < s.len() ==> s[i].conn_id != s[j].conn_id
}

/// Whether some assignment records the backend connection `conn_id`.
pub open spec fn has_assignment(s: Seq<Assignment>, conn_id: u32) -> bool {
    exists|i: int| 0 <= i < s.len() && s[i].conn_id == conn_id
}

/// The position of the assignment recording `conn_id`.
pub open spec fn assignment_index(s: Seq<Assignment>, conn_id: u32) -> int {
    choose|i: int| 0 <= i < s.len() && s[i].conn_id == conn_id
}

/// The assignments that do not point at the backend `k`.
pub open spec fn surviving(s: Seq<Assignment>, k: Seq<u8>) -> Seq<Assignment> {
    s.filter(|x: Assignment| x.server@ != k)
}

/// How many assignments point at the backend `k`.
pub open spec fn assigned_count(s: Seq<Assignment>, k: Seq<u8>) -> nat {
    s.filter(|x: Assignment| x.server@ == k).len()
}

/// Per-worker correlation state: the pending-request table and the live
/// assignments (the backend-key → client reverse index is read off the
/// assignments).
pub struct WorkerState {
    pending: Vec<PendingRequest>,
    assignments: Vec<Assignment>,
}

impl WorkerState {
    /// The pending requests, oldest first.
    pub closed spec fn pending_seq(&self) -> Seq<PendingRequest> {
        self.pending@
    }

    /// The live assignments, oldest first.
    pub closed spec fn assignment_seq(&self) -> Seq<Assignment> {
        self.assignments@
    }

    /// Client identifiers and backend connections are each recorded at
    /// most once.
    pub open spec fn wf(&self) -> bool {
        distinct_ids(self.pending_seq()) && distinct_conns(self.assignment_seq())
    }

    /// A worker with nothing buffered and nothing assigned.
    pub fn new() -> (r: WorkerState)
        ensures
            r.pending_seq() == Seq::<PendingRequest>::empty(),
            r.assignment_seq() == Seq::<Assignment>::empty(),
            r.wf(),
    {
        WorkerState { pending: Vec::new(), assignments: Vec::new() }
    }

    /// The position of `id` in the pending table, if present.
    fn find_pending(&self, id: u32) -> (r: Option<usize>)
        ensures
            match r {
                Some(i) => 0 <= i < self.pending_seq().len() && self.pending_seq()[i as int].client_id
                    == id,
                None => !has_pending(self.pending_seq(), id),
            },
    {
        let mut i: usize = 0;
        while i < self.pending.len()
            invariant
                0 <= i <= self.pending_seq().len(),
                forall|j: int| 0 <= j < i ==> self.pending_seq()[j].client_id != id,
            decreases self.pending_seq().len() - i,
        {
            if self.pending[i].client_id == id {
                return Some(i);
            }
            i = i + 1;
        }
        None
    }

    /// The position of `conn_id` in the assignment table, if present.
    fn find_assignment(&self, conn_id: u32) -> (r: Option<usize>)
        ensures
            match r {
                Some(i) => 0 <= i < self.assignment_seq().len()
                    && self.assignment_seq()[i as int].conn_id == conn_id,
                None => !has_assignment(self.assignment_seq(), conn_id),
            },
    {
        let mut i: usize = 0;
        while i < self.assignments.len()
            invariant
                0 <= i <= self.assignment_seq().len(),
                forall|j: int| 0 <= j < i ==> self.assignment_seq()[j].conn_id != conn_id,
            decreases self.assignment_seq().len() - i,
        {
            if self.assignments[i].conn_id == conn_id {
                return Some(i);
            }
            i = i + 1;
        }
        None
    }

    /// How many requests are awaiting an assignment reply.
    pub fn pending_len(&self) -> (r: usize)
        ensures
            r == self.pending_seq().len(),
    {
        self.pending.len()
    }

    /// How many backend connections are recorded.
    pub fn assignment_len(&self) -> (r: usize)
        ensures
            r == self.assignment_seq().len(),
    {
        self.assignments.len()
    }

    /// Whether the backend connection `conn_id` is recorded.
    pub fn has_conn(&self, conn_id: u32) -> (r: bool)
        ensures
            r == has_assignment(self.assignment_seq(), conn_id),
    {
        match self.find_assignment(conn_id) {
            Some(_) => true,
            None => false,
        }
    }

    /// First bytes from a new client: buffer them and ask the coordinator
    /// for a backend. A client with a query already outstanding is left
    /// alone — at most one assignment command per identifier.
    pub fn on_client_data(&mut self, client_id: u32, data: Vec<u8>) -> (r: Option<Command>)
        requires
            old(self).wf(),
        ensures
            final(self).wf(),
            final(self).assignment_seq() == old(self).assignment_seq(),
            has_pending(old(self).pending_seq(), client_id) ==> r == None::<Command>
                && final(self).pending_seq() == old(self).pending_seq(),
            !has_pending(old(self).pending_seq(), client_id) ==> r == Some(
                Command::Assign { client_id },
            ) && final(self).pending_seq() == old(self).pending_seq().push(
                (PendingRequest { client_id, data }),
            ),
    {
        match self.find_pending(client_id) {
            Some(_) => None,
            None => {
                self.pending.push(PendingRequest { client_id, data });
                Some(Command::Assign { client_id })
            },
        }
    }

    /// An assignment reply arrived for `client_id`: surrender the matching
    /// buffered request. The echoed identifier alone decides the match, so
    /// replies may be consumed out of send order.
    pub fn take_pending(&mut self, client_id: u32) -> (r: Option<Vec<u8>>)
        requires
            old(self).wf(),
        ensures
            final(self).wf(),
            final(self).assignment_seq() == old(self).assignment_seq(),
            !has_pending(old(self).pending_seq(), client_id) ==> r == None::<Vec<u8>>
                && final(self).pending_seq() == old(self).pending_seq(),
            has_pending(old(self).pending_seq(), client_id) ==> (r matches Some(d) && d@
                == pending_data(old(self).pending_seq(), client_id)) && final(self).pending_seq()
                == taken(old(self).pending_seq(), client_id),
    {
        match self.find_pending(client_id) {
            None => None,
            Some(i) => {
                proof {
                    lemma_pending_index_unique(self.pending_seq(), client_id, i as int);
                    lemma_remove_keeps_distinct_ids(self.pending_seq(), i as int);
                }
                let pr = self.pending.remove(i);
                Some(pr.data)
            },
        }
    }

    /// A backend connection opened for a reply: record the assignment, so
    /// that completion sends a release and a backend failure can be
    /// repaired in bulk.
    pub fn record_assignment(&mut self, conn_id: u32, client_id: u32, server: &[u8; 6])
        requires
            old(self).wf(),
            !has_assignment(old(self).assignment_seq(), conn_id),
        ensures
            final(self).wf(),
            final(self).pending_seq() == old(self).pending_seq(),
            final(self).assignment_seq() == old(self).assignment_seq().push(
                (Assignment { conn_id, client_id, server: *server }),
            ),
    {
        self.assignments.push(Assignment { conn_id, client_id, server: *server });
    }

    /// A backend connection completed: clear its assignment and say which
    /// client it served and which release command to send.
    pub fn on_backend_done(&mut self, conn_id: u32) -> (r: Option<(u32, Command)>)
        requires
            old(self).wf(),
        ensures
            final(self).wf(),
            final(self).pending_seq() == old(self).pending_seq(),
            !has_assignment(old(self).assignment_seq(), conn_id) ==> r == None::<(u32, Command)>
                && final(self).assignment_seq() == old(self).assignment_seq(),
            has_assignment(old(self).assignment_seq(), conn_id) ==> (r matches Some(p) && p.0
                == old(self).assignment_seq()[assignment_index(
                old(self).assignment_seq(),
                conn_id,
            )].client_id && p.1 == (Command::Release {
                server: old(self).assignment_seq()[assignment_index(
                    old(self).assignment_seq(),
                    conn_id,
                )].server,
            })) && final(self).assignment_seq() == old(self).assignment_seq().remove(
                assignment_index(old(self).assignment_seq(), conn_id),
            ),
    {
        match self.find_assignment(conn_id) {
            None => None,
            Some(i) => {
                proof {
                    lemma_assignment_index_unique(self.assignment_seq(), conn_id, i as int);
                    lemma_remove_keeps_distinct_conns(self.assignment_seq(), i as int);
                }
                let a = self.assignments.remove(i);
                Some((a.client_id, Command::Release { server: a.server }))
            },
        }
    }

    /// A chosen backend could not be connected to: drop every assignment
    /// recorded against it and say what to send the coordinator — exactly
    /// one deregister for the backend, then exactly one release for each
    /// client that was recorded against it. This compensates for
    /// increments the coordinator committed before the failure was
    /// observed.
    pub fn on_connect_failure(&mut self, server: &[u8; 6]) -> (cmds: Vec<Command>)
        requires
            old(self).wf(),
        ensures
            final(self).wf(),
            final(self).pending_seq() == old(self).pending_seq(),
            final(self).assignment_seq() == surviving(old(self).assignment_seq(), server@),
            cmds@.len() == 1 + assigned_count(old(self).assignment_seq(), server@),
            cmds@[0] == (Command::Deregister { server: *server }),
            forall|i: int|
                1 <= i < cmds@.len() ==> cmds@[i] == (Command::Release { server: *server }),
    {
        let ghost s = self.assignment_seq();
        let mut cmds: Vec<Command> = Vec::new();
        cmds.push(Command::Deregister { server: *server });
        let mut kept: Vec<Assignment> = Vec::new();
        let mut i: usize = 0;
        proof {
            assert(s.take(0) =~= Seq::<Assignment>::empty());
            reveal(Seq::filter);
        }
        while i < self.assignments.len()
            invariant
                0 <= i <= s.len(),
                self.assignment_seq() == s,
                distinct_conns(s),
                kept@ == surviving(s.take(i as int), server@),
                cmds@.len() == 1 + assigned_count(s.take(i as int), server@),
                cmds@[0] == (Command::Deregister { server: *server }),
                forall|j: int|
                    1 <= j < cmds@.len() ==> cmds@[j] == (Command::Release { server: *server }),
            decreases s.len() - i,
        {
            let a = Assignment {
                conn_id: self.assignments[i].conn_id,
                client_id: self.assignments[i].client_id,
                server: self.assignments[i].server,
            };
            proof {
                assert(a == s[i as int]);
                assert(s.take(i + 1).drop_last() =~= s.take(i as int));
                assert(s.take(i + 1).last() == s[i as int]);
                reveal(Seq::filter);
            }
            if key_eq(&a.server, server) {
                cmds.push(Command::Release { server: *server });
            } else {
                kept.push(a);
            }
            i = i + 1;
        }
        proof {
            assert(s.take(s.len() as int) =~= s);
            lemma_surviving_distinct(s, server@);
        }
        self.assignments = kept;
        cmds
    }
}

/// With distinct identifiers, `pending_index` is the one position whose
/// request carries the identifier.
pub proof fn lemma_pending_index_unique(s: Seq<PendingRequest>, id: u32, i: int)
    requires
        distinct_ids(s),
        0 <= i < s.len(),
        s[i].client_id == id,
    ensures
        pending_index(s, id) == i,
{
    assert(has_pending(s, id));
    let j = pending_index(s, id);
    if i < j {
        assert(s[i].client_id != s[j].client_id);
    } else if j < i {
        assert(s[j].client_id != s[i].client_id);
    }
}

/// With distinct connections, `assignment_index` is the one position
/// recording the connection.
pub proof fn lemma_assignment_index_unique(s: Seq<Assignment>, conn_id: u32, i: int)
    requires
        distinct_conns(s),
        0 <= i < s.len(),
        s[i].conn_id == conn_id,
    ensures
        assignment_index(s, conn_id) == i,
{
    assert(has_assignment(s, conn_id));
    let j = assignment_index(s, conn_id);
    if i < j {
        assert(s[i].conn_id != s[j].conn_id);
    } else if j < i {
        assert(s[j].conn_id != s[i].conn_id);
    }
}

/// Removing a pending request keeps the identifiers distinct.
proof fn lemma_remove_keeps_distinct_ids(s: Seq<PendingRequest>, i: int)
    requires
        distinct_ids(s),
        0 <= i < s.len(),
    ensures
        distinct_ids(s.remove(i)),
{
    let t = s.remove(i);
    assert forall|p: int, q: int| 0 <= p < q < t.len() implies t[p].client_id != t[q].client_id by {
        let p0 = if p < i {
            p
        } else {
            p + 1
        };
        let q0 = if q < i {
            q
        } else {
            q + 1
        };
        assert(t[p] == s[p0]);
        assert(t[q] == s[q0]);
        assert(s[p0].client_id != s[q0].client_id);
    }
}

/// Removing an assignment keeps the connections distinct.
proof fn lemma_remove_keeps_distinct_conns(s: Seq<Assignment>, i: int)
    requires
        distinct_conns(s),
        0 <= i < s.len(),
    ensures
        distinct_conns(s.remove(i)),
{
    let t = s.remove(i);
    assert forall|p: int, q: int| 0 <= p < q < t.len() implies t[p].conn_id != t[q].conn_id by {
        let p0 = if p < i {
            p
        } else {
            p + 1
        };
        let q0 = if q < i {
            q
        } else {
            q + 1
        };
        assert(t[p] == s[p0]);
        assert(t[q] == s[q0]);
        assert(s[p0].conn_id != s[q0].conn_id);
    }
}

/// The assignments surviving a backend failure keep their distinct
/// connections.
proof fn lemma_surviving_distinct(s: Seq<Assignment>, k: Seq<u8>)
    requires
        distinct_conns(s),
    ensures
        distinct_conns(surviving(s, k)),
    decreases s.len(),
{
    reveal(Seq::filter);
    if s.len() > 0 {
        let sub = s.drop_last();
        assert forall|p: int, q: int| 0 <= p < q < sub.len() implies sub[p].conn_id
            != sub[q].conn_id by {
            assert(s[p].conn_id != s[q].conn_id);
        }
        lemma_surviving_distinct(sub, k);
        let fsub = surviving(sub, k);
        if s.last().server@ != k {
            assert(surviving(s, k) == fsub.push(s.last()));
            assert forall|p: int, q: int|
                0 <= p < q < surviving(s, k).len() implies surviving(s, k)[p].conn_id != surviving(
                s,
                k,
            )[q].conn_id by {
                if q < fsub.len() {
                } else {
                    lemma_filter_member_of(sub, k, p);
                }
            }
        }
    }
}

/// Every surviving assignment is one of the originals.
proof fn lemma_filter_member_of(s: Seq<Assignment>, k: Seq<u8>, i: int)
    requires
        0 <= i < surviving(s, k).len(),
    ensures
        exists|j: int| 0 <= j < s.len() && s[j] == surviving(s, k)[i],
    decreases s.len(),
{
    reveal(Seq::filter);
    if s.len() > 0 {
        let sub = s.drop_last();
        let fsub = surviving(sub, k);
        if s.last().server@ != k {
            if i < fsub.len() {
                lemma_filter_member_of(sub, k, i);
                let j = choose|j: int| 0 <= j < sub.len() && sub[j] == fsub[i];
                assert(s[j] == surviving(s, k)[i]);
            } else {
                assert(s[s.len() - 1] == surviving(s, k)[i]);
            }
        } else {
            lemma_filter_member_of(sub, k, i);
            let j = choose|j: int| 0 <= j < sub.len() && sub[j] == fsub[i];
            assert(s[j] == surviving(s, k)[i]);
        }
    }
}

/// Two outstanding replies may be consumed in either order: each one
/// surrenders its own client's bytes, and the pending table ends the same
/// either way.
pub proof fn lemma_reply_order_immaterial(s: Seq<PendingRequest>, a: u32, b: u32)
    requires
        distinct_ids(s),
        has_pending(s, a),
        has_pending(s, b),
        a != b,
    ensures
        pending_data(taken(s, b), a) == pending_data(s, a),
        pending_data(taken(s, a), b) == pending_data(s, b),
        taken(taken(s, a), b) == taken(taken(s, b), a),
{
    let ia = pending_index(s, a);
    let ib = pending_index(s, b);
    assert(0 <= ia < s.len() && s[ia].client_id == a);
    assert(0 <= ib < s.len() && s[ib].client_id == b);
    assert(ia != ib);
    lemma_remove_keeps_distinct_ids(s, ia);
    lemma_remove_keeps_distinct_ids(s, ib);
    let ta = taken(s, a);
    let tb = taken(s, b);
    if ia < ib {
        assert(ta[ib - 1] == s[ib]);
        lemma_pending_index_unique(ta, b, ib - 1);
        assert(tb[ia] == s[ia]);
        lemma_pending_index_unique(tb, a, ia);
        assert(taken(taken(s, a), b) =~= taken(taken(s, b), a)) by {
            lemma_remove_twice(s, ia, ib);
        }
    } else {
        assert(ta[ib] == s[ib]);
        lemma_pending_index_unique(ta, b, ib);
        assert(tb[ia - 1] == s[ia]);
        lemma_pending_index_unique(tb, a, ia - 1);
        assert(taken(taken(s, a), b) =~= taken(taken(s, b), a)) by {
            lemma_remove_twice(s, ib, ia);
        }
    }
}

/// Removing two positions leaves the same sequence in either order.
proof fn lemma_remove_twice<T>(s: Seq<T>, i: int, j: int)
    requires
        0 <= i < j < s.len(),
    ensures
        s.remove(j).remove(i) =~= s.remove(i).remove(j - 1),
{
    let lhs = s.remove(j).remove(i);
    let rhs = s.remove(i).remove(j - 1);
    assert forall|m: int| 0 <= m < lhs.len() implies lhs[m] == rhs[m] by {
        if m < i {
            assert(lhs[m] == s[m]);
            assert(rhs[m] == s[m]);
        } else if m < j - 1 {
            assert(lhs[m] == s[m + 1]);
            assert(rhs[m] == s[m + 1]);
        } else {
            assert(lhs[m] == s[m + 2]);
            assert(rhs[m] == s[m + 2]);
        }
    }
}

} // verus!
