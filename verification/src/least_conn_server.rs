//! The least-connections index.
//!
//! Backends are identified by a 6-byte key (4 address octets and 2 port
//! bytes) and carry a live open-connection count. The index is a table of
//! entries in registration order; all relations are explicit positions into
//! the owning vector, so removal is a plain index update. A bucket, the set
//! of backends sharing one count, is derived from the counts rather than
//! kept as a separate linked structure.

use vstd::prelude::*;

use crate::LbError;

verus! {

/// One backend entry: its 6-byte key and its live connection count.
pub struct DataNode {
    /// 4 address octets followed by 2 port bytes.
    pub server: [u8; 6],
    /// Number of connections currently assigned to this backend.
    pub conns: u32,
}

impl DataNode {
    /// A fresh entry with a zeroed key and no connections.
    pub fn new() -> (n: DataNode)
        ensures
            n.conns == 0,
            forall|i: int| 0 <= i < 6 ==> n.server@[i] == 0u8,
    {
        DataNode { server: [0u8; 6], conns: 0 }
    }
}

/// Whether some entry of `s` carries the key `k`.
pub open spec fn has_server(s: Seq<DataNode>, k: Seq<u8>) -> bool {
    exists|i: int| 0 <= i < s.len() && s[i].server@ == k
}

/// The position of the entry carrying `k`; meaningful when `has_server`
/// holds and the keys of `s` are distinct.
pub open spec fn server_index(s: Seq<DataNode>, k: Seq<u8>) -> int {
    choose|i: int| 0 <= i < s.len() && s[i].server@ == k
}

/// The connection count recorded for `k`.
pub open spec fn conns_of(s: Seq<DataNode>, k: Seq<u8>) -> u32 {
    s[server_index(s, k)].conns
}

/// No two entries carry the same key.
pub open spec fn distinct_servers(s: Seq<DataNode>) -> bool {
    forall|i: int, j: int| 0 <= i < j < s.len() ==> s[i].server@ != s[j].server@
}

/// `i` is the position `get_least_conn_server` answers from: its count is
/// minimal, and it is the earliest-registered entry with that count.
pub open spec fn is_least_slot(s: Seq<DataNode>, i: int) -> bool {
    &&& 0 <= i < s.len()
    &&& forall|j: int| 0 <= j < s.len() ==> s[i].conns <= s[j].conns
    &&& forall|j: int| 0 <= j < i ==> s[j].conns > s[i].conns
}

/// The position `get_least_conn_server` answers from.
pub open spec fn least_index(s: Seq<DataNode>) -> int {
    choose|i: int| is_least_slot(s, i)
}

/// A count after one increment: one more, capped at the type's maximum.
pub open spec fn bumped(c: u32) -> u32 {
    if c < u32::MAX {
        (c + 1) as u32
    } else {
        c
    }
}

/// A count after one decrement: one less, floored at zero.
pub open spec fn dropped(c: u32) -> u32 {
    if c > 0 {
        (c - 1) as u32
    } else {
        c
    }
}

/// The index after incrementing the count of `k`.
pub open spec fn incremented(s: Seq<DataNode>, k: Seq<u8>) -> Seq<DataNode> {
    let i = server_index(s, k);
    s.update(i, (DataNode { server: s[i].server, conns: bumped(s[i].conns) }))
}

/// The index after decrementing the count of `k`.
pub open spec fn decremented(s: Seq<DataNode>, k: Seq<u8>) -> Seq<DataNode> {
    let i = server_index(s, k);
    s.update(i, (DataNode { server: s[i].server, conns: dropped(s[i].conns) }))
}

/// The index after deregistering `k`.
pub open spec fn removed(s: Seq<DataNode>, k: Seq<u8>) -> Seq<DataNode> {
    s.remove(server_index(s, k))
}

/// Compares two backend keys byte for byte.
pub(crate) fn key_eq(a: &[u8; 6], b: &[u8; 6]) -> (r: bool)
    ensures
        r <==> a@ == b@,
{
    let r = a[0] == b[0] && a[1] == b[1] && a[2] == b[2] && a[3] == b[3] && a[4] == b[4] && a[5]
        == b[5];
    proof {
        if r {
            assert(a@ =~= b@);
        }
    }
    r
}

/// The least-connections index: every registered backend with its count,
/// in registration order.
pub struct LCS {
    nodes: Vec<DataNode>,
}

impl View for LCS {
    type V = Seq<DataNode>;

    closed spec fn view(&self) -> Seq<DataNode> {
        self.nodes@
    }
}

impl LCS {
    /// The keys of the index are pairwise distinct.
    pub open spec fn wf(&self) -> bool {
        distinct_servers(self@)
    }

    /// An empty index.
    pub fn new() -> (r: LCS)
        ensures
            r@ == Seq::<DataNode>::empty(),
            r.wf(),
    {
        LCS { nodes: Vec::new() }
    }

    /// The position of `server` in the table, if present.
    fn find(&self, server: &[u8; 6]) -> (r: Option<usize>)
        ensures
            match r {
                Some(i) => 0 <= i < self@.len() && self@[i as int].server@ == server@,
                None => !has_server(self@, server@),
            },
    {
        let mut i: usize = 0;
        while i < self.nodes.len()
            invariant
                0 <= i <= self@.len(),
                forall|j: int| 0 <= j < i ==> self@[j].server@ != server@,
            decreases self@.len() - i,
        {
            if key_eq(&self.nodes[i].server, server) {
                return Some(i);
            }
            i = i + 1;
        }
        None
    }

    /// Registers `server` at count zero; rejects a key already present.
    pub fn insert(&mut self, server: &[u8; 6]) -> (r: Result<(), LbError>)
        requires
            old(self).wf(),
        ensures
            final(self).wf(),
            has_server(old(self)@, server@) ==> r == Err::<(), LbError>(LbError::DuplicateBackend)
                && final(self)@ == old(self)@,
            !has_server(old(self)@, server@) ==> r == Ok::<(), LbError>(()) && final(self)@ == old(
                self,
            )@.push((DataNode { server: *server, conns: 0 })),
    {
        match self.find(server) {
            Some(_) => Err(LbError::DuplicateBackend),
            None => {
                self.nodes.push(DataNode { server: *server, conns: 0 });
                Ok(())
            },
        }
    }

    /// Deregisters `server`; rejects a key that is not present.
    pub fn delete(&mut self, server: &[u8; 6]) -> (r: Result<(), LbError>)
        requires
            old(self).wf(),
        ensures
            final(self).wf(),
            !has_server(old(self)@, server@) ==> r == Err::<(), LbError>(LbError::UnknownBackend)
                && final(self)@ == old(self)@,
            has_server(old(self)@, server@) ==> r == Ok::<(), LbError>(()) && final(self)@
                == removed(old(self)@, server@),
    {
        match self.find(server) {
            None => Err(LbError::UnknownBackend),
            Some(i) => {
                proof {
                    lemma_server_index_unique(self@, server@, i as int);
                    lemma_remove_keeps_distinct(self@, i as int);
                }
                self.nodes.remove(i);
                Ok(())
            },
        }
    }

    /// Answers with the earliest-registered backend of minimal count, or
    /// `NoBackendsAvailable` on an empty index. Never mutates.
    pub fn get_least_conn_server(&self) -> (r: Result<[u8; 6], LbError>)
        requires
            self.wf(),
        ensures
            self@.len() == 0 ==> r == Err::<[u8; 6], LbError>(LbError::NoBackendsAvailable),
            self@.len() > 0 ==> is_least_slot(self@, least_index(self@)) && (r matches Ok(k) && k
                == self@[least_index(self@)].server),
            r matches Ok(k) ==> has_server(self@, k@),
    {
        if self.nodes.len() == 0 {
            return Err(LbError::NoBackendsAvailable);
        }
        let mut best: usize = 0;
        let mut i: usize = 1;
        while i < self.nodes.len()
            invariant
                0 <= best < i <= self@.len(),
                forall|j: int| 0 <= j < i ==> self@[best as int].conns <= self@[j].conns,
                forall|j: int| 0 <= j < best ==> self@[j].conns > self@[best as int].conns,
            decreases self@.len() - i,
        {
            if self.nodes[i].conns < self.nodes[best].conns {
                best = i;
            }
            i = i + 1;
        }
        proof {
            assert(is_least_slot(self@, best as int));
            lemma_least_slot_unique(self@, best as int, least_index(self@));
        }
        Ok(self.nodes[best].server)
    }

    /// Every backend with its current count, in registration order.
    pub fn get_stats(&self) -> (r: Result<Vec<([u8; 6], u32)>, LbError>)
        ensures
            r matches Ok(v) && v@.len() == self@.len() && forall|i: int|
                0 <= i < self@.len() ==> v@[i].0 == self@[i].server && v@[i].1 == self@[i].conns,
    {
        let mut stats: Vec<([u8; 6], u32)> = Vec::new();
        let mut i: usize = 0;
        while i < self.nodes.len()
            invariant
                0 <= i <= self@.len(),
                stats@.len() == i,
                forall|j: int|
                    0 <= j < i ==> stats@[j].0 == self@[j].server && stats@[j].1 == self@[j].conns,
            decreases self@.len() - i,
        {
            stats.push((self.nodes[i].server, self.nodes[i].conns));
            i = i + 1;
        }
        Ok(stats)
    }

    /// Raises the count of `server` by one (capped at the type's maximum);
    /// rejects a key that is not present.
    pub fn server_conn_increament(&mut self, server: &[u8; 6]) -> (r: Result<(), LbError>)
        requires
            old(self).wf(),
        ensures
            final(self).wf(),
            !has_server(old(self)@, server@) ==> r == Err::<(), LbError>(LbError::UnknownBackend)
                && final(self)@ == old(self)@,
            has_server(old(self)@, server@) ==> r == Ok::<(), LbError>(()) && final(self)@
                == incremented(old(self)@, server@),
    {
        match self.find(server) {
            None => Err(LbError::UnknownBackend),
            Some(i) => {
                proof {
                    lemma_server_index_unique(self@, server@, i as int);
                }
                let c = self.nodes[i].conns;
                let node = DataNode {
                    server: self.nodes[i].server,
                    conns: if c < u32::MAX {
                        c + 1
                    } else {
                        c
                    },
                };
                self.nodes.set(i, node);
                proof {
                    lemma_update_conns_keeps_distinct(old(self)@, self@, i as int);
                }
                Ok(())
            },
        }
    }

    /// Lowers the count of `server` by one, flooring at zero; rejects a key
    /// that is not present.
    pub fn server_conn_decreament(&mut self, server: &[u8; 6]) -> (r: Result<(), LbError>)
        requires
            old(self).wf(),
        ensures
            final(self).wf(),
            !has_server(old(self)@, server@) ==> r == Err::<(), LbError>(LbError::UnknownBackend)
                && final(self)@ == old(self)@,
            has_server(old(self)@, server@) ==> r == Ok::<(), LbError>(()) && final(self)@
                == decremented(old(self)@, server@),
    {
        match self.find(server) {
            None => Err(LbError::UnknownBackend),
            Some(i) => {
                proof {
                    lemma_server_index_unique(self@, server@, i as int);
                }
                let c = self.nodes[i].conns;
                let node = DataNode {
                    server: self.nodes[i].server,
                    conns: if c > 0 {
                        c - 1
                    } else {
                        c
                    },
                };
                self.nodes.set(i, node);
                proof {
                    lemma_update_conns_keeps_distinct(old(self)@, self@, i as int);
                }
                Ok(())
            },
        }
    }
}

/// With distinct keys, `server_index` is the one position whose entry
/// carries the key.
pub proof fn lemma_server_index_unique(s: Seq<DataNode>, k: Seq<u8>, i: int)
    requires
        distinct_servers(s),
        0 <= i < s.len(),
        s[i].server@ == k,
    ensures
        server_index(s, k) == i,
{
    assert(has_server(s, k));
    let j = server_index(s, k);
    assert(0 <= j < s.len() && s[j].server@ == k);
    if i < j {
        assert(s[i].server@ != s[j].server@);
    } else if j < i {
        assert(s[j].server@ != s[i].server@);
    }
}

/// Two least slots are the same slot.
pub proof fn lemma_least_slot_unique(s: Seq<DataNode>, i: int, j: int)
    requires
        is_least_slot(s, i),
        is_least_slot(s, j),
    ensures
        i == j,
{
    if i < j {
        assert(s[i].conns > s[j].conns);
        assert(s[j].conns <= s[i].conns);
    } else if j < i {
        assert(s[j].conns > s[i].conns);
        assert(s[i].conns <= s[j].conns);
    }
}

/// A non-empty index has a least slot.
pub proof fn lemma_least_slot_exists(s: Seq<DataNode>)
    requires
        s.len() > 0,
    ensures
        is_least_slot(s, least_index(s)),
    decreases s.len(),
{
    if s.len() == 1 {
        assert(is_least_slot(s, 0));
    } else {
        let sub = s.drop_last();
        lemma_least_slot_exists(sub);
        let i = least_index(sub);
        let last = s.len() - 1;
        if s[last].conns < s[i].conns {
            assert forall|j: int| 0 <= j < s.len() implies s[last].conns <= s[j].conns by {
                if j < last {
                    assert(sub[i].conns <= sub[j].conns);
                }
            }
            assert forall|j: int| 0 <= j < last implies s[j].conns > s[last].conns by {
                assert(sub[i].conns <= sub[j].conns);
            }
            assert(is_least_slot(s, last));
        } else {
            assert forall|j: int| 0 <= j < s.len() implies s[i].conns <= s[j].conns by {
                if j < last {
                    assert(sub[i].conns <= sub[j].conns);
                }
            }
            assert forall|j: int| 0 <= j < i implies s[j].conns > s[i].conns by {
                assert(sub[j].conns > sub[i].conns);
            }
            assert(is_least_slot(s, i));
        }
    }
}

/// However the index was reached, the answered backend's count is no
/// larger than any registered backend's count.
pub proof fn lemma_least_loaded_minimal(s: Seq<DataNode>)
    requires
        s.len() > 0,
    ensures
        forall|j: int| 0 <= j < s.len() ==> s[least_index(s)].conns <= #[trigger] s[j].conns,
{
    lemma_least_slot_exists(s);
}

/// Incrementing a backend and then decrementing it restores the whole
/// index, bucket membership included.
pub proof fn lemma_increment_decrement_round_trip(s: Seq<DataNode>, k: Seq<u8>)
    requires
        distinct_servers(s),
        has_server(s, k),
        conns_of(s, k) < u32::MAX,
    ensures
        decremented(incremented(s, k), k) == s,
{
    let i = server_index(s, k);
    assert(0 <= i < s.len() && s[i].server@ == k);
    let s1 = incremented(s, k);
    assert(s1[i].server@ == k);
    lemma_update_conns_keeps_distinct(s, s1, i);
    lemma_server_index_unique(s1, k, i);
    let s2 = decremented(s1, k);
    assert(s2[i] == s[i]);
    assert(s2 =~= s);
}

/// Two backends registered at count zero: the first answers, and after its
/// increment the second answers.
pub proof fn lemma_fresh_pair_tie_break(s: Seq<DataNode>)
    requires
        distinct_servers(s),
        s.len() == 2,
        s[0].conns == 0,
        s[1].conns == 0,
    ensures
        least_index(s) == 0,
        least_index(incremented(s, s[0].server@)) == 1,
{
    assert(is_least_slot(s, 0));
    lemma_least_slot_unique(s, 0, least_index(s));
    lemma_server_index_unique(s, s[0].server@, 0);
    let s1 = incremented(s, s[0].server@);
    assert(s1[1] == s[1]);
    assert(s1[0].conns == 1);
    assert(is_least_slot(s1, 1));
    lemma_least_slot_unique(s1, 1, least_index(s1));
}

/// A deregistered backend is gone: no entry carries its key any more, so
/// no later answer can name it.
pub proof fn lemma_deregister_excludes(s: Seq<DataNode>, k: Seq<u8>)
    requires
        distinct_servers(s),
        has_server(s, k),
    ensures
        !has_server(removed(s, k), k),
        distinct_servers(removed(s, k)),
        forall|i: int| is_least_slot(removed(s, k), i) ==> removed(s, k)[i].server@ != k,
{
    let i = server_index(s, k);
    assert(0 <= i < s.len() && s[i].server@ == k);
    let t = s.remove(i);
    lemma_remove_keeps_distinct(s, i);
    assert forall|j: int| 0 <= j < t.len() implies t[j].server@ != k by {
        let j0 = if j < i {
            j
        } else {
            j + 1
        };
        assert(t[j] == s[j0]);
        if j0 < i {
            assert(s[j0].server@ != s[i].server@);
        } else {
            assert(s[i].server@ != s[j0].server@);
        }
    }
}

/// Removing an entry keeps the remaining keys distinct.
proof fn lemma_remove_keeps_distinct(s: Seq<DataNode>, i: int)
    requires
        distinct_servers(s),
        0 <= i < s.len(),
    ensures
        distinct_servers(s.remove(i)),
{
    let t = s.remove(i);
    assert forall|p: int, q: int| 0 <= p < q < t.len() implies t[p].server@ != t[q].server@ by {
        let p0 = if p < i {
            p
        } else {
            p + 1
        };
        let q0 = if q < i {
            q
        } else {
            q + 1
        };
        assert(t[p] == s[p0]);
        assert(t[q] == s[q0]);
        assert(s[p0].server@ != s[q0].server@);
    }
}

/// Replacing one entry by another with the same key keeps the keys
/// distinct.
proof fn lemma_update_conns_keeps_distinct(s0: Seq<DataNode>, s1: Seq<DataNode>, i: int)
    requires
        distinct_servers(s0),
        0 <= i < s0.len(),
        s1.len() == s0.len(),
        s1[i].server@ == s0[i].server@,
        forall|j: int| 0 <= j < s0.len() && j != i ==> s1[j] == s0[j],
    ensures
        distinct_servers(s1),
{
    assert forall|p: int, q: int| 0 <= p < q < s1.len() implies s1[p].server@ != s1[q].server@ by {
        assert(s1[p].server@ == s0[p].server@);
        assert(s1[q].server@ == s0[q].server@);
    }
}

} // verus!
