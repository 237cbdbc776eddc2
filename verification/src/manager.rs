//! Registry of pseudo-terminal sessions.
//!
//! The manager owns identifier allocation and the table from identifier
//! to session handle.  The handle type is generic: the caller stores
//! whatever bundle of process and stream handles it owns, and performs
//! the actual I/O itself; every table decision — which identifier is
//! issued, whether an operation finds its session, what a close removes
//! — is made and verified here.

use vstd::prelude::*;

verus! {

/// Failure taxonomy of the session layer.
#[derive(Debug)]
pub enum PtyError {
    /// A pseudo-terminal or handle could not be created, or no
    /// identifier is left to issue.
    Allocation,
    /// The child process could not start.
    Spawn,
    /// The operation referenced an unknown session identifier.
    NotFound,
    /// A write, read or resize failed on a live session.
    Io,
}

/// A session table is a sequence of (identifier, handle) pairs with
/// strictly increasing identifiers.
pub open spec fn table_wf<H>(t: Seq<(u32, H)>) -> bool {
    forall|i: int, j: int| 0 <= i < j < t.len() ==> t[i].0 < t[j].0
}

/// `id` is present in the table.
pub open spec fn table_contains<H>(t: Seq<(u32, H)>, id: u32) -> bool {
    exists|i: int| 0 <= i < t.len() && t[i].0 == id
}

/// The handle stored under `id`, if any.
pub open spec fn table_lookup<H>(t: Seq<(u32, H)>, id: u32) -> Option<H>
    decreases t.len(),
{
    if t.len() == 0 {
        None
    } else if t[0].0 == id {
        Some(t[0].1)
    } else {
        table_lookup(t.skip(1), id)
    }
}

/// Index of `id` in the table, or `t.len()` if absent.
pub open spec fn table_index_of<H>(t: Seq<(u32, H)>, id: u32) -> int
    decreases t.len(),
{
    if t.len() == 0 {
        0
    } else if t[0].0 == id {
        0
    } else {
        1 + table_index_of(t.skip(1), id)
    }
}

/// The table with `id` removed; unchanged when `id` is absent.
pub open spec fn table_remove<H>(t: Seq<(u32, H)>, id: u32) -> Seq<(u32, H)> {
    if table_contains(t, id) {
        t.remove(table_index_of(t, id))
    } else {
        t
    }
}

pub proof fn lemma_table_index_of<H>(t: Seq<(u32, H)>, id: u32)
    ensures
        0 <= table_index_of(t, id) <= t.len(),
        table_index_of(t, id) < t.len() ==> t[table_index_of(t, id)].0 == id
            && table_lookup(t, id) == Some(t[table_index_of(t, id)].1),
        forall|j: int| 0 <= j < table_index_of(t, id) ==> t[j].0 != id,
        (table_index_of(t, id) == t.len()) == !table_contains(t, id),
        table_contains(t, id) == (table_lookup(t, id) is Some),
    decreases t.len(),
{
    if t.len() == 0 {
        assert(!table_contains(t, id));
    } else if t[0].0 == id {
    } else {
        lemma_table_index_of(t.skip(1), id);
        let r = 1 + table_index_of(t.skip(1), id);
        assert(forall|j: int| 1 <= j < t.len() ==> t[j] == t.skip(1)[j - 1]);
        if r == t.len() {
            assert forall|i: int| 0 <= i < t.len() implies t[i].0 != id by {
                if i >= 1 {
                    assert(t[i] == t.skip(1)[i - 1]);
                }
            }
        } else {
            assert(t[r] == t.skip(1)[r - 1]);
            assert(table_contains(t, id));
        }
    }
}

/// Identifiers never repeat: in a well-formed table all identifiers
/// are pairwise distinct.
pub proof fn lemma_table_ids_distinct<H>(t: Seq<(u32, H)>)
    requires
        table_wf(t),
    ensures
        forall|i: int, j: int|
            0 <= i < t.len() && 0 <= j < t.len() && i != j ==> t[i].0 != t[j].0,
{
}

/// Removing an identifier removes it for good: a second close of the
/// same identifier finds nothing.
pub proof fn lemma_remove_is_final<H>(t: Seq<(u32, H)>, id: u32)
    requires
        table_wf(t),
    ensures
        !table_contains(table_remove(t, id), id),
        table_wf(table_remove(t, id)),
{
    lemma_table_index_of(t, id);
    if table_contains(t, id) {
        let k = table_index_of(t, id);
        let t2 = t.remove(k);
        lemma_table_ids_distinct(t);
        assert forall|i: int| 0 <= i < t2.len() implies t2[i].0 != id by {
            if i < k {
                assert(t2[i] == t[i]);
            } else {
                assert(t2[i] == t[i + 1]);
            }
        }
        assert forall|i: int, j: int| 0 <= i < j < t2.len() implies t2[i].0 < t2[j].0 by {
            let i1 = if i < k { i } else { i + 1 };
            let j1 = if j < k { j } else { j + 1 };
            assert(t2[i] == t[i1]);
            assert(t2[j] == t[j1]);
        }
    }
}

/// One registered session.
struct SessionEntry<H> {
    id: u32,
    handle: H,
}

/// Registry and identifier allocator over live sessions.
pub struct PtyManager<H> {
    entries: Vec<SessionEntry<H>>,
    next_id: u32,
}

impl<H> PtyManager<H> {
    /// The (identifier, handle) table, in registration order.
    pub closed spec fn table(&self) -> Seq<(u32, H)> {
        self.entries@.map_values(|e: SessionEntry<H>| (e.id, e.handle))
    }

    /// The next identifier to be issued.
    pub closed spec fn next(&self) -> int {
        self.next_id as int
    }

    /// Identifiers are strictly increasing, all below the allocator
    /// cursor, and the cursor starts at one.
    pub open spec fn wf(&self) -> bool {
        &&& table_wf(self.table())
        &&& forall|i: int| 0 <= i < self.table().len() ==> #[trigger] self.table()[i].0 < self.next()
        &&& 1 <= self.next() <= u32::MAX
    }

    /// An empty registry; the first session gets identifier 1.
    pub fn new() -> (r: Self)
        ensures
            r.table().len() == 0,
            r.next() == 1,
            r.wf(),
    {
        let r = PtyManager { entries: Vec::new(), next_id: 1 };
        proof {
            assert(r.table() =~= Seq::<(u32, H)>::empty());
        }
        r
    }

    /// Number of live sessions.
    pub fn count(&self) -> (r: usize)
        ensures
            r == self.table().len(),
    {
        self.entries.len()
    }

    /// Whether `id` names a live session.
    pub fn contains(&self, id: u32) -> (r: bool)
        ensures
            r == table_contains(self.table(), id),
    {
        match self.index_of(id) {
            Some(_) => true,
            None => false,
        }
    }

    fn index_of(&self, id: u32) -> (r: Option<usize>)
        ensures
            match r {
                Some(i) => i as int == table_index_of(self.table(), id) && i
                    < self.table().len() && self.table()[i as int].0 == id && table_contains(
                    self.table(),
                    id,
                ),
                None => !table_contains(self.table(), id),
            },
    {
        proof {
            lemma_table_index_of(self.table(), id);
        }
        let n = self.entries.len();
        let mut i: usize = 0;
        while i < n
            invariant
                i <= n,
                n == self.table().len(),
                forall|j: int| 0 <= j < i ==> self.table()[j].0 != id,
            decreases n - i,
        {
            if self.entries[i].id == id {
                proof {
                    assert(self.table()[i as int] == (
                        self.entries@[i as int].id,
                        self.entries@[i as int].handle,
                    ));
                    lemma_table_index_of(self.table(), id);
                    let f = table_index_of(self.table(), id);
                    if f < i {
                        assert(self.table()[f].0 == id);
                    }
                }
                return Some(i);
            }
            proof {
                assert(self.table()[i as int].0 == self.entries@[i as int].id);
            }
            i = i + 1;
        }
        proof {
            lemma_table_index_of(self.table(), id);
        }
        None
    }

    /// Register a session: issues the next identifier, larger than any
    /// ever issued before, and stores the handle under it.  Fails with
    /// `Allocation` only when the identifier space is exhausted, and
    /// then changes nothing.
    pub fn register(&mut self, handle: H) -> (r: Result<u32, PtyError>)
        requires
            old(self).wf(),
        ensures
            final(self).wf(),
            match r {
                Ok(id) => {
                    &&& old(self).next() < u32::MAX
                    &&& id as int == old(self).next()
                    &&& final(self).next() == old(self).next() + 1
                    &&& final(self).table() == old(self).table().push((id, handle))
                    &&& !table_contains(old(self).table(), id)
                    &&& forall|i: int|
                        0 <= i < old(self).table().len() ==> #[trigger] old(self).table()[i].0 < id
                },
                Err(e) => {
                    &&& e == PtyError::Allocation
                    &&& old(self).next() == u32::MAX
                    &&& final(self).table() == old(self).table()
                    &&& final(self).next() == old(self).next()
                },
            },
    {
        if self.next_id == u32::MAX {
            return Err(PtyError::Allocation);
        }
        let id = self.next_id;
        self.next_id = self.next_id + 1;
        self.entries.push(SessionEntry { id, handle });
        proof {
            assert(self.table() =~= old(self).table().push(
                (id, self.entries@.last().handle),
            ));
            if table_contains(old(self).table(), id) {
                let w = choose|i: int|
                    0 <= i < old(self).table().len() && old(self).table()[i].0 == id;
                assert(old(self).table()[w].0 < old(self).next());
            }
        }
        Ok(id)
    }

    /// The handle of session `id`, if it is live.
    pub fn get(&self, id: u32) -> (r: Option<&H>)
        ensures
            match r {
                Some(h) => table_lookup(self.table(), id) == Some(*h),
                None => !table_contains(self.table(), id),
            },
    {
        proof {
            lemma_table_index_of(self.table(), id);
        }
        match self.index_of(id) {
            Some(i) => {
                proof {
                    assert(self.table()[i as int].1 == self.entries@[i as int].handle);
                }
                Some(&self.entries[i].handle)
            },
            None => None,
        }
    }

    /// Remove session `id` from the table and hand its handle back for
    /// teardown.  Returns `None`, with the table unchanged, when `id`
    /// is not live — as after a previous close of the same identifier.
    pub fn remove(&mut self, id: u32) -> (r: Option<H>)
        requires
            old(self).wf(),
        ensures
            final(self).wf(),
            final(self).next() == old(self).next(),
            match r {
                Some(h) => {
                    &&& table_lookup(old(self).table(), id) == Some(h)
                    &&& final(self).table() == table_remove(old(self).table(), id)
                    &&& !table_contains(final(self).table(), id)
                    &&& final(self).table().len() == old(self).table().len() - 1
                },
                None => {
                    &&& !table_contains(old(self).table(), id)
                    &&& final(self).table() == old(self).table()
                },
            },
    {
        proof {
            lemma_table_index_of(self.table(), id);
            lemma_remove_is_final(self.table(), id);
        }
        match self.index_of(id) {
            Some(i) => {
                let e = self.entries.remove(i);
                proof {
                    assert(self.table() =~= table_remove(old(self).table(), id));
                    assert(old(self).table()[i as int].1 == e.handle);
                }
                Some(e.handle)
            },
            None => None,
        }
    }

    /// Empty the table, handing every handle back for teardown, in
    /// registration order.  The table is empty afterwards no matter
    /// what the caller's individual teardowns then do.
    pub fn drain_all(&mut self) -> (r: Vec<H>)
        requires
            old(self).wf(),
        ensures
            final(self).wf(),
            final(self).table().len() == 0,
            final(self).next() == old(self).next(),
            r@ == old(self).table().map_values(|p: (u32, H)| p.1),
    {
        let mut out: Vec<H> = Vec::new();
        proof {
            assert(old(self).table().skip(old(self).table().len() as int).map_values(
                |p: (u32, H)| p.1,
            ) =~= Seq::<H>::empty());
        }
        loop
            invariant
                old(self).wf(),
                self.next_id == old(self).next_id,
                self.table() == old(self).table().take(self.table().len() as int),
                self.table().len() <= old(self).table().len(),
                out@ == old(self).table().skip(self.table().len() as int).map_values(
                    |p: (u32, H)| p.1,
                ),
            decreases self.table().len(),
        {
            let ghost k = self.table().len() as int;
            let ghost epre = self.entries@;
            match self.entries.pop() {
                Some(e) => {
                    proof {
                        assert(self.table() =~= old(self).table().take(k - 1));
                        assert(old(self).table().take(k)[k - 1] == (
                            epre[k - 1].id,
                            epre[k - 1].handle,
                        ));
                        assert(old(self).table()[k - 1].1 == e.handle);
                        assert(seq![e.handle] + old(self).table().skip(k).map_values(
                            |p: (u32, H)| p.1,
                        ) =~= old(self).table().skip(k - 1).map_values(|p: (u32, H)| p.1));
                    }
                    out.insert(0, e.handle);
                },
                None => {
                    proof {
                        assert(self.table() =~= Seq::<(u32, H)>::empty());
                        assert(old(self).table().skip(0) =~= old(self).table());
                    }
                    return out;
                },
            }
        }
    }
}

/// The events of a close sweep: removing every identifier leaves the
/// table empty, whatever order the sweep uses.
pub proof fn lemma_remove_shrinks<H>(t: Seq<(u32, H)>, id: u32)
    requires
        table_wf(t),
        table_contains(t, id),
    ensures
        table_remove(t, id).len() == t.len() - 1,
{
    lemma_table_index_of(t, id);
}

/// Single-session variant of the registry: at most one live session.
/// Installing a new session implicitly hands the previous one back for
/// teardown; the per-session state machine is the same.
pub struct SessionSlot<H> {
    session: Option<H>,
}

impl<H> SessionSlot<H> {
    /// The live session, if any.
    pub closed spec fn slot(&self) -> Option<H> {
        self.session
    }

    /// An empty slot.
    pub fn new() -> (r: Self)
        ensures
            r.slot() is None,
    {
        SessionSlot { session: None }
    }

    /// Whether a session is active.
    pub fn is_active(&self) -> (r: bool)
        ensures
            r == (self.slot() is Some),
    {
        match self.session {
            Some(_) => true,
            None => false,
        }
    }

    /// Install a freshly spawned session, handing back the previous
    /// one — if any — so the caller can tear it down first.
    pub fn install(&mut self, handle: H) -> (prev: Option<H>)
        ensures
            final(self).slot() == Some(handle),
            prev == old(self).slot(),
    {
        let prev = self.session.take();
        self.session = Some(handle);
        prev
    }

    /// The live session's handle, for a write or resize; `None` means
    /// the operation fails with no session active.
    pub fn get(&self) -> (r: Option<&H>)
        ensures
            match r {
                Some(h) => self.slot() == Some(*h),
                None => self.slot() is None,
            },
    {
        match &self.session {
            Some(h) => Some(h),
            None => None,
        }
    }

    /// Close the session: the slot is empty afterwards and the handle
    /// is handed back for teardown.  A second close finds nothing.
    pub fn take(&mut self) -> (r: Option<H>)
        ensures
            final(self).slot() is None,
            r == old(self).slot(),
    {
        self.session.take()
    }
}

} // verus!
