use vstd::prelude::*;

use crate::paths::{join_path, joined};

verus! {

/// The backlog of relative paths still to download, shared by all workers.
///
/// Its owner guards it with one lock, held for a single `pop` or `next_job`
/// and never across a transfer.
pub struct WorkQueue {
    items: Vec<String>,
}

impl View for WorkQueue {
    type V = Seq<Seq<char>>;

    closed spec fn view(&self) -> Seq<Seq<char>> {
        self.items@.map_values(|s: String| s@)
    }
}

/// What one pop hands out: the last path, or nothing once the backlog is empty.
pub open spec fn pop_result(q: Seq<Seq<char>>) -> Option<Seq<char>> {
    if q.len() == 0 {
        None
    } else {
        Some(q.last())
    }
}

/// The backlog after one pop.
pub open spec fn after_pop(q: Seq<Seq<char>>) -> Seq<Seq<char>> {
    if q.len() == 0 {
        q
    } else {
        q.drop_last()
    }
}

/// What `k` pops in a row hand out, whoever makes them.
pub open spec fn pops(q: Seq<Seq<char>>, k: nat) -> Seq<Option<Seq<char>>>
    decreases k,
{
    if k == 0 {
        seq![]
    } else {
        seq![pop_result(q)] + pops(after_pop(q), (k - 1) as nat)
    }
}

/// However many workers share the backlog, the pops they make under its lock
/// form one sequence of pops. Over a backlog of `M` paths, the first `M` pops
/// succeed and hand out each stored path once, from distinct positions, the
/// last first; every later pop finds it empty.
pub proof fn lemma_each_path_popped_once(q: Seq<Seq<char>>, k: nat)
    requires
        k >= q.len(),
    ensures
        pops(q, k).len() == k,
        forall|i: int| 0 <= i < q.len() ==> #[trigger] pops(q, k)[i] == Some(q[q.len() - 1 - i]),
        forall|i: int| q.len() <= i < k ==> #[trigger] pops(q, k)[i] is None,
    decreases k,
{
    if k > 0 {
        let rest = pops(after_pop(q), (k - 1) as nat);
        lemma_each_path_popped_once(after_pop(q), (k - 1) as nat);
        assert(pops(q, k) == seq![pop_result(q)] + rest);
        assert forall|i: int| 0 <= i < q.len() implies #[trigger] pops(q, k)[i] == Some(
            q[q.len() - 1 - i],
        ) by {
            if i > 0 {
                assert(pops(q, k)[i] == rest[i - 1]);
            }
        }
        assert forall|i: int| q.len() <= i < k implies #[trigger] pops(q, k)[i] is None by {
            if i > 0 {
                assert(pops(q, k)[i] == rest[i - 1]);
            }
        }
    }
}

/// A pop finds nothing exactly when the backlog is empty, and an empty
/// backlog stays empty, so a worker that found it empty has nothing to wait
/// for.
pub proof fn lemma_exhausted_stays_empty(q: Seq<Seq<char>>)
    ensures
        pop_result(q) is None <==> q.len() == 0,
        q.len() == 0 ==> after_pop(q) == q,
        q.len() > 0 ==> after_pop(q).len() == q.len() - 1,
{
}

/// What a worker does after taking its turn at the backlog.
pub enum WorkerAction {
    /// Fetch `remote` and write it to `local` under the backup root.
    Download { remote: String, local: String },
    /// The backlog is empty: close the session and stop.
    Quit,
}

impl WorkQueue {
    /// A backlog that holds the manifest `items`.
    pub fn new(items: Vec<String>) -> (r: WorkQueue)
        ensures
            r@ == items@.map_values(|s: String| s@),
    {
        WorkQueue { items }
    }

    pub fn len(&self) -> (r: usize)
        ensures
            r == self@.len(),
    {
        self.items.len()
    }

    pub fn is_empty(&self) -> (r: bool)
        ensures
            r == (self@.len() == 0),
    {
        self.items.len() == 0
    }

    /// Removes and returns one path; `None` exactly when the backlog is empty.
    pub fn pop(&mut self) -> (r: Option<String>)
        ensures
            final(self)@ == after_pop(old(self)@),
            r matches Some(p) ==> pop_result(old(self)@) == Some(p@),
            r is None ==> pop_result(old(self)@) is None,
    {
        let r = self.items.pop();
        proof {
            assert(self@ =~= after_pop(old(self)@));
        }
        r
    }

    /// One turn of a worker whose downloads come from under `remote_root`:
    /// takes one path and says what to fetch and where to write it, or says
    /// to stop.
    pub fn next_job(&mut self, remote_root: &str) -> (a: WorkerAction)
        ensures
            final(self)@ == after_pop(old(self)@),
            match a {
                WorkerAction::Download { remote, local } => pop_result(old(self)@) == Some(local@)
                    && remote@ == joined(remote_root@, local@),
                WorkerAction::Quit => pop_result(old(self)@) is None,
            },
    {
        match self.pop() {
            Some(local) => {
                let remote = join_path(remote_root, local.as_str());
                WorkerAction::Download { remote, local }
            },
            None => WorkerAction::Quit,
        }
    }
}

} // verus!
