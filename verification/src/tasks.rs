//! Request bookkeeping: stale-result guards and the change debounce.
use vstd::prelude::*;

use tower_lsp::lsp_types::Url;

verus! {

/// A result computed for one version of a document.
#[derive(Debug)]
pub struct VersionedDocumentGuard {
    uri: Url,
    version: i32,
}

impl VersionedDocumentGuard {
    pub closed spec fn spec_version(&self) -> i32 {
        self.version
    }

    pub closed spec fn spec_uri(&self) -> Url {
        self.uri
    }

    pub fn new(uri: Url, version: i32) -> (guard: Self)
        ensures
            guard.spec_version() == version,
            guard.spec_uri() == uri,
    {
        VersionedDocumentGuard { uri, version }
    }

    pub fn uri(&self) -> (r: &Url)
        ensures
            *r == self.spec_uri(),
    {
        &self.uri
    }

    pub fn version(&self) -> (v: i32)
        ensures
            v == self.spec_version(),
    {
        self.version
    }

    /// The result is still current when the document's latest version is the guarded one.
    pub fn is_current(&self, latest_version: Option<i32>) -> (r: bool)
        ensures
            r == (latest_version == Some(self.spec_version())),
    {
        match latest_version {
            Some(v) => v == self.version,
            None => false,
        }
    }
}

/// Milliseconds to wait after a document change before recomputing results.
pub fn debounce_millis_for_document_change() -> (millis: u64)
    ensures
        millis == 50,
{
    50
}


/// The ids of requests that were cancelled and have not finished, each once.
#[derive(Debug)]
pub struct CancellationRegistry {
    cancelled: Vec<u64>,
}

impl CancellationRegistry {
    /// The cancelled ids.
    pub closed spec fn ids(&self) -> Set<u64> {
        self.cancelled@.to_set()
    }

    /// No id is held twice.
    pub closed spec fn wf(&self) -> bool {
        self.cancelled@.no_duplicates()
    }

    /// A registry with no cancelled request.
    pub fn new() -> (r: Self)
        ensures
            r.wf(),
            r.ids() == Set::<u64>::empty(),
    {
        let r = CancellationRegistry { cancelled: Vec::new() };
        assert(r.cancelled@.to_set() =~= Set::<u64>::empty());
        r
    }

    fn position(&self, id: u64) -> (r: Option<usize>)
        ensures
            match r {
                Some(k) => k < self.cancelled@.len() && self.cancelled@[k as int] == id,
                None => !self.cancelled@.contains(id),
            },
    {
        let mut k: usize = 0;
        while k < self.cancelled.len()
            invariant
                k <= self.cancelled@.len(),
                forall|j: int| 0 <= j < k ==> self.cancelled@[j] != id,
            decreases self.cancelled@.len() - k,
        {
            if self.cancelled[k] == id {
                return Some(k);
            }
            k = k + 1;
        }
        None
    }

    /// Marks a request as cancelled.
    pub fn cancel(&mut self, id: u64)
        requires
            old(self).wf(),
        ensures
            final(self).wf(),
            final(self).ids() == old(self).ids().insert(id),
    {
        if self.position(id).is_none() {
            let ghost before = self.cancelled@;
            self.cancelled.push(id);
            assert(self.cancelled@ =~= before.push(id));
            assert(self.cancelled@.to_set() =~= before.to_set().insert(id)) by {
                assert forall|x: u64| self.cancelled@.contains(x) <==> (before.contains(x) || x == id) by {
                    if before.contains(x) {
                        let j = choose|j: int| 0 <= j < before.len() && before[j] == x;
                        assert(self.cancelled@[j] == x);
                    }
                    if x == id {
                        assert(self.cancelled@[before.len() as int] == id);
                    }
                }
            }
        } else {
            assert(self.cancelled@.to_set() =~= self.cancelled@.to_set().insert(id));
        }
    }

    /// Whether a request was cancelled and has not finished.
    pub fn is_cancelled(&self, id: u64) -> (r: bool)
        ensures
            r == self.ids().contains(id),
    {
        self.position(id).is_some()
    }

    /// Forgets a request once it has finished.
    pub fn finish(&mut self, id: u64)
        requires
            old(self).wf(),
        ensures
            final(self).wf(),
            final(self).ids() == old(self).ids().remove(id),
    {
        match self.position(id) {
            None => {
                assert(self.cancelled@.to_set() =~= self.cancelled@.to_set().remove(id));
            },
            Some(k) => {
                let ghost before = self.cancelled@;
                self.cancelled.remove(k);
                assert(self.cancelled@ =~= before.subrange(0, k as int) + before.subrange(k + 1, before.len() as int));
                assert(self.cancelled@.no_duplicates()) by {
                    assert forall|i: int, j: int| 0 <= i < j < self.cancelled@.len() implies self.cancelled@[i]
                        != self.cancelled@[j] by {
                        let bi = if i < k { i } else { i + 1 };
                        let bj = if j < k { j } else { j + 1 };
                        assert(self.cancelled@[i] == before[bi]);
                        assert(self.cancelled@[j] == before[bj]);
                    }
                }
                assert(self.cancelled@.to_set() =~= before.to_set().remove(id)) by {
                    assert forall|x: u64| self.cancelled@.contains(x) <==> (before.contains(x) && x != id) by {
                        if self.cancelled@.contains(x) {
                            let j = choose|j: int| 0 <= j < self.cancelled@.len() && self.cancelled@[j] == x;
                            let bj = if j < k { j } else { j + 1 };
                            assert(before[bj] == x);
                            assert(bj != k as int);
                        }
                        if before.contains(x) && x != id {
                            let j = choose|j: int| 0 <= j < before.len() && before[j] == x;
                            assert(j != k as int);
                            let cj = if j < k { j } else { j - 1 };
                            assert(self.cancelled@[cj] == x);
                        }
                    }
                }
            },
        }
    }
}

impl Default for CancellationRegistry {
    fn default() -> (r: Self)
        ensures
            r.wf(),
            r.ids() == Set::<u64>::empty(),
    {
        CancellationRegistry::new()
    }
}

/// A cancelled request reads as cancelled until it finishes, and not after; finishing one
/// request leaves the others as they were.
pub proof fn lemma_cancel_then_finish(ids: Set<u64>, id: u64, other: u64)
    requires
        other != id,
    ensures
        ids.insert(id).contains(id),
        !ids.insert(id).remove(id).contains(id),
        ids.insert(id).remove(id).contains(other) == ids.contains(other),
{
}

} // verus!
