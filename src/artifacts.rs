//! Per-chunk results that later passes record: chunk ids, runtime
//! requirements, and the ids of runtimes.
use vstd::prelude::*;
use crate::chunk::opt_text;
use crate::chunk_graph::ChunkGraph;
use crate::keyed::{key_position, keyed_get, keys_unique, lemma_key_index, lemma_keyed_push, lemma_keyed_update, swap_value};
use crate::ukey_set::ChunkUkey;

verus! {

/// The id a chunk is emitted under.
pub struct ChunkId {
    pub inner: String,
}

impl ChunkId {
    pub open spec fn text(&self) -> Seq<char> {
        self.inner@
    }

    pub fn new(s: String) -> (r: Self)
        ensures
            r.text() == s@,
    {
        ChunkId { inner: s }
    }

    pub fn as_str(&self) -> (r: &str)
        ensures
            r@ == self.text(),
    {
        self.inner.as_str()
    }

    pub fn same_text(&self, o: &ChunkId) -> (r: bool)
        ensures
            r == (self.text() == o.text()),
    {
        self.inner == o.inner
    }
}

impl From<String> for ChunkId {
    fn from(s: String) -> (r: Self) {
        ChunkId { inner: s }
    }
}

impl vstd::std_specs::convert::FromSpecImpl<String> for ChunkId {
    open spec fn obeys_from_spec() -> bool {
        true
    }

    open spec fn from_spec(s: String) -> Self {
        ChunkId { inner: s }
    }
}

/// The runtime features a chunk needs, as a set of flags.
#[derive(Debug, Clone, Copy, PartialEq, Eq, Structural)]
pub struct RuntimeGlobals {
    pub bits: u64,
}

/// A value per chunk, at the index of its key.
pub struct ChunkIdsArtifact {
    pub by_chunk: Vec<Option<ChunkId>>,
}

pub struct RuntimeRequirementsArtifact {
    pub by_chunk: Vec<Option<RuntimeGlobals>>,
}

impl ChunkIdsArtifact {
    pub open spec fn get(&self, c: ChunkUkey) -> Option<ChunkId> {
        if (c as int) < self.by_chunk@.len() {
            self.by_chunk@[c as int]
        } else {
            None
        }
    }
}

impl RuntimeRequirementsArtifact {
    pub open spec fn get(&self, c: ChunkUkey) -> Option<RuntimeGlobals> {
        if (c as int) < self.by_chunk@.len() {
            self.by_chunk@[c as int]
        } else {
            None
        }
    }
}

/// Grows `v` with empty slots until it has one at `c`.
fn reach_slot<T>(v: &mut Vec<Option<T>>, c: ChunkUkey)
    ensures
        final(v)@.len() > c as int,
        final(v)@.len() >= old(v)@.len(),
        forall|i: int| 0 <= i < final(v)@.len() ==> #[trigger] final(v)@[i] == if i < old(v)@.len() {
            old(v)@[i]
        } else {
            None
        },
{
    let ghost before = v@;
    while v.len() <= c as usize
        invariant
            v@.len() >= before.len(),
            forall|i: int| 0 <= i < v@.len() ==> #[trigger] v@[i] == if i < before.len() {
                before[i]
            } else {
                None
            },
        decreases c as int + 1 - v@.len(),
    {
        v.push(None);
    }
}

impl ChunkGraph {
    pub fn get_chunk_id<'a>(chunk_ids: &'a ChunkIdsArtifact, chunk_ukey: &ChunkUkey) -> (r: Option<&'a ChunkId>)
        ensures
            match r {
                Some(id) => chunk_ids.get(*chunk_ukey) == Some(*id),
                None => chunk_ids.get(*chunk_ukey) is None,
            },
    {
        let c = *chunk_ukey as usize;
        if c < chunk_ids.by_chunk.len() {
            match &chunk_ids.by_chunk[c] {
                Some(id) => Some(id),
                None => None,
            }
        } else {
            None
        }
    }

    /// Gives `chunk_ukey` the id `id`; true when the chunk had no id or a
    /// different one.
    pub fn set_chunk_id(chunk_ids: &mut ChunkIdsArtifact, chunk_ukey: ChunkUkey, id: ChunkId) -> (r: bool)
        ensures
            final(chunk_ids).get(chunk_ukey) == Some(id),
            forall|d: ChunkUkey| d != chunk_ukey ==> #[trigger] final(chunk_ids).get(d) == old(chunk_ids).get(d),
            r == match old(chunk_ids).get(chunk_ukey) {
                Some(old_id) => old_id.text() != id.text(),
                None => true,
            },
    {
        let ghost before = *chunk_ids;
        reach_slot(&mut chunk_ids.by_chunk, chunk_ukey);
        let c = chunk_ukey as usize;
        let changed = match &chunk_ids.by_chunk[c] {
            Some(old_id) => !old_id.same_text(&id),
            None => true,
        };
        chunk_ids.by_chunk.set(c, Some(id));
        proof {
            assert forall|d: ChunkUkey| d != chunk_ukey implies #[trigger] chunk_ids.get(d) == before.get(d) by {
                if (d as int) < chunk_ids.by_chunk@.len() {
                    assert(chunk_ids.by_chunk@[d as int] == if (d as int) < before.by_chunk@.len() {
                        before.by_chunk@[d as int]
                    } else {
                        None
                    });
                }
            }
        }
        changed
    }

    pub fn set_chunk_runtime_requirements(
        artifact: &mut RuntimeRequirementsArtifact,
        chunk_ukey: ChunkUkey,
        runtime_requirements: RuntimeGlobals,
    )
        ensures
            final(artifact).get(chunk_ukey) == Some(runtime_requirements),
            forall|d: ChunkUkey| d != chunk_ukey ==> #[trigger] final(artifact).get(d) == old(artifact).get(d),
    {
        let ghost before = *artifact;
        reach_slot(&mut artifact.by_chunk, chunk_ukey);
        artifact.by_chunk.set(chunk_ukey as usize, Some(runtime_requirements));
        proof {
            assert forall|d: ChunkUkey| d != chunk_ukey implies #[trigger] artifact.get(d) == before.get(d) by {
                if (d as int) < artifact.by_chunk@.len() {
                    assert(artifact.by_chunk@[d as int] == if (d as int) < before.by_chunk@.len() {
                        before.by_chunk@[d as int]
                    } else {
                        None
                    });
                }
            }
        }
    }

    pub fn set_tree_runtime_requirements(
        artifact: &mut RuntimeRequirementsArtifact,
        chunk_ukey: ChunkUkey,
        runtime_requirements: RuntimeGlobals,
    )
        ensures
            final(artifact).get(chunk_ukey) == Some(runtime_requirements),
            forall|d: ChunkUkey| d != chunk_ukey ==> #[trigger] final(artifact).get(d) == old(artifact).get(d),
    {
        Self::set_chunk_runtime_requirements(artifact, chunk_ukey, runtime_requirements);
    }

    pub fn get_chunk_runtime_requirements<'a>(
        artifact: &'a RuntimeRequirementsArtifact,
        chunk_ukey: &ChunkUkey,
    ) -> (r: &'a RuntimeGlobals)
        requires
            artifact.get(*chunk_ukey) is Some,
        ensures
            Some(*r) == artifact.get(*chunk_ukey),
    {
        match &artifact.by_chunk[*chunk_ukey as usize] {
            Some(rr) => rr,
            None => {
                assert(false);
                artifact.by_chunk[*chunk_ukey as usize].as_ref().unwrap()
            },
        }
    }

    pub fn get_tree_runtime_requirements<'a>(
        artifact: &'a RuntimeRequirementsArtifact,
        chunk_ukey: &ChunkUkey,
    ) -> (r: &'a RuntimeGlobals)
        requires
            artifact.get(*chunk_ukey) is Some,
        ensures
            Some(*r) == artifact.get(*chunk_ukey),
    {
        Self::get_chunk_runtime_requirements(artifact, chunk_ukey)
    }

    /// The id given to `runtime`, if one was set and it is not none.
    pub open spec fn runtime_id_of(&self, runtime: Seq<char>) -> Option<Seq<char>> {
        match keyed_get(self.runtime_ids@, runtime) {
            Some(v) => opt_text(v),
            None => None,
        }
    }

    pub fn set_runtime_id(&mut self, runtime: String, id: Option<String>)
        requires
            old(self).wf(),
        ensures
            final(self).wf(),
            final(self).runtime_id_of(runtime@) == opt_text(id),
            forall|x: Seq<char>| x != runtime@ ==> #[trigger] final(self).runtime_id_of(x) == old(self).runtime_id_of(x),
            final(self).chunk_graph_chunk_by_chunk_ukey == old(self).chunk_graph_chunk_by_chunk_ukey,
            final(self).chunk_graph_module_by_module_identifier == old(self).chunk_graph_module_by_module_identifier,
    {
        let ghost before = *self;
        let ghost rv = runtime@;
        let ghost iv = opt_text(id);
        match key_position(&self.runtime_ids, &runtime) {
            Some(i) => {
                proof {
                    lemma_keyed_update(self.runtime_ids@, i as int, self.runtime_ids@[i as int].0, id);
                }
                swap_value(&mut self.runtime_ids, i, id);
            },
            None => {
                proof {
                    lemma_keyed_push(self.runtime_ids@, runtime, id);
                }
                self.runtime_ids.push((runtime, id));
            },
        }
        assert(self.runtime_id_of(rv) == iv);
        proof {
            assert forall|c: ChunkUkey| #[trigger] self.has_chunk(c) implies self.cgc(c).wf() by {
                assert(before.has_chunk(c));
            }
            assert forall|i: int| 0 <= i < self.chunk_graph_module_by_module_identifier@.len() implies
                (#[trigger] self.chunk_graph_module_by_module_identifier@[i]).1.wf() by {
                assert(self.chunk_graph_module_by_module_identifier@[i] == before.chunk_graph_module_by_module_identifier@[i]);
            }
            assert forall|d: ChunkUkey, x: Seq<char>, k: crate::chunk_graph::EdgeKind| #[trigger]
                self.kind_set_of(d, k).contains(x) <==> #[trigger] self.edge_chunks(x, k).contains(d) by {
                assert(self.kind_set_of(d, k) == before.kind_set_of(d, k));
                assert(self.edge_chunks(x, k) == before.edge_chunks(x, k));
                assert(before.kind_set_of(d, k).contains(x) == before.edge_chunks(x, k).contains(d));
            }
        }
    }

    pub fn get_runtime_id(&self, runtime: String) -> (r: Option<String>)
        requires
            self.wf(),
        ensures
            opt_text(r) == self.runtime_id_of(runtime@),
    {
        match key_position(&self.runtime_ids, &runtime) {
            Some(i) => {
                proof {
                    lemma_key_index(self.runtime_ids@, i as int);
                }
                crate::integration::clone_name(&self.runtime_ids[i].1)
            },
            None => None,
        }
    }
}

} // verus!
