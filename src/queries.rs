//! Read-only questions about the chunk graph, and the edits of a chunk's
//! source-type overrides.
use vstd::prelude::*;
use crate::chunk_graph::ChunkGraph;
use crate::chunk_graph_chunk::ChunkGraphChunk;
use crate::ident::{ids, lemma_sorted_sets_equal, sort_identifiers, strictly_sorted, ModuleIdentifier};
use crate::module_graph::{has_source_type, ModuleGraph};
use crate::source_type::{source_types_contain, SourceType};
use crate::ukey_set::{lemma_push_no_duplicates, ChunkUkey};

verus! {

/// Whether chunk `c` gives module `m` the source type `t`: by its override
/// when it has one, else by the module's own source types.
pub open spec fn chunk_module_has_type(g: ChunkGraph, c: ChunkUkey, mg: ModuleGraph, m: Seq<char>, t: SourceType) -> bool {
    match g.override_of(c, m) {
        Some(ts) => ts.contains(t),
        None => mg.module_has_type(m, t),
    }
}

/// The total size of the modules `ms` that the module graph knows.
pub open spec fn modules_size(ms: Seq<Seq<char>>, mg: ModuleGraph) -> int
    decreases ms.len(),
{
    if ms.len() == 0 {
        0
    } else {
        modules_size(ms.drop_last(), mg) + if mg.has(ms.last()) {
            mg.module_size(ms.last())
        } else {
            0
        }
    }
}

/// Two identifier lists in text order with the modules of one chunk are
/// the same list: the ordered listing of a chunk's modules is determined by
/// the graph.
pub proof fn lemma_ordered_modules_deterministic(
    g: ChunkGraph,
    c: ChunkUkey,
    s1: Seq<Seq<char>>,
    s2: Seq<Seq<char>>,
)
    requires
        strictly_sorted(s1),
        strictly_sorted(s2),
        s1.to_set() == g.modules_of(c),
        s2.to_set() == g.modules_of(c),
    ensures
        s1 == s2,
{
    lemma_sorted_sets_equal(s1, s2);
}

/// The edges of a graph that satisfies the well-formedness invariant are
/// recorded on both sides, for every kind of edge.
pub proof fn lemma_symmetry(g: ChunkGraph, c: ChunkUkey, m: Seq<char>)
    requires
        g.wf(),
    ensures
        g.modules_of(c).contains(m) <==> g.chunks_of(m).contains(c),
        g.entry_set_of(c).contains(m) <==> g.entry_chunks_of(m).contains(c),
        g.runtime_of(c).contains(m) <==> g.runtime_chunks_of(m).contains(c),
{
    assert(g.kind_set_of(c, crate::chunk_graph::EdgeKind::Module).contains(m) == g.edge_chunks(m, crate::chunk_graph::EdgeKind::Module).contains(c));
    assert(g.kind_set_of(c, crate::chunk_graph::EdgeKind::Entry).contains(m) == g.edge_chunks(m, crate::chunk_graph::EdgeKind::Entry).contains(c));
    assert(g.kind_set_of(c, crate::chunk_graph::EdgeKind::Runtime).contains(m) == g.edge_chunks(m, crate::chunk_graph::EdgeKind::Runtime).contains(c));
}

impl ChunkGraph {
    pub fn expect_chunk_graph_chunk(&self, chunk: &ChunkUkey) -> (r: &ChunkGraphChunk)
        requires
            self.has_chunk(*chunk),
        ensures
            *r == self.cgc(*chunk),
    {
        match &self.chunk_graph_chunk_by_chunk_ukey[*chunk as usize] {
            Some(cgc) => cgc,
            None => {
                assert(false);
                &self.chunk_graph_chunk_by_chunk_ukey[*chunk as usize].as_ref().unwrap()
            },
        }
    }

    pub fn get_chunk_graph_chunk(&self, chunk: &ChunkUkey) -> (r: Option<&ChunkGraphChunk>)
        ensures
            r is Some == self.has_chunk(*chunk),
            r is Some ==> *r.unwrap() == self.cgc(*chunk),
    {
        let c = *chunk as usize;
        if c < self.chunk_graph_chunk_by_chunk_ukey.len() {
            match &self.chunk_graph_chunk_by_chunk_ukey[c] {
                Some(cgc) => Some(cgc),
                None => None,
            }
        } else {
            None
        }
    }

    /// Gives `chunk_ukey`, which has no record, the record `cgc`, which
    /// holds no module.
    pub fn add_chunk_wit_chunk_graph_chunk(&mut self, chunk_ukey: ChunkUkey, cgc: ChunkGraphChunk)
        requires
            old(self).wf(),
            !old(self).has_chunk(chunk_ukey),
            cgc.wf(),
            cgc.module_set().is_empty(),
            cgc.entry_view().len() == 0,
            cgc.runtime_view().len() == 0,
        ensures
            final(self).wf(),
            final(self).has_chunk(chunk_ukey),
            final(self).cgc(chunk_ukey) == cgc,
            final(self).chunks_agree_except(old(self), chunk_ukey),
            final(self).chunk_graph_module_by_module_identifier == old(self).chunk_graph_module_by_module_identifier,
    {
        let ghost before = *self;
        self.add_chunk(chunk_ukey);
        let ghost mid = *self;
        self.chunk_graph_chunk_by_chunk_ukey.set(chunk_ukey as usize, Some(cgc));
        proof {
            assert forall|d: ChunkUkey| d != chunk_ukey implies #[trigger] self.has_chunk(d) == before.has_chunk(d)
                && (self.has_chunk(d) ==> self.cgc(d) == before.cgc(d)) by {
                if (d as int) < mid.chunk_graph_chunk_by_chunk_ukey@.len() {
                    assert(self.chunk_graph_chunk_by_chunk_ukey@[d as int] == mid.chunk_graph_chunk_by_chunk_ukey@[d as int]);
                }
                assert(mid.has_chunk(d) == before.has_chunk(d));
            }
            assert forall|d: ChunkUkey| #[trigger] self.has_chunk(d) implies self.cgc(d).wf() by {}
            assert(crate::keyed::keys_of(cgc.entry_modules@).len() == 0);
            assert(cgc.entry_set() =~= Set::<Seq<char>>::empty());
            assert(cgc.runtime_view().to_set() =~= Set::<Seq<char>>::empty());
            assert forall|d: ChunkUkey, x: Seq<char>, k: crate::chunk_graph::EdgeKind| #[trigger]
                self.kind_set_of(d, k).contains(x) <==> #[trigger] self.edge_chunks(x, k).contains(d) by {
                assert(self.edge_chunks(x, k) == before.edge_chunks(x, k));
                assert(before.kind_set_of(d, k).contains(x) == before.edge_chunks(x, k).contains(d));
                if d == chunk_ukey {
                    assert(!before.has_chunk(d));
                    assert(Seq::<Seq<char>>::empty().to_set() =~= Set::<Seq<char>>::empty());
                    assert(before.kind_set_of(d, k) =~= Set::<Seq<char>>::empty());
                    assert(self.kind_set_of(d, k) =~= Set::<Seq<char>>::empty());
                } else {
                    assert(self.kind_set_of(d, k) == before.kind_set_of(d, k));
                }
            }
        }
    }

    /// The entry modules of `chunk`, in order.
    pub fn get_chunk_entry_modules(&self, chunk_ukey: &ChunkUkey) -> (r: Vec<ModuleIdentifier>)
        requires
            self.has_chunk(*chunk_ukey),
        ensures
            ids(r@) == self.entries_of(*chunk_ukey).map_values(|e: (Seq<char>, u32)| e.0),
    {
        let cgc = self.expect_chunk_graph_chunk(chunk_ukey);
        let mut r: Vec<ModuleIdentifier> = Vec::new();
        let mut i: usize = 0;
        while i < cgc.entry_modules.len()
            invariant
                0 <= i <= cgc.entry_modules@.len(),
                r@.len() == i,
                forall|k: int| 0 <= k < i ==> (#[trigger] r@[k])@ == cgc.entry_modules@[k].0@,
            decreases cgc.entry_modules@.len() - i,
        {
            r.push(cgc.entry_modules[i].0.clone());
            i = i + 1;
        }
        assert(ids(r@) =~= self.entries_of(*chunk_ukey).map_values(|e: (Seq<char>, u32)| e.0));
        r
    }

    /// The modules of `chunk`.
    pub fn get_chunk_modules_identifier(&self, chunk: &ChunkUkey) -> (r: &Vec<ModuleIdentifier>)
        requires
            self.wf(),
            self.has_chunk(*chunk),
        ensures
            ids(r@).to_set() == self.modules_of(*chunk),
            ids(r@).no_duplicates(),
    {
        &self.expect_chunk_graph_chunk(chunk).modules
    }

    /// The modules of `chunk` in text order of their identifiers.
    pub fn get_ordered_chunk_modules_identifier(&self, chunk: &ChunkUkey) -> (r: Vec<ModuleIdentifier>)
        requires
            self.wf(),
            self.has_chunk(*chunk),
        ensures
            ids(r@).to_set() == self.modules_of(*chunk),
            strictly_sorted(ids(r@)),
    {
        sort_identifiers(&self.expect_chunk_graph_chunk(chunk).modules)
    }

    pub fn get_number_of_chunk_modules(&self, chunk: &ChunkUkey) -> (r: usize)
        requires
            self.wf(),
            self.has_chunk(*chunk),
        ensures
            r == self.modules_of(*chunk).len(),
    {
        let cgc = self.expect_chunk_graph_chunk(chunk);
        proof {
            ids(cgc.modules@).unique_seq_to_set();
        }
        cgc.modules.len()
    }

    /// The modules of `chunk` that the module graph knows.
    pub fn get_chunk_modules(&self, chunk: &ChunkUkey, module_graph: &ModuleGraph) -> (r: Vec<ModuleIdentifier>)
        requires
            self.wf(),
            self.has_chunk(*chunk),
            module_graph.wf(),
        ensures
            ids(r@).to_set() == self.modules_of(*chunk).filter(|m: Seq<char>| module_graph.has(m)),
            ids(r@).no_duplicates(),
    {
        let cgc = self.expect_chunk_graph_chunk(chunk);
        let mut r: Vec<ModuleIdentifier> = Vec::new();
        let mut i: usize = 0;
        while i < cgc.modules.len()
            invariant
                0 <= i <= cgc.modules@.len(),
                ids(cgc.modules@).no_duplicates(),
                module_graph.wf(),
                ids(r@).no_duplicates(),
                ids(r@).to_set() == ids(cgc.modules@.subrange(0, i as int)).to_set().filter(|m: Seq<char>| module_graph.has(m)),
            decreases cgc.modules@.len() - i,
        {
            let m = &cgc.modules[i];
            let ghost prefix = ids(cgc.modules@.subrange(0, i as int));
            proof {
                assert(ids(cgc.modules@.subrange(0, i + 1)) =~= prefix.push(m@));
                prefix.lemma_push_to_set_commute(m@);
                assert(!prefix.contains(m@)) by {
                    if prefix.contains(m@) {
                        let k = choose|k: int| 0 <= k < prefix.len() && prefix[k] == m@;
                        assert(ids(cgc.modules@)[k] == ids(cgc.modules@)[i as int]);
                    }
                }
            }
            if module_graph.module_by_identifier(m).is_some() {
                let mc = m.clone();
                proof {
                    assert(!ids(r@).contains(m@)) by {
                        if ids(r@).contains(m@) {
                            assert(ids(r@).to_set().contains(m@));
                        }
                    }
                    lemma_push_no_duplicates(ids(r@), m@);
                    assert(ids(r@.push(mc)) =~= ids(r@).push(m@));
                }
                r.push(mc);
            }
            i = i + 1;
            assert(ids(r@).to_set() =~= ids(cgc.modules@.subrange(0, i as int)).to_set().filter(|m: Seq<char>| module_graph.has(m)));
        }
        assert(cgc.modules@.subrange(0, i as int) =~= cgc.modules@);
        r
    }

    /// The modules of `chunk` that the module graph knows, in text order.
    pub fn get_ordered_chunk_modules(&self, chunk: &ChunkUkey, module_graph: &ModuleGraph) -> (r: Vec<ModuleIdentifier>)
        requires
            self.wf(),
            self.has_chunk(*chunk),
            module_graph.wf(),
        ensures
            ids(r@).to_set() == self.modules_of(*chunk).filter(|m: Seq<char>| module_graph.has(m)),
            strictly_sorted(ids(r@)),
    {
        let modules = self.get_chunk_modules(chunk, module_graph);
        sort_identifiers(&modules)
    }

    /// The modules of `chunk` that the module graph knows and that have
    /// source type `source_type` in this chunk: by the chunk's override for
    /// the module when there is one, else by the module's own types.
    pub fn get_chunk_modules_by_source_type(
        &self,
        chunk: &ChunkUkey,
        source_type: SourceType,
        module_graph: &ModuleGraph,
    ) -> (r: Vec<ModuleIdentifier>)
        requires
            self.wf(),
            self.has_chunk(*chunk),
            module_graph.wf(),
        ensures
            ids(r@).to_set() == self.modules_of(*chunk).filter(
                |m: Seq<char>|
                    module_graph.has(m) && chunk_module_has_type(*self, *chunk, *module_graph, m, source_type),
            ),
            ids(r@).no_duplicates(),
    {
        self.modules_with_type(chunk, source_type, module_graph, true)
    }

    /// The modules of `chunk` that the module graph knows and whose own
    /// source types hold `source_type`.
    pub fn get_chunk_modules_iterable_by_source_type(
        &self,
        chunk: &ChunkUkey,
        source_type: SourceType,
        module_graph: &ModuleGraph,
    ) -> (r: Vec<ModuleIdentifier>)
        requires
            self.wf(),
            self.has_chunk(*chunk),
            module_graph.wf(),
        ensures
            ids(r@).to_set() == self.modules_of(*chunk).filter(
                |m: Seq<char>| module_graph.has(m) && module_graph.module_has_type(m, source_type),
            ),
            ids(r@).no_duplicates(),
    {
        self.modules_with_type(chunk, source_type, module_graph, false)
    }

    fn modules_with_type(
        &self,
        chunk: &ChunkUkey,
        source_type: SourceType,
        module_graph: &ModuleGraph,
        honor_overrides: bool,
    ) -> (r: Vec<ModuleIdentifier>)
        requires
            self.wf(),
            self.has_chunk(*chunk),
            module_graph.wf(),
        ensures
            ids(r@).to_set() == self.modules_of(*chunk).filter(
                |m: Seq<char>|
                    module_graph.has(m) && if honor_overrides {
                        chunk_module_has_type(*self, *chunk, *module_graph, m, source_type)
                    } else {
                        module_graph.module_has_type(m, source_type)
                    },
            ),
            ids(r@).no_duplicates(),
    {
        let cgc = self.expect_chunk_graph_chunk(chunk);
        let ghost pred = |m: Seq<char>|
            module_graph.has(m) && if honor_overrides {
                chunk_module_has_type(*self, *chunk, *module_graph, m, source_type)
            } else {
                module_graph.module_has_type(m, source_type)
            };
        let mut r: Vec<ModuleIdentifier> = Vec::new();
        let mut i: usize = 0;
        while i < cgc.modules.len()
            invariant
                0 <= i <= cgc.modules@.len(),
                *cgc == self.cgc(*chunk),
                self.has_chunk(*chunk),
                self.wf(),
                ids(cgc.modules@).no_duplicates(),
                cgc.wf(),
                module_graph.wf(),
                ids(r@).no_duplicates(),
                ids(r@).to_set() == ids(cgc.modules@.subrange(0, i as int)).to_set().filter(pred),
                pred == (|m: Seq<char>|
                    module_graph.has(m) && if honor_overrides {
                        chunk_module_has_type(*self, *chunk, *module_graph, m, source_type)
                    } else {
                        module_graph.module_has_type(m, source_type)
                    }),
            decreases cgc.modules@.len() - i,
        {
            let m = &cgc.modules[i];
            let ghost prefix = ids(cgc.modules@.subrange(0, i as int));
            proof {
                assert(ids(cgc.modules@.subrange(0, i + 1)) =~= prefix.push(m@));
                prefix.lemma_push_to_set_commute(m@);
                assert(!prefix.contains(m@)) by {
                    if prefix.contains(m@) {
                        let k = choose|k: int| 0 <= k < prefix.len() && prefix[k] == m@;
                        assert(ids(cgc.modules@)[k] == ids(cgc.modules@)[i as int]);
                    }
                }
            }
            let keep = match module_graph.module_by_identifier(m) {
                Some(info) => {
                    if honor_overrides {
                        match self.override_types(chunk, m) {
                            Some(types) => source_types_contain(types, source_type),
                            None => info.has_source_type(source_type),
                        }
                    } else {
                        info.has_source_type(source_type)
                    }
                },
                None => false,
            };
            assert(keep == pred(m@));
            if keep {
                let mc = m.clone();
                proof {
                    assert(!ids(r@).contains(m@)) by {
                        if ids(r@).contains(m@) {
                            assert(ids(r@).to_set().contains(m@));
                        }
                    }
                    lemma_push_no_duplicates(ids(r@), m@);
                    assert(ids(r@.push(mc)) =~= ids(r@).push(m@));
                }
                r.push(mc);
            }
            i = i + 1;
            assert(ids(r@).to_set() =~= ids(cgc.modules@.subrange(0, i as int)).to_set().filter(pred));
        }
        assert(cgc.modules@.subrange(0, i as int) =~= cgc.modules@);
        r
    }

    /// The source types that `chunk` gives module `m` in place of its own.
    fn override_types(&self, chunk: &ChunkUkey, m: &ModuleIdentifier) -> (r: Option<&Vec<SourceType>>)
        requires
            self.wf(),
            self.has_chunk(*chunk),
        ensures
            match r {
                Some(v) => self.override_of(*chunk, m@) == Some(v@.to_set()),
                None => self.override_of(*chunk, m@) is None,
            },
    {
        let cgc = self.expect_chunk_graph_chunk(chunk);
        match &cgc.source_types_by_module {
            Some(v) => match crate::keyed::key_position(v, m) {
                Some(i) => {
                    proof {
                        crate::keyed::lemma_key_index(v@, i as int);
                    }
                    Some(&v[i].1)
                },
                None => None,
            },
            None => None,
        }
    }

    /// The source types of module `m` in `chunk`: the chunk's override
    /// when it has one, else the module's own.
    pub fn get_chunk_module_source_types(
        &self,
        chunk: &ChunkUkey,
        m: &ModuleIdentifier,
        module_graph: &ModuleGraph,
    ) -> (r: Vec<SourceType>)
        requires
            self.wf(),
            self.has_chunk(*chunk),
            module_graph.wf(),
            module_graph.has(m@),
        ensures
            forall|t: SourceType| #[trigger] r@.contains(t) == chunk_module_has_type(*self, *chunk, *module_graph, m@, t),
    {
        let mut r: Vec<SourceType> = Vec::new();
        match self.override_types(chunk, m) {
            Some(types) => {
                let mut i: usize = 0;
                while i < types.len()
                    invariant
                        0 <= i <= types@.len(),
                        r@ == types@.subrange(0, i as int),
                    decreases types@.len() - i,
                {
                    r.push(types[i]);
                    i = i + 1;
                    assert(r@ =~= types@.subrange(0, i as int));
                }
                assert(r@ =~= types@);
            },
            None => {
                let info = match module_graph.module_by_identifier(m) {
                    Some(info) => info,
                    None => {
                        assert(false);
                        return r;
                    },
                };
                let mut i: usize = 0;
                while i < info.source_types.len()
                    invariant
                        0 <= i <= info.source_types@.len(),
                        r@.len() == i,
                        forall|k: int| 0 <= k < i ==> #[trigger] r@[k] == info.source_types@[k].0,
                    decreases info.source_types@.len() - i,
                {
                    r.push(info.source_types[i].0);
                    i = i + 1;
                }
                assert forall|t: SourceType| #[trigger] r@.contains(t) == has_source_type(info.source_types@, t) by {
                    if r@.contains(t) {
                        let k = choose|k: int| 0 <= k < r@.len() && r@[k] == t;
                        assert(info.source_types@[k].0 == t);
                    }
                    if has_source_type(info.source_types@, t) {
                        let k = choose|k: int| 0 <= k < info.source_types@.len() && (#[trigger] info.source_types@[k]).0 == t;
                        assert(r@[k] == t);
                    }
                }
            },
        }
        r
    }

    /// Gives module `module` the source types `source_types` in `chunk`.
    pub fn set_chunk_modules_source_types(
        &mut self,
        chunk: &ChunkUkey,
        module: ModuleIdentifier,
        source_types: Vec<SourceType>,
    )
        requires
            old(self).wf(),
            old(self).has_chunk(*chunk),
        ensures
            final(self).wf(),
            final(self).override_of(*chunk, module@) == Some(source_types@.to_set()),
            forall|x: Seq<char>| x != module@ ==> #[trigger] final(self).override_of(*chunk, x) == old(self).override_of(*chunk, x),
            forall|d: ChunkUkey| #[trigger] final(self).has_chunk(d) == old(self).has_chunk(d),
            forall|d: ChunkUkey| d != *chunk ==> #[trigger] final(self).override_of(d, module@) == old(self).override_of(d, module@),
            final(self).same_module_edges(old(self)),
            final(self).same_entry_edges(old(self)),
            final(self).same_runtime_edges(old(self)),
    {
        let ghost before = *self;
        let c = *chunk as usize;
        let mut slot: Option<ChunkGraphChunk> = None;
        self.chunk_graph_chunk_by_chunk_ukey.set_and_swap(c, &mut slot);
        let mut cgc = match slot {
            Some(cgc) => cgc,
            None => {
                assert(false);
                ChunkGraphChunk::new()
            },
        };
        cgc.set_source_types(module, source_types);
        self.chunk_graph_chunk_by_chunk_ukey.set(c, Some(cgc));
        proof {
            assert forall|d: ChunkUkey| #[trigger] self.has_chunk(d) == before.has_chunk(d) by {}
            assert forall|d: ChunkUkey| #[trigger] self.has_chunk(d) implies self.cgc(d).wf() by {}
            assert forall|d: ChunkUkey, x: Seq<char>, k: crate::chunk_graph::EdgeKind| #[trigger]
                self.kind_set_of(d, k).contains(x) <==> #[trigger] self.edge_chunks(x, k).contains(d) by {
                assert(self.kind_set_of(d, k) == before.kind_set_of(d, k));
                assert(self.edge_chunks(x, k) == before.edge_chunks(x, k));
                assert(before.kind_set_of(d, k).contains(x) == before.edge_chunks(x, k).contains(d));
            }
            assert forall|d: ChunkUkey| #[trigger] self.entry_set_of(d) == before.entry_set_of(d) by {}
        }
    }

    /// The runtime modules of `chunk`, in the order they were attached.
    pub fn get_chunk_runtime_modules_iterable(&self, chunk_ukey: &ChunkUkey) -> (r: &Vec<ModuleIdentifier>)
        requires
            self.has_chunk(*chunk_ukey),
        ensures
            ids(r@) == self.runtime_of(*chunk_ukey),
    {
        &self.expect_chunk_graph_chunk(chunk_ukey).runtime_modules
    }

    pub fn has_chunk_runtime_modules(&self, chunk_ukey: &ChunkUkey) -> (r: bool)
        requires
            self.has_chunk(*chunk_ukey),
        ensures
            r == (self.runtime_of(*chunk_ukey).len() > 0),
    {
        self.expect_chunk_graph_chunk(chunk_ukey).runtime_modules.len() > 0
    }

    /// Drops the record of `chunk_ukey`, which must hold no module, and
    /// hands it back.
    pub fn remove_chunk(&mut self, chunk_ukey: &ChunkUkey) -> (r: Option<ChunkGraphChunk>)
        requires
            old(self).wf(),
            forall|k: crate::chunk_graph::EdgeKind| #[trigger] old(self).kind_set_of(*chunk_ukey, k).is_empty(),
        ensures
            final(self).wf(),
            r == if old(self).has_chunk(*chunk_ukey) {
                Some(old(self).cgc(*chunk_ukey))
            } else {
                None::<ChunkGraphChunk>
            },
            !final(self).has_chunk(*chunk_ukey),
            final(self).chunks_agree_except(old(self), *chunk_ukey),
            final(self).chunk_graph_module_by_module_identifier == old(self).chunk_graph_module_by_module_identifier,
    {
        let ghost before = *self;
        let c = *chunk_ukey as usize;
        if c >= self.chunk_graph_chunk_by_chunk_ukey.len() {
            return None;
        }
        let mut slot: Option<ChunkGraphChunk> = None;
        self.chunk_graph_chunk_by_chunk_ukey.set_and_swap(c, &mut slot);
        proof {
            assert forall|d: ChunkUkey| #[trigger] self.has_chunk(d) implies self.cgc(d).wf() by {
                assert(d != *chunk_ukey);
                assert(self.chunk_graph_chunk_by_chunk_ukey@[d as int] == before.chunk_graph_chunk_by_chunk_ukey@[d as int]);
                assert(before.has_chunk(d));
            }
            assert forall|d: ChunkUkey, x: Seq<char>, k: crate::chunk_graph::EdgeKind| #[trigger]
                self.kind_set_of(d, k).contains(x) <==> #[trigger] self.edge_chunks(x, k).contains(d) by {
                assert(self.edge_chunks(x, k) == before.edge_chunks(x, k));
                assert(before.kind_set_of(d, k).contains(x) == before.edge_chunks(x, k).contains(d));
                if d == *chunk_ukey {
                    assert(before.kind_set_of(d, k).is_empty());
                    assert(!before.kind_set_of(d, k).contains(x));
                    assert(self.kind_set_of(d, k) =~= Set::<Seq<char>>::empty()) by {
                        assert(Seq::<Seq<char>>::empty().to_set() =~= Set::<Seq<char>>::empty());
                    }
                } else {
                    assert(self.kind_set_of(d, k) == before.kind_set_of(d, k));
                }
            }
        }
        slot
    }

    /// The total size of the modules of `chunk` that the module graph
    /// knows, over all their source types.
    pub fn get_chunk_modules_size(&self, chunk: &ChunkUkey, module_graph: &ModuleGraph) -> (r: u64)
        requires
            self.has_chunk(*chunk),
            module_graph.wf(),
            modules_size(ids(self.cgc(*chunk).modules@), *module_graph) <= u64::MAX,
        ensures
            r == modules_size(ids(self.cgc(*chunk).modules@), *module_graph),
    {
        let cgc = self.expect_chunk_graph_chunk(chunk);
        modules_total(&cgc.modules, module_graph)
    }
}

/// The total size of the modules of `ms` that the module graph knows.
pub fn modules_total(ms: &Vec<ModuleIdentifier>, module_graph: &ModuleGraph) -> (r: u64)
    requires
        module_graph.wf(),
        modules_size(ids(ms@), *module_graph) <= u64::MAX,
    ensures
        r == modules_size(ids(ms@), *module_graph),
{
    proof {
        assert forall|k: int| 0 <= k <= ms@.len() implies #[trigger] modules_size(ids(ms@).subrange(0, k), *module_graph) <= u64::MAX by {
            lemma_modules_size_prefix(ids(ms@), *module_graph, k);
        }
    }
    let mut acc: u64 = 0;
    let mut i: usize = 0;
    assert(ids(ms@).subrange(0, 0) =~= Seq::<Seq<char>>::empty());
    while i < ms.len()
        invariant
            0 <= i <= ms@.len(),
            module_graph.wf(),
            forall|k: int| 0 <= k <= ms@.len() ==> #[trigger] modules_size(ids(ms@).subrange(0, k), *module_graph) <= u64::MAX,
            acc == modules_size(ids(ms@).subrange(0, i as int), *module_graph),
        decreases ms@.len() - i,
    {
        let ghost next = ids(ms@).subrange(0, i + 1);
        assert(next.drop_last() =~= ids(ms@).subrange(0, i as int));
        assert(next.last() == ms@[i as int]@);
        assert(modules_size(next, *module_graph) <= u64::MAX);
        match module_graph.module_by_identifier(&ms[i]) {
            Some(info) => {
                assert(module_graph.module_size(ms@[i as int]@) == crate::module_graph::sizes_sum(info.source_types@));
                let s = info.size();
                acc = acc + s;
            },
            None => {},
        }
        i = i + 1;
    }
    assert(ids(ms@).subrange(0, ms@.len() as int) =~= ids(ms@));
    acc
}

pub proof fn lemma_modules_size_prefix(ms: Seq<Seq<char>>, mg: ModuleGraph, k: int)
    requires
        0 <= k <= ms.len(),
    ensures
        0 <= modules_size(ms.subrange(0, k), mg) <= modules_size(ms, mg),
    decreases ms.len(),
{
    if ms.len() > 0 {
        if mg.has(ms.last()) {
            crate::module_graph::lemma_sizes_sum_prefix(mg.info(ms.last()).source_types@, 0);
            assert(mg.info(ms.last()).source_types@.subrange(0, 0) =~= Seq::<(SourceType, u64)>::empty());
        }
        if k == ms.len() {
            assert(ms.subrange(0, k) =~= ms);
            lemma_modules_size_prefix(ms.drop_last(), mg, k - 1);
            assert(ms.drop_last().subrange(0, k - 1) =~= ms.drop_last());
        } else {
            lemma_modules_size_prefix(ms.drop_last(), mg, k);
            assert(ms.drop_last().subrange(0, k) =~= ms.subrange(0, k));
        }
    } else {
        assert(ms.subrange(0, k) =~= ms);
    }
}

} // verus!
