//! The size heuristic of chunks, alone and merged.
use vstd::prelude::*;
use crate::chunk::{can_be_initial, can_be_initial_spec, ChunkByUkey, ChunkGroupByUkey};
use crate::chunk_graph::ChunkGraph;
use crate::ident::{contains_identifier, ids, ModuleIdentifier};
use crate::module_graph::ModuleGraph;
use crate::queries::{modules_size, modules_total};
use crate::ukey_set::ChunkUkey;
use crate::keyed::{has_key, key_position, keyed_get, keys_unique, lemma_key_index};
use crate::module_group::{lemma_type_total_prefix, source_type_slot, type_slot, type_total, SOURCE_TYPE_COUNT};
use crate::runtime_modules::{RuntimeModuleInfo, RuntimeModuleTable};
use crate::source_type::SourceType;

verus! {

/// The constant cost of a chunk used when no other is configured.
pub const DEFAULT_CHUNK_OVERHEAD: u64 = 10000;

/// The factor for initial chunks used when no other is configured.
pub const DEFAULT_ENTRY_CHUNK_MULTIPLICATOR: u64 = 10;

pub struct ChunkSizeOptions {
    /// Constant cost of a chunk.
    pub chunk_overhead: Option<u64>,
    /// Factor on the size of the modules of a chunk that can be initial.
    pub entry_chunk_multiplicator: Option<u64>,
}

/// `overhead + size * multiplier`, with the multiplier used only for a
/// chunk that can be initial.
pub open spec fn chunk_size_spec(options: ChunkSizeOptions, modules: int, initial: bool) -> int {
    let overhead = match options.chunk_overhead {
        Some(o) => o as int,
        None => DEFAULT_CHUNK_OVERHEAD as int,
    };
    let multiplier = match options.entry_chunk_multiplicator {
        Some(m) => m as int,
        None => DEFAULT_ENTRY_CHUNK_MULTIPLICATOR as int,
    };
    overhead + modules * if initial {
        multiplier
    } else {
        1
    }
}

/// The total size of the modules of `ms` that the module graph knows and
/// that `excluded` lacks.
pub open spec fn modules_size_outside(ms: Seq<Seq<char>>, excluded: Set<Seq<char>>, mg: ModuleGraph) -> int
    decreases ms.len(),
{
    if ms.len() == 0 {
        0
    } else {
        modules_size_outside(ms.drop_last(), excluded, mg) + if mg.has(ms.last()) && !excluded.contains(ms.last()) {
            mg.module_size(ms.last())
        } else {
            0
        }
    }
}

pub proof fn lemma_modules_size_outside_prefix(ms: Seq<Seq<char>>, excluded: Set<Seq<char>>, mg: ModuleGraph, k: int)
    requires
        0 <= k <= ms.len(),
    ensures
        0 <= modules_size_outside(ms.subrange(0, k), excluded, mg) <= modules_size_outside(ms, excluded, mg),
    decreases ms.len(),
{
    if ms.len() > 0 {
        if mg.has(ms.last()) {
            crate::module_graph::lemma_sizes_sum_prefix(mg.info(ms.last()).source_types@, 0);
            assert(mg.info(ms.last()).source_types@.subrange(0, 0) =~= Seq::<(crate::source_type::SourceType, u64)>::empty());
        }
        if k == ms.len() {
            assert(ms.subrange(0, k) =~= ms);
            lemma_modules_size_outside_prefix(ms.drop_last(), excluded, mg, k - 1);
            assert(ms.drop_last().subrange(0, k - 1) =~= ms.drop_last());
        } else {
            lemma_modules_size_outside_prefix(ms.drop_last(), excluded, mg, k);
            assert(ms.drop_last().subrange(0, k) =~= ms.subrange(0, k));
        }
    } else {
        assert(ms.subrange(0, k) =~= ms);
    }
}

/// The total size of the modules of `ms` that the module graph knows and
/// that `excluded` lacks.
fn modules_total_outside(ms: &Vec<ModuleIdentifier>, excluded: &Vec<ModuleIdentifier>, module_graph: &ModuleGraph) -> (r: u64)
    requires
        module_graph.wf(),
        modules_size_outside(ids(ms@), ids(excluded@).to_set(), *module_graph) <= u64::MAX,
    ensures
        r == modules_size_outside(ids(ms@), ids(excluded@).to_set(), *module_graph),
{
    let ghost ex = ids(excluded@).to_set();
    let mut acc: u64 = 0;
    let mut i: usize = 0;
    assert(ids(ms@).subrange(0, 0) =~= Seq::<Seq<char>>::empty());
    while i < ms.len()
        invariant
            0 <= i <= ms@.len(),
            module_graph.wf(),
            ex == ids(excluded@).to_set(),
            modules_size_outside(ids(ms@), ex, *module_graph) <= u64::MAX,
            acc == modules_size_outside(ids(ms@).subrange(0, i as int), ex, *module_graph),
        decreases ms@.len() - i,
    {
        let ghost next = ids(ms@).subrange(0, i + 1);
        assert(next.drop_last() =~= ids(ms@).subrange(0, i as int));
        assert(next.last() == ms@[i as int]@);
        proof {
            lemma_modules_size_outside_prefix(ids(ms@), ex, *module_graph, i + 1);
        }
        if !contains_identifier(excluded, &ms[i]) {
            match module_graph.module_by_identifier(&ms[i]) {
                Some(info) => {
                    let s = info.size();
                    acc = acc + s;
                },
                None => {},
            }
        }
        i = i + 1;
    }
    assert(ids(ms@).subrange(0, ms@.len() as int) =~= ids(ms@));
    acc
}

fn size_with_options(options: &ChunkSizeOptions, modules: u64, initial: bool) -> (r: u64)
    requires
        chunk_size_spec(*options, modules as int, initial) <= u64::MAX,
    ensures
        r == chunk_size_spec(*options, modules as int, initial),
{
    let overhead = match options.chunk_overhead {
        Some(o) => o,
        None => DEFAULT_CHUNK_OVERHEAD,
    };
    let multiplier = match options.entry_chunk_multiplicator {
        Some(m) => m,
        None => DEFAULT_ENTRY_CHUNK_MULTIPLICATOR,
    };
    let factor = if initial {
        multiplier
    } else {
        1
    };
    assert(0 <= modules * factor <= u64::MAX - overhead) by (nonlinear_arith)
        requires
            overhead + modules * factor <= u64::MAX,
            modules >= 0,
            factor >= 0,
            overhead >= 0,
    ;
    overhead + modules * factor
}

impl ChunkGraph {
    /// The size heuristic of `chunk`: `chunk_size_spec` over the size of
    /// its modules that the module graph knows.
    pub fn get_chunk_size(
        &self,
        chunk_ukey: &ChunkUkey,
        options: &ChunkSizeOptions,
        chunk_by_ukey: &ChunkByUkey,
        chunk_group_by_ukey: &ChunkGroupByUkey,
        module_graph: &ModuleGraph,
    ) -> (r: u64)
        requires
            self.has_chunk(*chunk_ukey),
            chunk_by_ukey.contains(*chunk_ukey),
            module_graph.wf(),
            modules_size(ids(self.cgc(*chunk_ukey).modules@), *module_graph) <= u64::MAX,
            chunk_size_spec(
                *options,
                modules_size(ids(self.cgc(*chunk_ukey).modules@), *module_graph),
                can_be_initial_spec(chunk_by_ukey.get(*chunk_ukey), *chunk_group_by_ukey),
            ) <= u64::MAX,
        ensures
            r == chunk_size_spec(
                *options,
                modules_size(ids(self.cgc(*chunk_ukey).modules@), *module_graph),
                can_be_initial_spec(chunk_by_ukey.get(*chunk_ukey), *chunk_group_by_ukey),
            ),
    {
        let size = self.get_chunk_modules_size(chunk_ukey, module_graph);
        let chunk = chunk_by_ukey.expect_get(chunk_ukey);
        let initial = can_be_initial(chunk, chunk_group_by_ukey);
        size_with_options(options, size, initial)
    }

    /// The size heuristic of the chunk that merging `a` and `b` would give,
    /// without merging them: over the modules of both, each once, and
    /// initial when either can be.
    pub fn get_integrated_chunks_size(
        &self,
        chunk_a_ukey: &ChunkUkey,
        chunk_b_ukey: &ChunkUkey,
        options: &ChunkSizeOptions,
        chunk_by_ukey: &ChunkByUkey,
        chunk_group_by_ukey: &ChunkGroupByUkey,
        module_graph: &ModuleGraph,
    ) -> (r: u64)
        requires
            self.has_chunk(*chunk_a_ukey),
            self.has_chunk(*chunk_b_ukey),
            chunk_by_ukey.contains(*chunk_a_ukey),
            chunk_by_ukey.contains(*chunk_b_ukey),
            module_graph.wf(),
            modules_size(ids(self.cgc(*chunk_a_ukey).modules@), *module_graph)
                + modules_size_outside(ids(self.cgc(*chunk_b_ukey).modules@), self.cgc(*chunk_a_ukey).module_set(), *module_graph) <= u64::MAX,
            chunk_size_spec(
                *options,
                modules_size(ids(self.cgc(*chunk_a_ukey).modules@), *module_graph)
                    + modules_size_outside(ids(self.cgc(*chunk_b_ukey).modules@), self.cgc(*chunk_a_ukey).module_set(), *module_graph),
                can_be_initial_spec(chunk_by_ukey.get(*chunk_a_ukey), *chunk_group_by_ukey)
                    || can_be_initial_spec(chunk_by_ukey.get(*chunk_b_ukey), *chunk_group_by_ukey),
            ) <= u64::MAX,
        ensures
            r == chunk_size_spec(
                *options,
                modules_size(ids(self.cgc(*chunk_a_ukey).modules@), *module_graph)
                    + modules_size_outside(ids(self.cgc(*chunk_b_ukey).modules@), self.cgc(*chunk_a_ukey).module_set(), *module_graph),
                can_be_initial_spec(chunk_by_ukey.get(*chunk_a_ukey), *chunk_group_by_ukey)
                    || can_be_initial_spec(chunk_by_ukey.get(*chunk_b_ukey), *chunk_group_by_ukey),
            ),
    {
        let a_modules = self.chunk_modules_ref(chunk_a_ukey);
        let b_modules = self.chunk_modules_ref(chunk_b_ukey);
        proof {
            lemma_modules_size_outside_prefix(ids(b_modules@), ids(a_modules@).to_set(), *module_graph, 0);
        }
        let size_a = modules_total(a_modules, module_graph);
        let size_b = modules_total_outside(b_modules, a_modules, module_graph);
        let chunk_a = chunk_by_ukey.expect_get(chunk_a_ukey);
        let chunk_b = chunk_by_ukey.expect_get(chunk_b_ukey);
        let initial = can_be_initial(chunk_a, chunk_group_by_ukey) || can_be_initial(chunk_b, chunk_group_by_ukey);
        size_with_options(options, size_a + size_b, initial)
    }

    fn chunk_modules_ref(&self, chunk: &ChunkUkey) -> (r: &Vec<ModuleIdentifier>)
        requires
            self.has_chunk(*chunk),
        ensures
            *r == self.cgc(*chunk).modules,
    {
        match &self.chunk_graph_chunk_by_chunk_ukey[*chunk as usize] {
            Some(cgc) => &cgc.modules,
            None => {
                assert(false);
                &self.chunk_graph_chunk_by_chunk_ukey[*chunk as usize].as_ref().unwrap().modules
            },
        }
    }
}

/// The total size of type `t` over the modules `ms`: each module the
/// module graph knows counts its size of that type; a runtime module counts
/// its size as of the runtime type.
pub open spec fn type_sizes(
    ms: Seq<Seq<char>>,
    mg: ModuleGraph,
    runtime_modules: Seq<(ModuleIdentifier, RuntimeModuleInfo)>,
    t: SourceType,
) -> int
    decreases ms.len(),
{
    if ms.len() == 0 {
        0
    } else {
        type_sizes(ms.drop_last(), mg, runtime_modules, t) + if mg.has(ms.last()) {
            type_total(mg.info(ms.last()).source_types@, t)
        } else if has_key(runtime_modules, ms.last()) && t == SourceType::Runtime {
            keyed_get(runtime_modules, ms.last()).unwrap().size as int
        } else {
            0
        }
    }
}

pub proof fn lemma_type_sizes_prefix(
    ms: Seq<Seq<char>>,
    mg: ModuleGraph,
    runtime_modules: Seq<(ModuleIdentifier, RuntimeModuleInfo)>,
    t: SourceType,
    k: int,
)
    requires
        0 <= k <= ms.len(),
    ensures
        0 <= type_sizes(ms.subrange(0, k), mg, runtime_modules, t) <= type_sizes(ms, mg, runtime_modules, t),
    decreases ms.len(),
{
    if ms.len() > 0 {
        if mg.has(ms.last()) {
            lemma_type_total_prefix(mg.info(ms.last()).source_types@, 0, t);
            assert(mg.info(ms.last()).source_types@.subrange(0, 0) =~= Seq::<(SourceType, u64)>::empty());
        }
        if k == ms.len() {
            assert(ms.subrange(0, k) =~= ms);
            lemma_type_sizes_prefix(ms.drop_last(), mg, runtime_modules, t, k - 1);
            assert(ms.drop_last().subrange(0, k - 1) =~= ms.drop_last());
        } else {
            lemma_type_sizes_prefix(ms.drop_last(), mg, runtime_modules, t, k);
            assert(ms.drop_last().subrange(0, k) =~= ms.subrange(0, k));
        }
    } else {
        assert(ms.subrange(0, k) =~= ms);
    }
}

impl ChunkGraph {
    /// The sizes of the modules of `chunk` per source type, at the slot of
    /// each type: see `type_sizes`.
    pub fn get_chunk_modules_sizes(
        &self,
        chunk: &ChunkUkey,
        module_graph: &ModuleGraph,
        runtime_modules: &RuntimeModuleTable,
    ) -> (r: Vec<u64>)
        requires
            self.has_chunk(*chunk),
            module_graph.wf(),
            keys_unique(runtime_modules@),
            forall|t: SourceType|
                #[trigger] type_sizes(ids(self.cgc(*chunk).modules@), *module_graph, runtime_modules@, t) <= u64::MAX,
        ensures
            r@.len() == SOURCE_TYPE_COUNT,
            forall|t: SourceType|
                #[trigger] r@[type_slot(t)] as int == type_sizes(ids(self.cgc(*chunk).modules@), *module_graph, runtime_modules@, t),
    {
        let ms = self.chunk_modules_ref(chunk);
        let ghost msv = ids(ms@);
        let mut sizes: Vec<u64> = Vec::new();
        let mut z: usize = 0;
        while z < SOURCE_TYPE_COUNT
            invariant
                0 <= z <= SOURCE_TYPE_COUNT,
                sizes@.len() == z,
                forall|j: int| 0 <= j < z ==> sizes@[j] == 0,
            decreases SOURCE_TYPE_COUNT - z,
        {
            sizes.push(0);
            z = z + 1;
        }
        let mut i: usize = 0;
        assert(msv.subrange(0, 0) =~= Seq::<Seq<char>>::empty());
        while i < ms.len()
            invariant
                0 <= i <= ms@.len(),
                msv == ids(ms@),
                module_graph.wf(),
                keys_unique(runtime_modules@),
                sizes@.len() == SOURCE_TYPE_COUNT,
                forall|t: SourceType| #[trigger] type_sizes(msv, *module_graph, runtime_modules@, t) <= u64::MAX,
                forall|t: SourceType|
                    #[trigger] sizes@[type_slot(t)] as int == type_sizes(msv.subrange(0, i as int), *module_graph, runtime_modules@, t),
            decreases ms@.len() - i,
        {
            let ghost next = msv.subrange(0, i + 1);
            let ghost prev = msv.subrange(0, i as int);
            assert(next.drop_last() =~= prev);
            assert(next.last() == ms@[i as int]@);
            proof {
                assert forall|t: SourceType| #[trigger] type_sizes(next, *module_graph, runtime_modules@, t) <= u64::MAX by {
                    lemma_type_sizes_prefix(msv, *module_graph, runtime_modules@, t, i + 1);
                }
            }
            let m = &ms[i];
            match module_graph.module_by_identifier(m) {
                Some(info) => {
                    let types = &info.source_types;
                    let mut k: usize = 0;
                    let ghost base = sizes@;
                    assert(types@.subrange(0, 0) =~= Seq::<(SourceType, u64)>::empty());
                    while k < types.len()
                        invariant
                            0 <= k <= types@.len(),
                            *types == module_graph.info(m@).source_types,
                            module_graph.has(m@),
                            next.len() > 0,
                            next.drop_last() == prev,
                            next.last() == m@,
                            sizes@.len() == SOURCE_TYPE_COUNT,
                            base.len() == SOURCE_TYPE_COUNT,
                            forall|t: SourceType| #[trigger] type_sizes(next, *module_graph, runtime_modules@, t) <= u64::MAX,
                            forall|t: SourceType| #[trigger] base[type_slot(t)] as int == type_sizes(prev, *module_graph, runtime_modules@, t),
                            forall|t: SourceType|
                                #[trigger] sizes@[type_slot(t)] as int == base[type_slot(t)] as int + type_total(types@.subrange(0, k as int), t),
                        decreases types@.len() - k,
                    {
                        let t = types[k].0;
                        let v = types[k].1;
                        let slot = source_type_slot(t);
                        let ghost pre = sizes@;
                        proof {
                            assert(types@.subrange(0, k + 1).drop_last() =~= types@.subrange(0, k as int));
                            lemma_type_total_prefix(types@, k + 1, t);
                            assert(type_sizes(next, *module_graph, runtime_modules@, t) == type_sizes(prev, *module_graph, runtime_modules@, t) + type_total(types@, t));
                            assert(pre[type_slot(t)] as int == base[type_slot(t)] as int + type_total(types@.subrange(0, k as int), t));
                        }
                        let cur = sizes[slot];
                        sizes.set(slot, cur + v);
                        k = k + 1;
                        proof {
                            assert forall|u: SourceType| #[trigger] sizes@[type_slot(u)] as int == base[type_slot(u)] as int + type_total(types@.subrange(0, k as int), u) by {
                                assert(types@.subrange(0, k as int).drop_last() =~= types@.subrange(0, k - 1));
                                assert(pre[type_slot(u)] as int == base[type_slot(u)] as int + type_total(types@.subrange(0, k - 1), u));
                                if type_slot(u) != slot as int {
                                    assert(u != t);
                                } else {
                                    assert(u == t);
                                }
                            }
                        }
                    }
                    proof {
                        assert(types@.subrange(0, types@.len() as int) =~= types@);
                    }
                },
                None => {
                    match key_position(runtime_modules, m) {
                        Some(k) => {
                            proof {
                                lemma_key_index(runtime_modules@, k as int);
                                assert(type_sizes(next, *module_graph, runtime_modules@, SourceType::Runtime) == type_sizes(prev, *module_graph, runtime_modules@, SourceType::Runtime) + runtime_modules@[k as int].1.size);
                            }
                            let slot = source_type_slot(SourceType::Runtime);
                            let cur = sizes[slot];
                            let ghost pre = sizes@;
                            sizes.set(slot, cur + runtime_modules[k].1.size);
                            proof {
                                assert forall|u: SourceType| #[trigger] sizes@[type_slot(u)] as int == type_sizes(next, *module_graph, runtime_modules@, u) by {
                                    if type_slot(u) != slot as int {
                                        assert(u != SourceType::Runtime);
                                        assert(sizes@[type_slot(u)] == pre[type_slot(u)]);
                                    }
                                }
                            }
                        },
                        None => {},
                    }
                },
            }
            i = i + 1;
        }
        assert(msv.subrange(0, i as int) =~= msv);
        sizes
    }
}

} // verus!
