//! Candidate module groups of the code-splitting pass: the modules one
//! cache group would move into a new chunk, their sizes per source type,
//! and the order in which competing candidates are realized.
use vstd::prelude::*;
use crate::ident::{
    ids, insert_identifier, lemma_sorted_sets_equal, lemma_text_order, remove_identifier,
    sort_identifiers, strictly_sorted, text_less, text_lt, ModuleIdentifier,
};
use crate::keyed::{has_key, key_position, keyed_get, keys_unique, lemma_key_index};
use crate::source_type::SourceType;
use crate::ukey_set::ChunkUkey;

verus! {

/// The number of source types.
pub const SOURCE_TYPE_COUNT: usize = 11;

/// The place of a source type in per-type tables.
pub open spec fn type_slot(t: SourceType) -> int {
    match t {
        SourceType::JavaScript => 0,
        SourceType::Css => 1,
        SourceType::CssImport => 2,
        SourceType::Wasm => 3,
        SourceType::Asset => 4,
        SourceType::Expose => 5,
        SourceType::Remote => 6,
        SourceType::ShareInit => 7,
        SourceType::ConsumeShared => 8,
        SourceType::Runtime => 9,
        SourceType::Unknown => 10,
    }
}

pub fn source_type_slot(t: SourceType) -> (r: usize)
    ensures
        r == type_slot(t),
        r < SOURCE_TYPE_COUNT,
{
    match t {
        SourceType::JavaScript => 0,
        SourceType::Css => 1,
        SourceType::CssImport => 2,
        SourceType::Wasm => 3,
        SourceType::Asset => 4,
        SourceType::Expose => 5,
        SourceType::Remote => 6,
        SourceType::ShareInit => 7,
        SourceType::ConsumeShared => 8,
        SourceType::Runtime => 9,
        SourceType::Unknown => 10,
    }
}

/// The sizes of one module, per source type.
pub type SizesByType = Vec<(SourceType, u64)>;

/// The sizes of each module, under its identifier.
pub type ModuleSizes = Vec<(ModuleIdentifier, SizesByType)>;

/// The total size of type `t` in `ps`.
pub open spec fn type_total(ps: Seq<(SourceType, u64)>, t: SourceType) -> int
    decreases ps.len(),
{
    if ps.len() == 0 {
        0
    } else {
        type_total(ps.drop_last(), t) + if ps.last().0 == t {
            ps.last().1 as int
        } else {
            0
        }
    }
}

pub open spec fn has_type(ps: Seq<(SourceType, u64)>, t: SourceType) -> bool {
    exists|i: int| 0 <= i < ps.len() && (#[trigger] ps[i]).0 == t
}

/// The sizes that `ms` gives module `m`.
pub open spec fn sizes_of(ms: Seq<(ModuleIdentifier, SizesByType)>, m: Seq<char>) -> Seq<
    (SourceType, u64),
> {
    keyed_get(ms, m).unwrap()@
}

pub proof fn lemma_type_total_prefix(ps: Seq<(SourceType, u64)>, k: int, t: SourceType)
    requires
        0 <= k <= ps.len(),
    ensures
        0 <= type_total(ps.subrange(0, k), t) <= type_total(ps, t),
    decreases ps.len(),
{
    if ps.len() > 0 {
        if k == ps.len() {
            assert(ps.subrange(0, k) =~= ps);
            lemma_type_total_prefix(ps.drop_last(), k - 1, t);
            assert(ps.drop_last().subrange(0, k - 1) =~= ps.drop_last());
        } else {
            lemma_type_total_prefix(ps.drop_last(), k, t);
            assert(ps.drop_last().subrange(0, k) =~= ps.subrange(0, k));
        }
    } else {
        assert(ps.subrange(0, k) =~= ps);
    }
}

/// A configured cache group, as far as module groups read it.
pub struct CacheGroup {
    pub priority: i64,
    pub reuse_existing_chunk: bool,
}

#[derive(Debug, Clone, Copy, PartialEq, Eq, Hash, Structural)]
pub struct CacheGroupIdx(pub usize);

impl CacheGroupIdx {
    pub fn new(idx: usize) -> (r: Self)
        ensures
            r.0 == idx,
    {
        CacheGroupIdx(idx)
    }
}

pub struct ModuleGroup {
    /// Where the cache group of this module group stands in the list of
    /// cache groups.
    pub idx: CacheGroupIdx,
    pub modules: Vec<ModuleIdentifier>,
    pub cache_group_index: usize,
    pub cache_group_priority: i64,
    pub cache_group_reuse_existing_chunk: bool,
    /// The name of the chunk this group would become, if it has one.
    pub chunk_name: Option<String>,
    /// The total size of the modules, per source type, at the slot of the
    /// type.
    pub sizes: Vec<u64>,
    /// The modules that have a size of each source type, at its slot.
    pub source_types_modules: Vec<Vec<ModuleIdentifier>>,
    /// The chunks that the modules of this group belong to.
    pub chunks: Vec<ChunkUkey>,
}

impl ModuleGroup {
    pub open spec fn module_set(&self) -> Set<Seq<char>> {
        ids(self.modules@).to_set()
    }

    pub open spec fn size_of(&self, t: SourceType) -> int {
        self.sizes@[type_slot(t)] as int
    }

    pub open spec fn type_modules(&self, t: SourceType) -> Set<Seq<char>> {
        ids(self.source_types_modules@[type_slot(t)]@).to_set()
    }

    /// Each per-type index lists modules of the group only.
    pub open spec fn wf(&self) -> bool {
        &&& self.wf_tables()
        &&& forall|t: SourceType| #[trigger] self.type_modules(t).subset_of(self.module_set())
    }

    pub open spec fn wf_tables(&self) -> bool {
        &&& ids(self.modules@).no_duplicates()
        &&& self.sizes@.len() == SOURCE_TYPE_COUNT
        &&& self.source_types_modules@.len() == SOURCE_TYPE_COUNT
        &&& forall|i: int|
            0 <= i < SOURCE_TYPE_COUNT ==> ids(
                (#[trigger] self.source_types_modules@[i])@,
            ).no_duplicates()
        &&& self.chunks@.no_duplicates()
    }

    /// The fields that adding and removing modules leave alone.
    pub open spec fn same_settings(&self, o: &Self) -> bool {
        &&& self.idx == o.idx
        &&& self.cache_group_index == o.cache_group_index
        &&& self.cache_group_priority == o.cache_group_priority
        &&& self.cache_group_reuse_existing_chunk == o.cache_group_reuse_existing_chunk
        &&& self.chunk_name == o.chunk_name
        &&& self.chunks == o.chunks
    }

    /// What `add_module` does: a module not yet in the group joins it, and
    /// its size of each type adds to that type's total and index.
    pub open spec fn added(&self, o: &Self, m: Seq<char>, ps: Seq<(SourceType, u64)>) -> bool {
        &&& self.same_settings(o)
        &&& if o.module_set().contains(m) {
            &&& self.module_set() == o.module_set()
            &&& forall|t: SourceType| #[trigger] self.size_of(t) == o.size_of(t)
            &&& forall|t: SourceType| #[trigger] self.type_modules(t) == o.type_modules(t)
        } else {
            &&& self.module_set() == o.module_set().insert(m)
            &&& forall|t: SourceType| #[trigger] self.size_of(t) == o.size_of(t) + type_total(ps, t)
            &&& forall|t: SourceType|
                #[trigger] self.type_modules(t) == if has_type(ps, t) {
                    o.type_modules(t).insert(m)
                } else {
                    o.type_modules(t)
                }
        }
    }

    /// What `remove_module` does: a module of the group leaves it, and its
    /// size of each type comes off that type's total, which stops at zero,
    /// and it leaves every per-type index.
    pub open spec fn removed(&self, o: &Self, m: Seq<char>, ps: Seq<(SourceType, u64)>) -> bool {
        &&& self.same_settings(o)
        &&& if !o.module_set().contains(m) {
            &&& self.module_set() == o.module_set()
            &&& forall|t: SourceType| #[trigger] self.size_of(t) == o.size_of(t)
            &&& forall|t: SourceType| #[trigger] self.type_modules(t) == o.type_modules(t)
        } else {
            &&& self.module_set() == o.module_set().remove(m)
            &&& forall|t: SourceType|
                #[trigger] self.size_of(t) == if o.size_of(t) >= type_total(ps, t) {
                    o.size_of(t) - type_total(ps, t)
                } else {
                    0
                }
            &&& forall|t: SourceType| #[trigger] self.type_modules(t) == o.type_modules(t).remove(m)
        }
    }

    pub fn new(
        idx: CacheGroupIdx,
        chunk_name: Option<String>,
        cache_group_index: usize,
        cache_group: &CacheGroup,
    ) -> (r: Self)
        ensures
            r.wf(),
            r.idx == idx,
            r.chunk_name == chunk_name,
            r.cache_group_index == cache_group_index,
            r.cache_group_priority == cache_group.priority,
            r.cache_group_reuse_existing_chunk == cache_group.reuse_existing_chunk,
            r.module_set() == Set::<Seq<char>>::empty(),
            r.chunks@.len() == 0,
            forall|t: SourceType| #[trigger] r.size_of(t) == 0,
            forall|t: SourceType| #[trigger] r.type_modules(t) == Set::<Seq<char>>::empty(),
    {
        let mut sizes: Vec<u64> = Vec::new();
        let mut source_types_modules: Vec<Vec<ModuleIdentifier>> = Vec::new();
        let mut i: usize = 0;
        while i < SOURCE_TYPE_COUNT
            invariant
                0 <= i <= SOURCE_TYPE_COUNT,
                sizes@.len() == i,
                source_types_modules@.len() == i,
                forall|j: int| 0 <= j < i ==> sizes@[j] == 0,
                forall|j: int| 0 <= j < i ==> (#[trigger] source_types_modules@[j])@.len() == 0,
            decreases SOURCE_TYPE_COUNT - i,
        {
            sizes.push(0);
            source_types_modules.push(Vec::new());
            i = i + 1;
        }
        let r = ModuleGroup {
            idx,
            modules: Vec::new(),
            cache_group_index,
            cache_group_priority: cache_group.priority,
            cache_group_reuse_existing_chunk: cache_group.reuse_existing_chunk,
            chunk_name,
            sizes,
            source_types_modules,
            chunks: Vec::new(),
        };
        assert(r.module_set() =~= Set::<Seq<char>>::empty());
        assert forall|j: int| 0 <= j < SOURCE_TYPE_COUNT implies ids(
            (#[trigger] r.source_types_modules@[j])@,
        ).no_duplicates() by {
            assert(ids(r.source_types_modules@[j]@) =~= Seq::<Seq<char>>::empty());
        }
        assert forall|t: SourceType| #[trigger] r.type_modules(t) == Set::<Seq<char>>::empty() by {
            assert(ids(r.source_types_modules@[type_slot(t)]@) =~= Seq::<Seq<char>>::empty());
        }
        r
    }

    /// Adds `module` to the group, unless it is in it already.
    pub fn add_module(&mut self, module: ModuleIdentifier, module_sizes: &ModuleSizes)
        requires
            old(self).wf(),
            !old(self).module_set().contains(module@) ==> keys_unique(module_sizes@) && has_key(module_sizes@, module@)
                && forall|t: SourceType|
                #[trigger] old(self).size_of(t) + type_total(sizes_of(module_sizes@, module@), t) <= u64::MAX,
        ensures
            final(self).wf(),
            final(self).added(old(self), module@, sizes_of(module_sizes@, module@)),
    {
        let ghost g0 = *self;
        let ghost mv = module@;
        if crate::ident::contains_identifier(&self.modules, &module) {
            return ;
        }
        let i = match key_position(module_sizes, &module) {
            Some(i) => i,
            None => {
                assert(false);
                0
            },
        };
        proof {
            lemma_key_index(module_sizes@, i as int);
        }
        let ps = &module_sizes[i].1;
        let ghost psv = ps@;
        assert(psv == sizes_of(module_sizes@, mv));
        let mut k: usize = 0;
        proof {
            assert(psv.subrange(0, 0) =~= Seq::<(SourceType, u64)>::empty());
            assert forall|t: SourceType| #[trigger] self.type_modules(t) == g0.type_modules(t) by {}
        }
        while k < ps.len()
            invariant
                0 <= k <= psv.len(),
                psv == ps@,
                g0.wf(),
                self.wf_tables(),
                self.same_settings(&g0),
                self.modules == g0.modules,
                mv == module@,
                forall|t: SourceType|
                    #[trigger] g0.size_of(t) + type_total(psv, t) <= u64::MAX,
                forall|t: SourceType|
                    #[trigger] self.size_of(t) == g0.size_of(t) + type_total(psv.subrange(0, k as int), t),
                forall|t: SourceType|
                    #[trigger] self.type_modules(t) == if has_type(psv.subrange(0, k as int), t) {
                        g0.type_modules(t).insert(mv)
                    } else {
                        g0.type_modules(t)
                    },
            decreases psv.len() - k,
        {
            let t = ps[k].0;
            let s = ps[k].1;
            let slot = source_type_slot(t);
            let ghost pre = *self;
            let ghost pre_prefix = psv.subrange(0, k as int);
            proof {
                assert(psv.subrange(0, k + 1) =~= pre_prefix.push((t, s)));
                assert(psv.subrange(0, k + 1).drop_last() =~= pre_prefix);
                lemma_type_total_prefix(psv, k + 1, t);
            }
            let cur = self.sizes[slot];
            proof {
                assert(self.size_of(t) == g0.size_of(t) + type_total(pre_prefix, t));
                assert(g0.size_of(t) + type_total(psv, t) <= u64::MAX);
                assert(type_total(psv.subrange(0, k + 1), t) == type_total(pre_prefix, t) + s);
            }
            self.sizes.set(slot, cur + s);
            insert_identifier(&mut self.source_types_modules[slot], module.clone());
            k = k + 1;
            proof {
                let prefix = psv.subrange(0, k as int);
                assert(prefix.drop_last() =~= pre_prefix);
                assert forall|u: SourceType| #[trigger] self.size_of(u) == g0.size_of(u) + type_total(prefix, u) by {
                    assert(pre.size_of(u) == g0.size_of(u) + type_total(pre_prefix, u));
                    if type_slot(u) != slot as int {
                        assert(u != t);
                    } else {
                        assert(u == t);
                    }
                }
                assert forall|j: int| 0 <= j < SOURCE_TYPE_COUNT implies ids(
                    (#[trigger] self.source_types_modules@[j])@,
                ).no_duplicates() by {
                    if j != slot as int {
                        assert(self.source_types_modules@[j] == pre.source_types_modules@[j]);
                    }
                }
                assert forall|u: SourceType| #[trigger] self.type_modules(u) == if has_type(prefix, u) {
                    g0.type_modules(u).insert(mv)
                } else {
                    g0.type_modules(u)
                } by {
                    assert(pre.type_modules(u) == if has_type(pre_prefix, u) {
                        g0.type_modules(u).insert(mv)
                    } else {
                        g0.type_modules(u)
                    });
                    if type_slot(u) != slot as int {
                        assert(u != t);
                        assert(self.source_types_modules@[type_slot(u)] == pre.source_types_modules@[type_slot(u)]);
                        if has_type(prefix, u) {
                            let w = choose|w: int| 0 <= w < prefix.len() && (#[trigger] prefix[w]).0 == u;
                            assert(pre_prefix[w] == prefix[w]);
                        }
                        if has_type(pre_prefix, u) {
                            let w = choose|w: int| 0 <= w < pre_prefix.len() && (#[trigger] pre_prefix[w]).0 == u;
                            assert(pre_prefix[w] == prefix[w]);
                        }
                    } else {
                        assert(u == t);
                        assert(prefix[k - 1].0 == u);
                        if has_type(pre_prefix, u) {
                            assert(g0.type_modules(u).insert(mv).insert(mv) =~= g0.type_modules(u).insert(mv));
                        }
                    }
                }
            }
        }
        proof {
            crate::ukey_set::lemma_push_no_duplicates(ids(self.modules@), mv);
            assert(ids(self.modules@.push(module)) =~= ids(self.modules@).push(mv));
            assert(psv.subrange(0, psv.len() as int) =~= psv);
        }
        let ghost before_push = *self;
        self.modules.push(module);
        proof {
            assert(!g0.module_set().contains(mv));
            assert(self.module_set() == g0.module_set().insert(mv));
            assert forall|t: SourceType| #[trigger] self.size_of(t) == g0.size_of(t) + type_total(psv, t) by {
                assert(before_push.size_of(t) == g0.size_of(t) + type_total(psv.subrange(0, psv.len() as int), t));
            }
            assert forall|t: SourceType| #[trigger] self.type_modules(t).subset_of(self.module_set()) by {
                assert(before_push.type_modules(t) == if has_type(psv.subrange(0, psv.len() as int), t) {
                    g0.type_modules(t).insert(mv)
                } else {
                    g0.type_modules(t)
                });
                assert(g0.type_modules(t).subset_of(g0.module_set()));
            }
            assert forall|t: SourceType| #[trigger] self.type_modules(t) == if has_type(psv, t) {
                g0.type_modules(t).insert(mv)
            } else {
                g0.type_modules(t)
            } by {
                assert(before_push.type_modules(t) == if has_type(psv.subrange(0, psv.len() as int), t) {
                    g0.type_modules(t).insert(mv)
                } else {
                    g0.type_modules(t)
                });
            }
        }
    }

    /// Takes `module` out of the group, if it is in it.
    pub fn remove_module(&mut self, module: ModuleIdentifier, module_sizes: &ModuleSizes)
        requires
            old(self).wf(),
            old(self).module_set().contains(module@) ==> keys_unique(module_sizes@) && has_key(module_sizes@, module@),
        ensures
            final(self).wf(),
            final(self).removed(old(self), module@, sizes_of(module_sizes@, module@)),
    {
        let ghost g0 = *self;
        let ghost mv = module@;
        if !crate::ident::contains_identifier(&self.modules, &module) {
            return ;
        }
        let i = match key_position(module_sizes, &module) {
            Some(i) => i,
            None => {
                assert(false);
                0
            },
        };
        proof {
            lemma_key_index(module_sizes@, i as int);
        }
        let ps = &module_sizes[i].1;
        let ghost psv = ps@;
        assert(psv == sizes_of(module_sizes@, mv));
        let mut k: usize = 0;
        proof {
            assert(psv.subrange(0, 0) =~= Seq::<(SourceType, u64)>::empty());
        }
        while k < ps.len()
            invariant
                0 <= k <= psv.len(),
                psv == ps@,
                g0.wf(),
                self.wf_tables(),
                self.same_settings(&g0),
                self.modules == g0.modules,
                self.source_types_modules == g0.source_types_modules,
                mv == module@,
                forall|t: SourceType|
                    #[trigger] self.size_of(t) == if g0.size_of(t) >= type_total(psv.subrange(0, k as int), t) {
                        g0.size_of(t) - type_total(psv.subrange(0, k as int), t)
                    } else {
                        0
                    },
            decreases psv.len() - k,
        {
            let t = ps[k].0;
            let s = ps[k].1;
            let slot = source_type_slot(t);
            let ghost pre = *self;
            let ghost pre_prefix = psv.subrange(0, k as int);
            proof {
                assert(psv.subrange(0, k + 1) =~= pre_prefix.push((t, s)));
                lemma_type_total_prefix(psv, k as int, t);
            }
            let cur = self.sizes[slot];
            let next = if cur >= s {
                cur - s
            } else {
                0
            };
            self.sizes.set(slot, next);
            k = k + 1;
            proof {
                let prefix = psv.subrange(0, k as int);
                assert(prefix.drop_last() =~= pre_prefix);
                assert forall|u: SourceType| #[trigger] self.size_of(u) == if g0.size_of(u) >= type_total(prefix, u) {
                    g0.size_of(u) - type_total(prefix, u)
                } else {
                    0
                } by {
                    assert(pre.size_of(u) == if g0.size_of(u) >= type_total(pre_prefix, u) {
                        g0.size_of(u) - type_total(pre_prefix, u)
                    } else {
                        0
                    });
                    lemma_type_total_prefix(psv, k as int - 1, u);
                    if type_slot(u) != slot as int {
                        assert(u != t);
                    } else {
                        assert(u == t);
                    }
                }
            }
        }
        let ghost after_sizes = *self;
        let mut z: usize = 0;
        while z < SOURCE_TYPE_COUNT
            invariant
                0 <= z <= SOURCE_TYPE_COUNT,
                self.wf_tables(),
                self.same_settings(&g0),
                self.modules == g0.modules,
                self.sizes == after_sizes.sizes,
                mv == module@,
                g0.source_types_modules@.len() == SOURCE_TYPE_COUNT,
                forall|j: int|
                    0 <= j < SOURCE_TYPE_COUNT ==> ids((#[trigger] self.source_types_modules@[j])@).to_set() == if j < z {
                        ids(g0.source_types_modules@[j]@).to_set().remove(mv)
                    } else {
                        ids(g0.source_types_modules@[j]@).to_set()
                    },
            decreases SOURCE_TYPE_COUNT - z,
        {
            let ghost pre = *self;
            remove_identifier(&mut self.source_types_modules[z], &module);
            proof {
                assert forall|j: int| 0 <= j < SOURCE_TYPE_COUNT implies ids((#[trigger] self.source_types_modules@[j])@).no_duplicates() by {
                    if j != z as int {
                        assert(self.source_types_modules@[j] == pre.source_types_modules@[j]);
                    }
                }
                assert forall|j: int| 0 <= j < SOURCE_TYPE_COUNT implies ids((#[trigger] self.source_types_modules@[j])@).to_set() == if j < z + 1 {
                    ids(g0.source_types_modules@[j]@).to_set().remove(mv)
                } else {
                    ids(g0.source_types_modules@[j]@).to_set()
                } by {
                    if j != z as int {
                        assert(self.source_types_modules@[j] == pre.source_types_modules@[j]);
                    } else {
                        assert(ids(pre.source_types_modules@[j]@).to_set() == ids(g0.source_types_modules@[j]@).to_set());
                    }
                }
            }
            z = z + 1;
        }
        remove_identifier(&mut self.modules, &module);
        proof {
            assert(psv.subrange(0, psv.len() as int) =~= psv);
            assert(g0.module_set().contains(mv));
            assert forall|t: SourceType| #[trigger] self.size_of(t) == if g0.size_of(t) >= type_total(psv, t) {
                g0.size_of(t) - type_total(psv, t)
            } else {
                0
            } by {
                assert(after_sizes.size_of(t) == if g0.size_of(t) >= type_total(psv.subrange(0, psv.len() as int), t) {
                    g0.size_of(t) - type_total(psv.subrange(0, psv.len() as int), t)
                } else {
                    0
                });
            }
            assert forall|t: SourceType| #[trigger] self.type_modules(t) == g0.type_modules(t).remove(mv) by {
                assert(0 <= type_slot(t) < SOURCE_TYPE_COUNT);
            }
            assert forall|t: SourceType| #[trigger] self.type_modules(t).subset_of(self.module_set()) by {
                assert(g0.type_modules(t).subset_of(g0.module_set()));
            }
        }
    }

    /// The modules of the group with a size of one of the types `ty`: for a
    /// single type, that type's index; else each module whose sizes name one
    /// of the types.
    pub fn get_source_types_modules(&self, ty: &Vec<SourceType>, module_sizes: &ModuleSizes) -> (r: Vec<ModuleIdentifier>)
        requires
            self.wf(),
            keys_unique(module_sizes@),
            forall|m: Seq<char>| #[trigger] self.module_set().contains(m) ==> has_key(module_sizes@, m),
        ensures
            ids(r@).no_duplicates(),
            ids(r@).to_set() == if ty@.len() == 1 {
                self.type_modules(ty@[0])
            } else {
                self.module_set().filter(|m: Seq<char>| exists|j: int| 0 <= j < ty@.len() && #[trigger] has_type(sizes_of(module_sizes@, m), ty@[j]))
            },
    {
        if ty.len() == 1 {
            let slot = source_type_slot(ty[0]);
            return crate::ident::copy_identifiers(&self.source_types_modules[slot]);
        }
        let ghost pred = |m: Seq<char>| exists|j: int| 0 <= j < ty@.len() && #[trigger] has_type(sizes_of(module_sizes@, m), ty@[j]);
        let mut r: Vec<ModuleIdentifier> = Vec::new();
        let mut i: usize = 0;
        while i < self.modules.len()
            invariant
                0 <= i <= self.modules@.len(),
                self.wf(),
                keys_unique(module_sizes@),
                forall|m: Seq<char>| #[trigger] self.module_set().contains(m) ==> has_key(module_sizes@, m),
                ids(r@).no_duplicates(),
                ids(r@).to_set() == ids(self.modules@.subrange(0, i as int)).to_set().filter(pred),
                pred == (|m: Seq<char>| exists|j: int| 0 <= j < ty@.len() && #[trigger] has_type(sizes_of(module_sizes@, m), ty@[j])),
            decreases self.modules@.len() - i,
        {
            let m = &self.modules[i];
            let ghost prefix = ids(self.modules@.subrange(0, i as int));
            proof {
                assert(ids(self.modules@.subrange(0, i + 1)) =~= prefix.push(m@));
                prefix.lemma_push_to_set_commute(m@);
                assert(!prefix.contains(m@)) by {
                    if prefix.contains(m@) {
                        let k = choose|k: int| 0 <= k < prefix.len() && prefix[k] == m@;
                        assert(ids(self.modules@)[k] == ids(self.modules@)[i as int]);
                    }
                }
                assert(ids(self.modules@)[i as int] == m@);
                assert(self.module_set().contains(m@));
            }
            let k = match key_position(module_sizes, m) {
                Some(k) => k,
                None => {
                    assert(false);
                    0
                },
            };
            proof {
                lemma_key_index(module_sizes@, k as int);
            }
            let sizes = &module_sizes[k].1;
            let mut found = false;
            let mut a: usize = 0;
            while a < ty.len() && !found
                invariant
                    0 <= a <= ty@.len(),
                    sizes@ == sizes_of(module_sizes@, m@),
                    found == exists|j: int| 0 <= j < a && #[trigger] has_type(sizes@, ty@[j]),
                decreases ty@.len() - a,
            {
                let t = ty[a];
                let mut b: usize = 0;
                while b < sizes.len()
                    invariant
                        0 <= b <= sizes@.len(),
                        a < ty@.len(),
                        t == ty@[a as int],
                        !found ==> !exists|j: int| 0 <= j < a && #[trigger] has_type(sizes@, ty@[j]),
                        found == ((exists|j: int| 0 <= j < a && #[trigger] has_type(sizes@, ty@[j])) || (exists|bb: int| 0 <= bb < b && (#[trigger] sizes@[bb]).0 == t)),
                    decreases sizes@.len() - b,
                {
                    if sizes[b].0 == t {
                        found = true;
                    }
                    b = b + 1;
                }
                proof {
                    assert(has_type(sizes@, t) == exists|bb: int| 0 <= bb < sizes@.len() && (#[trigger] sizes@[bb]).0 == t);
                    assert forall|j: int| 0 <= j < a + 1 && #[trigger] has_type(sizes@, ty@[j]) implies found by {
                        if j == a {
                            let bb = choose|bb: int| 0 <= bb < sizes@.len() && (#[trigger] sizes@[bb]).0 == t;
                        }
                    }
                    if found {
                        if !exists|j: int| 0 <= j < a && #[trigger] has_type(sizes@, ty@[j]) {
                            let bb = choose|bb: int| 0 <= bb < b && (#[trigger] sizes@[bb]).0 == t;
                            assert(has_type(sizes@, ty@[a as int]));
                        }
                    }
                }
                a = a + 1;
            }
            proof {
                if !found {
                    assert(a == ty@.len());
                }
                assert(found == pred(m@));
            }
            if found {
                let mc = m.clone();
                proof {
                    assert(!ids(r@).contains(m@)) by {
                        if ids(r@).contains(m@) {
                            assert(ids(r@).to_set().contains(m@));
                        }
                    }
                    crate::ukey_set::lemma_push_no_duplicates(ids(r@), m@);
                    assert(ids(r@.push(mc)) =~= ids(r@).push(m@));
                }
                r.push(mc);
            }
            i = i + 1;
            assert(ids(r@).to_set() =~= ids(self.modules@.subrange(0, i as int)).to_set().filter(pred));
        }
        assert(self.modules@.subrange(0, i as int) =~= self.modules@);
        r
    }

    pub fn get_cache_group<'a>(&self, cache_groups: &'a Vec<CacheGroup>) -> (r: &'a CacheGroup)
        requires
            self.idx.0 < cache_groups@.len(),
        ensures
            *r == cache_groups@[self.idx.0 as int],
    {
        &cache_groups[self.idx.0]
    }
}

/// Adding a module to a group and then removing it gives back every total
/// size and every per-type index the group had.
pub proof fn lemma_add_then_remove_restores(
    g0: ModuleGroup,
    g1: ModuleGroup,
    g2: ModuleGroup,
    m: Seq<char>,
    ps: Seq<(SourceType, u64)>,
)
    requires
        g0.wf(),
        !g0.module_set().contains(m),
        g1.added(&g0, m, ps),
        g2.removed(&g1, m, ps),
    ensures
        g2.module_set() == g0.module_set(),
        forall|t: SourceType| #[trigger] g2.size_of(t) == g0.size_of(t),
        forall|t: SourceType| #[trigger] g2.type_modules(t) == g0.type_modules(t),
        forall|t: SourceType| !(#[trigger] g2.type_modules(t)).contains(m),
        g2.same_settings(&g0),
{
    assert(g1.module_set().contains(m));
    assert(g2.module_set() =~= g0.module_set());
    assert forall|t: SourceType| #[trigger] g2.type_modules(t) == g0.type_modules(t) by {
        assert(g0.type_modules(t).subset_of(g0.module_set()));
        assert(!g0.type_modules(t).contains(m));
        if has_type(ps, t) {
            assert(g0.type_modules(t).insert(m).remove(m) =~= g0.type_modules(t));
        } else {
            assert(g0.type_modules(t).remove(m) =~= g0.type_modules(t));
        }
    }
    assert forall|t: SourceType| #[trigger] g2.size_of(t) == g0.size_of(t) by {
        assert(g1.size_of(t) == g0.size_of(t) + type_total(ps, t));
        assert(g0.size_of(t) >= 0);
    }
}

/// The sum of the sizes in `s`.
pub open spec fn sum_sizes(s: Seq<u64>) -> int
    decreases s.len(),
{
    if s.len() == 0 {
        0
    } else {
        sum_sizes(s.drop_last()) + s.last() as int
    }
}

/// The total size of a group, over all source types.
pub open spec fn group_total(g: ModuleGroup) -> int {
    sum_sizes(g.sizes@)
}

/// What extracting the group saves: its size once per chunk beyond the
/// first.
pub open spec fn size_reduction(g: ModuleGroup) -> int {
    group_total(g) * (g.chunks@.len() - 1)
}

/// The module identifiers of a group in text order.
pub open spec fn sorted_modules(g: ModuleGroup) -> Seq<Seq<char>> {
    choose|s: Seq<Seq<char>>| strictly_sorted(s) && s.to_set() == g.module_set()
}

/// Compares two sequences from their last elements backwards: the first
/// pair that differs decides, by text order.
pub open spec fn compare_from_end(sa: Seq<Seq<char>>, sb: Seq<Seq<char>>) -> int
    decreases sa.len(),
{
    if sa.len() == 0 || sb.len() == 0 {
        0
    } else if sa.last() != sb.last() {
        if text_lt(sa.last(), sb.last()) {
            -1
        } else {
            1
        }
    } else {
        compare_from_end(sa.drop_last(), sb.drop_last())
    }
}

/// The ranking of two candidate groups, positive when `a` goes first:
/// higher priority, then more chunks, then a larger size reduction, then
/// the earlier cache group, then more modules, then the module identifiers
/// compared from the last in text order.
pub open spec fn compare_spec(a: ModuleGroup, b: ModuleGroup) -> int {
    if a.cache_group_priority != b.cache_group_priority {
        a.cache_group_priority - b.cache_group_priority
    } else if a.chunks@.len() != b.chunks@.len() {
        a.chunks@.len() - b.chunks@.len()
    } else if size_reduction(a) != size_reduction(b) {
        size_reduction(a) - size_reduction(b)
    } else if a.cache_group_index != b.cache_group_index {
        b.cache_group_index - a.cache_group_index
    } else if a.modules@.len() != b.modules@.len() {
        a.modules@.len() - b.modules@.len()
    } else {
        compare_from_end(sorted_modules(a), sorted_modules(b))
    }
}

/// The sizes the comparator multiplies fit its result.
pub open spec fn comparable(g: ModuleGroup) -> bool {
    &&& g.wf()
    &&& group_total(g) <= u64::MAX
    &&& g.chunks@.len() <= u32::MAX
}

pub proof fn lemma_sum_sizes_bound(s: Seq<u64>)
    ensures
        0 <= sum_sizes(s) <= s.len() * u64::MAX,
    decreases s.len(),
{
    if s.len() > 0 {
        lemma_sum_sizes_bound(s.drop_last());
    }
}

/// The total size of all source types.
pub fn total_size(sizes: &Vec<u64>) -> (r: u128)
    requires
        sizes@.len() <= SOURCE_TYPE_COUNT,
    ensures
        r == sum_sizes(sizes@),
{
    let mut acc: u128 = 0;
    let mut i: usize = 0;
    while i < sizes.len()
        invariant
            0 <= i <= sizes@.len(),
            sizes@.len() <= SOURCE_TYPE_COUNT,
            acc == sum_sizes(sizes@.subrange(0, i as int)),
        decreases sizes@.len() - i,
    {
        proof {
            lemma_sum_sizes_bound(sizes@.subrange(0, i as int));
            assert(sizes@.subrange(0, i + 1).drop_last() =~= sizes@.subrange(0, i as int));
        }
        acc = acc + sizes[i] as u128;
        i = i + 1;
    }
    assert(sizes@.subrange(0, sizes@.len() as int) =~= sizes@);
    acc
}

/// Compares two sorted identifier lists of one length from their ends.
fn compare_sorted_from_end(sa: &Vec<String>, sb: &Vec<String>) -> (r: i128)
    requires
        sa@.len() == sb@.len(),
    ensures
        r == compare_from_end(ids(sa@), ids(sb@)),
{
    let mut i: usize = sa.len();
    assert(ids(sa@).subrange(0, i as int) =~= ids(sa@));
    assert(ids(sb@).subrange(0, i as int) =~= ids(sb@));
    while i > 0
        invariant
            0 <= i <= sa@.len(),
            sa@.len() == sb@.len(),
            compare_from_end(ids(sa@), ids(sb@)) == compare_from_end(
                ids(sa@).subrange(0, i as int),
                ids(sb@).subrange(0, i as int),
            ),
        decreases i,
    {
        let ghost pa = ids(sa@).subrange(0, i as int);
        let ghost pb = ids(sb@).subrange(0, i as int);
        i = i - 1;
        assert(pa.last() == sa@[i as int]@);
        assert(pb.last() == sb@[i as int]@);
        if sa[i] != sb[i] {
            if text_less(sa[i].as_str(), sb[i].as_str()) {
                return -1;
            } else {
                return 1;
            }
        }
        assert(pa.drop_last() =~= ids(sa@).subrange(0, i as int));
        assert(pb.drop_last() =~= ids(sb@).subrange(0, i as int));
    }
    0
}

/// Ranks two candidate groups; see `compare_spec`.
pub fn compare_entries(a: &ModuleGroup, b: &ModuleGroup) -> (r: i128)
    requires
        comparable(*a),
        comparable(*b),
    ensures
        r == compare_spec(*a, *b),
{
    let diff_priority = a.cache_group_priority as i128 - b.cache_group_priority as i128;
    if diff_priority != 0 {
        return diff_priority;
    }
    let diff_count = a.chunks.len() as i128 - b.chunks.len() as i128;
    if diff_count != 0 {
        return diff_count;
    }
    let ta = total_size(&a.sizes) as i128;
    let tb = total_size(&b.sizes) as i128;
    let na = a.chunks.len() as i128 - 1;
    let nb = b.chunks.len() as i128 - 1;
    assert(-1 <= na <= u32::MAX);
    assert(0 <= ta <= u64::MAX);
    assert(-(u64::MAX as int) <= ta * na <= (u64::MAX as int) * (u32::MAX as int)) by (nonlinear_arith)
        requires
            -1 <= na <= u32::MAX,
            0 <= ta <= u64::MAX,
    ;
    assert(-(u64::MAX as int) <= tb * nb <= (u64::MAX as int) * (u32::MAX as int)) by (nonlinear_arith)
        requires
            -1 <= nb <= u32::MAX,
            0 <= tb <= u64::MAX,
    ;
    let a_size_reduce = ta * na;
    let b_size_reduce = tb * nb;
    let diff_size_reduce = a_size_reduce - b_size_reduce;
    if diff_size_reduce != 0 {
        return diff_size_reduce;
    }
    let index_diff = b.cache_group_index as i128 - a.cache_group_index as i128;
    if index_diff != 0 {
        return index_diff;
    }
    let diff = a.modules.len() as i128 - b.modules.len() as i128;
    if diff != 0 {
        return diff;
    }
    let modules_a = sort_identifiers(&a.modules);
    let modules_b = sort_identifiers(&b.modules);
    proof {
        lemma_sorted_modules(*a, ids(modules_a@));
        lemma_sorted_modules(*b, ids(modules_b@));
    }
    compare_sorted_from_end(&modules_a, &modules_b)
}

/// The sorted identifiers of a group are the ones `sorted_modules` names.
pub proof fn lemma_sorted_modules(g: ModuleGroup, s: Seq<Seq<char>>)
    requires
        strictly_sorted(s),
        s.to_set() == g.module_set(),
    ensures
        sorted_modules(g) == s,
        strictly_sorted(sorted_modules(g)),
        sorted_modules(g).to_set() == g.module_set(),
{
    let c = sorted_modules(g);
    lemma_sorted_sets_equal(c, s);
}

proof fn lemma_compare_from_end_antisymmetric(sa: Seq<Seq<char>>, sb: Seq<Seq<char>>)
    ensures
        compare_from_end(sa, sb) == -compare_from_end(sb, sa),
    decreases sa.len(),
{
    if sa.len() > 0 && sb.len() > 0 {
        if sa.last() != sb.last() {
            lemma_text_order(sa.last(), sb.last(), sa.last());
        } else {
            lemma_compare_from_end_antisymmetric(sa.drop_last(), sb.drop_last());
        }
    }
}

proof fn lemma_compare_from_end_distinct(sa: Seq<Seq<char>>, sb: Seq<Seq<char>>)
    requires
        sa.len() == sb.len(),
        sa != sb,
    ensures
        compare_from_end(sa, sb) != 0,
    decreases sa.len(),
{
    if sa.len() == 0 {
        assert(sa =~= sb);
    } else if sa.last() != sb.last() {
    } else {
        assert(sa.drop_last() != sb.drop_last()) by {
            if sa.drop_last() == sb.drop_last() {
                assert(sa =~= sb.drop_last().push(sb.last()));
                assert(sb =~= sb.drop_last().push(sb.last()));
            }
        }
        lemma_compare_from_end_distinct(sa.drop_last(), sb.drop_last());
    }
}

proof fn lemma_compare_from_end_transitive(sa: Seq<Seq<char>>, sb: Seq<Seq<char>>, sc: Seq<Seq<char>>)
    requires
        sa.len() == sb.len(),
        sb.len() == sc.len(),
        compare_from_end(sa, sb) > 0,
        compare_from_end(sb, sc) > 0,
    ensures
        compare_from_end(sa, sc) > 0,
    decreases sa.len(),
{
    if sa.len() > 0 {
        let (x, y, z) = (sa.last(), sb.last(), sc.last());
        lemma_text_order(x, y, z);
        lemma_text_order(z, y, x);
        lemma_text_order(y, x, z);
        lemma_text_order(x, z, y);
        if x == y && y == z {
            lemma_compare_from_end_transitive(sa.drop_last(), sb.drop_last(), sc.drop_last());
        }
    }
}

/// The comparator is antisymmetric: swapping the groups negates it.
pub proof fn lemma_compare_antisymmetric(a: ModuleGroup, b: ModuleGroup)
    ensures
        compare_spec(a, b) == -compare_spec(b, a),
{
    lemma_compare_from_end_antisymmetric(sorted_modules(a), sorted_modules(b));
}

/// Two groups with different module sets never compare as equal.
pub proof fn lemma_compare_distinct(a: ModuleGroup, b: ModuleGroup)
    requires
        a.wf(),
        b.wf(),
        a.module_set() != b.module_set(),
    ensures
        compare_spec(a, b) != 0,
{
    if compare_spec(a, b) == 0 {
        assert(a.modules@.len() == b.modules@.len());
        let sa = sort_witness(a);
        let sb = sort_witness(b);
        lemma_sorted_modules(a, sa);
        lemma_sorted_modules(b, sb);
        ids(a.modules@).unique_seq_to_set();
        ids(b.modules@).unique_seq_to_set();
        crate::ident::lemma_strictly_sorted_no_duplicates(sa);
        crate::ident::lemma_strictly_sorted_no_duplicates(sb);
        sa.unique_seq_to_set();
        sb.unique_seq_to_set();
        assert(sa != sb);
        lemma_compare_from_end_distinct(sa, sb);
    }
}

/// A strictly sorted sequence with the modules of `g`.
proof fn sort_witness(g: ModuleGroup) -> (s: Seq<Seq<char>>)
    requires
        g.wf(),
    ensures
        strictly_sorted(s),
        s.to_set() == g.module_set(),
{
    sorted_of(ids(g.modules@))
}

/// The sorted identifiers of a well-formed group: one for each module.
pub proof fn lemma_sorted_modules_len(g: ModuleGroup)
    requires
        g.wf(),
    ensures
        strictly_sorted(sorted_modules(g)),
        sorted_modules(g).to_set() == g.module_set(),
        sorted_modules(g).len() == g.modules@.len(),
{
    let w = sort_witness(g);
    lemma_sorted_modules(g, w);
    ids(g.modules@).unique_seq_to_set();
    crate::ident::lemma_strictly_sorted_no_duplicates(w);
    w.unique_seq_to_set();
}

/// Sorting a sequence without repeats, in spec.
proof fn sorted_of(v: Seq<Seq<char>>) -> (s: Seq<Seq<char>>)
    requires
        v.no_duplicates(),
    ensures
        strictly_sorted(s),
        s.to_set() == v.to_set(),
    decreases v.len(),
{
    if v.len() == 0 {
        assert(v.to_set() =~= Seq::<Seq<char>>::empty().to_set());
        Seq::empty()
    } else {
        let x = v.last();
        let rest = sorted_of(v.drop_last());
        assert(!v.drop_last().contains(x)) by {
            if v.drop_last().contains(x) {
                let k = choose|k: int| 0 <= k < v.drop_last().len() && v.drop_last()[k] == x;
                assert(v[k] == v[v.len() - 1]);
            }
        }
        let p = insertion_point(rest, x, 0);
        let s = rest.insert(p, x);
        crate::ident::lemma_insert_to_set(rest, p, x);
        assert(v =~= v.drop_last().push(x));
        v.drop_last().lemma_push_to_set_commute(x);
        assert(!rest.contains(x)) by {
            if rest.contains(x) {
                assert(rest.to_set().contains(x));
            }
        }
        assert forall|i: int, j: int| 0 <= i < j < s.len() implies text_lt(#[trigger] s[i], #[trigger] s[j]) by {
            if i < p && j == p {
                lemma_text_order(x, rest[i], x);
            } else if i < p && j > p {
                assert(s[j] == rest[j - 1]);
            } else if i == p && j > p {
                assert(text_lt(x, rest[p]));
                if j - 1 > p {
                    lemma_text_order(x, rest[p], rest[j - 1]);
                }
            } else if i > p {
                assert(s[i] == rest[i - 1] && s[j] == rest[j - 1]);
            }
        }
        s
    }
}

/// The first place in sorted `s` whose element orders after `x`.
proof fn insertion_point(s: Seq<Seq<char>>, x: Seq<char>, from: int) -> (p: int)
    requires
        0 <= from <= s.len(),
        forall|k: int| 0 <= k < from ==> !text_lt(x, #[trigger] s[k]),
    ensures
        0 <= p <= s.len(),
        forall|k: int| 0 <= k < p ==> !text_lt(x, #[trigger] s[k]),
        p < s.len() ==> text_lt(x, s[p]),
    decreases s.len() - from,
{
    if from == s.len() || text_lt(x, s[from]) {
        from
    } else {
        insertion_point(s, x, from + 1)
    }
}

/// The comparator orders groups transitively.
pub proof fn lemma_compare_transitive(a: ModuleGroup, b: ModuleGroup, c: ModuleGroup)
    requires
        a.wf(),
        b.wf(),
        c.wf(),
        compare_spec(a, b) > 0,
        compare_spec(b, c) > 0,
    ensures
        compare_spec(a, c) > 0,
{
    if a.cache_group_priority == b.cache_group_priority && b.cache_group_priority == c.cache_group_priority
        && a.chunks@.len() == b.chunks@.len() && b.chunks@.len() == c.chunks@.len()
        && size_reduction(a) == size_reduction(b) && size_reduction(b) == size_reduction(c)
        && a.cache_group_index == b.cache_group_index && b.cache_group_index == c.cache_group_index
        && a.modules@.len() == b.modules@.len() && b.modules@.len() == c.modules@.len() {
        lemma_sorted_modules_len(a);
        lemma_sorted_modules_len(b);
        lemma_sorted_modules_len(c);
        lemma_compare_from_end_transitive(sorted_modules(a), sorted_modules(b), sorted_modules(c));
    }
}

/// Each group of `s` ranks strictly before every later one.
pub open spec fn ranked(s: Seq<ModuleGroup>) -> bool {
    forall|i: int, j: int| 0 <= i < j < s.len() ==> compare_spec(#[trigger] s[i], #[trigger] s[j]) > 0
}

/// Ranking is independent of the order the groups came in: two ranked
/// lists of the same well-formed groups are the same list.
pub proof fn lemma_ranked_unique(a: Seq<ModuleGroup>, b: Seq<ModuleGroup>)
    requires
        ranked(a),
        ranked(b),
        a.to_set() == b.to_set(),
        forall|i: int| 0 <= i < a.len() ==> (#[trigger] a[i]).wf(),
    ensures
        a == b,
{
    lemma_ranked_no_duplicates(a);
    lemma_ranked_no_duplicates(b);
    a.unique_seq_to_set();
    b.unique_seq_to_set();
    assert forall|i: int| 0 <= i < b.len() implies (#[trigger] b[i]).wf() by {
        assert(b.to_set().contains(b[i]));
        let k = choose|k: int| 0 <= k < a.len() && a[k] == b[i];
    }
    lemma_ranked_prefix_equal(a, b, a.len() as int);
    assert(a =~= b);
}

proof fn lemma_ranked_no_duplicates(a: Seq<ModuleGroup>)
    requires
        ranked(a),
    ensures
        a.no_duplicates(),
{
    assert forall|i: int, j: int| 0 <= i < a.len() && 0 <= j < a.len() && i != j implies a[i] != a[j] by {
        lemma_compare_antisymmetric(a[i], a[i]);
        if i < j {
            assert(compare_spec(a[i], a[j]) > 0);
        } else {
            assert(compare_spec(a[j], a[i]) > 0);
        }
    }
}

proof fn lemma_ranked_prefix_equal(a: Seq<ModuleGroup>, b: Seq<ModuleGroup>, i: int)
    requires
        ranked(a),
        ranked(b),
        a.to_set() == b.to_set(),
        a.len() == b.len(),
        forall|k: int| 0 <= k < a.len() ==> (#[trigger] a[k]).wf(),
        forall|k: int| 0 <= k < b.len() ==> (#[trigger] b[k]).wf(),
        0 <= i <= a.len(),
    ensures
        forall|k: int| 0 <= k < i ==> a[k] == b[k],
    decreases i,
{
    if i > 0 {
        lemma_ranked_prefix_equal(a, b, i - 1);
        let k = i - 1;
        assert(b.to_set().contains(a[k]));
        let j = choose|j: int| 0 <= j < b.len() && b[j] == a[k];
        assert(a.to_set().contains(b[k]));
        let jj = choose|jj: int| 0 <= jj < a.len() && a[jj] == b[k];
        lemma_compare_antisymmetric(a[k], a[k]);
        lemma_compare_antisymmetric(b[k], b[k]);
        if j < k {
            assert(a[j] == b[j]);
            assert(compare_spec(a[j], a[k]) > 0);
        }
        if jj < k {
            assert(a[jj] == b[jj]);
            assert(compare_spec(b[jj], b[k]) > 0);
        }
        if j > k {
            assert(compare_spec(b[k], b[j]) > 0);
            if jj > k {
                assert(compare_spec(a[k], a[jj]) > 0);
                lemma_compare_transitive(b[k], a[k], b[k]);
            } else {
                assert(jj == k);
            }
        }
    }
}

} // verus!
