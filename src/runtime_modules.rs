//! Runtime modules of a chunk: their generation order and the hashing
//! capabilities they report.
use vstd::prelude::*;
use itertools::Itertools;
use core::cmp::Ordering;
use crate::chunk_graph::ChunkGraph;
use crate::ident::{ids, text_less, text_lt, ModuleIdentifier};
use crate::keyed::{has_key, key_position, keyed_get, keys_unique, lemma_key_index};
use crate::ukey_set::ChunkUkey;

verus! {

/// What the chunk graph reads of a runtime module.
#[derive(Clone, Copy)]
pub struct RuntimeModuleInfo {
    /// The generation phase; lower stages are generated first.
    pub stage: u32,
    pub full_hash: bool,
    pub dependent_hash: bool,
    /// The size of the generated code.
    pub size: u64,
}

/// The runtime modules of a compilation, under their identifiers.
pub type RuntimeModuleTable = Vec<(ModuleIdentifier, RuntimeModuleInfo)>;

/// `x` is generated before `y`: by stage, then by identifier text.
pub open spec fn stage_lt(x: (u32, String), y: (u32, String)) -> bool {
    x.0 < y.0 || (x.0 == y.0 && text_lt(x.1@, y.1@))
}

pub open spec fn info_of(table: Seq<(ModuleIdentifier, RuntimeModuleInfo)>, m: Seq<char>) -> RuntimeModuleInfo {
    keyed_get(table, m).unwrap()
}

/// Orders two runtime modules by stage, then by identifier text.
pub fn compare_stage_then_identifier(a: &(u32, ModuleIdentifier), b: &(u32, ModuleIdentifier)) -> (r: Ordering)
    ensures
        (r == Ordering::Less) == stage_lt(*a, *b),
        (r == Ordering::Greater) == stage_lt(*b, *a),
{
    proof {
        crate::ident::lemma_text_order(a.1@, b.1@, a.1@);
    }
    if a.0 < b.0 {
        Ordering::Less
    } else if a.0 > b.0 {
        Ordering::Greater
    } else if text_less(a.1.as_str(), b.1.as_str()) {
        Ordering::Less
    } else if text_less(b.1.as_str(), a.1.as_str()) {
        Ordering::Greater
    } else {
        Ordering::Equal
    }
}

/// Relies on itertools' `Itertools::sorted_unstable_by`, which collects the
/// items into a vector and sorts it with the given comparison: the same
/// items come out, none after one that orders before it.
#[verifier::external_body]
fn sort_by_stage(items: Vec<(u32, ModuleIdentifier)>) -> (r: Vec<(u32, ModuleIdentifier)>)
    ensures
        r@.to_multiset() == items@.to_multiset(),
        forall|i: int, j: int| 0 <= i < j < r@.len() ==> !stage_lt(#[trigger] r@[j], #[trigger] r@[i]),
{
    items.into_iter().sorted_unstable_by(|a, b| compare_stage_then_identifier(a, b)).collect()
}

impl ChunkGraph {
    /// The runtime modules of `chunk` in generation order: by stage, then by
    /// identifier text.
    pub fn get_chunk_runtime_modules_in_order(
        &self,
        chunk_ukey: &ChunkUkey,
        runtime_modules: &RuntimeModuleTable,
    ) -> (r: Vec<ModuleIdentifier>)
        requires
            self.wf(),
            self.has_chunk(*chunk_ukey),
            keys_unique(runtime_modules@),
            forall|m: Seq<char>| #[trigger] self.runtime_of(*chunk_ukey).contains(m) ==> has_key(runtime_modules@, m),
        ensures
            ids(r@).to_set() == self.runtime_of(*chunk_ukey).to_set(),
            r@.len() == self.runtime_of(*chunk_ukey).len(),
            forall|i: int, j: int|
                0 <= i < j < r@.len() ==> (#[trigger] info_of(runtime_modules@, r@[i]@)).stage < (#[trigger] info_of(runtime_modules@, r@[j]@)).stage
                    || (info_of(runtime_modules@, r@[i]@).stage == info_of(runtime_modules@, r@[j]@).stage && !text_lt(r@[j]@, r@[i]@)),
    {
        let modules = self.get_chunk_runtime_modules_iterable(chunk_ukey);
        let ghost rv = self.runtime_of(*chunk_ukey);
        let mut items: Vec<(u32, ModuleIdentifier)> = Vec::new();
        let mut i: usize = 0;
        while i < modules.len()
            invariant
                0 <= i <= modules@.len(),
                ids(modules@) == rv,
                keys_unique(runtime_modules@),
                forall|m: Seq<char>| #[trigger] rv.contains(m) ==> has_key(runtime_modules@, m),
                items@.len() == i,
                forall|k: int| 0 <= k < i ==> (#[trigger] items@[k]).1@ == modules@[k]@ && items@[k].0 == info_of(runtime_modules@, modules@[k]@).stage,
            decreases modules@.len() - i,
        {
            let m = &modules[i];
            assert(rv[i as int] == m@);
            assert(rv.contains(m@));
            let k = match key_position(runtime_modules, m) {
                Some(k) => k,
                None => {
                    assert(false);
                    0
                },
            };
            proof {
                lemma_key_index(runtime_modules@, k as int);
            }
            items.push((runtime_modules[k].1.stage, m.clone()));
            i = i + 1;
        }
        let ghost before = items@;
        let sorted = sort_by_stage(items);
        let mut r: Vec<ModuleIdentifier> = Vec::new();
        let mut j: usize = 0;
        while j < sorted.len()
            invariant
                0 <= j <= sorted@.len(),
                r@.len() == j,
                forall|k: int| 0 <= k < j ==> (#[trigger] r@[k])@ == sorted@[k].1@,
            decreases sorted@.len() - j,
        {
            r.push(sorted[j].1.clone());
            j = j + 1;
        }
        proof {
            sorted@.to_multiset_ensures();
            before.to_multiset_ensures();
            assert(ids(r@).len() == rv.len());
            assert forall|x: Seq<char>| #[trigger] ids(r@).to_set().contains(x) == rv.to_set().contains(x) by {
                if ids(r@).contains(x) {
                    let k = choose|k: int| 0 <= k < ids(r@).len() && ids(r@)[k] == x;
                    assert(sorted@.contains(sorted@[k]));
                    assert(sorted@.to_multiset().count(sorted@[k]) > 0);
                    assert(before.to_multiset().count(sorted@[k]) > 0);
                    assert(before.contains(sorted@[k]));
                    let w = choose|w: int| 0 <= w < before.len() && before[w] == sorted@[k];
                    assert(rv[w] == x);
                }
                if rv.contains(x) {
                    let w = choose|w: int| 0 <= w < rv.len() && rv[w] == x;
                    assert(before.contains(before[w]));
                    assert(before.to_multiset().count(before[w]) > 0);
                    assert(sorted@.to_multiset().count(before[w]) > 0);
                    assert(sorted@.contains(before[w]));
                    let k = choose|k: int| 0 <= k < sorted@.len() && sorted@[k] == before[w];
                    assert(ids(r@)[k] == x);
                }
            }
            assert(ids(r@).to_set() =~= rv.to_set());
            assert forall|a: int| 0 <= a < sorted@.len() implies sorted@[a].0 == info_of(runtime_modules@, sorted@[a].1@).stage by {
                assert(sorted@.contains(sorted@[a]));
                assert(sorted@.to_multiset().count(sorted@[a]) > 0);
                assert(before.to_multiset().count(sorted@[a]) > 0);
                assert(before.contains(sorted@[a]));
                let w = choose|w: int| 0 <= w < before.len() && before[w] == sorted@[a];
            }
            assert forall|a: int, b: int| 0 <= a < b < r@.len() implies (#[trigger] info_of(runtime_modules@, r@[a]@)).stage < (#[trigger] info_of(runtime_modules@, r@[b]@)).stage
                || (info_of(runtime_modules@, r@[a]@).stage == info_of(runtime_modules@, r@[b]@).stage && !text_lt(r@[b]@, r@[a]@)) by {
                assert(!stage_lt(sorted@[b], sorted@[a]));
                assert(sorted@[a].0 == info_of(runtime_modules@, sorted@[a].1@).stage);
                assert(sorted@[b].0 == info_of(runtime_modules@, sorted@[b].1@).stage);
            }
        }
        r
    }

    /// Whether a runtime module of `chunk` reports a full hash.
    pub fn has_chunk_full_hash_modules(&self, chunk: &ChunkUkey, runtime_modules: &RuntimeModuleTable) -> (r: bool)
        requires
            self.has_chunk(*chunk),
            keys_unique(runtime_modules@),
            forall|m: Seq<char>| #[trigger] self.runtime_of(*chunk).contains(m) ==> has_key(runtime_modules@, m),
        ensures
            r == exists|i: int| 0 <= i < self.runtime_of(*chunk).len() && #[trigger] info_of(runtime_modules@, self.runtime_of(*chunk)[i]).full_hash,
    {
        self.any_runtime_module(chunk, runtime_modules, true)
    }

    /// Whether a runtime module of `chunk` reports a dependent hash.
    pub fn has_chunk_dependent_hash_modules(&self, chunk: &ChunkUkey, runtime_modules: &RuntimeModuleTable) -> (r: bool)
        requires
            self.has_chunk(*chunk),
            keys_unique(runtime_modules@),
            forall|m: Seq<char>| #[trigger] self.runtime_of(*chunk).contains(m) ==> has_key(runtime_modules@, m),
        ensures
            r == exists|i: int| 0 <= i < self.runtime_of(*chunk).len() && #[trigger] info_of(runtime_modules@, self.runtime_of(*chunk)[i]).dependent_hash,
    {
        self.any_runtime_module(chunk, runtime_modules, false)
    }

    fn any_runtime_module(&self, chunk: &ChunkUkey, runtime_modules: &RuntimeModuleTable, full: bool) -> (r: bool)
        requires
            self.has_chunk(*chunk),
            keys_unique(runtime_modules@),
            forall|m: Seq<char>| #[trigger] self.runtime_of(*chunk).contains(m) ==> has_key(runtime_modules@, m),
        ensures
            r == if full {
                exists|i: int| 0 <= i < self.runtime_of(*chunk).len() && #[trigger] info_of(runtime_modules@, self.runtime_of(*chunk)[i]).full_hash
            } else {
                exists|i: int| 0 <= i < self.runtime_of(*chunk).len() && #[trigger] info_of(runtime_modules@, self.runtime_of(*chunk)[i]).dependent_hash
            },
    {
        let modules = self.get_chunk_runtime_modules_iterable(chunk);
        let ghost rv = self.runtime_of(*chunk);
        let mut i: usize = 0;
        while i < modules.len()
            invariant
                0 <= i <= modules@.len(),
                ids(modules@) == rv,
                rv == self.runtime_of(*chunk),
                keys_unique(runtime_modules@),
                forall|m: Seq<char>| #[trigger] rv.contains(m) ==> has_key(runtime_modules@, m),
                forall|k: int| 0 <= k < i ==> !(if full {
                    (#[trigger] info_of(runtime_modules@, rv[k])).full_hash
                } else {
                    info_of(runtime_modules@, rv[k]).dependent_hash
                }),
            decreases modules@.len() - i,
        {
            let m = &modules[i];
            assert(rv[i as int] == m@);
            assert(rv.contains(m@));
            let k = match key_position(runtime_modules, m) {
                Some(k) => k,
                None => {
                    assert(false);
                    0
                },
            };
            proof {
                lemma_key_index(runtime_modules@, k as int);
            }
            let info = runtime_modules[k].1;
            if (full && info.full_hash) || (!full && info.dependent_hash) {
                assert(info == info_of(runtime_modules@, rv[i as int]));
                assert(rv == self.runtime_of(*chunk));
                return true;
            }
            i = i + 1;
        }
        assert(rv == self.runtime_of(*chunk));
        false
    }
}

} // verus!
