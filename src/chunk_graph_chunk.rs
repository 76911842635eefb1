//! The per-chunk and per-module records of the chunk graph, and the edits
//! of one side of an edge.
use vstd::prelude::*;
use crate::ident::{ids, position_of, ModuleIdentifier};
use crate::keyed::{
    has_key, key_position, keyed_get, keys_of, keys_unique, lemma_key_index, lemma_keyed_push,
    lemma_keyed_remove, lemma_keyed_update, swap_value,
};
use crate::source_type::SourceType;
use crate::ukey_set::{lemma_push_no_duplicates, lemma_remove_index_to_set, ChunkGroupUkey, ChunkUkey};

verus! {

/// The entries of a chunk as texts, each with the chunk group that
/// introduced it, in their order.
pub open spec fn entry_pairs(s: Seq<(String, u32)>) -> Seq<(Seq<char>, u32)> {
    s.map_values(|e: (String, u32)| (e.0@, e.1))
}

/// The position of entry `m` in `s`.
pub open spec fn entry_pos(s: Seq<(Seq<char>, u32)>, m: Seq<char>) -> int {
    choose|i: int| 0 <= i < s.len() && (#[trigger] s[i]).0 == m
}

pub open spec fn has_entry(s: Seq<(Seq<char>, u32)>, m: Seq<char>) -> bool {
    exists|i: int| 0 <= i < s.len() && (#[trigger] s[i]).0 == m
}

/// `s` with `m` made an entry introduced by `g`: an existing entry keeps its
/// place and takes `g`, a new one goes last.
pub open spec fn upsert_entry(s: Seq<(Seq<char>, u32)>, m: Seq<char>, g: u32) -> Seq<
    (Seq<char>, u32),
> {
    if has_entry(s, m) {
        s.update(entry_pos(s, m), (m, g))
    } else {
        s.push((m, g))
    }
}

/// `s` with each entry of `es` made an entry in turn, by `upsert_entry`.
pub open spec fn upsert_entries(s: Seq<(Seq<char>, u32)>, es: Seq<(Seq<char>, u32)>) -> Seq<(Seq<char>, u32)>
    decreases es.len(),
{
    if es.len() == 0 {
        s
    } else {
        let r = upsert_entries(s, es.drop_last());
        upsert_entry(r, es.last().0, es.last().1)
    }
}

/// Making the entries `es`, whose modules differ, entries of `s` keeps the
/// module at each place of `s`, and leaves each entry of `es` in the result
/// with its chunk group.
pub proof fn lemma_upsert_entries(s: Seq<(Seq<char>, u32)>, es: Seq<(Seq<char>, u32)>)
    requires
        forall|i: int, j: int| 0 <= i < j < es.len() ==> (#[trigger] es[i]).0 != (#[trigger] es[j]).0,
    ensures
        upsert_entries(s, es).len() >= s.len(),
        forall|k: int| 0 <= k < s.len() ==> (#[trigger] upsert_entries(s, es)[k]).0 == s[k].0,
        forall|i: int| 0 <= i < es.len() ==> upsert_entries(s, es).contains(#[trigger] es[i]),
    decreases es.len(),
{
    if es.len() > 0 {
        let rest = es.drop_last();
        lemma_upsert_entries(s, rest);
        let r = upsert_entries(s, rest);
        let (m, g) = es.last();
        let t = upsert_entry(r, m, g);
        assert(t == upsert_entries(s, es));
        if has_entry(r, m) {
            let p = entry_pos(r, m);
            assert(r[p].0 == m);
            assert forall|k: int| 0 <= k < s.len() implies (#[trigger] t[k]).0 == s[k].0 by {
                assert(r[k].0 == s[k].0);
            }
            assert forall|i: int| 0 <= i < es.len() implies t.contains(#[trigger] es[i]) by {
                if i == es.len() - 1 {
                    assert(t[p] == es[i]);
                } else {
                    assert(rest[i] == es[i]);
                    let k = choose|k: int| 0 <= k < r.len() && r[k] == es[i];
                    assert(es[i].0 != m);
                    assert(k != p);
                    assert(t[k] == es[i]);
                }
            }
        } else {
            assert forall|k: int| 0 <= k < s.len() implies (#[trigger] t[k]).0 == s[k].0 by {
                assert(r[k].0 == s[k].0);
            }
            assert forall|i: int| 0 <= i < es.len() implies t.contains(#[trigger] es[i]) by {
                if i == es.len() - 1 {
                    assert(t[r.len() as int] == es[i]);
                } else {
                    assert(rest[i] == es[i]);
                    let k = choose|k: int| 0 <= k < r.len() && r[k] == es[i];
                    assert(t[k] == es[i]);
                }
            }
        }
    }
}

/// `s` without the entry `m`.
pub open spec fn drop_entry(s: Seq<(Seq<char>, u32)>, m: Seq<char>) -> Seq<(Seq<char>, u32)> {
    if has_entry(s, m) {
        s.remove(entry_pos(s, m))
    } else {
        s
    }
}

/// `s` with the entry `m` renamed to `n` in its place.
pub open spec fn rename_entry_in(s: Seq<(Seq<char>, u32)>, m: Seq<char>, n: Seq<char>) -> Seq<
    (Seq<char>, u32),
> {
    if has_entry(s, m) {
        s.update(entry_pos(s, m), (n, s[entry_pos(s, m)].1))
    } else {
        s
    }
}

/// `s` with `m` appended, unless it is there.
pub open spec fn push_absent(s: Seq<Seq<char>>, m: Seq<char>) -> Seq<Seq<char>> {
    if s.contains(m) {
        s
    } else {
        s.push(m)
    }
}

/// `s` without `m`.
pub open spec fn drop_value(s: Seq<Seq<char>>, m: Seq<char>) -> Seq<Seq<char>> {
    if s.contains(m) {
        s.remove(s.index_of(m))
    } else {
        s
    }
}

pub proof fn lemma_entry_pos(v: Seq<(String, u32)>, i: int)
    requires
        keys_unique(v),
        0 <= i < v.len(),
    ensures
        has_entry(entry_pairs(v), v[i].0@),
        entry_pos(entry_pairs(v), v[i].0@) == i,
        has_key(v, v[i].0@),
{
    let s = entry_pairs(v);
    assert(s[i].0 == v[i].0@);
    let j = entry_pos(s, v[i].0@);
    assert(keys_of(v)[j] == s[j].0);
    assert(keys_of(v)[i] == s[i].0);
    lemma_key_index(v, i);
}

pub proof fn lemma_no_entry(v: Seq<(String, u32)>, m: Seq<char>)
    requires
        !has_key(v, m),
    ensures
        !has_entry(entry_pairs(v), m),
        !keys_of(v).contains(m),
{
    if has_entry(entry_pairs(v), m) {
        let j = choose|j: int| 0 <= j < entry_pairs(v).len() && (#[trigger] entry_pairs(v)[j]).0 == m;
        assert(v[j].0@ == m);
    }
    if keys_of(v).contains(m) {
        let j = choose|j: int| 0 <= j < keys_of(v).len() && keys_of(v)[j] == m;
        assert(v[j].0@ == m);
    }
}

/// What one chunk holds.
pub struct ChunkGraphChunk {
    /// Entry modules, each with the entrypoint chunk group that introduced
    /// it, in the order of the entry declarations.
    pub entry_modules: Vec<(ModuleIdentifier, ChunkGroupUkey)>,
    pub modules: Vec<ModuleIdentifier>,
    /// Runtime modules in the order they were attached.
    pub runtime_modules: Vec<ModuleIdentifier>,
    /// Source types that a module has in this chunk, where they differ from
    /// the module's own.
    pub source_types_by_module: Option<Vec<(ModuleIdentifier, Vec<SourceType>)>>,
}

impl ChunkGraphChunk {
    pub open spec fn module_set(&self) -> Set<Seq<char>> {
        ids(self.modules@).to_set()
    }

    pub open spec fn entry_view(&self) -> Seq<(Seq<char>, u32)> {
        entry_pairs(self.entry_modules@)
    }

    pub open spec fn entry_set(&self) -> Set<Seq<char>> {
        keys_of(self.entry_modules@).to_set()
    }

    pub open spec fn runtime_view(&self) -> Seq<Seq<char>> {
        ids(self.runtime_modules@)
    }

    /// The source types that this chunk gives `m` in place of its own.
    pub open spec fn source_types_override(&self, m: Seq<char>) -> Option<Set<SourceType>> {
        match self.source_types_by_module {
            Some(v) => match keyed_get(v@, m) {
                Some(t) => Some(t@.to_set()),
                None => None,
            },
            None => None,
        }
    }

    pub open spec fn wf(&self) -> bool {
        &&& ids(self.modules@).no_duplicates()
        &&& keys_unique(self.entry_modules@)
        &&& ids(self.runtime_modules@).no_duplicates()
        &&& match self.source_types_by_module {
            Some(v) => keys_unique(v@),
            None => true,
        }
    }

    pub fn new() -> (r: Self)
        ensures
            r.wf(),
            r.module_set() == Set::<Seq<char>>::empty(),
            r.entry_view() == Seq::<(Seq<char>, u32)>::empty(),
            r.runtime_view() == Seq::<Seq<char>>::empty(),
            r.source_types_by_module is None,
    {
        let r = ChunkGraphChunk {
            entry_modules: Vec::new(),
            modules: Vec::new(),
            runtime_modules: Vec::new(),
            source_types_by_module: None,
        };
        assert(r.module_set() =~= Set::<Seq<char>>::empty());
        assert(r.entry_view() =~= Seq::<(Seq<char>, u32)>::empty());
        assert(r.runtime_view() =~= Seq::<Seq<char>>::empty());
        r
    }

    pub fn modules(&self) -> (r: &Vec<ModuleIdentifier>)
        ensures
            r == &self.modules,
    {
        &self.modules
    }

    pub fn insert_module(&mut self, m: ModuleIdentifier)
        requires
            old(self).wf(),
        ensures
            final(self).wf(),
            final(self).module_set() == old(self).module_set().insert(m@),
            final(self).entry_modules == old(self).entry_modules,
            final(self).runtime_modules == old(self).runtime_modules,
            final(self).source_types_by_module == old(self).source_types_by_module,
    {
        match position_of(&self.modules, &m) {
            Some(i) => {
                assert(ids(self.modules@)[i as int] == m@);
                assert(self.module_set().insert(m@) =~= self.module_set());
            },
            None => {
                proof {
                    lemma_push_no_duplicates(ids(self.modules@), m@);
                    assert(ids(self.modules@.push(m)) =~= ids(self.modules@).push(m@));
                }
                self.modules.push(m);
            },
        }
    }

    /// Takes `m` out of the modules, and drops any source types this chunk
    /// gave it.
    pub fn remove_module(&mut self, m: &ModuleIdentifier)
        requires
            old(self).wf(),
        ensures
            final(self).wf(),
            final(self).module_set() == old(self).module_set().remove(m@),
            final(self).entry_modules == old(self).entry_modules,
            final(self).runtime_modules == old(self).runtime_modules,
            final(self).source_types_override(m@) is None,
            forall|x: Seq<char>|
                x != m@ ==> #[trigger] final(self).source_types_override(x) == old(
                    self,
                ).source_types_override(x),
    {
        match position_of(&self.modules, m) {
            Some(i) => {
                proof {
                    lemma_remove_index_to_set(ids(self.modules@), i as int);
                    assert(ids(self.modules@.remove(i as int)) =~= ids(self.modules@).remove(
                        i as int,
                    ));
                }
                self.modules.remove(i);
            },
            None => {
                assert(self.module_set().remove(m@) =~= self.module_set());
            },
        }
        self.purge_source_types(m);
    }

    pub fn purge_source_types(&mut self, m: &ModuleIdentifier)
        requires
            old(self).wf(),
        ensures
            final(self).wf(),
            final(self).modules == old(self).modules,
            final(self).entry_modules == old(self).entry_modules,
            final(self).runtime_modules == old(self).runtime_modules,
            final(self).source_types_override(m@) is None,
            forall|x: Seq<char>|
                x != m@ ==> #[trigger] final(self).source_types_override(x) == old(
                    self,
                ).source_types_override(x),
    {
        let ghost before = *self;
        let mut taken: Option<Vec<(ModuleIdentifier, Vec<SourceType>)>> = None;
        std::mem::swap(&mut taken, &mut self.source_types_by_module);
        match taken {
            Some(mut v) => {
                match key_position(&v, m) {
                    Some(i) => {
                        proof {
                            lemma_keyed_remove(v@, i as int);
                        }
                        v.remove(i);
                    },
                    None => {},
                }
                self.source_types_by_module = Some(v);
            },
            None => {},
        }
        assert forall|x: Seq<char>| x != m@ implies #[trigger] self.source_types_override(x)
            == before.source_types_override(x) by {}
    }

    pub fn set_source_types(&mut self, m: ModuleIdentifier, types: Vec<SourceType>)
        requires
            old(self).wf(),
        ensures
            final(self).wf(),
            final(self).modules == old(self).modules,
            final(self).entry_modules == old(self).entry_modules,
            final(self).runtime_modules == old(self).runtime_modules,
            final(self).source_types_override(m@) == Some(types@.to_set()),
            forall|x: Seq<char>|
                x != m@ ==> #[trigger] final(self).source_types_override(x) == old(
                    self,
                ).source_types_override(x),
    {
        let ghost before = *self;
        let ghost mv = m@;
        let ghost tv = types@;
        let mut taken: Option<Vec<(ModuleIdentifier, Vec<SourceType>)>> = None;
        std::mem::swap(&mut taken, &mut self.source_types_by_module);
        let mut v = match taken {
            Some(v) => v,
            None => Vec::new(),
        };
        assert(keys_unique(v@)) by {
            if before.source_types_by_module is None {
                assert(keys_of(v@) =~= Seq::<Seq<char>>::empty());
            }
        }
        assert(forall|x: Seq<char>| #[trigger]
            before.source_types_override(x) == match keyed_get(v@, x) {
                Some(t) => Some(t@.to_set()),
                None => None::<Set<SourceType>>,
            });
        match key_position(&v, &m) {
            Some(i) => {
                proof {
                    lemma_keyed_update(v@, i as int, v@[i as int].0, types);
                }
                swap_value(&mut v, i, types);
            },
            None => {
                proof {
                    lemma_keyed_push(v@, m, types);
                }
                v.push((m, types));
            },
        }
        self.source_types_by_module = Some(v);
        assert(self.source_types_override(mv) == Some(tv.to_set()));
        assert forall|x: Seq<char>| x != mv implies #[trigger] self.source_types_override(x)
            == before.source_types_override(x) by {}
    }

    /// Makes `m` an entry of this chunk, introduced by `group`: a new entry
    /// goes last, an existing one keeps its place and takes the new group.
    pub fn insert_entry(&mut self, m: ModuleIdentifier, group: ChunkGroupUkey)
        requires
            old(self).wf(),
        ensures
            final(self).wf(),
            final(self).entry_view() == upsert_entry(old(self).entry_view(), m@, group),
            final(self).entry_set() == old(self).entry_set().insert(m@),
            final(self).modules == old(self).modules,
            final(self).runtime_modules == old(self).runtime_modules,
            final(self).source_types_by_module == old(self).source_types_by_module,
    {
        let ghost old_entries = self.entry_modules@;
        match key_position(&self.entry_modules, &m) {
            Some(i) => {
                proof {
                    lemma_key_index(old_entries, i as int);
                    lemma_entry_pos(old_entries, i as int);
                    lemma_keyed_update(old_entries, i as int, old_entries[i as int].0, group);
                }
                swap_value(&mut self.entry_modules, i, group);
                proof {
                    assert(self.entry_view() =~= entry_pairs(old_entries).update(
                        i as int,
                        (m@, group),
                    ));
                    assert(keys_of(self.entry_modules@).to_set() =~= keys_of(
                        old_entries,
                    ).to_set().insert(m@)) by {
                        assert(keys_of(old_entries)[i as int] == m@);
                    }
                }
            },
            None => {
                proof {
                    lemma_no_entry(old_entries, m@);
                    lemma_keyed_push(old_entries, m, group);
                    keys_of(old_entries).lemma_push_to_set_commute(m@);
                }
                self.entry_modules.push((m, group));
                assert(self.entry_view() =~= entry_pairs(old_entries).push((m@, group)));
            },
        }
    }

    pub fn remove_entry(&mut self, m: &ModuleIdentifier)
        requires
            old(self).wf(),
        ensures
            final(self).wf(),
            final(self).entry_view() == drop_entry(old(self).entry_view(), m@),
            final(self).entry_set() == old(self).entry_set().remove(m@),
            final(self).modules == old(self).modules,
            final(self).runtime_modules == old(self).runtime_modules,
            final(self).source_types_by_module == old(self).source_types_by_module,
    {
        let ghost old_entries = self.entry_modules@;
        match key_position(&self.entry_modules, m) {
            Some(i) => {
                proof {
                    lemma_key_index(old_entries, i as int);
                    lemma_entry_pos(old_entries, i as int);
                    lemma_keyed_remove(old_entries, i as int);
                    lemma_remove_index_to_set(keys_of(old_entries), i as int);
                }
                self.entry_modules.remove(i);
                assert(self.entry_view() =~= entry_pairs(old_entries).remove(i as int));
            },
            None => {
                proof {
                    lemma_no_entry(old_entries, m@);
                }
                assert(self.entry_set().remove(m@) =~= self.entry_set());
            },
        }
    }

    /// Puts `new` in the place of the entry `old_m`, with its chunk group.
    pub fn rename_entry(&mut self, old_m: &ModuleIdentifier, new: ModuleIdentifier)
        requires
            old(self).wf(),
            !has_key(old(self).entry_modules@, new@),
        ensures
            final(self).wf(),
            final(self).entry_view() == rename_entry_in(old(self).entry_view(), old_m@, new@),
            final(self).entry_set() == if old(self).entry_set().contains(old_m@) {
                old(self).entry_set().remove(old_m@).insert(new@)
            } else {
                old(self).entry_set()
            },
            final(self).modules == old(self).modules,
            final(self).runtime_modules == old(self).runtime_modules,
            final(self).source_types_by_module == old(self).source_types_by_module,
    {
        let ghost old_entries = self.entry_modules@;
        match key_position(&self.entry_modules, old_m) {
            Some(i) => {
                proof {
                    lemma_key_index(old_entries, i as int);
                    lemma_entry_pos(old_entries, i as int);
                }
                let g = self.entry_modules[i].1;
                let mut slot = (new, g);
                self.entry_modules.set_and_swap(i, &mut slot);
                proof {
                    let t = self.entry_modules@;
                    assert(t == old_entries.update(i as int, (new, g)));
                    assert(keys_of(t) =~= keys_of(old_entries).update(i as int, new@));
                    assert forall|a: int, b: int| 0 <= a < b < keys_of(t).len() implies keys_of(
                        t,
                    )[a] != keys_of(t)[b] by {
                        if a == i as int {
                            assert(old_entries[b].0@ == keys_of(t)[b]);
                        } else if b == i as int {
                            assert(old_entries[a].0@ == keys_of(t)[a]);
                        } else {
                            assert(keys_of(old_entries)[a] != keys_of(old_entries)[b]);
                        }
                    }
                    assert(self.entry_view() =~= entry_pairs(old_entries).update(
                        i as int,
                        (new@, g),
                    ));
                    lemma_no_entry(old_entries, new@);
                    assert(keys_of(old_entries)[i as int] == old_m@);
                    assert forall|e: Seq<char>| #[trigger] self.entry_set().contains(e)
                        <==> keys_of(old_entries).to_set().remove(old_m@).insert(new@).contains(e) by {
                        if self.entry_set().contains(e) {
                            let j = choose|j: int| 0 <= j < keys_of(t).len() && keys_of(t)[j] == e;
                            if j != i as int {
                                assert(keys_of(old_entries)[j] == e);
                                assert(keys_of(old_entries)[j] != keys_of(old_entries)[i as int]);
                            }
                        }
                        if keys_of(old_entries).to_set().contains(e) && e != old_m@ {
                            let j = choose|j: int| 0 <= j < keys_of(old_entries).len() && keys_of(old_entries)[j] == e;
                            assert(keys_of(t)[j] == e);
                        }
                        if e == new@ {
                            assert(keys_of(t)[i as int] == e);
                        }
                    }
                    assert(self.entry_set() =~= keys_of(old_entries).to_set().remove(old_m@).insert(new@));
                }
            },
            None => {
                proof {
                    lemma_no_entry(old_entries, old_m@);
                }
            },
        }
    }

    /// Appends `m` to the runtime modules, unless it is there already.
    pub fn push_runtime_module(&mut self, m: ModuleIdentifier)
        requires
            old(self).wf(),
        ensures
            final(self).wf(),
            final(self).runtime_view() == push_absent(old(self).runtime_view(), m@),
            final(self).modules == old(self).modules,
            final(self).entry_modules == old(self).entry_modules,
            final(self).source_types_by_module == old(self).source_types_by_module,
    {
        if !crate::ident::contains_identifier(&self.runtime_modules, &m) {
            proof {
                lemma_push_no_duplicates(ids(self.runtime_modules@), m@);
                assert(ids(self.runtime_modules@.push(m)) =~= ids(self.runtime_modules@).push(m@));
            }
            self.runtime_modules.push(m);
        }
    }

    /// Takes `m` out of the runtime modules, keeping the order of the rest.
    pub fn remove_runtime_module(&mut self, m: &ModuleIdentifier)
        requires
            old(self).wf(),
        ensures
            final(self).wf(),
            final(self).runtime_view() == drop_value(old(self).runtime_view(), m@),
            !final(self).runtime_view().contains(m@),
            final(self).runtime_view().to_set() == old(self).runtime_view().to_set().remove(m@),
            final(self).modules == old(self).modules,
            final(self).entry_modules == old(self).entry_modules,
            final(self).source_types_by_module == old(self).source_types_by_module,
    {
        let ghost rv = self.runtime_view();
        match position_of(&self.runtime_modules, m) {
            Some(i) => {
                proof {
                    lemma_remove_index_to_set(rv, i as int);
                    assert(rv[i as int] == m@);
                    assert(rv.contains(m@));
                    assert(rv.index_of(m@) == i as int);
                }
                self.runtime_modules.remove(i);
                assert(self.runtime_view() =~= rv.remove(i as int));
                assert(!self.runtime_view().contains(m@)) by {
                    assert(!rv.to_set().remove(m@).contains(m@));
                }
            },
            None => {
                assert(rv.to_set().remove(m@) =~= rv.to_set());
            },
        }
    }
}

/// Where one module is placed.
pub struct ChunkGraphModule {
    pub chunks: Vec<ChunkUkey>,
    pub entry_in_chunks: Vec<ChunkUkey>,
    pub runtime_in_chunks: Vec<ChunkUkey>,
}

impl ChunkGraphModule {
    pub open spec fn wf(&self) -> bool {
        &&& self.chunks@.no_duplicates()
        &&& self.entry_in_chunks@.no_duplicates()
        &&& self.runtime_in_chunks@.no_duplicates()
    }

    pub fn new() -> (r: Self)
        ensures
            r.wf(),
            r.chunks@ == Seq::<u32>::empty(),
            r.entry_in_chunks@ == Seq::<u32>::empty(),
            r.runtime_in_chunks@ == Seq::<u32>::empty(),
    {
        ChunkGraphModule {
            chunks: Vec::new(),
            entry_in_chunks: Vec::new(),
            runtime_in_chunks: Vec::new(),
        }
    }
}

/// A copy of a list of entries.
pub fn copy_entries(v: &Vec<(ModuleIdentifier, ChunkGroupUkey)>) -> (r: Vec<(ModuleIdentifier, ChunkGroupUkey)>)
    ensures
        entry_pairs(r@) == entry_pairs(v@),
        keys_of(r@) == keys_of(v@),
{
    let mut r: Vec<(ModuleIdentifier, ChunkGroupUkey)> = Vec::new();
    let mut i: usize = 0;
    while i < v.len()
        invariant
            0 <= i <= v@.len(),
            r@.len() == i,
            forall|k: int| 0 <= k < i ==> (#[trigger] r@[k]).0@ == v@[k].0@ && r@[k].1 == v@[k].1,
        decreases v@.len() - i,
    {
        r.push((v[i].0.clone(), v[i].1));
        i = i + 1;
    }
    assert(entry_pairs(r@) =~= entry_pairs(v@));
    assert(keys_of(r@) =~= keys_of(v@));
    r
}

} // verus!
