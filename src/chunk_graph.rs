//! The chunk graph: a two-sided registry of which modules each chunk holds
//! (as plain, entry or runtime modules) and which chunks hold each module.
use vstd::prelude::*;
use crate::chunk_graph_chunk::{
    drop_entry, drop_value, entry_pos, has_entry, push_absent, rename_entry_in, upsert_entry,
    ChunkGraphChunk, ChunkGraphModule,
};
use crate::ident::{ids, ModuleIdentifier};
use crate::keyed::{
    has_key, key_position, keyed_get, keys_unique, lemma_key_index, lemma_keyed_push,
    lemma_keyed_update, swap_value,
};
use crate::ukey_set::{ukey_insert, ukey_remove, ChunkGroupUkey, ChunkUkey};

verus! {

/// The three kinds of edge between a chunk and a module.
#[derive(Clone, Copy, PartialEq, Eq, Structural)]
pub enum EdgeKind {
    Module,
    Entry,
    Runtime,
}

pub struct ChunkGraph {
    /// The record of each chunk, at the index of its key.
    pub chunk_graph_chunk_by_chunk_ukey: Vec<Option<ChunkGraphChunk>>,
    /// The record of each module, under its identifier.
    pub chunk_graph_module_by_module_identifier: Vec<(ModuleIdentifier, ChunkGraphModule)>,
    /// Runtime names and the ids given to them.
    pub runtime_ids: Vec<(String, Option<String>)>,
}

impl ChunkGraph {
    pub open spec fn has_chunk(&self, c: ChunkUkey) -> bool {
        &&& (c as int) < self.chunk_graph_chunk_by_chunk_ukey@.len()
        &&& self.chunk_graph_chunk_by_chunk_ukey@[c as int] is Some
    }

    pub open spec fn cgc(&self, c: ChunkUkey) -> ChunkGraphChunk {
        self.chunk_graph_chunk_by_chunk_ukey@[c as int].unwrap()
    }

    pub open spec fn cgm(&self, m: Seq<char>) -> Option<ChunkGraphModule> {
        keyed_get(self.chunk_graph_module_by_module_identifier@, m)
    }

    pub open spec fn has_module(&self, m: Seq<char>) -> bool {
        self.cgm(m) is Some
    }

    /// The modules of chunk `c`.
    pub open spec fn modules_of(&self, c: ChunkUkey) -> Set<Seq<char>> {
        if self.has_chunk(c) {
            self.cgc(c).module_set()
        } else {
            Set::empty()
        }
    }

    /// The entry modules of chunk `c` with their chunk groups, in order.
    pub open spec fn entries_of(&self, c: ChunkUkey) -> Seq<(Seq<char>, ChunkGroupUkey)> {
        if self.has_chunk(c) {
            self.cgc(c).entry_view()
        } else {
            Seq::empty()
        }
    }

    pub open spec fn entry_set_of(&self, c: ChunkUkey) -> Set<Seq<char>> {
        if self.has_chunk(c) {
            self.cgc(c).entry_set()
        } else {
            Set::empty()
        }
    }

    /// The runtime modules of chunk `c`, in the order they were attached.
    pub open spec fn runtime_of(&self, c: ChunkUkey) -> Seq<Seq<char>> {
        if self.has_chunk(c) {
            self.cgc(c).runtime_view()
        } else {
            Seq::empty()
        }
    }

    /// The chunks that hold `m` by an edge of the given kind.
    pub open spec fn edge_chunks(&self, m: Seq<char>, kind: EdgeKind) -> Set<ChunkUkey> {
        match self.cgm(m) {
            Some(r) => match kind {
                EdgeKind::Module => r.chunks@.to_set(),
                EdgeKind::Entry => r.entry_in_chunks@.to_set(),
                EdgeKind::Runtime => r.runtime_in_chunks@.to_set(),
            },
            None => Set::empty(),
        }
    }

    pub open spec fn chunks_of(&self, m: Seq<char>) -> Set<ChunkUkey> {
        self.edge_chunks(m, EdgeKind::Module)
    }

    pub open spec fn entry_chunks_of(&self, m: Seq<char>) -> Set<ChunkUkey> {
        self.edge_chunks(m, EdgeKind::Entry)
    }

    pub open spec fn runtime_chunks_of(&self, m: Seq<char>) -> Set<ChunkUkey> {
        self.edge_chunks(m, EdgeKind::Runtime)
    }

    /// Each record is well formed and no module has two records.
    pub open spec fn wf_records(&self) -> bool {
        &&& forall|c: ChunkUkey| #[trigger] self.has_chunk(c) ==> self.cgc(c).wf()
        &&& keys_unique(self.chunk_graph_module_by_module_identifier@)
        &&& forall|i: int|
            0 <= i < self.chunk_graph_module_by_module_identifier@.len()
                ==> (#[trigger] self.chunk_graph_module_by_module_identifier@[i]).1.wf()
    }

    /// The modules that chunk `c` holds by an edge of the given kind.
    pub open spec fn kind_set_of(&self, c: ChunkUkey, kind: EdgeKind) -> Set<Seq<char>> {
        match kind {
            EdgeKind::Module => self.modules_of(c),
            EdgeKind::Entry => self.entry_set_of(c),
            EdgeKind::Runtime => self.runtime_of(c).to_set(),
        }
    }

    /// The source types that chunk `c` gives module `m` in place of its own.
    pub open spec fn override_of(&self, c: ChunkUkey, m: Seq<char>) -> Option<
        Set<crate::source_type::SourceType>,
    > {
        if self.has_chunk(c) {
            self.cgc(c).source_types_override(m)
        } else {
            None
        }
    }

    /// Every edge is recorded on both of its sides.
    pub open spec fn symmetric(&self) -> bool {
        forall|c: ChunkUkey, m: Seq<char>, k: EdgeKind|
            #[trigger] self.kind_set_of(c, k).contains(m) <==> #[trigger] self.edge_chunks(
                m,
                k,
            ).contains(c)
    }

    pub open spec fn wf(&self) -> bool {
        &&& self.wf_records()
        &&& self.symmetric()
        &&& keys_unique(self.runtime_ids@)
    }

    /// Every chunk but `c` has the same record in both graphs.
    pub open spec fn chunks_agree_except(&self, o: &Self, c: ChunkUkey) -> bool {
        forall|d: ChunkUkey|
            d != c ==> (#[trigger] self.has_chunk(d) == o.has_chunk(d) && (self.has_chunk(d)
                ==> self.cgc(d) == o.cgc(d)))
    }

    /// Every module but `m` has the same record in both graphs.
    pub open spec fn modules_agree_except(&self, o: &Self, m: Seq<char>) -> bool {
        forall|x: Seq<char>| x != m ==> #[trigger] self.cgm(x) == o.cgm(x)
    }

    pub open spec fn same_chunks(&self, o: &Self) -> bool {
        forall|c: ChunkUkey| #[trigger] self.has_chunk(c) == o.has_chunk(c)
    }

    pub open spec fn same_module_edges(&self, o: &Self) -> bool {
        &&& forall|c: ChunkUkey| #[trigger] self.modules_of(c) == o.modules_of(c)
        &&& forall|m: Seq<char>| #[trigger] self.chunks_of(m) == o.chunks_of(m)
    }

    pub open spec fn same_entry_edges(&self, o: &Self) -> bool {
        &&& forall|c: ChunkUkey| #[trigger] self.entries_of(c) == o.entries_of(c)
        &&& forall|c: ChunkUkey| #[trigger] self.entry_set_of(c) == o.entry_set_of(c)
        &&& forall|m: Seq<char>| #[trigger] self.entry_chunks_of(m) == o.entry_chunks_of(m)
    }

    pub open spec fn same_runtime_edges(&self, o: &Self) -> bool {
        &&& forall|c: ChunkUkey| #[trigger] self.runtime_of(c) == o.runtime_of(c)
        &&& forall|m: Seq<char>| #[trigger] self.runtime_chunks_of(m) == o.runtime_chunks_of(m)
    }

    pub fn new() -> (r: Self)
        ensures
            r.wf(),
            forall|c: ChunkUkey| !#[trigger] r.has_chunk(c),
            forall|m: Seq<char>| !#[trigger] r.has_module(m),
    {
        let r = ChunkGraph {
            chunk_graph_chunk_by_chunk_ukey: Vec::new(),
            chunk_graph_module_by_module_identifier: Vec::new(),
            runtime_ids: Vec::new(),
        };
        assert(keys_unique(r.chunk_graph_module_by_module_identifier@)) by {
            assert(crate::keyed::keys_of(r.chunk_graph_module_by_module_identifier@)
                =~= Seq::<Seq<char>>::empty());
        }
        assert(keys_unique(r.runtime_ids@)) by {
            assert(crate::keyed::keys_of(r.runtime_ids@) =~= Seq::<Seq<char>>::empty());
        }
        r
    }

    /// Gives chunk `c` an empty record, unless it has one.
    pub fn add_chunk(&mut self, chunk_ukey: ChunkUkey)
        requires
            old(self).wf_records(),
        ensures
            final(self).wf_records(),
            final(self).has_chunk(chunk_ukey),
            old(self).has_chunk(chunk_ukey) ==> final(self).cgc(chunk_ukey) == old(self).cgc(
                chunk_ukey,
            ),
            !old(self).has_chunk(chunk_ukey) ==> final(self).cgc(chunk_ukey).module_set().is_empty()
                && final(self).cgc(chunk_ukey).entry_view().len() == 0 && final(self).cgc(
                chunk_ukey,
            ).runtime_view().len() == 0 && final(self).cgc(chunk_ukey).source_types_by_module is None,
            forall|d: ChunkUkey|
                d != chunk_ukey ==> #[trigger] final(self).has_chunk(d) == old(self).has_chunk(d),
            forall|d: ChunkUkey| #[trigger]
                old(self).has_chunk(d) ==> final(self).cgc(d) == old(self).cgc(d),
            final(self).chunk_graph_module_by_module_identifier == old(
                self,
            ).chunk_graph_module_by_module_identifier,
            final(self).runtime_ids == old(self).runtime_ids,
            final(self).same_module_edges(old(self)),
            final(self).same_entry_edges(old(self)),
            final(self).same_runtime_edges(old(self)),
    {
        let ghost before = *self;
        let c = chunk_ukey as usize;
        while self.chunk_graph_chunk_by_chunk_ukey.len() <= c
            invariant
                self.chunk_graph_chunk_by_chunk_ukey@.len() >= before.chunk_graph_chunk_by_chunk_ukey@.len(),
                forall|i: int|
                    0 <= i < self.chunk_graph_chunk_by_chunk_ukey@.len() ==> #[trigger] self.chunk_graph_chunk_by_chunk_ukey@[i]
                        == if i < before.chunk_graph_chunk_by_chunk_ukey@.len() {
                        before.chunk_graph_chunk_by_chunk_ukey@[i]
                    } else {
                        None
                    },
                self.chunk_graph_module_by_module_identifier == before.chunk_graph_module_by_module_identifier,
                self.runtime_ids == before.runtime_ids,
            decreases c + 1 - self.chunk_graph_chunk_by_chunk_ukey@.len(),
        {
            self.chunk_graph_chunk_by_chunk_ukey.push(None);
        }
        if self.chunk_graph_chunk_by_chunk_ukey[c].is_none() {
            self.chunk_graph_chunk_by_chunk_ukey.set(c, Some(ChunkGraphChunk::new()));
        }
        assert forall|d: ChunkUkey| #[trigger] self.has_chunk(d) == before.has_chunk(d) || d
            == chunk_ukey by {}
        assert(self.same_module_edges(&before)) by {
            assert forall|d: ChunkUkey| #[trigger] self.modules_of(d) == before.modules_of(d) by {
                if d == chunk_ukey && !before.has_chunk(d) {
                    assert(self.modules_of(d) =~= Set::<Seq<char>>::empty());
                }
            }
        }
        assert(self.same_entry_edges(&before)) by {
            assert forall|d: ChunkUkey| #[trigger] self.entries_of(d) == before.entries_of(d) by {
                if d == chunk_ukey && !before.has_chunk(d) {
                    assert(self.entries_of(d) =~= Seq::<(Seq<char>, u32)>::empty());
                }
            }
            assert forall|d: ChunkUkey| #[trigger] self.entry_set_of(d) == before.entry_set_of(
                d,
            ) by {
                if d == chunk_ukey && !before.has_chunk(d) {
                    assert(self.cgc(d).entry_view().len() == 0);
                    assert(self.cgc(d).entry_modules@.len() == 0);
                    assert(crate::keyed::keys_of(self.cgc(d).entry_modules@) =~= Seq::<
                        Seq<char>,
                    >::empty());
                    assert(self.entry_set_of(d) =~= Set::<Seq<char>>::empty());
                }
            }
        }
        assert(self.same_runtime_edges(&before)) by {
            assert forall|d: ChunkUkey| #[trigger] self.runtime_of(d) == before.runtime_of(d) by {
                if d == chunk_ukey && !before.has_chunk(d) {
                    assert(self.runtime_of(d) =~= Seq::<Seq<char>>::empty());
                }
            }
        }
    }

    /// Takes the record of chunk `c` out, leaving none in its place.
    fn take_chunk_record(&mut self, c: ChunkUkey) -> (r: ChunkGraphChunk)
        requires
            old(self).has_chunk(c),
        ensures
            r == old(self).cgc(c),
            final(self).chunk_graph_chunk_by_chunk_ukey@ == old(
                self,
            ).chunk_graph_chunk_by_chunk_ukey@.update(c as int, None),
            final(self).chunk_graph_module_by_module_identifier == old(
                self,
            ).chunk_graph_module_by_module_identifier,
            final(self).runtime_ids == old(self).runtime_ids,
    {
        let mut slot: Option<ChunkGraphChunk> = None;
        self.chunk_graph_chunk_by_chunk_ukey.set_and_swap(c as usize, &mut slot);
        slot.unwrap()
    }

    fn put_chunk_record(&mut self, c: ChunkUkey, r: ChunkGraphChunk)
        requires
            (c as int) < old(self).chunk_graph_chunk_by_chunk_ukey@.len(),
        ensures
            final(self).chunk_graph_chunk_by_chunk_ukey@ == old(
                self,
            ).chunk_graph_chunk_by_chunk_ukey@.update(c as int, Some(r)),
            final(self).chunk_graph_module_by_module_identifier == old(
                self,
            ).chunk_graph_module_by_module_identifier,
            final(self).runtime_ids == old(self).runtime_ids,
    {
        self.chunk_graph_chunk_by_chunk_ukey.set(c as usize, Some(r));
    }

    /// The index of the record of `m`, which is made empty if `m` had none.
    fn ensure_module_record(&mut self, m: &ModuleIdentifier) -> (i: usize)
        requires
            old(self).wf_records(),
        ensures
            final(self).wf_records(),
            i < final(self).chunk_graph_module_by_module_identifier@.len(),
            final(self).chunk_graph_module_by_module_identifier@[i as int].0@ == m@,
            final(self).cgm(m@) == Some(
                final(self).chunk_graph_module_by_module_identifier@[i as int].1,
            ),
            final(self).chunk_graph_chunk_by_chunk_ukey == old(self).chunk_graph_chunk_by_chunk_ukey,
            final(self).runtime_ids == old(self).runtime_ids,
            forall|x: Seq<char>| x != m@ ==> #[trigger] final(self).cgm(x) == old(self).cgm(x),
            forall|k: EdgeKind|
                #[trigger] final(self).edge_chunks(m@, k) == old(self).edge_chunks(m@, k),
    {
        match key_position(&self.chunk_graph_module_by_module_identifier, m) {
            Some(i) => {
                proof {
                    lemma_key_index(self.chunk_graph_module_by_module_identifier@, i as int);
                }
                i
            },
            None => {
                let ghost before = *self;
                let rec = ChunkGraphModule::new();
                let key = m.clone();
                proof {
                    lemma_keyed_push(self.chunk_graph_module_by_module_identifier@, key, rec);
                }
                let i = self.chunk_graph_module_by_module_identifier.len();
                self.chunk_graph_module_by_module_identifier.push((key, rec));
                assert forall|j: int|
                    0 <= j < self.chunk_graph_module_by_module_identifier@.len() implies (
                #[trigger] self.chunk_graph_module_by_module_identifier@[j]).1.wf() by {
                    if j < i {
                        assert(self.chunk_graph_module_by_module_identifier@[j]
                            == before.chunk_graph_module_by_module_identifier@[j]);
                    }
                }
                assert(forall|c: ChunkUkey| #[trigger] self.has_chunk(c) == before.has_chunk(c));
                assert forall|k: EdgeKind| #[trigger] self.edge_chunks(m@, k) == before.edge_chunks(
                    m@,
                    k,
                ) by {
                    assert(Seq::<u32>::empty().to_set() =~= Set::<u32>::empty());
                }
                i
            },
        }
    }

    /// Adds or takes out chunk `c` in the set of the given kind of the
    /// module record at `i`.
    fn edit_module_record(&mut self, i: usize, kind: EdgeKind, c: ChunkUkey, add: bool)
        requires
            old(self).wf_records(),
            i < old(self).chunk_graph_module_by_module_identifier@.len(),
        ensures
            final(self).wf_records(),
            final(self).chunk_graph_chunk_by_chunk_ukey == old(self).chunk_graph_chunk_by_chunk_ukey,
            final(self).runtime_ids == old(self).runtime_ids,
            final(self).chunk_graph_module_by_module_identifier@.len() == old(
                self,
            ).chunk_graph_module_by_module_identifier@.len(),
            final(self).chunk_graph_module_by_module_identifier@[i as int].0 == old(
                self,
            ).chunk_graph_module_by_module_identifier@[i as int].0,
            final(self).cgm(old(self).chunk_graph_module_by_module_identifier@[i as int].0@) is Some,
            old(self).cgm(old(self).chunk_graph_module_by_module_identifier@[i as int].0@) is Some,
            forall|x: Seq<char>|
                x != old(self).chunk_graph_module_by_module_identifier@[i as int].0@
                    ==> #[trigger] final(self).cgm(x) == old(self).cgm(x),
            forall|k: EdgeKind|
                #[trigger] final(self).edge_chunks(
                    old(self).chunk_graph_module_by_module_identifier@[i as int].0@,
                    k,
                ) == if k == kind {
                    if add {
                        old(self).edge_chunks(
                            old(self).chunk_graph_module_by_module_identifier@[i as int].0@,
                            k,
                        ).insert(c)
                    } else {
                        old(self).edge_chunks(
                            old(self).chunk_graph_module_by_module_identifier@[i as int].0@,
                            k,
                        ).remove(c)
                    }
                } else {
                    old(self).edge_chunks(
                        old(self).chunk_graph_module_by_module_identifier@[i as int].0@,
                        k,
                    )
                },
    {
        let ghost before = *self;
        let ghost key = self.chunk_graph_module_by_module_identifier@[i as int].0;
        proof {
            lemma_key_index(self.chunk_graph_module_by_module_identifier@, i as int);
        }
        let mut rec = swap_value(
            &mut self.chunk_graph_module_by_module_identifier,
            i,
            ChunkGraphModule::new(),
        );
        match kind {
            EdgeKind::Module => {
                if add {
                    ukey_insert(&mut rec.chunks, c);
                } else {
                    ukey_remove(&mut rec.chunks, c);
                }
            },
            EdgeKind::Entry => {
                if add {
                    ukey_insert(&mut rec.entry_in_chunks, c);
                } else {
                    ukey_remove(&mut rec.entry_in_chunks, c);
                }
            },
            EdgeKind::Runtime => {
                if add {
                    ukey_insert(&mut rec.runtime_in_chunks, c);
                } else {
                    ukey_remove(&mut rec.runtime_in_chunks, c);
                }
            },
        }
        let ghost placeholder = self.chunk_graph_module_by_module_identifier@;
        swap_value(&mut self.chunk_graph_module_by_module_identifier, i, rec);
        proof {
            assert(self.chunk_graph_module_by_module_identifier@
                =~= before.chunk_graph_module_by_module_identifier@.update(i as int, (key, rec)));
            lemma_keyed_update(before.chunk_graph_module_by_module_identifier@, i as int, key, rec);
            assert(keys_unique(self.chunk_graph_module_by_module_identifier@));
            assert(forall|c: ChunkUkey| #[trigger] self.has_chunk(c) == before.has_chunk(c));
            assert(rec.wf());
            assert forall|j: int|
                0 <= j < self.chunk_graph_module_by_module_identifier@.len() implies (
            #[trigger] self.chunk_graph_module_by_module_identifier@[j]).1.wf() by {
                if j != i as int {
                    assert(self.chunk_graph_module_by_module_identifier@[j]
                        == before.chunk_graph_module_by_module_identifier@[j]);
                }
            }
        }
    }


    /// Adds (`add`) or takes out the edge of the given kind between chunk `c`
    /// and module `m`, on both of its sides. A new entry edge records `group`
    /// as the chunk group that introduced it; taking out a plain or an entry
    /// edge drops the source types that `c` gave `m`.
    fn set_edge(
        &mut self,
        c: ChunkUkey,
        m: &ModuleIdentifier,
        kind: EdgeKind,
        add: bool,
        group: ChunkGroupUkey,
    )
        requires
            old(self).wf(),
        ensures
            final(self).wf(),
            final(self).chunks_agree_except(old(self), c),
            final(self).has_chunk(c) == (old(self).has_chunk(c) || add),
            final(self).modules_agree_except(old(self), m@),
            final(self).has_module(m@) == (old(self).has_module(m@) || add),
            forall|k: EdgeKind|
                #[trigger] final(self).edge_chunks(m@, k) == if k == kind {
                    if add {
                        old(self).edge_chunks(m@, k).insert(c)
                    } else {
                        old(self).edge_chunks(m@, k).remove(c)
                    }
                } else {
                    old(self).edge_chunks(m@, k)
                },
            forall|k: EdgeKind|
                #[trigger] final(self).kind_set_of(c, k) == if k == kind {
                    if add {
                        old(self).kind_set_of(c, k).insert(m@)
                    } else {
                        old(self).kind_set_of(c, k).remove(m@)
                    }
                } else {
                    old(self).kind_set_of(c, k)
                },
            final(self).entries_of(c) == if kind == EdgeKind::Entry {
                if add {
                    upsert_entry(old(self).entries_of(c), m@, group)
                } else {
                    drop_entry(old(self).entries_of(c), m@)
                }
            } else {
                old(self).entries_of(c)
            },
            final(self).runtime_of(c) == if kind == EdgeKind::Runtime {
                if add {
                    push_absent(old(self).runtime_of(c), m@)
                } else {
                    drop_value(old(self).runtime_of(c), m@)
                }
            } else {
                old(self).runtime_of(c)
            },
            !add && kind != EdgeKind::Runtime ==> final(self).override_of(c, m@) is None,
            forall|x: Seq<char>|
                (add || kind == EdgeKind::Runtime || x != m@) ==> #[trigger] final(self).override_of(
                    c,
                    x,
                ) == old(self).override_of(c, x),
            final(self).runtime_ids == old(self).runtime_ids,
    {
        let ghost before = *self;
        let ghost mv = m@;
        if add {
            let i = self.ensure_module_record(m);
            self.edit_module_record(i, kind, c, true);
        } else {
            match key_position(&self.chunk_graph_module_by_module_identifier, m) {
                Some(i) => {
                    self.edit_module_record(i, kind, c, false);
                },
                None => {
                    assert forall|k: EdgeKind| #[trigger] self.edge_chunks(mv, k) == before.edge_chunks(
                        mv,
                        k,
                    ).remove(c) by {
                        assert(Set::<ChunkUkey>::empty().remove(c) =~= Set::<ChunkUkey>::empty());
                    }
                },
            }
        }
        let ghost mid = *self;
        let present = (c as usize) < self.chunk_graph_chunk_by_chunk_ukey.len()
            && self.chunk_graph_chunk_by_chunk_ukey[c as usize].is_some();
        if add || present {
            self.add_chunk(c);
            let ghost mid2 = *self;
            let mut cgc = self.take_chunk_record(c);
            match kind {
                EdgeKind::Module => {
                    if add {
                        cgc.insert_module(m.clone());
                    } else {
                        cgc.remove_module(m);
                    }
                },
                EdgeKind::Entry => {
                    if add {
                        cgc.insert_entry(m.clone(), group);
                    } else {
                        cgc.remove_entry(m);
                        cgc.purge_source_types(m);
                    }
                },
                EdgeKind::Runtime => {
                    if add {
                        cgc.push_runtime_module(m.clone());
                    } else {
                        cgc.remove_runtime_module(m);
                    }
                },
            }
            self.put_chunk_record(c, cgc);
            proof {
                assert forall|d: ChunkUkey| d != c implies #[trigger] self.has_chunk(d)
                    == before.has_chunk(d) && (self.has_chunk(d) ==> self.cgc(d) == before.cgc(
                    d,
                )) by {
                    if (d as int) < mid2.chunk_graph_chunk_by_chunk_ukey@.len() {
                        assert(self.chunk_graph_chunk_by_chunk_ukey@[d as int]
                            == mid2.chunk_graph_chunk_by_chunk_ukey@[d as int]);
                    }
                    assert(mid2.has_chunk(d) == mid.has_chunk(d));
                }
                assert(self.cgc(c) == cgc);
                assert(mid2.kind_set_of(c, EdgeKind::Module) == before.kind_set_of(c, EdgeKind::Module));
                assert(mid2.kind_set_of(c, EdgeKind::Entry) == before.kind_set_of(c, EdgeKind::Entry));
                assert(mid2.kind_set_of(c, EdgeKind::Runtime) == before.kind_set_of(c, EdgeKind::Runtime));
                assert(mid2.entries_of(c) == before.entries_of(c));
                assert(mid2.runtime_of(c) == before.runtime_of(c));
                if before.has_chunk(c) {
                    assert(mid2.cgc(c) == before.cgc(c));
                } else {
                    assert(mid2.cgc(c).source_types_by_module is None);
                }
                assert forall|k: EdgeKind| #[trigger] self.kind_set_of(c, k) == if k == kind {
                    if add {
                        before.kind_set_of(c, k).insert(mv)
                    } else {
                        before.kind_set_of(c, k).remove(mv)
                    }
                } else {
                    before.kind_set_of(c, k)
                } by {
                    if k == EdgeKind::Runtime {
                        assert(mid2.kind_set_of(c, k) == mid2.cgc(c).runtime_view().to_set());
                        if kind == EdgeKind::Runtime && add {
                            let rv = mid2.cgc(c).runtime_view();
                            if !rv.contains(mv) {
                                rv.lemma_push_to_set_commute(mv);
                            } else {
                                assert(rv.to_set().insert(mv) =~= rv.to_set());
                            }
                        }
                    }
                }
            }
        } else {
            proof {
                assert(!before.has_chunk(c));
                assert forall|k: EdgeKind| #[trigger] self.kind_set_of(c, k) == before.kind_set_of(
                    c,
                    k,
                ).remove(mv) by {
                    assert(Seq::<Seq<char>>::empty().to_set() =~= Set::<Seq<char>>::empty());
                    assert(Set::<Seq<char>>::empty().remove(mv) =~= Set::<Seq<char>>::empty());
                }
                assert(drop_entry(Seq::empty(), mv) == Seq::<(Seq<char>, u32)>::empty());
                assert(drop_value(Seq::empty(), mv) == Seq::<Seq<char>>::empty());
            }
        }
        proof {
            assert(self.chunk_graph_module_by_module_identifier == mid.chunk_graph_module_by_module_identifier);
            assert forall|x: Seq<char>| x != mv implies #[trigger] self.cgm(x) == before.cgm(x) by {
                assert(mid.cgm(x) == before.cgm(x));
            }
            assert forall|k: EdgeKind| #[trigger] self.edge_chunks(mv, k) == if k == kind {
                if add {
                    before.edge_chunks(mv, k).insert(c)
                } else {
                    before.edge_chunks(mv, k).remove(c)
                }
            } else {
                before.edge_chunks(mv, k)
            } by {
                assert(self.edge_chunks(mv, k) == mid.edge_chunks(mv, k));
            }
            assert forall|d: ChunkUkey, x: Seq<char>, k: EdgeKind| #[trigger]
                self.kind_set_of(d, k).contains(x) <==> #[trigger] self.edge_chunks(x, k).contains(
                    d,
                ) by {
                if d != c {
                    assert(self.kind_set_of(d, k) == before.kind_set_of(d, k));
                }
                if x != mv {
                    assert(self.edge_chunks(x, k) == before.edge_chunks(x, k));
                }
                assert(before.kind_set_of(d, k).contains(x) == before.edge_chunks(x, k).contains(d));
            }
        }
    }

    /// Records that `chunk` holds `module_identifier`, on both sides.
    pub fn connect_chunk_and_module(&mut self, chunk: ChunkUkey, module_identifier: ModuleIdentifier)
        requires
            old(self).wf(),
        ensures
            final(self).wf(),
            forall|x: Seq<char>| #[trigger] final(self).override_of(chunk, x) == old(self).override_of(chunk, x),
            final(self).has_module(module_identifier@),
            final(self).modules_of(chunk) == old(self).modules_of(chunk).insert(module_identifier@),
            final(self).chunks_of(module_identifier@) == old(self).chunks_of(
                module_identifier@,
            ).insert(chunk),
            final(self).has_chunk(chunk),
            final(self).chunks_agree_except(old(self), chunk),
            final(self).modules_agree_except(old(self), module_identifier@),
            final(self).entries_of(chunk) == old(self).entries_of(chunk),
            final(self).entry_set_of(chunk) == old(self).entry_set_of(chunk),
            final(self).runtime_of(chunk) == old(self).runtime_of(chunk),
            final(self).entry_chunks_of(module_identifier@) == old(self).entry_chunks_of(
                module_identifier@,
            ),
            final(self).runtime_chunks_of(module_identifier@) == old(self).runtime_chunks_of(
                module_identifier@,
            ),
    {
        self.set_edge(chunk, &module_identifier, EdgeKind::Module, true, 0);
        assert(self.kind_set_of(chunk, EdgeKind::Module) == old(self).kind_set_of(chunk, EdgeKind::Module).insert(module_identifier@));
        assert(self.kind_set_of(chunk, EdgeKind::Entry) == old(self).kind_set_of(chunk, EdgeKind::Entry));
    }

    /// Removes the edge between `chunk` and `module_identifier` on both
    /// sides, and the source types that `chunk` gave the module.
    pub fn disconnect_chunk_and_module(&mut self, chunk: &ChunkUkey, module_identifier: ModuleIdentifier)
        requires
            old(self).wf(),
            old(self).has_chunk(*chunk),
            old(self).has_module(module_identifier@),
        ensures
            final(self).wf(),
            forall|x: Seq<char>| x != module_identifier@ ==> #[trigger] final(self).override_of(*chunk, x) == old(self).override_of(*chunk, x),
            final(self).has_module(module_identifier@) == old(self).has_module(module_identifier@),
            final(self).modules_of(*chunk) == old(self).modules_of(*chunk).remove(module_identifier@),
            final(self).chunks_of(module_identifier@) == old(self).chunks_of(
                module_identifier@,
            ).remove(*chunk),
            final(self).has_chunk(*chunk),
            final(self).chunks_agree_except(old(self), *chunk),
            final(self).modules_agree_except(old(self), module_identifier@),
            final(self).entries_of(*chunk) == old(self).entries_of(*chunk),
            final(self).entry_set_of(*chunk) == old(self).entry_set_of(*chunk),
            final(self).runtime_of(*chunk) == old(self).runtime_of(*chunk),
            final(self).entry_chunks_of(module_identifier@) == old(self).entry_chunks_of(
                module_identifier@,
            ),
            final(self).runtime_chunks_of(module_identifier@) == old(self).runtime_chunks_of(
                module_identifier@,
            ),
            final(self).override_of(*chunk, module_identifier@) is None,
    {
        self.set_edge(*chunk, &module_identifier, EdgeKind::Module, false, 0);
        assert(self.kind_set_of(*chunk, EdgeKind::Module) == old(self).kind_set_of(*chunk, EdgeKind::Module).remove(module_identifier@));
        assert(self.kind_set_of(*chunk, EdgeKind::Entry) == old(self).kind_set_of(*chunk, EdgeKind::Entry));
    }

    /// Makes `module_identifier` an entry of `chunk`, introduced by
    /// `entrypoint`, on both sides.
    pub fn connect_chunk_and_entry_module(
        &mut self,
        chunk: ChunkUkey,
        module_identifier: ModuleIdentifier,
        entrypoint: ChunkGroupUkey,
    )
        requires
            old(self).wf(),
        ensures
            final(self).wf(),
            forall|x: Seq<char>| #[trigger] final(self).override_of(chunk, x) == old(self).override_of(chunk, x),
            final(self).has_module(module_identifier@),
            final(self).entries_of(chunk) == upsert_entry(
                old(self).entries_of(chunk),
                module_identifier@,
                entrypoint,
            ),
            final(self).entry_set_of(chunk) == old(self).entry_set_of(chunk).insert(
                module_identifier@,
            ),
            final(self).entry_chunks_of(module_identifier@) == old(self).entry_chunks_of(
                module_identifier@,
            ).insert(chunk),
            final(self).has_chunk(chunk),
            final(self).chunks_agree_except(old(self), chunk),
            final(self).modules_agree_except(old(self), module_identifier@),
            final(self).modules_of(chunk) == old(self).modules_of(chunk),
            final(self).runtime_of(chunk) == old(self).runtime_of(chunk),
            final(self).chunks_of(module_identifier@) == old(self).chunks_of(module_identifier@),
            final(self).runtime_chunks_of(module_identifier@) == old(self).runtime_chunks_of(
                module_identifier@,
            ),
    {
        self.set_edge(chunk, &module_identifier, EdgeKind::Entry, true, entrypoint);
        assert(self.kind_set_of(chunk, EdgeKind::Entry) == old(self).kind_set_of(chunk, EdgeKind::Entry).insert(module_identifier@));
        assert(self.kind_set_of(chunk, EdgeKind::Module) == old(self).kind_set_of(chunk, EdgeKind::Module));
    }

    /// Removes the entry edge between `chunk` and `module_identifier` on
    /// both sides, and the source types that `chunk` gave the module.
    pub fn disconnect_chunk_and_entry_module(
        &mut self,
        chunk: &ChunkUkey,
        module_identifier: ModuleIdentifier,
    )
        requires
            old(self).wf(),
            old(self).has_chunk(*chunk),
            old(self).has_module(module_identifier@),
        ensures
            final(self).wf(),
            forall|x: Seq<char>| x != module_identifier@ ==> #[trigger] final(self).override_of(*chunk, x) == old(self).override_of(*chunk, x),
            final(self).has_module(module_identifier@) == old(self).has_module(module_identifier@),
            final(self).entries_of(*chunk) == drop_entry(
                old(self).entries_of(*chunk),
                module_identifier@,
            ),
            final(self).entry_set_of(*chunk) == old(self).entry_set_of(*chunk).remove(
                module_identifier@,
            ),
            final(self).entry_chunks_of(module_identifier@) == old(self).entry_chunks_of(
                module_identifier@,
            ).remove(*chunk),
            final(self).has_chunk(*chunk),
            final(self).chunks_agree_except(old(self), *chunk),
            final(self).modules_agree_except(old(self), module_identifier@),
            final(self).modules_of(*chunk) == old(self).modules_of(*chunk),
            final(self).runtime_of(*chunk) == old(self).runtime_of(*chunk),
            final(self).chunks_of(module_identifier@) == old(self).chunks_of(module_identifier@),
            final(self).runtime_chunks_of(module_identifier@) == old(self).runtime_chunks_of(
                module_identifier@,
            ),
            final(self).override_of(*chunk, module_identifier@) is None,
    {
        self.set_edge(*chunk, &module_identifier, EdgeKind::Entry, false, 0);
        assert(self.kind_set_of(*chunk, EdgeKind::Entry) == old(self).kind_set_of(*chunk, EdgeKind::Entry).remove(module_identifier@));
        assert(self.kind_set_of(*chunk, EdgeKind::Module) == old(self).kind_set_of(*chunk, EdgeKind::Module));
    }

    /// Attaches runtime module `module_identifier` to `chunk`, after the
    /// ones attached before, unless it is attached already; on both sides.
    pub fn connect_chunk_and_runtime_module(
        &mut self,
        chunk: ChunkUkey,
        module_identifier: ModuleIdentifier,
    )
        requires
            old(self).wf(),
        ensures
            final(self).wf(),
            forall|x: Seq<char>| #[trigger] final(self).override_of(chunk, x) == old(self).override_of(chunk, x),
            final(self).has_module(module_identifier@),
            final(self).runtime_of(chunk) == push_absent(
                old(self).runtime_of(chunk),
                module_identifier@,
            ),
            final(self).runtime_chunks_of(module_identifier@) == old(self).runtime_chunks_of(
                module_identifier@,
            ).insert(chunk),
            final(self).has_chunk(chunk),
            final(self).chunks_agree_except(old(self), chunk),
            final(self).modules_agree_except(old(self), module_identifier@),
            final(self).modules_of(chunk) == old(self).modules_of(chunk),
            final(self).entries_of(chunk) == old(self).entries_of(chunk),
            final(self).entry_set_of(chunk) == old(self).entry_set_of(chunk),
            final(self).chunks_of(module_identifier@) == old(self).chunks_of(module_identifier@),
            final(self).entry_chunks_of(module_identifier@) == old(self).entry_chunks_of(
                module_identifier@,
            ),
    {
        self.set_edge(chunk, &module_identifier, EdgeKind::Runtime, true, 0);
        assert(self.kind_set_of(chunk, EdgeKind::Entry) == old(self).kind_set_of(chunk, EdgeKind::Entry));
        assert(self.kind_set_of(chunk, EdgeKind::Module) == old(self).kind_set_of(chunk, EdgeKind::Module));
    }

    /// Detaches runtime module `module_identifier` from `chunk`, on both
    /// sides; the other runtime modules keep their order.
    pub fn disconnect_chunk_and_runtime_module(
        &mut self,
        chunk: &ChunkUkey,
        module_identifier: &ModuleIdentifier,
    )
        requires
            old(self).wf(),
        ensures
            final(self).wf(),
            forall|x: Seq<char>| #[trigger] final(self).override_of(*chunk, x) == old(self).override_of(*chunk, x),
            final(self).has_module(module_identifier@) == old(self).has_module(module_identifier@),
            final(self).runtime_of(*chunk) == drop_value(
                old(self).runtime_of(*chunk),
                module_identifier@,
            ),
            final(self).runtime_chunks_of(module_identifier@) == old(self).runtime_chunks_of(
                module_identifier@,
            ).remove(*chunk),
            final(self).has_chunk(*chunk) == old(self).has_chunk(*chunk),
            final(self).chunks_agree_except(old(self), *chunk),
            final(self).modules_agree_except(old(self), module_identifier@),
            final(self).modules_of(*chunk) == old(self).modules_of(*chunk),
            final(self).entries_of(*chunk) == old(self).entries_of(*chunk),
            final(self).entry_set_of(*chunk) == old(self).entry_set_of(*chunk),
            final(self).chunks_of(module_identifier@) == old(self).chunks_of(module_identifier@),
            final(self).entry_chunks_of(module_identifier@) == old(self).entry_chunks_of(
                module_identifier@,
            ),
    {
        self.set_edge(*chunk, module_identifier, EdgeKind::Runtime, false, 0);
        assert(self.kind_set_of(*chunk, EdgeKind::Entry) == old(self).kind_set_of(*chunk, EdgeKind::Entry));
        assert(self.kind_set_of(*chunk, EdgeKind::Module) == old(self).kind_set_of(*chunk, EdgeKind::Module));
    }

    /// The chunks that hold `m` by an edge of the given kind, as a list.
    fn edge_chunk_list(&self, m: &ModuleIdentifier, kind: EdgeKind) -> (r: Vec<ChunkUkey>)
        requires
            self.wf_records(),
        ensures
            r@.to_set() == self.edge_chunks(m@, kind),
            r@.no_duplicates(),
    {
        let mut r: Vec<ChunkUkey> = Vec::new();
        match key_position(&self.chunk_graph_module_by_module_identifier, m) {
            Some(i) => {
                proof {
                    lemma_key_index(self.chunk_graph_module_by_module_identifier@, i as int);
                }
                let rec = &self.chunk_graph_module_by_module_identifier[i].1;
                let src = match kind {
                    EdgeKind::Module => &rec.chunks,
                    EdgeKind::Entry => &rec.entry_in_chunks,
                    EdgeKind::Runtime => &rec.runtime_in_chunks,
                };
                let mut j: usize = 0;
                while j < src.len()
                    invariant
                        0 <= j <= src@.len(),
                        r@ == src@.subrange(0, j as int),
                    decreases src@.len() - j,
                {
                    r.push(src[j]);
                    j = j + 1;
                    assert(r@ =~= src@.subrange(0, j as int));
                }
                assert(r@ =~= src@);
            },
            None => {
                assert(r@.to_set() =~= Set::<ChunkUkey>::empty());
            },
        }
        r
    }

    /// Renames the entry `old_m` of chunk `c` to `new_m` in its place, with
    /// its chunk group, on both sides.
    fn rename_entry_edge(&mut self, c: ChunkUkey, old_m: &ModuleIdentifier, new_m: &ModuleIdentifier)
        requires
            old(self).wf(),
            old_m@ != new_m@,
            old(self).entry_set_of(c).contains(old_m@),
            !old(self).entry_set_of(c).contains(new_m@),
        ensures
            final(self).wf(),
            final(self).chunks_agree_except(old(self), c),
            final(self).has_chunk(c),
            forall|x: Seq<char>|
                x != old_m@ && x != new_m@ ==> #[trigger] final(self).cgm(x) == old(self).cgm(x),
            final(self).entries_of(c) == rename_entry_in(old(self).entries_of(c), old_m@, new_m@),
            final(self).entry_set_of(c) == old(self).entry_set_of(c).remove(old_m@).insert(new_m@),
            final(self).modules_of(c) == old(self).modules_of(c),
            final(self).runtime_of(c) == old(self).runtime_of(c),
            final(self).entry_chunks_of(old_m@) == old(self).entry_chunks_of(old_m@).remove(c),
            final(self).entry_chunks_of(new_m@) == old(self).entry_chunks_of(new_m@).insert(c),
            forall|x: Seq<char>, k: EdgeKind|
                k != EdgeKind::Entry ==> #[trigger] final(self).edge_chunks(x, k) == old(
                    self,
                ).edge_chunks(x, k),
            final(self).runtime_ids == old(self).runtime_ids,
    {
        let ghost before = *self;
        let ghost ov = old_m@;
        let ghost nv = new_m@;
        assert(before.kind_set_of(c, EdgeKind::Entry).contains(ov));
        assert(before.edge_chunks(ov, EdgeKind::Entry).contains(c));
        let i_old = match key_position(&self.chunk_graph_module_by_module_identifier, old_m) {
            Some(i) => i,
            None => {
                assert(false);
                0
            },
        };
        self.edit_module_record(i_old, EdgeKind::Entry, c, false);
        let ghost s1 = *self;
        let i_new = self.ensure_module_record(new_m);
        let ghost s2 = *self;
        self.edit_module_record(i_new, EdgeKind::Entry, c, true);
        let ghost mid = *self;
        assert(forall|x: Seq<char>| x != ov && x != nv ==> #[trigger] mid.cgm(x) == before.cgm(x));
        let mut cgc = self.take_chunk_record(c);
        proof {
            if has_key(cgc.entry_modules@, nv) {
                let j = choose|j: int|
                    0 <= j < cgc.entry_modules@.len() && (#[trigger] cgc.entry_modules@[j]).0@ == nv;
                assert(crate::keyed::keys_of(cgc.entry_modules@)[j] == nv);
            }
        }
        cgc.rename_entry(old_m, new_m.clone());
        self.put_chunk_record(c, cgc);
        proof {
            assert forall|d: ChunkUkey| d != c implies #[trigger] self.has_chunk(d)
                == before.has_chunk(d) && (self.has_chunk(d) ==> self.cgc(d) == before.cgc(d)) by {
                if (d as int) < mid.chunk_graph_chunk_by_chunk_ukey@.len() {
                    assert(self.chunk_graph_chunk_by_chunk_ukey@[d as int]
                        == mid.chunk_graph_chunk_by_chunk_ukey@[d as int]);
                }
            }
            assert(self.cgc(c) == cgc);
            assert(self.chunk_graph_module_by_module_identifier == mid.chunk_graph_module_by_module_identifier);
            assert(self.entry_chunks_of(ov) == before.entry_chunks_of(ov).remove(c)) by {
                assert(s2.edge_chunks(ov, EdgeKind::Entry) == s1.edge_chunks(ov, EdgeKind::Entry));
                assert(mid.edge_chunks(ov, EdgeKind::Entry) == s2.edge_chunks(ov, EdgeKind::Entry));
            }
            assert forall|x: Seq<char>, k: EdgeKind| (x != ov && x != nv) || k != EdgeKind::Entry implies #[trigger] self.edge_chunks(x, k)
                == before.edge_chunks(x, k) by {
                assert(self.edge_chunks(x, k) == mid.edge_chunks(x, k));
                if x == ov {
                    assert(s1.edge_chunks(ov, k) == before.edge_chunks(ov, k));
                    assert(s2.edge_chunks(ov, k) == s1.edge_chunks(ov, k));
                    assert(mid.edge_chunks(ov, k) == s2.edge_chunks(ov, k));
                } else if x == nv {
                    assert(s1.cgm(nv) == before.cgm(nv));
                    assert(s2.edge_chunks(nv, k) == s1.edge_chunks(nv, k));
                    assert(mid.edge_chunks(nv, k) == s2.edge_chunks(nv, k));
                } else {
                    assert(mid.cgm(x) == before.cgm(x));
                }
            }
            assert(self.entry_chunks_of(nv) == before.entry_chunks_of(nv).insert(c)) by {
                assert(s2.edge_chunks(nv, EdgeKind::Entry) == s1.edge_chunks(nv, EdgeKind::Entry));
                assert(s1.cgm(nv) == before.cgm(nv));
                assert(s2.chunk_graph_module_by_module_identifier@[i_new as int].0@ == nv);
                assert(mid.edge_chunks(nv, EdgeKind::Entry) == s2.edge_chunks(nv, EdgeKind::Entry).insert(c));
                assert(self.edge_chunks(nv, EdgeKind::Entry) == mid.edge_chunks(nv, EdgeKind::Entry));
            }
            assert forall|x: Seq<char>| x != ov && x != nv implies #[trigger] self.cgm(x) == before.cgm(x) by {
                assert(self.cgm(x) == mid.cgm(x));
                assert(mid.cgm(x) == s2.cgm(x));
                assert(s2.cgm(x) == s1.cgm(x));
                assert(s1.cgm(x) == before.cgm(x));
            }
            assert forall|d: ChunkUkey| #[trigger] self.has_chunk(d) implies self.cgc(d).wf() by {}
            assert forall|d: ChunkUkey, x: Seq<char>, k: EdgeKind| #[trigger]
                self.kind_set_of(d, k).contains(x) <==> #[trigger] self.edge_chunks(x, k).contains(
                    d,
                ) by {
                if d != c {
                    assert(self.kind_set_of(d, k) == before.kind_set_of(d, k));
                }
                assert(before.kind_set_of(d, k).contains(x) == before.edge_chunks(x, k).contains(d));
            }
        }
    }

    /// Moves every edge of module `old_module_id` to `new_module_id`, which
    /// has none: the new module takes the old one's place among each chunk's
    /// modules, entries (in the same position, with the same chunk group)
    /// and runtime modules (last), and the old module is left with no edge.
    pub fn replace_module(&mut self, old_module_id: &ModuleIdentifier, new_module_id: &ModuleIdentifier)
        requires
            old(self).wf(),
            old(self).has_module(old_module_id@),
            old_module_id@ != new_module_id@,
            forall|k: EdgeKind| #[trigger] old(self).edge_chunks(new_module_id@, k) == Set::<ChunkUkey>::empty(),
        ensures
            final(self).wf(),
            final(self).same_chunks(old(self)),
            forall|k: EdgeKind|
                #[trigger] final(self).edge_chunks(new_module_id@, k) == old(self).edge_chunks(
                    old_module_id@,
                    k,
                ),
            forall|k: EdgeKind| #[trigger] final(self).edge_chunks(old_module_id@, k) == Set::<ChunkUkey>::empty(),
            forall|x: Seq<char>, k: EdgeKind|
                x != old_module_id@ && x != new_module_id@ ==> #[trigger] final(self).edge_chunks(x, k)
                    == old(self).edge_chunks(x, k),
            forall|c: ChunkUkey|
                #[trigger] final(self).modules_of(c) == if old(self).chunks_of(old_module_id@).contains(c) {
                    old(self).modules_of(c).remove(old_module_id@).insert(new_module_id@)
                } else {
                    old(self).modules_of(c)
                },
            forall|c: ChunkUkey|
                #[trigger] final(self).entries_of(c) == rename_entry_in(
                    old(self).entries_of(c),
                    old_module_id@,
                    new_module_id@,
                ),
            forall|c: ChunkUkey|
                #[trigger] final(self).runtime_of(c) == if old(self).runtime_chunks_of(old_module_id@).contains(c) {
                    drop_value(old(self).runtime_of(c), old_module_id@).push(new_module_id@)
                } else {
                    old(self).runtime_of(c)
                },
    {
        let ghost b = *self;
        let ghost ov = old_module_id@;
        let ghost nv = new_module_id@;
        // plain edges
        let list = self.edge_chunk_list(old_module_id, EdgeKind::Module);
        let mut j: usize = 0;
        proof {
            assert(list@.subrange(0, 0) =~= Seq::<ChunkUkey>::empty());
            assert(Seq::<ChunkUkey>::empty().to_set() =~= Set::<ChunkUkey>::empty());
            assert(self.edge_chunks(nv, EdgeKind::Module) == b.edge_chunks(nv, EdgeKind::Module));
            assert(b.edge_chunks(ov, EdgeKind::Module).difference(Set::<ChunkUkey>::empty()) =~= b.edge_chunks(ov, EdgeKind::Module));
        }
        while j < list.len()
            invariant
                0 <= j <= list@.len(),
                list@.no_duplicates(),
                list@.to_set() == b.edge_chunks(ov, EdgeKind::Module),
                ov != nv,
                ov == old_module_id@,
                nv == new_module_id@,
                self.wf(),
                b.wf(),
                self.has_module(ov),
                self.same_chunks(&b),
                forall|c: ChunkUkey|
                    #[trigger] self.modules_of(c) == if list@.subrange(0, j as int).contains(c) {
                        b.modules_of(c).remove(ov).insert(nv)
                    } else {
                        b.modules_of(c)
                    },
                self.chunks_of(ov) == b.chunks_of(ov).difference(list@.subrange(0, j as int).to_set()),
                self.chunks_of(nv) == list@.subrange(0, j as int).to_set(),
                forall|x: Seq<char>|
                    x != ov && x != nv ==> #[trigger] self.chunks_of(x) == b.chunks_of(x),
                forall|c: ChunkUkey| #[trigger] self.entries_of(c) == b.entries_of(c),
                forall|c: ChunkUkey| #[trigger] self.runtime_of(c) == b.runtime_of(c),
                forall|x: Seq<char>, k: EdgeKind|
                    k != EdgeKind::Module ==> #[trigger] self.edge_chunks(x, k) == b.edge_chunks(x, k),
            decreases list@.len() - j,
        {
            let c = list[j];
            let ghost pre = *self;
            proof {
                assert(list@.to_set().contains(c));
                assert(!list@.subrange(0, j as int).contains(c)) by {
                    if list@.subrange(0, j as int).contains(c) {
                        let k = choose|k: int| 0 <= k < j && list@.subrange(0, j as int)[k] == c;
                        assert(list@[k] == list@[j as int]);
                    }
                }
                assert(self.chunks_of(ov).contains(c));
                assert(self.kind_set_of(c, EdgeKind::Module).contains(ov));
            }
            self.disconnect_chunk_and_module(&c, old_module_id.clone());
            let ghost mid = *self;
            self.connect_chunk_and_module(c, new_module_id.clone());
            j = j + 1;
            proof {
                assert forall|x: Seq<char>| x != ov && x != nv implies #[trigger] self.chunks_of(x) == b.chunks_of(x) by {
                    assert(self.cgm(x) == mid.cgm(x));
                    assert(mid.cgm(x) == pre.cgm(x));
                    assert(pre.chunks_of(x) == b.chunks_of(x));
                }
                let done = list@.subrange(0, j as int);
                assert(done =~= list@.subrange(0, j - 1).push(c));
                assert(done[j - 1] == c);
                assert(done.contains(c));
                list@.subrange(0, j - 1).lemma_push_to_set_commute(c);
                assert forall|d: ChunkUkey| #[trigger] self.has_chunk(d) == b.has_chunk(d) by {
                    assert(pre.has_chunk(d) == b.has_chunk(d));
                }
                assert forall|d: ChunkUkey| #[trigger] self.modules_of(d) == if done.contains(d) {
                    b.modules_of(d).remove(ov).insert(nv)
                } else {
                    b.modules_of(d)
                } by {
                    if d == c {
                        assert(pre.modules_of(c) == b.modules_of(c));
                        assert(self.modules_of(c) =~= b.modules_of(c).remove(ov).insert(nv));
                    } else {
                        assert(done.contains(d) == list@.subrange(0, j - 1).contains(d));
                        assert(mid.has_chunk(d) == pre.has_chunk(d));
                        assert(self.has_chunk(d) == mid.has_chunk(d));
                        if pre.has_chunk(d) {
                            assert(mid.cgc(d) == pre.cgc(d));
                            assert(self.cgc(d) == mid.cgc(d));
                        }
                        assert(self.modules_of(d) == pre.modules_of(d));
                    }
                }
                assert forall|d: ChunkUkey| #[trigger] self.runtime_of(d) == b.runtime_of(d) by {
                    assert(pre.runtime_of(d) == b.runtime_of(d));
                    if d != c {
                        assert(mid.has_chunk(d) == pre.has_chunk(d));
                        assert(self.has_chunk(d) == mid.has_chunk(d));
                        if pre.has_chunk(d) {
                            assert(mid.cgc(d) == pre.cgc(d));
                            assert(self.cgc(d) == mid.cgc(d));
                        }
                    }
                }
                assert forall|d: ChunkUkey| #[trigger] self.entries_of(d) == b.entries_of(d) by {
                    assert(pre.entries_of(d) == b.entries_of(d));
                    if d != c {
                        assert(mid.has_chunk(d) == pre.has_chunk(d));
                        assert(self.has_chunk(d) == mid.has_chunk(d));
                        if pre.has_chunk(d) {
                            assert(mid.cgc(d) == pre.cgc(d));
                            assert(self.cgc(d) == mid.cgc(d));
                        }
                    }
                }
                assert(self.chunks_of(ov) =~= b.chunks_of(ov).difference(done.to_set()));
                assert(self.chunks_of(nv) =~= done.to_set());
                assert forall|x: Seq<char>, k: EdgeKind| k != EdgeKind::Module implies #[trigger] self.edge_chunks(x, k) == b.edge_chunks(x, k) by {
                    assert(pre.edge_chunks(x, k) == b.edge_chunks(x, k));
                }
            }
        }
        proof {
            assert(list@.subrange(0, list@.len() as int) =~= list@);
            assert(self.chunks_of(ov) =~= Set::<ChunkUkey>::empty());
        }
        let ghost after_plain = *self;
        // entry edges
        let list = self.edge_chunk_list(old_module_id, EdgeKind::Entry);
        let mut j: usize = 0;
        proof {
            assert(list@.subrange(0, 0) =~= Seq::<ChunkUkey>::empty());
            assert(Seq::<ChunkUkey>::empty().to_set() =~= Set::<ChunkUkey>::empty());
            assert(self.edge_chunks(nv, EdgeKind::Entry) == b.edge_chunks(nv, EdgeKind::Entry));
            assert(b.edge_chunks(ov, EdgeKind::Entry).difference(Set::<ChunkUkey>::empty()) =~= b.edge_chunks(ov, EdgeKind::Entry));
        }
        while j < list.len()
            invariant
                0 <= j <= list@.len(),
                list@.no_duplicates(),
                list@.to_set() == b.edge_chunks(ov, EdgeKind::Entry),
                ov != nv,
                ov == old_module_id@,
                nv == new_module_id@,
                self.wf(),
                b.wf(),
                self.same_chunks(&b),
                forall|c: ChunkUkey|
                    #[trigger] self.entries_of(c) == if list@.subrange(0, j as int).contains(c) {
                        rename_entry_in(b.entries_of(c), ov, nv)
                    } else {
                        b.entries_of(c)
                    },
                self.entry_chunks_of(ov) == b.entry_chunks_of(ov).difference(list@.subrange(0, j as int).to_set()),
                self.entry_chunks_of(nv) == list@.subrange(0, j as int).to_set(),
                forall|x: Seq<char>|
                    x != ov && x != nv ==> #[trigger] self.entry_chunks_of(x) == b.entry_chunks_of(x),
                forall|c: ChunkUkey| #[trigger] self.modules_of(c) == after_plain.modules_of(c),
                forall|c: ChunkUkey| #[trigger] self.runtime_of(c) == b.runtime_of(c),
                forall|x: Seq<char>, k: EdgeKind|
                    k != EdgeKind::Entry ==> #[trigger] self.edge_chunks(x, k) == after_plain.edge_chunks(x, k),
            decreases list@.len() - j,
        {
            let c = list[j];
            let ghost pre = *self;
            proof {
                assert(list@.to_set().contains(c));
                assert(!list@.subrange(0, j as int).contains(c)) by {
                    if list@.subrange(0, j as int).contains(c) {
                        let k = choose|k: int| 0 <= k < j && list@.subrange(0, j as int)[k] == c;
                        assert(list@[k] == list@[j as int]);
                    }
                }
                assert(self.entry_chunks_of(ov).contains(c));
                assert(self.kind_set_of(c, EdgeKind::Entry).contains(ov));
                assert(!self.kind_set_of(c, EdgeKind::Entry).contains(nv)) by {
                    assert(self.kind_set_of(c, EdgeKind::Entry).contains(nv) == self.edge_chunks(nv, EdgeKind::Entry).contains(c));
                }
            }
            self.rename_entry_edge(c, old_module_id, new_module_id);
            j = j + 1;
            proof {
                let done = list@.subrange(0, j as int);
                assert(done =~= list@.subrange(0, j - 1).push(c));
                assert(done[j - 1] == c);
                assert(done.contains(c));
                list@.subrange(0, j - 1).lemma_push_to_set_commute(c);
                assert forall|d: ChunkUkey| #[trigger] self.has_chunk(d) == b.has_chunk(d) by {
                    assert(pre.has_chunk(d) == b.has_chunk(d));
                }
                assert forall|d: ChunkUkey| #[trigger] self.entries_of(d) == if done.contains(d) {
                    rename_entry_in(b.entries_of(d), ov, nv)
                } else {
                    b.entries_of(d)
                } by {
                    if d != c {
                        assert(done.contains(d) == list@.subrange(0, j - 1).contains(d));
                        assert(self.has_chunk(d) == pre.has_chunk(d));
                        if pre.has_chunk(d) {
                            assert(self.cgc(d) == pre.cgc(d));
                        }
                        assert(self.entries_of(d) == pre.entries_of(d));
                    } else {
                        assert(pre.entries_of(c) == b.entries_of(c));
                    }
                }
                assert forall|d: ChunkUkey| #[trigger] self.modules_of(d) == after_plain.modules_of(d) by {
                    if d != c {
                        assert(pre.modules_of(d) == after_plain.modules_of(d));
                    }
                }
                assert forall|d: ChunkUkey| #[trigger] self.runtime_of(d) == b.runtime_of(d) by {
                    if d != c {
                        assert(pre.runtime_of(d) == b.runtime_of(d));
                    }
                }
                assert(self.entry_chunks_of(ov) =~= b.entry_chunks_of(ov).difference(done.to_set()));
                assert(self.entry_chunks_of(nv) =~= done.to_set());
                assert forall|x: Seq<char>| x != ov && x != nv implies #[trigger] self.entry_chunks_of(x) == b.entry_chunks_of(x) by {
                    assert(self.cgm(x) == pre.cgm(x));
                    assert(pre.entry_chunks_of(x) == b.entry_chunks_of(x));
                }
                assert forall|x: Seq<char>, k: EdgeKind| k != EdgeKind::Entry implies #[trigger] self.edge_chunks(x, k) == after_plain.edge_chunks(x, k) by {
                    assert(pre.edge_chunks(x, k) == after_plain.edge_chunks(x, k));
                }
            }
        }
        proof {
            assert(list@.subrange(0, list@.len() as int) =~= list@);
            assert(self.entry_chunks_of(ov) =~= Set::<ChunkUkey>::empty());
        }
        let ghost after_entries = *self;
        // runtime edges
        let list = self.edge_chunk_list(old_module_id, EdgeKind::Runtime);
        let mut j: usize = 0;
        proof {
            assert(list@.subrange(0, 0) =~= Seq::<ChunkUkey>::empty());
            assert(Seq::<ChunkUkey>::empty().to_set() =~= Set::<ChunkUkey>::empty());
            assert(self.edge_chunks(nv, EdgeKind::Runtime) == b.edge_chunks(nv, EdgeKind::Runtime));
            assert(b.edge_chunks(ov, EdgeKind::Runtime).difference(Set::<ChunkUkey>::empty()) =~= b.edge_chunks(ov, EdgeKind::Runtime));
        }
        while j < list.len()
            invariant
                0 <= j <= list@.len(),
                list@.no_duplicates(),
                list@.to_set() == b.edge_chunks(ov, EdgeKind::Runtime),
                ov != nv,
                ov == old_module_id@,
                nv == new_module_id@,
                self.wf(),
                b.wf(),
                self.same_chunks(&b),
                forall|c: ChunkUkey|
                    #[trigger] self.runtime_of(c) == if list@.subrange(0, j as int).contains(c) {
                        drop_value(b.runtime_of(c), ov).push(nv)
                    } else {
                        b.runtime_of(c)
                    },
                self.runtime_chunks_of(ov) == b.runtime_chunks_of(ov).difference(list@.subrange(0, j as int).to_set()),
                self.runtime_chunks_of(nv) == list@.subrange(0, j as int).to_set(),
                forall|x: Seq<char>|
                    x != ov && x != nv ==> #[trigger] self.runtime_chunks_of(x) == b.runtime_chunks_of(x),
                forall|c: ChunkUkey| #[trigger] self.modules_of(c) == after_entries.modules_of(c),
                forall|c: ChunkUkey| #[trigger] self.entries_of(c) == after_entries.entries_of(c),
                forall|x: Seq<char>, k: EdgeKind|
                    k != EdgeKind::Runtime ==> #[trigger] self.edge_chunks(x, k) == after_entries.edge_chunks(x, k),
            decreases list@.len() - j,
        {
            let c = list[j];
            let ghost pre = *self;
            proof {
                assert(list@.to_set().contains(c));
                assert(!list@.subrange(0, j as int).contains(c)) by {
                    if list@.subrange(0, j as int).contains(c) {
                        let k = choose|k: int| 0 <= k < j && list@.subrange(0, j as int)[k] == c;
                        assert(list@[k] == list@[j as int]);
                    }
                }
            }
            proof {
                assert(self.runtime_chunks_of(ov).contains(c));
                assert(self.kind_set_of(c, EdgeKind::Runtime).contains(ov));
                assert(self.has_chunk(c));
            }
            self.disconnect_chunk_and_runtime_module(&c, old_module_id);
            let ghost mid = *self;
            self.connect_chunk_and_runtime_module(c, new_module_id.clone());
            j = j + 1;
            proof {
                let done = list@.subrange(0, j as int);
                assert(done =~= list@.subrange(0, j - 1).push(c));
                assert(done[j - 1] == c);
                assert(done.contains(c));
                list@.subrange(0, j - 1).lemma_push_to_set_commute(c);
                assert forall|d: ChunkUkey| #[trigger] self.has_chunk(d) == b.has_chunk(d) by {
                    assert(pre.has_chunk(d) == b.has_chunk(d));
                    assert(mid.has_chunk(d) == pre.has_chunk(d));
                }
                assert(!mid.runtime_of(c).contains(nv)) by {
                    assert(mid.kind_set_of(c, EdgeKind::Runtime).contains(nv) == mid.edge_chunks(nv, EdgeKind::Runtime).contains(c));
                }
                assert forall|d: ChunkUkey| #[trigger] self.runtime_of(d) == if done.contains(d) {
                    drop_value(b.runtime_of(d), ov).push(nv)
                } else {
                    b.runtime_of(d)
                } by {
                    if d != c {
                        assert(done.contains(d) == list@.subrange(0, j - 1).contains(d));
                        assert(mid.has_chunk(d) == pre.has_chunk(d));
                        assert(self.has_chunk(d) == mid.has_chunk(d));
                        if pre.has_chunk(d) {
                            assert(mid.cgc(d) == pre.cgc(d));
                            assert(self.cgc(d) == mid.cgc(d));
                        }
                        assert(self.runtime_of(d) == pre.runtime_of(d));
                    } else {
                        assert(pre.runtime_of(c) == b.runtime_of(c));
                        assert(mid.runtime_of(c) == drop_value(b.runtime_of(c), ov));
                    }
                }
                assert forall|d: ChunkUkey| #[trigger] self.modules_of(d) == after_entries.modules_of(d) by {
                    if d != c {
                        assert(mid.modules_of(d) == pre.modules_of(d));
                    }
                }
                assert forall|d: ChunkUkey| #[trigger] self.entries_of(d) == after_entries.entries_of(d) by {
                    if d != c {
                        assert(mid.entries_of(d) == pre.entries_of(d));
                    }
                }
                assert(self.runtime_chunks_of(ov) =~= b.runtime_chunks_of(ov).difference(done.to_set()));
                assert(self.runtime_chunks_of(nv) =~= done.to_set());
                assert forall|x: Seq<char>| x != ov && x != nv implies #[trigger] self.runtime_chunks_of(x) == b.runtime_chunks_of(x) by {
                    assert(self.cgm(x) == mid.cgm(x));
                    assert(mid.cgm(x) == pre.cgm(x));
                    assert(pre.runtime_chunks_of(x) == b.runtime_chunks_of(x));
                }
                assert forall|x: Seq<char>, k: EdgeKind| k != EdgeKind::Runtime implies #[trigger] self.edge_chunks(x, k) == after_entries.edge_chunks(x, k) by {
                    assert(pre.edge_chunks(x, k) == after_entries.edge_chunks(x, k));
                    assert(mid.edge_chunks(x, k) == pre.edge_chunks(x, k));
                }
            }
        }
        proof {
            assert(list@.subrange(0, list@.len() as int) =~= list@);
            assert(self.runtime_chunks_of(ov) =~= Set::<ChunkUkey>::empty());
            assert forall|c: ChunkUkey| #[trigger] self.entries_of(c) == rename_entry_in(b.entries_of(c), ov, nv) by {
                if !b.entry_chunks_of(ov).contains(c) {
                    assert(!b.kind_set_of(c, EdgeKind::Entry).contains(ov));
                    if has_entry(b.entries_of(c), ov) {
                        let i = entry_pos(b.entries_of(c), ov);
                        assert(b.has_chunk(c));
                        assert(b.cgc(c).entry_view()[i].0 == crate::keyed::keys_of(b.cgc(c).entry_modules@)[i]);
                    }
                }
            }
            assert forall|k: EdgeKind| #[trigger] self.edge_chunks(nv, k) == b.edge_chunks(ov, k) by {}
            assert forall|x: Seq<char>, k: EdgeKind| x != ov && x != nv implies #[trigger] self.edge_chunks(x, k) == b.edge_chunks(x, k) by {
                if k == EdgeKind::Module {
                    assert(after_plain.chunks_of(x) == b.chunks_of(x));
                    assert(after_entries.edge_chunks(x, k) == after_plain.edge_chunks(x, k));
                } else if k == EdgeKind::Entry {
                    assert(after_entries.entry_chunks_of(x) == b.entry_chunks_of(x));
                } else {
                    assert(self.runtime_chunks_of(x) == b.runtime_chunks_of(x));
                }
            }
            assert forall|k: EdgeKind| #[trigger] self.edge_chunks(ov, k) == Set::<ChunkUkey>::empty() by {}
        }
    }
}

} // verus!
