//! Merging one chunk into another.
use vstd::prelude::*;
use vstd::utf8::encode_utf8;
use vstd::string::StringSliceAdditionalSpecFns;
use crate::chunk::{
    has_runtime, has_runtime_spec, integrated_name, opt_text, union_texts, Chunk, ChunkByUkey,
    ChunkGroupByUkey,
};
use crate::chunk_graph::{ChunkGraph, EdgeKind};
use crate::chunk_graph_chunk::{copy_entries, entry_pairs, upsert_entries};
use crate::ident::{copy_identifiers, ids, text_less, ModuleIdentifier};
use crate::keyed::{keys_of, keys_unique};
use crate::ukey_set::{copy_ukeys, lemma_push_no_duplicates, ukey_position, ChunkUkey};

verus! {

pub fn clone_name(s: &Option<String>) -> (r: Option<String>)
    ensures
        opt_text(r) == opt_text(*s),
{
    match s {
        Some(x) => Some(x.clone()),
        None => None,
    }
}

/// The name that chunk `a` takes when `b` is merged into it.
pub fn pick_integrated_name(
    a: Option<String>,
    b: Option<String>,
    a_has_entries: bool,
    b_has_entries: bool,
) -> (r: Option<String>)
    ensures
        opt_text(r) == integrated_name(opt_text(a), opt_text(b), a_has_entries, b_has_entries),
{
    match (a, b) {
        (Some(x), Some(y)) => {
            if a_has_entries == b_has_entries {
                let sx = x.as_str();
                let sy = y.as_str();
                assert(sx.spec_bytes() == encode_utf8(x@));
                assert(sy.spec_bytes() == encode_utf8(y@));
                let lx = sx.as_bytes().len();
                let ly = sy.as_bytes().len();
                if lx != ly {
                    if lx < ly {
                        Some(x)
                    } else {
                        Some(y)
                    }
                } else if text_less(x.as_str(), y.as_str()) {
                    Some(x)
                } else {
                    Some(y)
                }
            } else if b_has_entries {
                Some(y)
            } else {
                Some(x)
            }
        },
        (None, Some(y)) => Some(y),
        (a, None) => a,
    }
}

pub proof fn lemma_empty_to_set<A>(s: Seq<A>)
    requires
        s.to_set() == Set::<A>::empty(),
    ensures
        s.len() == 0,
{
    if s.len() > 0 {
        assert(s.to_set().contains(s[0]));
    }
}

impl ChunkGraph {
    pub fn get_number_of_entry_modules(&self, chunk: &ChunkUkey) -> (r: usize)
        requires
            self.has_chunk(*chunk),
        ensures
            r == self.entries_of(*chunk).len(),
    {
        match &self.chunk_graph_chunk_by_chunk_ukey[*chunk as usize] {
            Some(cgc) => cgc.entry_modules.len(),
            None => 0,
        }
    }

    /// The modules of chunk `c`, as a list.
    pub fn chunk_module_list(&self, c: ChunkUkey) -> (r: Vec<ModuleIdentifier>)
        requires
            self.wf_records(),
            self.has_chunk(c),
        ensures
            ids(r@).to_set() == self.modules_of(c),
            ids(r@).no_duplicates(),
    {
        match &self.chunk_graph_chunk_by_chunk_ukey[c as usize] {
            Some(cgc) => copy_identifiers(&cgc.modules),
            None => Vec::new(),
        }
    }

    /// The entries of chunk `chunk_ukey` with the chunk groups that
    /// introduced them, in order.
    pub fn get_chunk_entry_modules_with_chunk_group_iterable(&self, chunk_ukey: &ChunkUkey) -> (r: Vec<(ModuleIdentifier, u32)>)
        requires
            self.wf_records(),
            self.has_chunk(*chunk_ukey),
        ensures
            entry_pairs(r@) == self.entries_of(*chunk_ukey),
            keys_of(r@).to_set() == self.entry_set_of(*chunk_ukey),
            keys_unique(r@),
    {
        match &self.chunk_graph_chunk_by_chunk_ukey[*chunk_ukey as usize] {
            Some(cgc) => copy_entries(&cgc.entry_modules),
            None => Vec::new(),
        }
    }

    /// Merges chunk `b` into chunk `a`: `a` takes a name by
    /// `integrated_name`, the id name hints, runtimes and chunk groups of
    /// both, and every module and entry module of `b`, each entry with its
    /// chunk group; every chunk group that held `b` holds `a` instead, and
    /// `b` is left with no module, no entry and no group.
    pub fn integrate_chunks(
        &mut self,
        a: &ChunkUkey,
        b: &ChunkUkey,
        chunk_by_ukey: &mut ChunkByUkey,
        chunk_group_by_ukey: &mut ChunkGroupByUkey,
    )
        requires
            old(self).wf(),
            *a != *b,
            old(self).has_chunk(*a),
            old(self).has_chunk(*b),
            old(chunk_by_ukey).wf(),
            old(chunk_by_ukey).contains(*a),
            old(chunk_by_ukey).contains(*b),
            old(chunk_group_by_ukey).wf(),
            forall|i: int|
                0 <= i < old(chunk_by_ukey).get(*b).groups@.len() ==> old(chunk_group_by_ukey).contains(#[trigger] old(chunk_by_ukey).get(*b).groups@[i]),
        ensures
            final(self).wf(),
            final(self).same_chunks(old(self)),
            final(self).modules_of(*a) == old(self).modules_of(*a).union(old(self).modules_of(*b)),
            final(self).modules_of(*b) == Set::<Seq<char>>::empty(),
            final(self).entry_set_of(*a) == old(self).entry_set_of(*a).union(
                old(self).entry_set_of(*b),
            ),
            final(self).entries_of(*b).len() == 0,
            final(self).entries_of(*a) == upsert_entries(old(self).entries_of(*a), old(self).entries_of(*b)),
            forall|x: Seq<char>| !#[trigger] final(self).chunks_of(x).contains(*b),
            forall|x: Seq<char>| !#[trigger] final(self).entry_chunks_of(x).contains(*b),
            forall|x: Seq<char>|
                #[trigger] final(self).chunks_of(x) == if old(self).modules_of(*b).contains(x) {
                    old(self).chunks_of(x).remove(*b).insert(*a)
                } else {
                    old(self).chunks_of(x)
                },
            forall|d: ChunkUkey|
                d != *a && d != *b ==> #[trigger] final(self).modules_of(d) == old(self).modules_of(d)
                    && final(self).entries_of(d) == old(self).entries_of(d),
            forall|d: ChunkUkey| #[trigger] final(self).runtime_of(d) == old(self).runtime_of(d),
            forall|x: Seq<char>|
                #[trigger] final(self).runtime_chunks_of(x) == old(self).runtime_chunks_of(x),
            final(chunk_by_ukey).wf(),
            final(chunk_by_ukey).chunks@.len() == old(chunk_by_ukey).chunks@.len(),
            opt_text(final(chunk_by_ukey).get(*a).name) == integrated_name(
                opt_text(old(chunk_by_ukey).get(*a).name),
                opt_text(old(chunk_by_ukey).get(*b).name),
                old(self).entries_of(*a).len() > 0,
                old(self).entries_of(*b).len() > 0,
            ),
            ids(final(chunk_by_ukey).get(*a).id_name_hints@).to_set() == ids(
                old(chunk_by_ukey).get(*a).id_name_hints@,
            ).to_set().union(ids(old(chunk_by_ukey).get(*b).id_name_hints@).to_set()),
            ids(final(chunk_by_ukey).get(*a).runtime@).to_set() == ids(
                old(chunk_by_ukey).get(*a).runtime@,
            ).to_set().union(ids(old(chunk_by_ukey).get(*b).runtime@).to_set()),
            final(chunk_by_ukey).get(*a).groups@.to_set() == old(chunk_by_ukey).get(
                *a,
            ).groups@.to_set().union(old(chunk_by_ukey).get(*b).groups@.to_set()),
            final(chunk_by_ukey).get(*b).groups@.len() == 0,
            forall|d: ChunkUkey|
                d != *a && d != *b && #[trigger] old(chunk_by_ukey).contains(d) ==> final(chunk_by_ukey).get(d) == old(chunk_by_ukey).get(d),
            final(chunk_group_by_ukey).wf(),
            final(chunk_group_by_ukey).groups@.len() == old(chunk_group_by_ukey).groups@.len(),
            forall|g: u32|
                #[trigger] old(chunk_group_by_ukey).contains(g) ==> final(chunk_group_by_ukey).get(g).chunks@.to_set() == if old(chunk_by_ukey).get(*b).groups@.contains(g)
                    && old(chunk_group_by_ukey).get(g).chunks@.contains(*b) {
                    old(chunk_group_by_ukey).get(g).chunks@.to_set().remove(*b).insert(*a)
                } else {
                    old(chunk_group_by_ukey).get(g).chunks@.to_set()
                },
    {
        let ghost o = *self;
        let ghost oc = *chunk_by_ukey;
        let ghost og = *chunk_group_by_ukey;
        let ghost av = *a;
        let ghost bv = *b;
        // the name
        let a_entries = self.get_number_of_entry_modules(a) > 0;
        let b_entries = self.get_number_of_entry_modules(b) > 0;
        let a_name = clone_name(&chunk_by_ukey.chunks[*a as usize].name);
        let b_name = clone_name(&chunk_by_ukey.chunks[*b as usize].name);
        let new_name = pick_integrated_name(a_name, b_name, a_entries, b_entries);
        chunk_by_ukey.chunks[*a as usize].name = new_name;
        // id name hints and runtimes
        let b_hints = copy_identifiers(&chunk_by_ukey.chunks[*b as usize].id_name_hints);
        let b_runtime = copy_identifiers(&chunk_by_ukey.chunks[*b as usize].runtime);
        union_texts(&mut chunk_by_ukey.chunks[*a as usize].id_name_hints, &b_hints);
        union_texts(&mut chunk_by_ukey.chunks[*a as usize].runtime, &b_runtime);
        // modules
        let list = self.chunk_module_list(*b);
        let mut j: usize = 0;
        proof {
            assert(ids(list@).subrange(0, 0) =~= Seq::<Seq<char>>::empty());
            assert(Seq::<Seq<char>>::empty().to_set() =~= Set::<Seq<char>>::empty());
            assert(o.modules_of(av).union(Set::<Seq<char>>::empty()) =~= o.modules_of(av));
            assert(o.modules_of(bv).difference(Set::<Seq<char>>::empty()) =~= o.modules_of(bv));
        }
        while j < list.len()
            invariant
                0 <= j <= list@.len(),
                ids(list@).no_duplicates(),
                ids(list@).to_set() == o.modules_of(bv),
                av == *a,
                bv == *b,
                av != bv,
                o.wf(),
                o.has_chunk(av),
                o.has_chunk(bv),
                self.wf(),
                self.same_chunks(&o),
                self.modules_of(av) == o.modules_of(av).union(ids(list@).subrange(0, j as int).to_set()),
                self.modules_of(bv) == o.modules_of(bv).difference(ids(list@).subrange(0, j as int).to_set()),
                forall|d: ChunkUkey| d != av && d != bv ==> #[trigger] self.modules_of(d) == o.modules_of(d),
                forall|x: Seq<char>|
                    #[trigger] self.chunks_of(x) == if ids(list@).subrange(0, j as int).contains(x) {
                        o.chunks_of(x).remove(bv).insert(av)
                    } else {
                        o.chunks_of(x)
                    },
                forall|d: ChunkUkey| #[trigger] self.entries_of(d) == o.entries_of(d),
                forall|d: ChunkUkey| #[trigger] self.entry_set_of(d) == o.entry_set_of(d),
                forall|d: ChunkUkey| #[trigger] self.runtime_of(d) == o.runtime_of(d),
                forall|x: Seq<char>, k: EdgeKind|
                    k != EdgeKind::Module ==> #[trigger] self.edge_chunks(x, k) == o.edge_chunks(x, k),
            decreases list@.len() - j,
        {
            let m = list[j].clone();
            let ghost mv = m@;
            let ghost pre = *self;
            let ghost done0 = ids(list@).subrange(0, j as int);
            proof {
                assert(ids(list@)[j as int] == mv);
                assert(ids(list@).to_set().contains(mv));
                assert(!done0.contains(mv)) by {
                    if done0.contains(mv) {
                        let k = choose|k: int| 0 <= k < j && done0[k] == mv;
                        assert(ids(list@)[k] == ids(list@)[j as int]);
                    }
                }
                assert(self.modules_of(bv).contains(mv));
                assert(self.kind_set_of(bv, EdgeKind::Module).contains(mv));
                assert(self.chunks_of(mv).contains(bv));
            }
            self.disconnect_chunk_and_module(b, m.clone());
            let ghost mid = *self;
            self.connect_chunk_and_module(*a, m);
            j = j + 1;
            proof {
                let done = ids(list@).subrange(0, j as int);
                assert(done =~= done0.push(mv));
                done0.lemma_push_to_set_commute(mv);
                assert forall|d: ChunkUkey| #[trigger] self.has_chunk(d) == o.has_chunk(d) by {
                    assert(pre.has_chunk(d) == o.has_chunk(d));
                    if d != bv {
                        assert(mid.has_chunk(d) == pre.has_chunk(d));
                    }
                    if d != av {
                        assert(self.has_chunk(d) == mid.has_chunk(d));
                    }
                }
                assert(self.modules_of(av) =~= o.modules_of(av).union(done.to_set()));
                assert(self.modules_of(bv) =~= o.modules_of(bv).difference(done.to_set()));
                assert forall|d: ChunkUkey| d != av && d != bv implies #[trigger] self.modules_of(d) == o.modules_of(d) by {
                    assert(mid.has_chunk(d) == pre.has_chunk(d));
                    assert(self.has_chunk(d) == mid.has_chunk(d));
                    if pre.has_chunk(d) {
                        assert(mid.cgc(d) == pre.cgc(d));
                        assert(self.cgc(d) == mid.cgc(d));
                    }
                    assert(pre.modules_of(d) == o.modules_of(d));
                }
                assert forall|x: Seq<char>| #[trigger] self.chunks_of(x) == if done.contains(x) {
                    o.chunks_of(x).remove(bv).insert(av)
                } else {
                    o.chunks_of(x)
                } by {
                    assert(pre.chunks_of(x) == if done0.contains(x) {
                        o.chunks_of(x).remove(bv).insert(av)
                    } else {
                        o.chunks_of(x)
                    });
                    if x != mv {
                        assert(self.cgm(x) == mid.cgm(x));
                        assert(mid.cgm(x) == pre.cgm(x));
                        assert(done.contains(x) == done0.contains(x));
                    } else {
                        assert(done[j - 1] == mv);
                    }
                }
                assert forall|d: ChunkUkey| #[trigger] self.entries_of(d) == o.entries_of(d) by {
                    assert(pre.entries_of(d) == o.entries_of(d));
                    if d != av && d != bv {
                        assert(mid.has_chunk(d) == pre.has_chunk(d));
                        assert(self.has_chunk(d) == mid.has_chunk(d));
                        if pre.has_chunk(d) {
                            assert(mid.cgc(d) == pre.cgc(d));
                            assert(self.cgc(d) == mid.cgc(d));
                        }
                    } else if d == bv {
                        assert(mid.has_chunk(av) == pre.has_chunk(av));
                        assert(self.has_chunk(bv) == mid.has_chunk(bv));
                        assert(self.cgc(bv) == mid.cgc(bv));
                    }
                }
                assert forall|d: ChunkUkey| #[trigger] self.entry_set_of(d) == o.entry_set_of(d) by {
                    assert(pre.entry_set_of(d) == o.entry_set_of(d));
                    if d != av && d != bv {
                        assert(mid.has_chunk(d) == pre.has_chunk(d));
                        assert(self.has_chunk(d) == mid.has_chunk(d));
                        if pre.has_chunk(d) {
                            assert(mid.cgc(d) == pre.cgc(d));
                            assert(self.cgc(d) == mid.cgc(d));
                        }
                    } else if d == bv {
                        assert(self.has_chunk(bv) == mid.has_chunk(bv));
                        assert(self.cgc(bv) == mid.cgc(bv));
                    }
                }
                assert forall|d: ChunkUkey| #[trigger] self.runtime_of(d) == o.runtime_of(d) by {
                    assert(pre.runtime_of(d) == o.runtime_of(d));
                    if d != av && d != bv {
                        assert(mid.has_chunk(d) == pre.has_chunk(d));
                        assert(self.has_chunk(d) == mid.has_chunk(d));
                        if pre.has_chunk(d) {
                            assert(mid.cgc(d) == pre.cgc(d));
                            assert(self.cgc(d) == mid.cgc(d));
                        }
                    } else if d == bv {
                        assert(self.has_chunk(bv) == mid.has_chunk(bv));
                        assert(self.cgc(bv) == mid.cgc(bv));
                    }
                }
                assert forall|x: Seq<char>, k: EdgeKind| k != EdgeKind::Module implies #[trigger] self.edge_chunks(x, k) == o.edge_chunks(x, k) by {
                    assert(pre.edge_chunks(x, k) == o.edge_chunks(x, k));
                    if x != mv {
                        assert(self.cgm(x) == mid.cgm(x));
                        assert(mid.cgm(x) == pre.cgm(x));
                    }
                }
            }
        }
        proof {
            assert(ids(list@).subrange(0, list@.len() as int) =~= ids(list@));
            assert(self.modules_of(bv) =~= Set::<Seq<char>>::empty());
        }
        let ghost after_plain = *self;
        // entry modules
        let entries = self.get_chunk_entry_modules_with_chunk_group_iterable(b);
        let mut j: usize = 0;
        proof {
            assert(keys_of(entries@).subrange(0, 0) =~= Seq::<Seq<char>>::empty());
            assert(Seq::<Seq<char>>::empty().to_set() =~= Set::<Seq<char>>::empty());
            assert(o.entry_set_of(av).union(Set::<Seq<char>>::empty()) =~= o.entry_set_of(av));
            assert(o.entry_set_of(bv).difference(Set::<Seq<char>>::empty()) =~= o.entry_set_of(bv));
        }
        while j < entries.len()
            invariant
                0 <= j <= entries@.len(),
                keys_unique(entries@),
                keys_of(entries@).to_set() == o.entry_set_of(bv),
                av == *a,
                bv == *b,
                av != bv,
                o.wf(),
                o.has_chunk(av),
                o.has_chunk(bv),
                self.wf(),
                self.same_chunks(&o),
                self.entry_set_of(av) == o.entry_set_of(av).union(keys_of(entries@).subrange(0, j as int).to_set()),
                entry_pairs(entries@) == o.entries_of(bv),
                self.entries_of(av) == upsert_entries(o.entries_of(av), entry_pairs(entries@).subrange(0, j as int)),
                self.entry_set_of(bv) == o.entry_set_of(bv).difference(keys_of(entries@).subrange(0, j as int).to_set()),
                forall|d: ChunkUkey| d != av && d != bv ==> #[trigger] self.entries_of(d) == o.entries_of(d),
                forall|x: Seq<char>|
                    #[trigger] self.entry_chunks_of(x) == if keys_of(entries@).subrange(0, j as int).contains(x) {
                        o.entry_chunks_of(x).remove(bv).insert(av)
                    } else {
                        o.entry_chunks_of(x)
                    },
                forall|d: ChunkUkey| #[trigger] self.modules_of(d) == after_plain.modules_of(d),
                forall|d: ChunkUkey| #[trigger] self.runtime_of(d) == o.runtime_of(d),
                forall|x: Seq<char>, k: EdgeKind|
                    k != EdgeKind::Entry ==> #[trigger] self.edge_chunks(x, k) == after_plain.edge_chunks(x, k),
            decreases entries@.len() - j,
        {
            let m = entries[j].0.clone();
            let g = entries[j].1;
            let ghost mv = m@;
            let ghost pre = *self;
            let ghost done0 = keys_of(entries@).subrange(0, j as int);
            proof {
                assert(keys_of(entries@)[j as int] == mv);
                assert(keys_of(entries@).to_set().contains(mv));
                assert(!done0.contains(mv)) by {
                    if done0.contains(mv) {
                        let k = choose|k: int| 0 <= k < j && done0[k] == mv;
                        assert(keys_of(entries@)[k] == keys_of(entries@)[j as int]);
                    }
                }
                assert(self.entry_set_of(bv).contains(mv));
                assert(self.kind_set_of(bv, EdgeKind::Entry).contains(mv));
                assert(self.entry_chunks_of(mv).contains(bv));
            }
            self.disconnect_chunk_and_entry_module(b, m.clone());
            let ghost mid = *self;
            self.connect_chunk_and_entry_module(*a, m, g);
            j = j + 1;
            proof {
                let ep = entry_pairs(entries@);
                assert(ep.subrange(0, j as int).drop_last() =~= ep.subrange(0, j - 1));
                assert(ep.subrange(0, j as int).last() == (mv, g));
                assert(mid.entries_of(av) == pre.entries_of(av)) by {
                    assert(mid.has_chunk(av) == pre.has_chunk(av));
                    assert(mid.cgc(av) == pre.cgc(av));
                }
                let done = keys_of(entries@).subrange(0, j as int);
                assert(done =~= done0.push(mv));
                done0.lemma_push_to_set_commute(mv);
                assert forall|d: ChunkUkey| #[trigger] self.has_chunk(d) == o.has_chunk(d) by {
                    assert(pre.has_chunk(d) == o.has_chunk(d));
                    if d != bv {
                        assert(mid.has_chunk(d) == pre.has_chunk(d));
                    }
                    if d != av {
                        assert(self.has_chunk(d) == mid.has_chunk(d));
                    }
                }
                assert(self.entry_set_of(av) =~= o.entry_set_of(av).union(done.to_set()));
                assert(self.entry_set_of(bv) =~= o.entry_set_of(bv).difference(done.to_set()));
                assert forall|d: ChunkUkey| d != av && d != bv implies #[trigger] self.entries_of(d) == o.entries_of(d) by {
                    assert(mid.has_chunk(d) == pre.has_chunk(d));
                    assert(self.has_chunk(d) == mid.has_chunk(d));
                    if pre.has_chunk(d) {
                        assert(mid.cgc(d) == pre.cgc(d));
                        assert(self.cgc(d) == mid.cgc(d));
                    }
                    assert(pre.entries_of(d) == o.entries_of(d));
                }
                assert forall|x: Seq<char>| #[trigger] self.entry_chunks_of(x) == if done.contains(x) {
                    o.entry_chunks_of(x).remove(bv).insert(av)
                } else {
                    o.entry_chunks_of(x)
                } by {
                    assert(pre.entry_chunks_of(x) == if done0.contains(x) {
                        o.entry_chunks_of(x).remove(bv).insert(av)
                    } else {
                        o.entry_chunks_of(x)
                    });
                    if x != mv {
                        assert(self.cgm(x) == mid.cgm(x));
                        assert(mid.cgm(x) == pre.cgm(x));
                        assert(done.contains(x) == done0.contains(x));
                    } else {
                        assert(done[j - 1] == mv);
                    }
                }
                assert forall|d: ChunkUkey| #[trigger] self.modules_of(d) == after_plain.modules_of(d) by {
                    assert(pre.modules_of(d) == after_plain.modules_of(d));
                    if d != av && d != bv {
                        assert(mid.has_chunk(d) == pre.has_chunk(d));
                        assert(self.has_chunk(d) == mid.has_chunk(d));
                        if pre.has_chunk(d) {
                            assert(mid.cgc(d) == pre.cgc(d));
                            assert(self.cgc(d) == mid.cgc(d));
                        }
                    } else if d == bv {
                        assert(self.has_chunk(bv) == mid.has_chunk(bv));
                        assert(self.cgc(bv) == mid.cgc(bv));
                    }
                }
                assert forall|d: ChunkUkey| #[trigger] self.runtime_of(d) == o.runtime_of(d) by {
                    assert(pre.runtime_of(d) == o.runtime_of(d));
                    if d != av && d != bv {
                        assert(mid.has_chunk(d) == pre.has_chunk(d));
                        assert(self.has_chunk(d) == mid.has_chunk(d));
                        if pre.has_chunk(d) {
                            assert(mid.cgc(d) == pre.cgc(d));
                            assert(self.cgc(d) == mid.cgc(d));
                        }
                    } else if d == bv {
                        assert(self.has_chunk(bv) == mid.has_chunk(bv));
                        assert(self.cgc(bv) == mid.cgc(bv));
                    }
                }
                assert forall|x: Seq<char>, k: EdgeKind| k != EdgeKind::Entry implies #[trigger] self.edge_chunks(x, k) == after_plain.edge_chunks(x, k) by {
                    assert(pre.edge_chunks(x, k) == after_plain.edge_chunks(x, k));
                    if x != mv {
                        assert(self.cgm(x) == mid.cgm(x));
                        assert(mid.cgm(x) == pre.cgm(x));
                    }
                }
            }
        }
        proof {
            assert(keys_of(entries@).subrange(0, entries@.len() as int) =~= keys_of(entries@));
            assert(entry_pairs(entries@).subrange(0, entries@.len() as int) =~= entry_pairs(entries@));
            assert(self.entries_of(av) == upsert_entries(o.entries_of(av), o.entries_of(bv)));
            assert(self.entry_set_of(bv) =~= Set::<Seq<char>>::empty());
            assert(self.has_chunk(bv));
            lemma_empty_to_set(keys_of(self.cgc(bv).entry_modules@));
            assert(self.entries_of(bv).len() == 0);
            assert forall|x: Seq<char>| !#[trigger] self.chunks_of(x).contains(bv) by {
                assert(self.kind_set_of(bv, EdgeKind::Module).contains(x) == self.edge_chunks(x, EdgeKind::Module).contains(bv));
                assert(self.modules_of(bv) == after_plain.modules_of(bv));
            }
            assert forall|x: Seq<char>| !#[trigger] self.entry_chunks_of(x).contains(bv) by {
                assert(self.kind_set_of(bv, EdgeKind::Entry).contains(x) == self.edge_chunks(x, EdgeKind::Entry).contains(bv));
            }
            assert forall|x: Seq<char>| #[trigger] self.chunks_of(x) == if o.modules_of(bv).contains(x) {
                o.chunks_of(x).remove(bv).insert(av)
            } else {
                o.chunks_of(x)
            } by {
                assert(self.edge_chunks(x, EdgeKind::Module) == after_plain.edge_chunks(x, EdgeKind::Module));
                assert(after_plain.chunks_of(x) == if ids(list@).contains(x) {
                    o.chunks_of(x).remove(bv).insert(av)
                } else {
                    o.chunks_of(x)
                });
                assert(ids(list@).contains(x) == ids(list@).to_set().contains(x));
            }
            assert forall|x: Seq<char>| #[trigger] self.runtime_chunks_of(x) == o.runtime_chunks_of(x) by {
                assert(self.edge_chunks(x, EdgeKind::Runtime) == after_plain.edge_chunks(x, EdgeKind::Runtime));
            }
            assert forall|d: ChunkUkey| d != av && d != bv implies #[trigger] self.modules_of(d) == o.modules_of(d)
                && self.entries_of(d) == o.entries_of(d) by {
                assert(self.modules_of(d) == after_plain.modules_of(d));
            }
            assert(self.modules_of(av) == after_plain.modules_of(av));
            assert(after_plain.modules_of(av) =~= o.modules_of(av).union(o.modules_of(bv)));
            assert(self.modules_of(bv) == after_plain.modules_of(bv));
            assert(self.entry_set_of(av) =~= o.entry_set_of(av).union(o.entry_set_of(bv)));
        }
        // chunk groups
        let ghost c1 = *chunk_by_ukey;
        assert(forall|i: int| 0 <= i < c1.chunks@.len() && i != av ==> c1.chunks@[i] == oc.chunks@[i]);
        let groups = copy_ukeys(&chunk_by_ukey.chunks[*b as usize].groups);
        let mut j: usize = 0;
        proof {
            assert(groups@.subrange(0, 0).to_set() =~= Set::<u32>::empty());
            assert(c1.get(av).groups@.to_set().union(Set::<u32>::empty()) =~= c1.get(av).groups@.to_set());
        }
        while j < groups.len()
            invariant
                0 <= j <= groups@.len(),
                groups@ == oc.get(bv).groups@,
                groups@.no_duplicates(),
                av == *a,
                bv == *b,
                av != bv,
                forall|i: int| 0 <= i < groups@.len() ==> og.contains(#[trigger] groups@[i]),
                chunk_by_ukey.wf(),
                chunk_by_ukey.chunks@.len() == c1.chunks@.len(),
                c1.contains(av),
                c1.contains(bv),
                chunk_by_ukey.get(av).groups@.to_set() == c1.get(av).groups@.to_set().union(groups@.subrange(0, j as int).to_set()),
                chunk_by_ukey.get(av).name == c1.get(av).name,
                chunk_by_ukey.get(av).id_name_hints == c1.get(av).id_name_hints,
                chunk_by_ukey.get(av).runtime == c1.get(av).runtime,
                forall|d: ChunkUkey| d != av && #[trigger] c1.contains(d) ==> chunk_by_ukey.get(d) == c1.get(d),
                chunk_group_by_ukey.wf(),
                chunk_group_by_ukey.groups@.len() == og.groups@.len(),
                forall|g: u32|
                    #[trigger] og.contains(g) && !groups@.subrange(0, j as int).contains(g) ==> chunk_group_by_ukey.get(g) == og.get(g),
                forall|g: u32|
                    #[trigger] og.contains(g) ==> chunk_group_by_ukey.get(g).chunks@.to_set() == if groups@.subrange(0, j as int).contains(g)
                        && og.get(g).chunks@.contains(bv) {
                        og.get(g).chunks@.to_set().remove(bv).insert(av)
                    } else {
                        og.get(g).chunks@.to_set()
                    },
            decreases groups@.len() - j,
        {
            let g = groups[j];
            let ghost pre_g = *chunk_group_by_ukey;
            let ghost done0 = groups@.subrange(0, j as int);
            assert(og.contains(groups@[j as int]));
            chunk_group_by_ukey.groups[g as usize].replace_chunk(b, a);
            chunk_by_ukey.chunks[*a as usize].add_group(g);
            j = j + 1;
            proof {
                let done = groups@.subrange(0, j as int);
                assert(done =~= done0.push(g));
                done0.lemma_push_to_set_commute(g);
                assert(!done0.contains(g)) by {
                    if done0.contains(g) {
                        let k = choose|k: int| 0 <= k < j - 1 && done0[k] == g;
                        assert(groups@[k] == groups@[j - 1]);
                    }
                }
                assert(chunk_by_ukey.get(av).groups@.to_set() =~= c1.get(av).groups@.to_set().union(done.to_set()));
                assert forall|i: int| 0 <= i < chunk_group_by_ukey.groups@.len() implies (#[trigger] chunk_group_by_ukey.groups@[i]).ukey == i
                    && chunk_group_by_ukey.groups@[i].wf() by {
                    if i != g as int {
                        assert(chunk_group_by_ukey.groups@[i] == pre_g.groups@[i]);
                    }
                }
                assert forall|gg: u32| #[trigger] og.contains(gg) && !done.contains(gg) implies chunk_group_by_ukey.get(gg) == og.get(gg) by {
                    assert(done0.contains(gg) == false) by {
                        if done0.contains(gg) {
                            let k = choose|k: int| 0 <= k < done0.len() && done0[k] == gg;
                            assert(done[k] == gg);
                        }
                    }
                    assert(gg != g) by {
                        assert(done[j - 1] == g);
                    }
                    assert(chunk_group_by_ukey.get(gg) == pre_g.get(gg));
                }
                assert forall|gg: u32| #[trigger] og.contains(gg) implies chunk_group_by_ukey.get(gg).chunks@.to_set() == if done.contains(gg)
                    && og.get(gg).chunks@.contains(bv) {
                    og.get(gg).chunks@.to_set().remove(bv).insert(av)
                } else {
                    og.get(gg).chunks@.to_set()
                } by {
                    if gg != g {
                        assert(chunk_group_by_ukey.get(gg) == pre_g.get(gg));
                        assert(done.contains(gg) == done0.contains(gg));
                    } else {
                        assert(done[j - 1] == g);
                        assert(pre_g.get(g) == og.get(g));
                    }
                }
                assert forall|i: int| 0 <= i < chunk_by_ukey.chunks@.len() implies (#[trigger] chunk_by_ukey.chunks@[i]).ukey == i
                    && chunk_by_ukey.chunks@[i].wf() by {}
            }
        }
        let ghost c2 = *chunk_by_ukey;
        chunk_by_ukey.chunks[*b as usize].groups = Vec::new();
        proof {
            assert(groups@.subrange(0, groups@.len() as int) =~= groups@);
            assert forall|i: int| 0 <= i < chunk_by_ukey.chunks@.len() implies (#[trigger] chunk_by_ukey.chunks@[i]).ukey == i
                && chunk_by_ukey.chunks@[i].wf() by {
                if i != bv as int {
                    assert(chunk_by_ukey.chunks@[i] == c2.chunks@[i]);
                } else {
                    assert(chunk_by_ukey.chunks@[i].groups@ =~= Seq::<u32>::empty());
                }
            }
            assert forall|g: u32| #[trigger] og.contains(g) implies chunk_group_by_ukey.get(g).chunks@.to_set() == if oc.get(bv).groups@.contains(g)
                && og.get(g).chunks@.contains(bv) {
                og.get(g).chunks@.to_set().remove(bv).insert(av)
            } else {
                og.get(g).chunks@.to_set()
            } by {}
            assert forall|d: ChunkUkey| d != av && d != bv && #[trigger] oc.contains(d) implies chunk_by_ukey.get(d) == oc.get(d) by {
                assert(c1.get(d) == oc.get(d));
                assert(c1.contains(d));
                assert(c2.get(d) == c1.get(d));
                assert(chunk_by_ukey.chunks@[d as int] == c2.chunks@[d as int]);
            }
        }
    }
}

/// Group `g` is met in at most `n` steps of the walk from `start` through
/// parent groups, where the walk does not go on past a group that holds
/// chunk `a`.
pub open spec fn walk_reaches(groups: ChunkGroupByUkey, a: Chunk, start: Seq<u32>, g: u32, n: nat) -> bool
    decreases n,
{
    if n == 0 {
        start.contains(g)
    } else {
        walk_reaches(groups, a, start, g, (n - 1) as nat) || exists|w: u32|
            walk_reaches(groups, a, start, w, (n - 1) as nat) && !a.groups@.contains(w)
                && #[trigger] groups.get(w).parents@.contains(g)
    }
}

pub open spec fn walk_reached(groups: ChunkGroupByUkey, a: Chunk, start: Seq<u32>, g: u32) -> bool {
    exists|n: nat| #[trigger] walk_reaches(groups, a, start, g, n)
}

/// Chunk `a` is always loaded before chunk `b`: walking up from the groups
/// of `b` through parents, stopping at groups that hold `a`, meets no
/// initial group.
pub open spec fn is_available_spec(groups: ChunkGroupByUkey, a: Chunk, b: Chunk) -> bool {
    forall|g: u32, n: nat|
        #[trigger] walk_reaches(groups, a, b.groups@, g, n) && !a.groups@.contains(g) ==> !groups.get(g).initial
}

/// Whether chunks `a` and `b` may be merged.
pub open spec fn can_integrate_spec(
    graph: ChunkGraph,
    a: Chunk,
    b: Chunk,
    groups: ChunkGroupByUkey,
) -> bool {
    if a.prevent_integration || b.prevent_integration {
        false
    } else if graph.entries_of(a.ukey).len() > 0 && graph.entries_of(b.ukey).len() > 0 {
        false
    } else if has_runtime_spec(a, groups) != has_runtime_spec(b, groups) {
        if has_runtime_spec(a, groups) {
            is_available_spec(groups, a, b)
        } else {
            is_available_spec(groups, b, a)
        }
    } else {
        graph.entries_of(a.ukey).len() == 0 && graph.entries_of(b.ukey).len() == 0
    }
}

/// The cases of merge feasibility: two chunks that both have entry
/// modules never merge; a runtime chunk merges, either way round, with a
/// chunk without entries or runtime that it is always loaded before; and
/// not with one that sits in an initial group of its own.
pub proof fn lemma_integration_cases(graph: ChunkGraph, r: Chunk, n: Chunk, groups: ChunkGroupByUkey)
    requires
        !r.prevent_integration,
        !n.prevent_integration,
    ensures
        graph.entries_of(r.ukey).len() > 0 && graph.entries_of(n.ukey).len() > 0 ==> !can_integrate_spec(
            graph,
            r,
            n,
            groups,
        ),
        has_runtime_spec(r, groups) && !has_runtime_spec(n, groups) && graph.entries_of(r.ukey).len() == 0
            && graph.entries_of(n.ukey).len() == 0 && is_available_spec(groups, r, n) ==> can_integrate_spec(
            graph,
            r,
            n,
            groups,
        ) && can_integrate_spec(graph, n, r, groups),
        forall|i: int|
            0 <= i < n.groups@.len() && has_runtime_spec(r, groups) && !has_runtime_spec(n, groups)
                && #[trigger] groups.get(n.groups@[i]).initial && !r.groups@.contains(n.groups@[i])
                ==> !can_integrate_spec(graph, r, n, groups),
{
    assert forall|i: int|
        0 <= i < n.groups@.len() && has_runtime_spec(r, groups) && !has_runtime_spec(n, groups)
            && #[trigger] groups.get(n.groups@[i]).initial && !r.groups@.contains(n.groups@[i])
            implies !can_integrate_spec(graph, r, n, groups) by {
        assert(walk_reaches(groups, r, n.groups@, n.groups@[i], 0));
    }
}

proof fn lemma_walk_closed(groups: ChunkGroupByUkey, a: Chunk, start: Seq<u32>, vs: Set<u32>, g: u32, n: nat)
    requires
        forall|x: u32| start.contains(x) ==> vs.contains(x),
        forall|w: u32, x: u32|
            vs.contains(w) && !a.groups@.contains(w) && #[trigger] groups.get(w).parents@.contains(x) ==> vs.contains(x),
        walk_reaches(groups, a, start, g, n),
    ensures
        vs.contains(g),
    decreases n,
{
    if n > 0 {
        if walk_reaches(groups, a, start, g, (n - 1) as nat) {
            lemma_walk_closed(groups, a, start, vs, g, (n - 1) as nat);
        } else {
            let w = choose|w: u32|
                walk_reaches(groups, a, start, w, (n - 1) as nat) && !a.groups@.contains(w)
                    && #[trigger] groups.get(w).parents@.contains(g);
            lemma_walk_closed(groups, a, start, vs, w, (n - 1) as nat);
        }
    }
}

/// Whether chunk `a` is always loaded before chunk `b`; see
/// `is_available_spec`.
pub fn is_available_chunk(a: &Chunk, b: &Chunk, groups: &ChunkGroupByUkey) -> (r: bool)
    requires
        groups.wf(),
        groups.closed_for(*b),
        b.wf(),
    ensures
        r == is_available_spec(*groups, *a, *b),
{
    let glen = groups.groups.len();
    let mut universe: Vec<u32> = Vec::new();
    let mut u: usize = 0;
    while u < glen && (u as u64) <= (u32::MAX as u64)
        invariant
            0 <= u <= glen,
            glen == groups.groups@.len(),
            universe@.len() == u,
            forall|k: int| 0 <= k < u ==> universe@[k] == k,
        decreases glen - u,
    {
        universe.push(u as u32);
        u = u + 1;
    }
    assert(universe@.len() >= glen || universe@.len() > u32::MAX);
    let ghost uset = universe@.to_set();
    let ghost start = b.groups@;
    let mut visited = copy_ukeys(&b.groups);
    let mut p: usize = 0;
    proof {
        assert forall|x: u32| groups.contains(x) implies #[trigger] uset.contains(x) by {
            assert(universe@[x as int] == x);
        }
        universe@.lemma_cardinality_of_set();
        assert forall|x: u32| visited@.to_set().contains(x) implies uset.contains(x) by {
            let k = choose|k: int| 0 <= k < visited@.len() && visited@[k] == x;
            assert(groups.contains(b.groups@[k]));
            assert(universe@[x as int] == x);
        }
        vstd::set_lib::lemma_len_subset(visited@.to_set(), uset);
        visited@.unique_seq_to_set();
        assert forall|k: int| 0 <= k < visited@.len() implies walk_reached(*groups, *a, start, #[trigger] visited@[k]) by {
            assert(start.contains(visited@[k]));
            assert(walk_reaches(*groups, *a, start, visited@[k], 0));
        }
    }
    while p < visited.len()
        invariant
            groups.wf(),
            groups.closed_for(*b),
            glen == groups.groups@.len(),
            start == b.groups@,
            0 <= p <= visited@.len(),
            visited@.no_duplicates(),
            uset == universe@.to_set(),
            uset.finite(),
            forall|x: u32| #[trigger] uset.contains(x) <== groups.contains(x),
            forall|k: int| 0 <= k < visited@.len() ==> groups.contains(#[trigger] visited@[k]),
            visited@.to_set().subset_of(uset),
            visited@.len() <= uset.len(),
            forall|x: u32| start.contains(x) ==> visited@.contains(x),
            forall|k: int| 0 <= k < visited@.len() ==> walk_reached(*groups, *a, start, #[trigger] visited@[k]),
            forall|k: int, x: u32|
                0 <= k < p && !a.groups@.contains(visited@[k]) && #[trigger] groups.get(visited@[k]).parents@.contains(x)
                    ==> visited@.contains(x),
            forall|k: int| 0 <= k < p && !a.groups@.contains(#[trigger] visited@[k]) ==> !groups.get(visited@[k]).initial,
        decreases (uset.len() - visited@.len()) + (uset.len() - p),
    {
        let g = visited[p];
        if !a.is_in_group(g) {
            let group = &groups.groups[g as usize];
            if group.initial {
                proof {
                    let n = choose|n: nat| #[trigger] walk_reaches(*groups, *a, start, visited@[p as int], n);
                    assert(walk_reaches(*groups, *a, b.groups@, g, n));
                }
                return false;
            }
            let parents = &group.parents;
            let mut k: usize = 0;
            let ghost vlen0 = visited@.len();
            let ghost vis0 = visited@;
            while k < parents.len()
                invariant
                    groups.wf(),
                    groups.closed_for(*b),
                    glen == groups.groups@.len(),
                    start == b.groups@,
                    0 <= k <= parents@.len(),
                    (g as int) < glen,
                    *parents == groups.get(g).parents,
                    p < visited@.len(),
                    visited@[p as int] == g,
                    !a.groups@.contains(g),
                    visited@.len() >= vlen0,
                    forall|j: int| 0 <= j < vlen0 ==> visited@[j] == vis0[j],
                    visited@.no_duplicates(),
                    uset == universe@.to_set(),
                    uset.finite(),
                    forall|x: u32| #[trigger] uset.contains(x) <== groups.contains(x),
                    forall|j: int| 0 <= j < visited@.len() ==> groups.contains(#[trigger] visited@[j]),
                    visited@.to_set().subset_of(uset),
                    visited@.len() <= uset.len(),
                    forall|j: int| 0 <= j < visited@.len() ==> walk_reached(*groups, *a, start, #[trigger] visited@[j]),
                    forall|kk: int| 0 <= kk < k ==> visited@.contains(#[trigger] parents@[kk]),
                decreases parents@.len() - k,
            {
                let x = parents[k];
                if ukey_position(&visited, x).is_none() {
                    proof {
                        let gi = g as int;
                        assert(groups.contains(groups.groups@[gi].parents@[k as int]));
                        crate::ukey_set::lemma_push_no_duplicates(visited@, x);
                        visited@.push(x).unique_seq_to_set();
                        assert(visited@.push(x).to_set().subset_of(uset)) by {
                            visited@.lemma_push_to_set_commute(x);
                        }
                        vstd::set_lib::lemma_len_subset(visited@.push(x).to_set(), uset);
                        let n = choose|n: nat| #[trigger] walk_reaches(*groups, *a, start, visited@[p as int], n);
                        assert(groups.get(g).parents@.contains(x)) by {
                            assert(parents@[k as int] == x);
                        }
                        assert(walk_reaches(*groups, *a, start, x, n + 1));
                    }
                    let ghost before = visited@;
                    visited.push(x);
                    proof {
                        assert forall|j: int| 0 <= j < visited@.len() implies walk_reached(*groups, *a, start, #[trigger] visited@[j]) by {
                            if j < before.len() {
                                assert(visited@[j] == before[j]);
                            } else {
                                let n = choose|n: nat| #[trigger] walk_reaches(*groups, *a, start, before[p as int], n);
                                assert(walk_reaches(*groups, *a, start, x, n + 1));
                            }
                        }
                        assert forall|kk: int| 0 <= kk < k + 1 implies visited@.contains(#[trigger] parents@[kk]) by {
                            if kk < k {
                                let j = choose|j: int| 0 <= j < before.len() && before[j] == parents@[kk];
                                assert(visited@[j] == parents@[kk]);
                            } else {
                                assert(visited@[before.len() as int] == x);
                            }
                        }
                    }
                } else {
                    assert(visited@.contains(x));
                }
                k = k + 1;
            }
            proof {
                assert forall|kk: int, x: u32|
                    0 <= kk < p + 1 && !a.groups@.contains(visited@[kk]) && #[trigger] groups.get(visited@[kk]).parents@.contains(x)
                        implies visited@.contains(x) by {
                    if kk < p {
                        assert(visited@[kk] == vis0[kk]);
                        assert(groups.get(vis0[kk]).parents@.contains(x));
                        assert(vis0.contains(x));
                        let j = choose|j: int| 0 <= j < vis0.len() && vis0[j] == x;
                        assert(visited@[j] == x);
                    } else {
                        let j = choose|j: int| 0 <= j < parents@.len() && parents@[j] == x;
                    }
                }
                assert forall|kk: int| 0 <= kk < p + 1 && !a.groups@.contains(#[trigger] visited@[kk]) implies !groups.get(visited@[kk]).initial by {
                    if kk < p {
                        assert(visited@[kk] == vis0[kk]);
                    }
                }
                assert forall|x: u32| start.contains(x) implies visited@.contains(x) by {
                    assert(vis0.contains(x));
                    let j = choose|j: int| 0 <= j < vis0.len() && vis0[j] == x;
                    assert(visited@[j] == x);
                }
            }
        }
        p = p + 1;
    }
    proof {
        let vs = visited@.to_set();
        assert forall|w: u32, x: u32|
            vs.contains(w) && !a.groups@.contains(w) && #[trigger] groups.get(w).parents@.contains(x) implies vs.contains(x) by {
            let j = choose|j: int| 0 <= j < visited@.len() && visited@[j] == w;
            assert(groups.get(visited@[j]).parents@.contains(x));
            assert(visited@.contains(x));
        }
        assert forall|g: u32, n: nat| #[trigger] walk_reaches(*groups, *a, b.groups@, g, n) && !a.groups@.contains(g)
            implies !groups.get(g).initial by {
            lemma_walk_closed(*groups, *a, start, vs, g, n);
            let j = choose|j: int| 0 <= j < visited@.len() && visited@[j] == g;
        }
    }
    true
}

impl ChunkGraph {
    /// Whether chunks `a` and `b` may be merged: neither forbids it; if
    /// just one has a runtime, it is always loaded before the other; else
    /// neither has an entry module.
    pub fn can_chunks_be_integrated(
        &self,
        chunk_a_ukey: &ChunkUkey,
        chunk_b_ukey: &ChunkUkey,
        chunk_by_ukey: &ChunkByUkey,
        chunk_group_by_ukey: &ChunkGroupByUkey,
    ) -> (r: bool)
        requires
            self.has_chunk(*chunk_a_ukey),
            self.has_chunk(*chunk_b_ukey),
            chunk_by_ukey.wf(),
            chunk_by_ukey.contains(*chunk_a_ukey),
            chunk_by_ukey.contains(*chunk_b_ukey),
            chunk_group_by_ukey.wf(),
            chunk_group_by_ukey.closed_for(chunk_by_ukey.get(*chunk_a_ukey)),
            chunk_group_by_ukey.closed_for(chunk_by_ukey.get(*chunk_b_ukey)),
        ensures
            r == can_integrate_spec(
                *self,
                chunk_by_ukey.get(*chunk_a_ukey),
                chunk_by_ukey.get(*chunk_b_ukey),
                *chunk_group_by_ukey,
            ),
    {
        let chunk_a = chunk_by_ukey.expect_get(chunk_a_ukey);
        let chunk_b = chunk_by_ukey.expect_get(chunk_b_ukey);
        if chunk_a.prevent_integration || chunk_b.prevent_integration {
            return false;
        }
        let entries_a = self.get_number_of_entry_modules(chunk_a_ukey);
        let entries_b = self.get_number_of_entry_modules(chunk_b_ukey);
        if entries_a > 0 && entries_b > 0 {
            return false;
        }
        let has_runtime_a = has_runtime(chunk_a, chunk_group_by_ukey);
        let has_runtime_b = has_runtime(chunk_b, chunk_group_by_ukey);
        if has_runtime_a != has_runtime_b {
            if has_runtime_a {
                return is_available_chunk(chunk_a, chunk_b, chunk_group_by_ukey);
            } else {
                return is_available_chunk(chunk_b, chunk_a, chunk_group_by_ukey);
            }
        }
        if entries_a > 0 || entries_b > 0 {
            return false;
        }
        true
    }
}

impl ChunkGraph {
    /// Takes every module out of `chunk`, on both sides, and the chunk out
    /// of every group it is in; its entry and runtime modules stay.
    pub fn disconnect_chunk(&mut self, chunk: &mut Chunk, chunk_group_by_ukey: &mut ChunkGroupByUkey)
        requires
            old(self).wf(),
            old(self).has_chunk(old(chunk).ukey),
            old(chunk).wf(),
            old(chunk_group_by_ukey).wf(),
            forall|i: int| 0 <= i < old(chunk).groups@.len() ==> old(chunk_group_by_ukey).contains(#[trigger] old(chunk).groups@[i]),
        ensures
            final(self).wf(),
            final(self).same_chunks(old(self)),
            final(self).modules_of(old(chunk).ukey) == Set::<Seq<char>>::empty(),
            forall|x: Seq<char>| #[trigger] final(self).chunks_of(x) == old(self).chunks_of(x).remove(old(chunk).ukey),
            forall|d: ChunkUkey| d != old(chunk).ukey ==> #[trigger] final(self).modules_of(d) == old(self).modules_of(d),
            forall|d: ChunkUkey| #[trigger] final(self).entries_of(d) == old(self).entries_of(d),
            forall|d: ChunkUkey| #[trigger] final(self).runtime_of(d) == old(self).runtime_of(d),
            final(chunk).ukey == old(chunk).ukey,
            final(chunk).groups@.len() == 0,
            final(chunk_group_by_ukey).wf(),
            final(chunk_group_by_ukey).groups@.len() == old(chunk_group_by_ukey).groups@.len(),
            forall|g: u32|
                #[trigger] old(chunk_group_by_ukey).contains(g) ==> final(chunk_group_by_ukey).get(g).chunks@.to_set() == if old(chunk).groups@.contains(g) {
                    old(chunk_group_by_ukey).get(g).chunks@.to_set().remove(old(chunk).ukey)
                } else {
                    old(chunk_group_by_ukey).get(g).chunks@.to_set()
                },
    {
        let ghost o = *self;
        let ghost og = *chunk_group_by_ukey;
        let c = chunk.ukey;
        let list = self.chunk_module_list(c);
        let mut j: usize = 0;
        proof {
            assert(ids(list@).subrange(0, 0) =~= Seq::<Seq<char>>::empty());
            assert(Seq::<Seq<char>>::empty().to_set() =~= Set::<Seq<char>>::empty());
            assert(o.modules_of(c).difference(Set::<Seq<char>>::empty()) =~= o.modules_of(c));
        }
        while j < list.len()
            invariant
                0 <= j <= list@.len(),
                ids(list@).no_duplicates(),
                ids(list@).to_set() == o.modules_of(c),
                o.wf(),
                o.has_chunk(c),
                self.wf(),
                self.same_chunks(&o),
                self.modules_of(c) == o.modules_of(c).difference(ids(list@).subrange(0, j as int).to_set()),
                forall|d: ChunkUkey| d != c ==> #[trigger] self.modules_of(d) == o.modules_of(d),
                forall|x: Seq<char>|
                    #[trigger] self.chunks_of(x) == if ids(list@).subrange(0, j as int).contains(x) {
                        o.chunks_of(x).remove(c)
                    } else {
                        o.chunks_of(x)
                    },
                forall|d: ChunkUkey| #[trigger] self.entries_of(d) == o.entries_of(d),
                forall|d: ChunkUkey| #[trigger] self.runtime_of(d) == o.runtime_of(d),
            decreases list@.len() - j,
        {
            let m = list[j].clone();
            let ghost mv = m@;
            let ghost pre = *self;
            let ghost done0 = ids(list@).subrange(0, j as int);
            proof {
                assert(ids(list@)[j as int] == mv);
                assert(ids(list@).to_set().contains(mv));
                assert(!done0.contains(mv)) by {
                    if done0.contains(mv) {
                        let k = choose|k: int| 0 <= k < j && done0[k] == mv;
                        assert(ids(list@)[k] == ids(list@)[j as int]);
                    }
                }
                assert(self.modules_of(c).contains(mv));
                assert(self.kind_set_of(c, EdgeKind::Module).contains(mv));
                assert(self.chunks_of(mv).contains(c));
            }
            self.disconnect_chunk_and_module(&c, m);
            j = j + 1;
            proof {
                let done = ids(list@).subrange(0, j as int);
                assert(done =~= done0.push(mv));
                done0.lemma_push_to_set_commute(mv);
                assert forall|d: ChunkUkey| #[trigger] self.has_chunk(d) == o.has_chunk(d) by {
                    assert(pre.has_chunk(d) == o.has_chunk(d));
                    if d != c {
                        assert(self.has_chunk(d) == pre.has_chunk(d));
                    }
                }
                assert(self.modules_of(c) =~= o.modules_of(c).difference(done.to_set()));
                assert forall|d: ChunkUkey| d != c implies #[trigger] self.modules_of(d) == o.modules_of(d) by {
                    assert(self.has_chunk(d) == pre.has_chunk(d));
                    if pre.has_chunk(d) {
                        assert(self.cgc(d) == pre.cgc(d));
                    }
                    assert(pre.modules_of(d) == o.modules_of(d));
                }
                assert forall|x: Seq<char>| #[trigger] self.chunks_of(x) == if done.contains(x) {
                    o.chunks_of(x).remove(c)
                } else {
                    o.chunks_of(x)
                } by {
                    assert(pre.chunks_of(x) == if done0.contains(x) {
                        o.chunks_of(x).remove(c)
                    } else {
                        o.chunks_of(x)
                    });
                    if x != mv {
                        assert(self.cgm(x) == pre.cgm(x));
                        assert(done.contains(x) == done0.contains(x));
                    } else {
                        assert(done[j - 1] == mv);
                    }
                }
                assert forall|d: ChunkUkey| #[trigger] self.entries_of(d) == o.entries_of(d) by {
                    assert(pre.entries_of(d) == o.entries_of(d));
                    if d != c {
                        assert(self.has_chunk(d) == pre.has_chunk(d));
                        if pre.has_chunk(d) {
                            assert(self.cgc(d) == pre.cgc(d));
                        }
                    }
                }
                assert forall|d: ChunkUkey| #[trigger] self.runtime_of(d) == o.runtime_of(d) by {
                    assert(pre.runtime_of(d) == o.runtime_of(d));
                    if d != c {
                        assert(self.has_chunk(d) == pre.has_chunk(d));
                        if pre.has_chunk(d) {
                            assert(self.cgc(d) == pre.cgc(d));
                        }
                    }
                }
            }
        }
        proof {
            assert(ids(list@).subrange(0, list@.len() as int) =~= ids(list@));
            assert(self.modules_of(c) =~= Set::<Seq<char>>::empty());
            assert forall|x: Seq<char>| #[trigger] self.chunks_of(x) == o.chunks_of(x).remove(c) by {
                assert(ids(list@).contains(x) == ids(list@).to_set().contains(x));
                if !ids(list@).contains(x) {
                    assert(!o.kind_set_of(c, EdgeKind::Module).contains(x));
                    assert(o.kind_set_of(c, EdgeKind::Module).contains(x) == o.edge_chunks(x, EdgeKind::Module).contains(c));
                    assert(o.chunks_of(x).remove(c) =~= o.chunks_of(x));
                }
            }
        }
        // the chunk groups
        let groups = copy_ukeys(&chunk.groups);
        let mut k: usize = 0;
        while k < groups.len()
            invariant
                0 <= k <= groups@.len(),
                groups@.no_duplicates(),
                forall|i: int| 0 <= i < groups@.len() ==> og.contains(#[trigger] groups@[i]),
                chunk_group_by_ukey.wf(),
                chunk_group_by_ukey.groups@.len() == og.groups@.len(),
                forall|g: u32|
                    #[trigger] og.contains(g) ==> chunk_group_by_ukey.get(g).chunks@.to_set() == if groups@.subrange(0, k as int).contains(g) {
                        og.get(g).chunks@.to_set().remove(c)
                    } else {
                        og.get(g).chunks@.to_set()
                    },
            decreases groups@.len() - k,
        {
            let g = groups[k];
            let ghost pre_g = *chunk_group_by_ukey;
            let ghost done0 = groups@.subrange(0, k as int);
            assert(og.contains(groups@[k as int]));
            chunk_group_by_ukey.groups[g as usize].remove_chunk(c);
            k = k + 1;
            proof {
                let done = groups@.subrange(0, k as int);
                assert(done =~= done0.push(g));
                assert(!done0.contains(g)) by {
                    if done0.contains(g) {
                        let kk = choose|kk: int| 0 <= kk < k - 1 && done0[kk] == g;
                        assert(groups@[kk] == groups@[k - 1]);
                    }
                }
                assert forall|i: int| 0 <= i < chunk_group_by_ukey.groups@.len() implies (#[trigger] chunk_group_by_ukey.groups@[i]).ukey == i
                    && chunk_group_by_ukey.groups@[i].wf() by {
                    if i != g as int {
                        assert(chunk_group_by_ukey.groups@[i] == pre_g.groups@[i]);
                    }
                }
                assert forall|gg: u32| #[trigger] og.contains(gg) implies chunk_group_by_ukey.get(gg).chunks@.to_set() == if done.contains(gg) {
                    og.get(gg).chunks@.to_set().remove(c)
                } else {
                    og.get(gg).chunks@.to_set()
                } by {
                    if gg != g {
                        assert(chunk_group_by_ukey.get(gg) == pre_g.get(gg));
                        assert(done.contains(gg) == done0.contains(gg));
                    } else {
                        assert(done[k - 1] == g);
                        assert(pre_g.get(g).chunks@.to_set() == og.get(g).chunks@.to_set());
                    }
                }
            }
        }
        chunk.groups = Vec::new();
        proof {
            assert(groups@.subrange(0, groups@.len() as int) =~= groups@);
        }
    }

    /// Whether a chunk group that introduced an entry of `chunk` holds a
    /// chunk other than `chunk`.
    pub fn has_chunk_entry_dependent_chunks(&self, chunk_ukey: &ChunkUkey, chunk_group_by_ukey: &ChunkGroupByUkey) -> (r: bool)
        requires
            self.has_chunk(*chunk_ukey),
            forall|i: int| 0 <= i < self.entries_of(*chunk_ukey).len() ==> chunk_group_by_ukey.contains(#[trigger] self.entries_of(*chunk_ukey)[i].1),
        ensures
            r == exists|i: int, j: int|
                0 <= i < self.entries_of(*chunk_ukey).len() && 0 <= j < chunk_group_by_ukey.get(self.entries_of(*chunk_ukey)[i].1).chunks@.len()
                    && #[trigger] chunk_group_by_ukey.get(#[trigger] self.entries_of(*chunk_ukey)[i].1).chunks@[j] != *chunk_ukey,
    {
        let entries = self.chunk_entry_list_unchecked(chunk_ukey);
        let ghost ev = self.entries_of(*chunk_ukey);
        let mut i: usize = 0;
        while i < entries.len()
            invariant
                0 <= i <= entries@.len(),
                entry_pairs(entries@) == ev,
                ev.len() == entries@.len(),
                ev == self.entries_of(*chunk_ukey),
                forall|a: int| 0 <= a < ev.len() ==> chunk_group_by_ukey.contains(#[trigger] ev[a].1),
                forall|a: int, b: int|
                    0 <= a < i && 0 <= b < chunk_group_by_ukey.get(ev[a].1).chunks@.len()
                        ==> #[trigger] chunk_group_by_ukey.get(#[trigger] ev[a].1).chunks@[b] == *chunk_ukey,
            decreases entries@.len() - i,
        {
            let g = entries[i].1;
            assert(ev[i as int].1 == g);
            let chunks = &chunk_group_by_ukey.groups[g as usize].chunks;
            let mut j: usize = 0;
            while j < chunks.len()
                invariant
                    0 <= j <= chunks@.len(),
                    i < entries@.len(),
                    ev.len() == entries@.len(),
                    ev == self.entries_of(*chunk_ukey),
                    ev[i as int].1 == g,
                    (g as int) < chunk_group_by_ukey.groups@.len(),
                    *chunks == chunk_group_by_ukey.get(g).chunks,
                    forall|b: int| 0 <= b < j ==> #[trigger] chunks@[b] == *chunk_ukey,
                decreases chunks@.len() - j,
            {
                if chunks[j] != *chunk_ukey {
                    assert(chunk_group_by_ukey.get(ev[i as int].1).chunks@[j as int] != *chunk_ukey);
                    return true;
                }
                j = j + 1;
            }
            i = i + 1;
        }
        false
    }

    fn chunk_entry_list_unchecked(&self, c: &ChunkUkey) -> (r: Vec<(ModuleIdentifier, u32)>)
        requires
            self.has_chunk(*c),
        ensures
            entry_pairs(r@) == self.entries_of(*c),
    {
        match &self.chunk_graph_chunk_by_chunk_ukey[*c as usize] {
            Some(cgc) => copy_entries(&cgc.entry_modules),
            None => Vec::new(),
        }
    }
}

/// The chunks of group `g` other than `c` and `ep` that have no runtime.
pub open spec fn qualifying(chunks: ChunkByUkey, groups: ChunkGroupByUkey, g: u32, c: ChunkUkey, ep: ChunkUkey) -> Set<ChunkUkey> {
    groups.get(g).chunks@.to_set().filter(|d: ChunkUkey| d != c && d != ep && !has_runtime_spec(chunks.get(d), groups))
}

/// The qualifying chunks of the groups that introduced the entries `es`.
pub open spec fn from_entries(
    chunks: ChunkByUkey,
    groups: ChunkGroupByUkey,
    es: Seq<(Seq<char>, u32)>,
    c: ChunkUkey,
    ep: ChunkUkey,
) -> Set<ChunkUkey>
    decreases es.len(),
{
    if es.len() == 0 {
        Set::empty()
    } else {
        from_entries(chunks, groups, es.drop_last(), c, ep).union(qualifying(chunks, groups, es.last().1, c, ep))
    }
}

/// The chunks that the entrypoints among the groups `gs` depend on: for
/// each entrypoint group, the chunks without a runtime of every group that
/// introduced an entry of its entry-point chunk, but `c` and that chunk.
pub open spec fn entry_dependents(
    graph: ChunkGraph,
    chunks: ChunkByUkey,
    groups: ChunkGroupByUkey,
    gs: Seq<u32>,
    c: ChunkUkey,
) -> Set<ChunkUkey>
    decreases gs.len(),
{
    if gs.len() == 0 {
        Set::empty()
    } else {
        let g = groups.get(gs.last());
        entry_dependents(graph, chunks, groups, gs.drop_last(), c).union(
            if g.is_entrypoint && g.entry_point_chunk is Some {
                from_entries(chunks, groups, graph.entries_of(g.entry_point_chunk.unwrap()), c, g.entry_point_chunk.unwrap())
            } else {
                Set::empty()
            },
        )
    }
}

/// Adds to `r` the qualifying chunks of group `g`.
fn add_qualifying(
    r: &mut Vec<ChunkUkey>,
    chunks: &ChunkByUkey,
    groups: &ChunkGroupByUkey,
    g: u32,
    c: ChunkUkey,
    ep: ChunkUkey,
)
    requires
        old(r)@.no_duplicates(),
        groups.contains(g),
        forall|j: int| 0 <= j < groups.get(g).chunks@.len() ==> chunks.contains(#[trigger] groups.get(g).chunks@[j]),
    ensures
        final(r)@.no_duplicates(),
        final(r)@.to_set() == old(r)@.to_set().union(qualifying(*chunks, *groups, g, c, ep)),
{
    let members = &groups.groups[g as usize].chunks;
    let ghost r0 = r@.to_set();
    let mut j: usize = 0;
    while j < members.len()
        invariant
            0 <= j <= members@.len(),
            *members == groups.get(g).chunks,
            forall|k: int| 0 <= k < members@.len() ==> chunks.contains(#[trigger] members@[k]),
            r@.no_duplicates(),
            r@.to_set() == r0.union(members@.subrange(0, j as int).to_set().filter(
                |d: ChunkUkey| d != c && d != ep && !has_runtime_spec(chunks.get(d), *groups),
            )),
        decreases members@.len() - j,
    {
        let d = members[j];
        let ghost before = r@;
        let keep = d != c && d != ep && !has_runtime(chunks.expect_get(&d), groups);
        if keep && ukey_position(r, d).is_none() {
            proof {
                lemma_push_no_duplicates(r@, d);
            }
            r.push(d);
        }
        j = j + 1;
        proof {
            assert(members@.subrange(0, j as int) =~= members@.subrange(0, j - 1).push(d));
            members@.subrange(0, j - 1).lemma_push_to_set_commute(d);
            if keep && !before.contains(d) {
                before.lemma_push_to_set_commute(d);
            }
            assert(r@.to_set() =~= r0.union(members@.subrange(0, j as int).to_set().filter(
                |x: ChunkUkey| x != c && x != ep && !has_runtime_spec(chunks.get(x), *groups),
            )));
        }
    }
    assert(members@.subrange(0, members@.len() as int) =~= members@);
}

impl ChunkGraph {
    /// The chunks that the entrypoints of `chunk_ukey`'s groups depend on;
    /// see `entry_dependents`.
    pub fn get_chunk_entry_dependent_chunks_iterable(
        &self,
        chunk_ukey: &ChunkUkey,
        chunk_by_ukey: &ChunkByUkey,
        chunk_group_by_ukey: &ChunkGroupByUkey,
    ) -> (r: Vec<ChunkUkey>)
        requires
            chunk_by_ukey.contains(*chunk_ukey),
            forall|i: int|
                0 <= i < chunk_by_ukey.get(*chunk_ukey).groups@.len() ==> chunk_group_by_ukey.contains(
                    #[trigger] chunk_by_ukey.get(*chunk_ukey).groups@[i],
                ),
            forall|g: u32|
                #[trigger] chunk_group_by_ukey.contains(g) && chunk_group_by_ukey.get(g).is_entrypoint
                    && chunk_group_by_ukey.get(g).entry_point_chunk is Some
                    ==> self.has_chunk(chunk_group_by_ukey.get(g).entry_point_chunk.unwrap()),
            forall|c: ChunkUkey, e: int|
                #![trigger self.entries_of(c)[e]]
                0 <= e < self.entries_of(c).len() ==> chunk_group_by_ukey.contains(self.entries_of(c)[e].1),
            forall|g: int, j: int|
                0 <= g < chunk_group_by_ukey.groups@.len() && 0 <= j < chunk_group_by_ukey.groups@[g].chunks@.len()
                    ==> chunk_by_ukey.contains(#[trigger] chunk_group_by_ukey.groups@[g].chunks@[j]),
        ensures
            r@.no_duplicates(),
            r@.to_set() == entry_dependents(
                *self,
                *chunk_by_ukey,
                *chunk_group_by_ukey,
                chunk_by_ukey.get(*chunk_ukey).groups@,
                *chunk_ukey,
            ),
    {
        let chunk = chunk_by_ukey.expect_get(chunk_ukey);
        let gs = &chunk.groups;
        let mut r: Vec<ChunkUkey> = Vec::new();
        let mut i: usize = 0;
        assert(gs@.subrange(0, 0) =~= Seq::<u32>::empty());
        assert(r@.to_set() =~= Set::<ChunkUkey>::empty());
        while i < gs.len()
            invariant
                0 <= i <= gs@.len(),
                *gs == chunk_by_ukey.get(*chunk_ukey).groups,
                forall|k: int| 0 <= k < gs@.len() ==> chunk_group_by_ukey.contains(#[trigger] gs@[k]),
                forall|g: u32|
                    #[trigger] chunk_group_by_ukey.contains(g) && chunk_group_by_ukey.get(g).is_entrypoint
                        && chunk_group_by_ukey.get(g).entry_point_chunk is Some
                        ==> self.has_chunk(chunk_group_by_ukey.get(g).entry_point_chunk.unwrap()),
                forall|c: ChunkUkey, e: int|
                    #![trigger self.entries_of(c)[e]]
                    0 <= e < self.entries_of(c).len() ==> chunk_group_by_ukey.contains(self.entries_of(c)[e].1),
                forall|g: int, j: int|
                    0 <= g < chunk_group_by_ukey.groups@.len() && 0 <= j < chunk_group_by_ukey.groups@[g].chunks@.len()
                        ==> chunk_by_ukey.contains(#[trigger] chunk_group_by_ukey.groups@[g].chunks@[j]),
                r@.no_duplicates(),
                r@.to_set() == entry_dependents(*self, *chunk_by_ukey, *chunk_group_by_ukey, gs@.subrange(0, i as int), *chunk_ukey),
            decreases gs@.len() - i,
        {
            let g = gs[i];
            let group = &chunk_group_by_ukey.groups[g as usize];
            let ghost before = r@.to_set();
            proof {
                assert(gs@.subrange(0, i + 1).drop_last() =~= gs@.subrange(0, i as int));
                assert(gs@.subrange(0, i + 1).last() == g);
            }
            if group.is_entrypoint {
                match group.entry_point_chunk {
                    Some(ep) => {
                        assert(chunk_group_by_ukey.contains(g));
                        assert(chunk_group_by_ukey.get(g).entry_point_chunk == Some(ep));
                        assert(forall|k: int| 0 <= k < self.entries_of(ep).len() ==> chunk_group_by_ukey.contains(#[trigger] self.entries_of(ep)[k].1));
                        let entries = self.chunk_entry_list_unchecked(&ep);
                        let ghost ev = self.entries_of(ep);
                        let mut e: usize = 0;
                        assert(ev.subrange(0, 0) =~= Seq::<(Seq<char>, u32)>::empty());
                        assert(before.union(Set::<ChunkUkey>::empty()) =~= before);
                        while e < entries.len()
                            invariant
                                0 <= e <= entries@.len(),
                                entry_pairs(entries@) == ev,
                                ev == self.entries_of(ep),
                                ev.len() == entries@.len(),
                                forall|k: int| 0 <= k < ev.len() ==> chunk_group_by_ukey.contains(#[trigger] ev[k].1),
                                forall|gg: int, j: int|
                                    0 <= gg < chunk_group_by_ukey.groups@.len() && 0 <= j < chunk_group_by_ukey.groups@[gg].chunks@.len()
                                        ==> chunk_by_ukey.contains(#[trigger] chunk_group_by_ukey.groups@[gg].chunks@[j]),
                                r@.no_duplicates(),
                                r@.to_set() == before.union(from_entries(*chunk_by_ukey, *chunk_group_by_ukey, ev.subrange(0, e as int), *chunk_ukey, ep)),
                            decreases entries@.len() - e,
                        {
                            let g2 = entries[e].1;
                            assert(ev[e as int].1 == g2);
                            assert(chunk_group_by_ukey.contains(ev[e as int].1));
                            let ghost mid = r@.to_set();
                            add_qualifying(&mut r, chunk_by_ukey, chunk_group_by_ukey, g2, *chunk_ukey, ep);
                            e = e + 1;
                            proof {
                                assert(ev.subrange(0, e as int).drop_last() =~= ev.subrange(0, e - 1));
                                assert(ev.subrange(0, e as int).last().1 == g2);
                                assert(r@.to_set() =~= before.union(from_entries(*chunk_by_ukey, *chunk_group_by_ukey, ev.subrange(0, e as int), *chunk_ukey, ep)));
                            }
                        }
                        proof {
                            assert(ev.subrange(0, ev.len() as int) =~= ev);
                            assert(r@.to_set() =~= entry_dependents(*self, *chunk_by_ukey, *chunk_group_by_ukey, gs@.subrange(0, i + 1), *chunk_ukey));
                        }
                    },
                    None => {
                        assert(r@.to_set() =~= entry_dependents(*self, *chunk_by_ukey, *chunk_group_by_ukey, gs@.subrange(0, i + 1), *chunk_ukey));
                    },
                }
            } else {
                assert(r@.to_set() =~= entry_dependents(*self, *chunk_by_ukey, *chunk_group_by_ukey, gs@.subrange(0, i + 1), *chunk_ukey));
            }
            i = i + 1;
        }
        assert(gs@.subrange(0, gs@.len() as int) =~= gs@);
        r
    }
}

} // verus!
