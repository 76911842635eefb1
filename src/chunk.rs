//! Chunks and chunk groups: the entities the chunk graph refers to by key.
//! Each lives in an arena at the index of its key.
use vstd::prelude::*;
use crate::ident::{contains_identifier, ids, text_lt};
use vstd::utf8::encode_utf8;
use crate::ukey_set::{
    lemma_push_no_duplicates, lemma_remove_index_to_set, ukey_insert, ukey_position, ukey_remove,
    ChunkGroupUkey, ChunkUkey,
};

verus! {

pub open spec fn opt_text(s: Option<String>) -> Option<Seq<char>> {
    match s {
        Some(x) => Some(x@),
        None => None,
    }
}

pub struct Chunk {
    pub ukey: ChunkUkey,
    pub name: Option<String>,
    pub id_name_hints: Vec<String>,
    /// The names of the runtimes this chunk is part of.
    pub runtime: Vec<String>,
    pub groups: Vec<ChunkGroupUkey>,
    pub prevent_integration: bool,
}

impl Chunk {
    pub open spec fn wf(&self) -> bool {
        &&& ids(self.id_name_hints@).no_duplicates()
        &&& ids(self.runtime@).no_duplicates()
        &&& self.groups@.no_duplicates()
    }

    pub fn new(ukey: ChunkUkey, name: Option<String>) -> (r: Self)
        ensures
            r.wf(),
            r.ukey == ukey,
            r.name == name,
            r.id_name_hints@.len() == 0,
            r.runtime@.len() == 0,
            r.groups@.len() == 0,
            !r.prevent_integration,
    {
        let r = Chunk {
            ukey,
            name,
            id_name_hints: Vec::new(),
            runtime: Vec::new(),
            groups: Vec::new(),
            prevent_integration: false,
        };
        assert(ids(r.id_name_hints@) =~= Seq::<Seq<char>>::empty());
        assert(ids(r.runtime@) =~= Seq::<Seq<char>>::empty());
        r
    }

    pub fn is_in_group(&self, group: ChunkGroupUkey) -> (r: bool)
        ensures
            r == self.groups@.contains(group),
    {
        ukey_position(&self.groups, group).is_some()
    }

    pub fn add_group(&mut self, group: ChunkGroupUkey)
        requires
            old(self).wf(),
        ensures
            final(self).wf(),
            final(self).groups@.to_set() == old(self).groups@.to_set().insert(group),
            final(self).ukey == old(self).ukey,
            final(self).name == old(self).name,
            final(self).id_name_hints == old(self).id_name_hints,
            final(self).runtime == old(self).runtime,
            final(self).prevent_integration == old(self).prevent_integration,
    {
        ukey_insert(&mut self.groups, group);
    }

    pub fn remove_group(&mut self, group: ChunkGroupUkey)
        requires
            old(self).wf(),
        ensures
            final(self).wf(),
            final(self).groups@.to_set() == old(self).groups@.to_set().remove(group),
            final(self).ukey == old(self).ukey,
            final(self).name == old(self).name,
            final(self).id_name_hints == old(self).id_name_hints,
            final(self).runtime == old(self).runtime,
            final(self).prevent_integration == old(self).prevent_integration,
    {
        ukey_remove(&mut self.groups, group);
    }
}

/// Adds to `a` each text of `b` that it lacks, after its own.
pub fn union_texts(a: &mut Vec<String>, b: &Vec<String>)
    requires
        ids(old(a)@).no_duplicates(),
    ensures
        ids(final(a)@).no_duplicates(),
        ids(final(a)@).to_set() == ids(old(a)@).to_set().union(ids(b@).to_set()),
{
    let ghost a0 = ids(a@);
    let mut i: usize = 0;
    while i < b.len()
        invariant
            0 <= i <= b@.len(),
            ids(a@).no_duplicates(),
            ids(a@).to_set() == a0.to_set().union(ids(b@.subrange(0, i as int)).to_set()),
        decreases b@.len() - i,
    {
        let x = b[i].clone();
        proof {
            assert(ids(b@.subrange(0, i + 1)) =~= ids(b@.subrange(0, i as int)).push(x@));
            ids(b@.subrange(0, i as int)).lemma_push_to_set_commute(x@);
        }
        if !contains_identifier(a, &x) {
            proof {
                lemma_push_no_duplicates(ids(a@), x@);
                assert(ids(a@.push(x)) =~= ids(a@).push(x@));
            }
            a.push(x);
        }
        i = i + 1;
        assert(ids(a@).to_set() =~= a0.to_set().union(ids(b@.subrange(0, i as int)).to_set()));
    }
    assert(b@.subrange(0, b@.len() as int) =~= b@);
}

/// The name a chunk takes when it is merged with another: of two names,
/// the shorter in UTF-8 bytes (the first in text order among equals),
/// unless just one side has entry modules, whose name wins; else the only
/// name there is.
pub open spec fn integrated_name(
    a: Option<Seq<char>>,
    b: Option<Seq<char>>,
    a_has_entries: bool,
    b_has_entries: bool,
) -> Option<Seq<char>> {
    match (a, b) {
        (Some(x), Some(y)) => if a_has_entries == b_has_entries {
            if encode_utf8(x).len() != encode_utf8(y).len() {
                if encode_utf8(x).len() < encode_utf8(y).len() {
                    Some(x)
                } else {
                    Some(y)
                }
            } else if text_lt(x, y) {
                Some(x)
            } else {
                Some(y)
            }
        } else if b_has_entries {
            Some(y)
        } else {
            Some(x)
        },
        (None, Some(y)) => Some(y),
        (_, None) => a,
    }
}

pub struct ChunkGroup {
    pub ukey: ChunkGroupUkey,
    pub is_entrypoint: bool,
    /// Loaded eagerly at startup rather than on demand.
    pub initial: bool,
    pub runtime_chunk: Option<ChunkUkey>,
    /// The chunk an entrypoint group starts from.
    pub entry_point_chunk: Option<ChunkUkey>,
    pub chunks: Vec<ChunkUkey>,
    pub parents: Vec<ChunkGroupUkey>,
    pub children: Vec<ChunkGroupUkey>,
}

impl ChunkGroup {
    pub open spec fn wf(&self) -> bool {
        self.chunks@.no_duplicates()
    }

    pub fn remove_chunk(&mut self, chunk: ChunkUkey)
        requires
            old(self).wf(),
        ensures
            final(self).wf(),
            final(self).chunks@.to_set() == old(self).chunks@.to_set().remove(chunk),
            final(self).ukey == old(self).ukey,
            final(self).is_entrypoint == old(self).is_entrypoint,
            final(self).initial == old(self).initial,
            final(self).runtime_chunk == old(self).runtime_chunk,
            final(self).entry_point_chunk == old(self).entry_point_chunk,
            final(self).parents == old(self).parents,
            final(self).children == old(self).children,
    {
        ukey_remove(&mut self.chunks, chunk);
    }

    /// Makes the group refer to `new_chunk` where it referred to
    /// `old_chunk`; the new chunk keeps the earlier of the two places.
    pub fn replace_chunk(&mut self, old_chunk: &ChunkUkey, new_chunk: &ChunkUkey) -> (r: bool)
        requires
            old(self).wf(),
            *old_chunk != *new_chunk,
        ensures
            final(self).wf(),
            r == old(self).chunks@.contains(*old_chunk),
            final(self).chunks@.to_set() == if r {
                old(self).chunks@.to_set().remove(*old_chunk).insert(*new_chunk)
            } else {
                old(self).chunks@.to_set()
            },
            final(self).runtime_chunk == if old(self).runtime_chunk == Some(*old_chunk) {
                Some(*new_chunk)
            } else {
                old(self).runtime_chunk
            },
            final(self).entry_point_chunk == if old(self).entry_point_chunk == Some(*old_chunk) {
                Some(*new_chunk)
            } else {
                old(self).entry_point_chunk
            },
            final(self).ukey == old(self).ukey,
            final(self).is_entrypoint == old(self).is_entrypoint,
            final(self).initial == old(self).initial,
            final(self).parents == old(self).parents,
            final(self).children == old(self).children,
    {
        if self.runtime_chunk == Some(*old_chunk) {
            self.runtime_chunk = Some(*new_chunk);
        }
        if self.entry_point_chunk == Some(*old_chunk) {
            self.entry_point_chunk = Some(*new_chunk);
        }
        let ghost s = self.chunks@;
        match ukey_position(&self.chunks, *old_chunk) {
            None => false,
            Some(old_idx) => {
                match ukey_position(&self.chunks, *new_chunk) {
                    None => {
                        self.chunks.set(old_idx, *new_chunk);
                        proof {
                            let t = s.update(old_idx as int, *new_chunk);
                            assert(t =~= s.remove(old_idx as int).insert(old_idx as int, *new_chunk));
                            lemma_remove_index_to_set(s, old_idx as int);
                            assert(!s.remove(old_idx as int).contains(*new_chunk)) by {
                                assert(!s.remove(old_idx as int).to_set().contains(*new_chunk));
                            }
                            crate::ident::lemma_insert_to_set(s.remove(old_idx as int), old_idx as int, *new_chunk);
                            assert forall|x: int, y: int| 0 <= x < y < t.len() implies t[x] != t[y] by {
                                if x == old_idx as int {
                                    assert(s.contains(t[y]));
                                } else if y == old_idx as int {
                                    assert(s.contains(t[x]));
                                }
                            }
                        }
                        true
                    },
                    Some(new_idx) => {
                        if new_idx < old_idx {
                            proof {
                                lemma_remove_index_to_set(s, old_idx as int);
                                assert(s.to_set().remove(*old_chunk).insert(*new_chunk) =~= s.to_set().remove(*old_chunk)) by {
                                    assert(s.to_set().remove(*old_chunk).contains(*new_chunk));
                                }
                            }
                            self.chunks.remove(old_idx);
                        } else {
                            self.chunks.set(old_idx, *new_chunk);
                            proof {
                                lemma_remove_index_to_set(s, new_idx as int);
                                let t = s.update(old_idx as int, *new_chunk);
                                assert(t.remove(new_idx as int) =~= s.remove(new_idx as int).update(old_idx as int, *new_chunk));
                                let u = s.remove(new_idx as int);
                                assert(u[old_idx as int] == *old_chunk);
                                lemma_remove_index_to_set(u, old_idx as int);
                                assert(u.update(old_idx as int, *new_chunk) =~= u.remove(old_idx as int).insert(old_idx as int, *new_chunk));
                                crate::ident::lemma_insert_to_set(u.remove(old_idx as int), old_idx as int, *new_chunk);
                                assert(!u.remove(old_idx as int).contains(*new_chunk)) by {
                                    assert(!u.remove(old_idx as int).to_set().contains(*new_chunk));
                                }
                                let w = u.update(old_idx as int, *new_chunk);
                                assert forall|x: int, y: int| 0 <= x < y < w.len() implies w[x] != w[y] by {
                                    if x == old_idx as int {
                                        assert(u.remove(old_idx as int).contains(w[y])) by {
                                            assert(w[y] == u.remove(old_idx as int)[y - 1]);
                                        }
                                    } else if y == old_idx as int {
                                        assert(u.remove(old_idx as int).contains(w[x])) by {
                                            assert(w[x] == u.remove(old_idx as int)[x]);
                                        }
                                    } else {
                                        assert(w[x] == u[x] && w[y] == u[y]);
                                    }
                                }
                                assert(s.to_set().remove(*new_chunk).remove(*old_chunk).insert(*new_chunk) =~= s.to_set().remove(*old_chunk).insert(*new_chunk));
                            }
                            self.chunks.remove(new_idx);
                        }
                        true
                    },
                }
            },
        }
    }
}

/// The chunks, each at the index of its key.
pub struct ChunkByUkey {
    pub chunks: Vec<Chunk>,
}

impl ChunkByUkey {
    pub open spec fn wf(&self) -> bool {
        forall|i: int|
            0 <= i < self.chunks@.len() ==> (#[trigger] self.chunks@[i]).ukey == i && self.chunks@[i].wf()
    }

    pub open spec fn contains(&self, c: ChunkUkey) -> bool {
        (c as int) < self.chunks@.len()
    }

    pub open spec fn get(&self, c: ChunkUkey) -> Chunk {
        self.chunks@[c as int]
    }

    pub fn expect_get(&self, c: &ChunkUkey) -> (r: &Chunk)
        requires
            self.contains(*c),
        ensures
            *r == self.get(*c),
    {
        &self.chunks[*c as usize]
    }
}

/// The chunk groups, each at the index of its key.
pub struct ChunkGroupByUkey {
    pub groups: Vec<ChunkGroup>,
}

impl ChunkGroupByUkey {
    pub open spec fn wf(&self) -> bool {
        forall|i: int|
            0 <= i < self.groups@.len() ==> (#[trigger] self.groups@[i]).ukey == i && self.groups@[i].wf()
    }

    pub open spec fn contains(&self, g: ChunkGroupUkey) -> bool {
        (g as int) < self.groups@.len()
    }

    pub open spec fn get(&self, g: ChunkGroupUkey) -> ChunkGroup {
        self.groups@[g as int]
    }

    /// Every group that chunk `c` is in, and every parent of a group, is
    /// in the arena.
    pub open spec fn closed_for(&self, c: Chunk) -> bool {
        &&& forall|i: int| 0 <= i < c.groups@.len() ==> self.contains(#[trigger] c.groups@[i])
        &&& forall|g: int, j: int|
            0 <= g < self.groups@.len() && 0 <= j < self.groups@[g].parents@.len() ==> self.contains(
                #[trigger] self.groups@[g].parents@[j],
            )
    }

    pub fn expect_get(&self, g: &ChunkGroupUkey) -> (r: &ChunkGroup)
        requires
            self.contains(*g),
        ensures
            *r == self.get(*g),
    {
        &self.groups[*g as usize]
    }
}

/// A chunk has a runtime when it is the runtime chunk of an entrypoint
/// group it is in.
pub open spec fn has_runtime_spec(c: Chunk, groups: ChunkGroupByUkey) -> bool {
    exists|i: int|
        0 <= i < c.groups@.len() && groups.contains(c.groups@[i]) && #[trigger] groups.get(
            c.groups@[i],
        ).is_entrypoint && groups.get(c.groups@[i]).runtime_chunk == Some(c.ukey)
}

/// A chunk can be initial when one of its groups is initial.
pub open spec fn can_be_initial_spec(c: Chunk, groups: ChunkGroupByUkey) -> bool {
    exists|i: int|
        0 <= i < c.groups@.len() && groups.contains(c.groups@[i]) && #[trigger] groups.get(
            c.groups@[i],
        ).initial
}

pub fn has_runtime(c: &Chunk, groups: &ChunkGroupByUkey) -> (r: bool)
    ensures
        r == has_runtime_spec(*c, *groups),
{
    let mut i: usize = 0;
    while i < c.groups.len()
        invariant
            0 <= i <= c.groups@.len(),
            forall|j: int|
                0 <= j < i ==> !(groups.contains(c.groups@[j]) && #[trigger] groups.get(
                    c.groups@[j],
                ).is_entrypoint && groups.get(c.groups@[j]).runtime_chunk == Some(c.ukey)),
        decreases c.groups@.len() - i,
    {
        let g = c.groups[i];
        if (g as usize) < groups.groups.len() {
            let group = &groups.groups[g as usize];
            if group.is_entrypoint && group.runtime_chunk == Some(c.ukey) {
                assert(groups.get(c.groups@[i as int]).is_entrypoint);
                return true;
            }
        }
        i = i + 1;
    }
    false
}

pub fn can_be_initial(c: &Chunk, groups: &ChunkGroupByUkey) -> (r: bool)
    ensures
        r == can_be_initial_spec(*c, *groups),
{
    let mut i: usize = 0;
    while i < c.groups.len()
        invariant
            0 <= i <= c.groups@.len(),
            forall|j: int|
                0 <= j < i ==> !(groups.contains(c.groups@[j]) && #[trigger] groups.get(
                    c.groups@[j],
                ).initial),
        decreases c.groups@.len() - i,
    {
        let g = c.groups[i];
        if (g as usize) < groups.groups.len() && groups.groups[g as usize].initial {
            assert(groups.get(c.groups@[i as int]).initial);
            return true;
        }
        i = i + 1;
    }
    false
}

} // verus!
