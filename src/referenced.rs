//! The chunks a chunk refers to through its groups and their children, and
//! a per-chunk flag for each of them keyed by chunk id.
use vstd::prelude::*;
use crate::artifacts::ChunkIdsArtifact;
use crate::chunk::{Chunk, ChunkByUkey, ChunkGroupByUkey};
use crate::chunk_graph::ChunkGraph;
use crate::keyed::{has_key, key_position, keyed_get, keys_unique, lemma_keyed_push, lemma_keyed_update, swap_value};
use crate::ukey_set::{copy_ukeys, lemma_push_no_duplicates, ukey_position, ChunkUkey};

verus! {

/// Group `g` is met in at most `n` steps from the groups `start` through
/// child groups.
pub open spec fn child_walk(groups: ChunkGroupByUkey, start: Seq<u32>, g: u32, n: nat) -> bool
    decreases n,
{
    if n == 0 {
        start.contains(g)
    } else {
        child_walk(groups, start, g, (n - 1) as nat) || exists|w: u32|
            child_walk(groups, start, w, (n - 1) as nat) && #[trigger] groups.get(w).children@.contains(g)
    }
}

pub open spec fn child_reached(groups: ChunkGroupByUkey, start: Seq<u32>, g: u32) -> bool {
    exists|n: nat| #[trigger] child_walk(groups, start, g, n)
}

/// Chunk `d` belongs to a group that chunk `c` reaches through its groups
/// and their children.
pub open spec fn references(groups: ChunkGroupByUkey, c: Chunk, d: ChunkUkey) -> bool {
    exists|g: u32| #[trigger] child_reached(groups, c.groups@, g) && groups.get(g).chunks@.contains(d)
}

/// Every group of `c`, and every child of a group, is in the arena.
pub open spec fn children_closed(groups: ChunkGroupByUkey, c: Chunk) -> bool {
    &&& forall|i: int| 0 <= i < c.groups@.len() ==> groups.contains(#[trigger] c.groups@[i])
    &&& forall|g: int, j: int|
        0 <= g < groups.groups@.len() && 0 <= j < groups.groups@[g].children@.len() ==> groups.contains(
            #[trigger] groups.groups@[g].children@[j],
        )
}

proof fn lemma_child_walk_closed(groups: ChunkGroupByUkey, start: Seq<u32>, vs: Set<u32>, g: u32, n: nat)
    requires
        forall|x: u32| start.contains(x) ==> vs.contains(x),
        forall|w: u32, x: u32| vs.contains(w) && #[trigger] groups.get(w).children@.contains(x) ==> vs.contains(x),
        child_walk(groups, start, g, n),
    ensures
        vs.contains(g),
    decreases n,
{
    if n > 0 {
        if child_walk(groups, start, g, (n - 1) as nat) {
            lemma_child_walk_closed(groups, start, vs, g, (n - 1) as nat);
        } else {
            let w = choose|w: u32| child_walk(groups, start, w, (n - 1) as nat) && #[trigger] groups.get(w).children@.contains(g);
            lemma_child_walk_closed(groups, start, vs, w, (n - 1) as nat);
        }
    }
}

/// The groups that chunk `c` reaches through its groups and their
/// children, each once.
fn reached_groups(c: &Chunk, groups: &ChunkGroupByUkey) -> (r: Vec<u32>)
    requires
        groups.wf(),
        children_closed(*groups, *c),
        c.wf(),
    ensures
        r@.no_duplicates(),
        forall|g: u32| #[trigger] r@.contains(g) <==> child_reached(*groups, c.groups@, g),
        forall|k: int| 0 <= k < r@.len() ==> groups.contains(#[trigger] r@[k]),
{
    let glen = groups.groups.len();
    let mut universe: Vec<u32> = Vec::new();
    let mut u: usize = 0;
    while u < glen && (u as u64) <= (u32::MAX as u64)
        invariant
            0 <= u <= glen,
            glen == groups.groups@.len(),
            universe@.len() == u,
            forall|k: int| 0 <= k < u ==> universe@[k] == k,
        decreases glen - u,
    {
        universe.push(u as u32);
        u = u + 1;
    }
    assert(universe@.len() >= glen || universe@.len() > u32::MAX);
    let ghost uset = universe@.to_set();
    let ghost start = c.groups@;
    let mut visited = copy_ukeys(&c.groups);
    let mut p: usize = 0;
    proof {
        assert forall|x: u32| groups.contains(x) implies #[trigger] uset.contains(x) by {
            assert(universe@[x as int] == x);
        }
        universe@.lemma_cardinality_of_set();
        assert forall|x: u32| visited@.to_set().contains(x) implies uset.contains(x) by {
            let k = choose|k: int| 0 <= k < visited@.len() && visited@[k] == x;
            assert(groups.contains(c.groups@[k]));
        }
        vstd::set_lib::lemma_len_subset(visited@.to_set(), uset);
        visited@.unique_seq_to_set();
        assert forall|k: int| 0 <= k < visited@.len() implies child_reached(*groups, start, #[trigger] visited@[k]) by {
            assert(start.contains(visited@[k]));
            assert(child_walk(*groups, start, visited@[k], 0));
        }
    }
    while p < visited.len()
        invariant
            groups.wf(),
            children_closed(*groups, *c),
            glen == groups.groups@.len(),
            start == c.groups@,
            0 <= p <= visited@.len(),
            visited@.no_duplicates(),
            uset == universe@.to_set(),
            uset.finite(),
            forall|x: u32| groups.contains(x) ==> #[trigger] uset.contains(x),
            forall|k: int| 0 <= k < visited@.len() ==> groups.contains(#[trigger] visited@[k]),
            visited@.to_set().subset_of(uset),
            visited@.len() <= uset.len(),
            forall|x: u32| start.contains(x) ==> visited@.contains(x),
            forall|k: int| 0 <= k < visited@.len() ==> child_reached(*groups, start, #[trigger] visited@[k]),
            forall|k: int, x: u32| 0 <= k < p && #[trigger] groups.get(visited@[k]).children@.contains(x) ==> visited@.contains(x),
        decreases (uset.len() - visited@.len()) + (uset.len() - p),
    {
        let g = visited[p];
        let children = &groups.groups[g as usize].children;
        let mut k: usize = 0;
        let ghost vlen0 = visited@.len();
        let ghost vis0 = visited@;
        while k < children.len()
            invariant
                groups.wf(),
                children_closed(*groups, *c),
                glen == groups.groups@.len(),
                start == c.groups@,
                0 <= k <= children@.len(),
                (g as int) < glen,
                *children == groups.get(g).children,
                p < visited@.len(),
                visited@[p as int] == g,
                visited@.len() >= vlen0,
                forall|j: int| 0 <= j < vlen0 ==> visited@[j] == vis0[j],
                visited@.no_duplicates(),
                uset == universe@.to_set(),
                uset.finite(),
                forall|x: u32| groups.contains(x) ==> #[trigger] uset.contains(x),
                forall|j: int| 0 <= j < visited@.len() ==> groups.contains(#[trigger] visited@[j]),
                visited@.to_set().subset_of(uset),
                visited@.len() <= uset.len(),
                forall|j: int| 0 <= j < visited@.len() ==> child_reached(*groups, start, #[trigger] visited@[j]),
                forall|kk: int| 0 <= kk < k ==> visited@.contains(#[trigger] children@[kk]),
            decreases children@.len() - k,
        {
            let x = children[k];
            if ukey_position(&visited, x).is_none() {
                proof {
                    assert(groups.contains(groups.groups@[g as int].children@[k as int]));
                    lemma_push_no_duplicates(visited@, x);
                    visited@.push(x).unique_seq_to_set();
                    visited@.lemma_push_to_set_commute(x);
                    vstd::set_lib::lemma_len_subset(visited@.push(x).to_set(), uset);
                    let n = choose|n: nat| #[trigger] child_walk(*groups, start, visited@[p as int], n);
                    assert(groups.get(g).children@.contains(x)) by {
                        assert(children@[k as int] == x);
                    }
                    assert(child_walk(*groups, start, x, n + 1));
                }
                let ghost before = visited@;
                visited.push(x);
                proof {
                    assert forall|j: int| 0 <= j < visited@.len() implies child_reached(*groups, start, #[trigger] visited@[j]) by {
                        if j < before.len() {
                            assert(visited@[j] == before[j]);
                        } else {
                            let n = choose|n: nat| #[trigger] child_walk(*groups, start, before[p as int], n);
                            assert(child_walk(*groups, start, x, n + 1));
                        }
                    }
                    assert forall|kk: int| 0 <= kk < k + 1 implies visited@.contains(#[trigger] children@[kk]) by {
                        if kk < k {
                            let j = choose|j: int| 0 <= j < before.len() && before[j] == children@[kk];
                            assert(visited@[j] == children@[kk]);
                        } else {
                            assert(visited@[before.len() as int] == x);
                        }
                    }
                }
            }
            k = k + 1;
        }
        proof {
            assert forall|kk: int, x: u32| 0 <= kk < p + 1 && #[trigger] groups.get(visited@[kk]).children@.contains(x) implies visited@.contains(x) by {
                if kk < p {
                    assert(visited@[kk] == vis0[kk]);
                    assert(groups.get(vis0[kk]).children@.contains(x));
                    assert(vis0.contains(x));
                    let j = choose|j: int| 0 <= j < vis0.len() && vis0[j] == x;
                    assert(visited@[j] == x);
                } else {
                    let j = choose|j: int| 0 <= j < children@.len() && children@[j] == x;
                }
            }
            assert forall|x: u32| start.contains(x) implies visited@.contains(x) by {
                assert(vis0.contains(x));
                let j = choose|j: int| 0 <= j < vis0.len() && vis0[j] == x;
                assert(visited@[j] == x);
            }
        }
        p = p + 1;
    }
    proof {
        let vs = visited@.to_set();
        assert forall|w: u32, x: u32| vs.contains(w) && #[trigger] groups.get(w).children@.contains(x) implies vs.contains(x) by {
            let j = choose|j: int| 0 <= j < visited@.len() && visited@[j] == w;
            assert(groups.get(visited@[j]).children@.contains(x));
            assert(visited@.contains(x));
        }
        assert forall|g: u32| #[trigger] visited@.contains(g) <==> child_reached(*groups, c.groups@, g) by {
            if visited@.contains(g) {
                let j = choose|j: int| 0 <= j < visited@.len() && visited@[j] == g;
                assert(child_reached(*groups, start, visited@[j]));
            }
            if child_reached(*groups, c.groups@, g) {
                let n = choose|n: nat| #[trigger] child_walk(*groups, start, g, n);
                lemma_child_walk_closed(*groups, start, vs, g, n);
            }
        }
    }
    visited
}

impl ChunkGraph {
    /// The chunks of every group that `chunk` reaches through its groups
    /// and their children, each once.
    pub fn get_all_referenced_chunks(chunk: &Chunk, chunk_group_by_ukey: &ChunkGroupByUkey) -> (r: Vec<ChunkUkey>)
        requires
            chunk_group_by_ukey.wf(),
            children_closed(*chunk_group_by_ukey, *chunk),
            chunk.wf(),
        ensures
            r@.no_duplicates(),
            forall|d: ChunkUkey| #[trigger] r@.contains(d) <==> references(*chunk_group_by_ukey, *chunk, d),
    {
        let reached = reached_groups(chunk, chunk_group_by_ukey);
        let mut r: Vec<ChunkUkey> = Vec::new();
        let mut i: usize = 0;
        while i < reached.len()
            invariant
                0 <= i <= reached@.len(),
                forall|k: int| 0 <= k < reached@.len() ==> chunk_group_by_ukey.contains(#[trigger] reached@[k]),
                r@.no_duplicates(),
                forall|d: ChunkUkey| #[trigger] r@.contains(d) <==> exists|k: int| 0 <= k < i && #[trigger] chunk_group_by_ukey.get(reached@[k]).chunks@.contains(d),
            decreases reached@.len() - i,
        {
            let g = reached[i];
            let chunks = &chunk_group_by_ukey.groups[g as usize].chunks;
            let mut j: usize = 0;
            while j < chunks.len()
                invariant
                    0 <= j <= chunks@.len(),
                    i < reached@.len(),
                    reached@[i as int] == g,
                    (g as int) < chunk_group_by_ukey.groups@.len(),
                    *chunks == chunk_group_by_ukey.get(g).chunks,
                    r@.no_duplicates(),
                    forall|d: ChunkUkey| #[trigger] r@.contains(d) <==> (exists|k: int| 0 <= k < i && #[trigger] chunk_group_by_ukey.get(reached@[k]).chunks@.contains(d))
                        || (exists|jj: int| 0 <= jj < j && chunks@[jj] == d),
                decreases chunks@.len() - j,
            {
                let d = chunks[j];
                let ghost before = r@;
                if ukey_position(&r, d).is_none() {
                    proof {
                        lemma_push_no_duplicates(r@, d);
                    }
                    r.push(d);
                }
                j = j + 1;
                proof {
                    assert forall|x: ChunkUkey| #[trigger] r@.contains(x) <==> (exists|k: int| 0 <= k < i && #[trigger] chunk_group_by_ukey.get(reached@[k]).chunks@.contains(x))
                        || (exists|jj: int| 0 <= jj < j && chunks@[jj] == x) by {
                        if r@.contains(x) && !before.contains(x) {
                            assert(x == d);
                            assert(chunks@[j - 1] == x);
                        }
                        if before.contains(x) {
                            let w = choose|w: int| 0 <= w < before.len() && before[w] == x;
                            assert(r@[w] == x);
                        }
                        if exists|jj: int| 0 <= jj < j && chunks@[jj] == x {
                            let jj = choose|jj: int| 0 <= jj < j && chunks@[jj] == x;
                            if jj == j - 1 {
                                if !before.contains(x) {
                                    assert(r@[before.len() as int] == x);
                                }
                            }
                        }
                    }
                }
            }
            proof {
                assert forall|x: ChunkUkey| #[trigger] r@.contains(x) <==> exists|k: int| 0 <= k < i + 1 && #[trigger] chunk_group_by_ukey.get(reached@[k]).chunks@.contains(x) by {
                    if r@.contains(x) {
                        if !(exists|k: int| 0 <= k < i && #[trigger] chunk_group_by_ukey.get(reached@[k]).chunks@.contains(x)) {
                            let jj = choose|jj: int| 0 <= jj < j && chunks@[jj] == x;
                            assert(chunk_group_by_ukey.get(reached@[i as int]).chunks@.contains(x));
                        }
                    }
                    if exists|k: int| 0 <= k < i + 1 && #[trigger] chunk_group_by_ukey.get(reached@[k]).chunks@.contains(x) {
                        let k = choose|k: int| 0 <= k < i + 1 && #[trigger] chunk_group_by_ukey.get(reached@[k]).chunks@.contains(x);
                        if k == i {
                            let jj = choose|jj: int| 0 <= jj < chunks@.len() && chunks@[jj] == x;
                        }
                    }
                }
            }
            i = i + 1;
        }
        proof {
            assert forall|d: ChunkUkey| #[trigger] r@.contains(d) <==> references(*chunk_group_by_ukey, *chunk, d) by {
                if r@.contains(d) {
                    let k = choose|k: int| 0 <= k < reached@.len() && #[trigger] chunk_group_by_ukey.get(reached@[k]).chunks@.contains(d);
                    assert(reached@.contains(reached@[k]));
                    assert(child_reached(*chunk_group_by_ukey, chunk.groups@, reached@[k]));
                }
                if references(*chunk_group_by_ukey, *chunk, d) {
                    let g = choose|g: u32| #[trigger] child_reached(*chunk_group_by_ukey, chunk.groups@, g) && chunk_group_by_ukey.get(g).chunks@.contains(d);
                    assert(reached@.contains(g));
                    let k = choose|k: int| 0 <= k < reached@.len() && reached@[k] == g;
                    assert(chunk_group_by_ukey.get(reached@[k]).chunks@.contains(d));
                }
            }
        }
        r
    }

    /// For each chunk that `chunk_ukey` references (see `references`), its
    /// id text with the value of `flags` at its key: the result of a
    /// caller's predicate on that chunk.
    pub fn get_chunk_condition_map(
        &self,
        chunk_ukey: &ChunkUkey,
        chunk_by_ukey: &ChunkByUkey,
        chunk_group_by_ukey: &ChunkGroupByUkey,
        chunk_ids: &ChunkIdsArtifact,
        flags: &Vec<bool>,
    ) -> (r: Vec<(String, bool)>)
        requires
            chunk_by_ukey.wf(),
            chunk_by_ukey.contains(*chunk_ukey),
            chunk_group_by_ukey.wf(),
            children_closed(*chunk_group_by_ukey, chunk_by_ukey.get(*chunk_ukey)),
            forall|d: ChunkUkey|
                #[trigger] references(*chunk_group_by_ukey, chunk_by_ukey.get(*chunk_ukey), d)
                    ==> chunk_ids.get(d) is Some && (d as int) < flags@.len(),
        ensures
            keys_unique(r@),
            forall|k: Seq<char>|
                #[trigger] has_key(r@, k) <==> exists|d: ChunkUkey|
                    references(*chunk_group_by_ukey, chunk_by_ukey.get(*chunk_ukey), d)
                        && #[trigger] chunk_ids.get(d).unwrap().text() == k,
            forall|k: Seq<char>|
                #[trigger] has_key(r@, k) ==> exists|d: ChunkUkey|
                    references(*chunk_group_by_ukey, chunk_by_ukey.get(*chunk_ukey), d)
                        && #[trigger] chunk_ids.get(d).unwrap().text() == k && keyed_get(r@, k) == Some(flags@[d as int]),
    {
        let chunk = chunk_by_ukey.expect_get(chunk_ukey);
        let ghost c = chunk_by_ukey.get(*chunk_ukey);
        let refs = Self::get_all_referenced_chunks(chunk, chunk_group_by_ukey);
        let mut r: Vec<(String, bool)> = Vec::new();
        let mut i: usize = 0;
        proof {
            assert(crate::keyed::keys_of(r@) =~= Seq::<Seq<char>>::empty());
        }
        while i < refs.len()
            invariant
                0 <= i <= refs@.len(),
                *chunk == c,
                forall|d: ChunkUkey| #[trigger] refs@.contains(d) <==> references(*chunk_group_by_ukey, c, d),
                forall|d: ChunkUkey|
                    #[trigger] references(*chunk_group_by_ukey, c, d) ==> chunk_ids.get(d) is Some && (d as int) < flags@.len(),
                keys_unique(r@),
                forall|k: Seq<char>|
                    #[trigger] has_key(r@, k) <==> exists|j: int| 0 <= j < i && #[trigger] chunk_ids.get(refs@[j]).unwrap().text() == k,
                forall|k: Seq<char>|
                    #[trigger] has_key(r@, k) ==> exists|j: int|
                        0 <= j < i && #[trigger] chunk_ids.get(refs@[j]).unwrap().text() == k && keyed_get(r@, k) == Some(flags@[refs@[j] as int]),
            decreases refs@.len() - i,
        {
            let d = refs[i];
            assert(refs@.contains(d));
            let id = match &chunk_ids.by_chunk[d as usize] {
                Some(id) => id.inner.clone(),
                None => {
                    assert(false);
                    String::new()
                },
            };
            let flag = flags[d as usize];
            let ghost before = r@;
            let ghost kv = id@;
            assert(kv == chunk_ids.get(refs@[i as int]).unwrap().text());
            match key_position(&r, &id) {
                Some(p) => {
                    proof {
                        lemma_keyed_update(r@, p as int, r@[p as int].0, flag);
                    }
                    swap_value(&mut r, p, flag);
                },
                None => {
                    proof {
                        lemma_keyed_push(r@, id, flag);
                    }
                    r.push((id, flag));
                },
            }
            i = i + 1;
            proof {
                assert forall|k: Seq<char>| #[trigger] has_key(r@, k) <==> exists|j: int| 0 <= j < i && #[trigger] chunk_ids.get(refs@[j]).unwrap().text() == k by {
                    assert(has_key(r@, k) == (keyed_get(r@, k) is Some));
                    assert(has_key(before, k) == (keyed_get(before, k) is Some));
                    if k == kv {
                        assert(chunk_ids.get(refs@[i - 1]).unwrap().text() == k);
                    } else if exists|j: int| 0 <= j < i && #[trigger] chunk_ids.get(refs@[j]).unwrap().text() == k {
                        let j = choose|j: int| 0 <= j < i && #[trigger] chunk_ids.get(refs@[j]).unwrap().text() == k;
                        assert(j < i - 1);
                    }
                }
                assert forall|k: Seq<char>| #[trigger] has_key(r@, k) implies exists|j: int|
                    0 <= j < i && #[trigger] chunk_ids.get(refs@[j]).unwrap().text() == k && keyed_get(r@, k) == Some(flags@[refs@[j] as int]) by {
                    assert(has_key(r@, k) == (keyed_get(r@, k) is Some));
                    assert(has_key(before, k) == (keyed_get(before, k) is Some));
                    if k == kv {
                        assert(chunk_ids.get(refs@[i - 1]).unwrap().text() == k);
                        assert(keyed_get(r@, k) == Some(flags@[refs@[i - 1] as int]));
                    } else {
                        let j = choose|j: int|
                            0 <= j < i - 1 && #[trigger] chunk_ids.get(refs@[j]).unwrap().text() == k && keyed_get(before, k) == Some(flags@[refs@[j] as int]);
                        assert(keyed_get(r@, k) == keyed_get(before, k));
                    }
                }
            }
        }
        proof {
            assert forall|k: Seq<char>| #[trigger] has_key(r@, k) <==> exists|d: ChunkUkey|
                references(*chunk_group_by_ukey, c, d) && #[trigger] chunk_ids.get(d).unwrap().text() == k by {
                if has_key(r@, k) {
                    let j = choose|j: int| 0 <= j < refs@.len() && #[trigger] chunk_ids.get(refs@[j]).unwrap().text() == k;
                    assert(refs@.contains(refs@[j]));
                }
                if exists|d: ChunkUkey| references(*chunk_group_by_ukey, c, d) && #[trigger] chunk_ids.get(d).unwrap().text() == k {
                    let d = choose|d: ChunkUkey| references(*chunk_group_by_ukey, c, d) && #[trigger] chunk_ids.get(d).unwrap().text() == k;
                    assert(refs@.contains(d));
                    let j = choose|j: int| 0 <= j < refs@.len() && refs@[j] == d;
                    assert(chunk_ids.get(refs@[j]).unwrap().text() == k);
                }
            }
            assert forall|k: Seq<char>| #[trigger] has_key(r@, k) implies exists|d: ChunkUkey|
                references(*chunk_group_by_ukey, c, d) && #[trigger] chunk_ids.get(d).unwrap().text() == k && keyed_get(r@, k) == Some(flags@[d as int]) by {
                let j = choose|j: int|
                    0 <= j < refs@.len() && #[trigger] chunk_ids.get(refs@[j]).unwrap().text() == k && keyed_get(r@, k) == Some(flags@[refs@[j] as int]);
                assert(refs@.contains(refs@[j]));
            }
        }
        r
    }
}

} // verus!
