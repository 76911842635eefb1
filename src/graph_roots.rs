//! Graph roots: the nodes of a set that no other node of the set depends
//! on, and the root modules of a chunk.
use vstd::prelude::*;
use crate::chunk_graph::ChunkGraph;
use crate::ident::{contains_identifier, ids, insert_identifier, sort_identifiers, strictly_sorted, ModuleIdentifier};
use crate::module_graph::{ConnectionState, ModuleGraph};
use crate::ukey_set::{lemma_push_no_duplicates, ChunkUkey};

verus! {

/// No node of `items` other than `n` lists `n` among its dependencies.
pub open spec fn is_graph_root(items: Seq<Seq<char>>, deps: Seq<Seq<Seq<char>>>, n: Seq<char>) -> bool {
    forall|j: int| 0 <= j < items.len() && items[j] != n ==> !(#[trigger] deps[j]).contains(n)
}

/// The nodes of `items` that no other node of `items` depends on, in the
/// order of `items`; `dependencies[i]` lists the dependencies of
/// `items[i]`, which may lie outside `items` or form cycles.
pub fn find_graph_roots(items: &Vec<ModuleIdentifier>, dependencies: &Vec<Vec<ModuleIdentifier>>) -> (r: Vec<ModuleIdentifier>)
    requires
        items@.len() == dependencies@.len(),
        ids(items@).no_duplicates(),
    ensures
        ids(r@).no_duplicates(),
        forall|x: Seq<char>|
            #[trigger] ids(r@).contains(x) <==> ids(items@).contains(x) && is_graph_root(
                ids(items@),
                dependencies@.map_values(|d: Vec<ModuleIdentifier>| ids(d@)),
                x,
            ),
{
    let ghost deps = dependencies@.map_values(|d: Vec<ModuleIdentifier>| ids(d@));
    let mut r: Vec<ModuleIdentifier> = Vec::new();
    let mut i: usize = 0;
    while i < items.len()
        invariant
            0 <= i <= items@.len(),
            items@.len() == dependencies@.len(),
            ids(items@).no_duplicates(),
            deps == dependencies@.map_values(|d: Vec<ModuleIdentifier>| ids(d@)),
            ids(r@).no_duplicates(),
            forall|x: Seq<char>|
                #[trigger] ids(r@).contains(x) <==> ids(items@.subrange(0, i as int)).contains(x) && is_graph_root(ids(items@), deps, x),
        decreases items@.len() - i,
    {
        let n = &items[i];
        let mut root = true;
        let mut j: usize = 0;
        while j < items.len()
            invariant
                0 <= j <= items@.len(),
                items@.len() == dependencies@.len(),
                i < items@.len(),
                *n == items@[i as int],
                deps == dependencies@.map_values(|d: Vec<ModuleIdentifier>| ids(d@)),
                root == forall|k: int| 0 <= k < j && ids(items@)[k] != n@ ==> !(#[trigger] deps[k]).contains(n@),
            decreases items@.len() - j,
        {
            if items[j] != *n && contains_identifier(&dependencies[j], n) {
                assert(deps[j as int] == ids(dependencies@[j as int]@));
                root = false;
            }
            proof {
                assert(deps[j as int] == ids(dependencies@[j as int]@));
            }
            j = j + 1;
        }
        let ghost prefix = ids(items@.subrange(0, i as int));
        let ghost old_r = ids(r@);
        proof {
            assert(ids(items@.subrange(0, i + 1)) =~= prefix.push(n@));
            assert(!prefix.contains(n@)) by {
                if prefix.contains(n@) {
                    let k = choose|k: int| 0 <= k < prefix.len() && prefix[k] == n@;
                    assert(ids(items@)[k] == ids(items@)[i as int]);
                }
            }
            assert(root == is_graph_root(ids(items@), deps, n@));
        }
        if root {
            let nc = n.clone();
            proof {
                lemma_push_no_duplicates(ids(r@), n@);
                assert(ids(r@.push(nc)) =~= ids(r@).push(n@));
            }
            r.push(nc);
        }
        i = i + 1;
        proof {
            assert forall|x: Seq<char>| #[trigger] ids(r@).contains(x) <==> ids(items@.subrange(0, i as int)).contains(x) && is_graph_root(ids(items@), deps, x) by {
                let grown = ids(items@.subrange(0, i as int));
                assert(grown == prefix.push(n@));
                assert(grown.contains(x) == (prefix.contains(x) || x == n@)) by {
                    if grown.contains(x) && x != n@ {
                        let k = choose|k: int| 0 <= k < grown.len() && grown[k] == x;
                        assert(prefix[k] == x);
                    }
                    if prefix.contains(x) {
                        let k = choose|k: int| 0 <= k < prefix.len() && prefix[k] == x;
                        assert(grown[k] == x);
                    }
                    if x == n@ {
                        assert(grown[i - 1] == x);
                    }
                }
                if root {
                    assert(ids(r@) == old_r.push(n@));
                    assert(ids(r@).contains(x) == (old_r.contains(x) || x == n@)) by {
                        if ids(r@).contains(x) && x != n@ {
                            let k = choose|k: int| 0 <= k < ids(r@).len() && ids(r@)[k] == x;
                            assert(old_r[k] == x);
                        }
                        if old_r.contains(x) {
                            let k = choose|k: int| 0 <= k < old_r.len() && old_r[k] == x;
                            assert(ids(r@)[k] == x);
                        }
                        if x == n@ {
                            assert(ids(r@)[old_r.len() as int] == x);
                        }
                    }
                } else {
                    assert(ids(r@) == old_r);
                }
            }
        }
    }
    assert(items@.subrange(0, items@.len() as int) =~= items@);
    r
}

/// `v` passes through a transitive-only connection to `t`.
pub open spec fn transitive_step(mg: ModuleGraph, v: Seq<char>, t: Seq<char>) -> bool {
    mg.has(v) && exists|k: int|
        0 <= k < mg.info(v).outgoing_connections@.len()
            && (#[trigger] mg.info(v).outgoing_connections@[k]).module_identifier@ == t
            && mg.info(v).outgoing_connections@[k].state == ConnectionState::TransitiveOnly
}

/// `v` has a live connection to `t` that is not transitive-only.
pub open spec fn active_step(mg: ModuleGraph, v: Seq<char>, t: Seq<char>) -> bool {
    mg.has(v) && exists|k: int|
        0 <= k < mg.info(v).outgoing_connections@.len()
            && (#[trigger] mg.info(v).outgoing_connections@[k]).module_identifier@ == t
            && mg.info(v).outgoing_connections@[k].state != ConnectionState::Active(false)
            && mg.info(v).outgoing_connections@[k].state != ConnectionState::TransitiveOnly
}

/// `u` reaches `v` in at most `n` transitive-only steps.
pub open spec fn passes_to(mg: ModuleGraph, u: Seq<char>, v: Seq<char>, n: nat) -> bool
    decreases n,
{
    if n == 0 {
        v == u
    } else {
        passes_to(mg, u, v, (n - 1) as nat) || exists|w: Seq<char>|
            passes_to(mg, u, w, (n - 1) as nat) && #[trigger] transitive_step(mg, w, v)
    }
}

pub open spec fn expands_to(mg: ModuleGraph, u: Seq<char>, v: Seq<char>) -> bool {
    exists|n: nat| #[trigger] passes_to(mg, u, v, n)
}

/// The dependencies of `u` for finding roots: the targets of the live,
/// not transitive-only connections of every module that `u` reaches
/// through transitive-only connections, `u` included.
pub open spec fn derived_dependencies(mg: ModuleGraph, u: Seq<char>) -> Set<Seq<char>> {
    Set::new(|t: Seq<char>| exists|v: Seq<char>| #[trigger] expands_to(mg, u, v) && active_step(mg, v, t))
}

/// Some module of `s` has a live, not transitive-only connection to `t`.
pub open spec fn active_in(mg: ModuleGraph, s: Seq<Seq<char>>, t: Seq<char>) -> bool {
    exists|j: int| 0 <= j < s.len() && #[trigger] active_step(mg, s[j], t)
}

proof fn lemma_closed_contains_reach(mg: ModuleGraph, u: Seq<char>, vs: Set<Seq<char>>, v: Seq<char>, n: nat)
    requires
        vs.contains(u),
        forall|a: Seq<char>, b: Seq<char>| vs.contains(a) && #[trigger] transitive_step(mg, a, b) ==> vs.contains(b),
        passes_to(mg, u, v, n),
    ensures
        vs.contains(v),
    decreases n,
{
    if n > 0 {
        if passes_to(mg, u, v, (n - 1) as nat) {
            lemma_closed_contains_reach(mg, u, vs, v, (n - 1) as nat);
        } else {
            let w = choose|w: Seq<char>| passes_to(mg, u, w, (n - 1) as nat) && #[trigger] transitive_step(mg, w, v);
            lemma_closed_contains_reach(mg, u, vs, w, (n - 1) as nat);
        }
    }
}

/// The targets of transitive-only connections anywhere in the graph, and
/// `u`: every module the expansion from `u` can visit.
fn expansion_universe(mg: &ModuleGraph, u: &ModuleIdentifier) -> (r: Vec<ModuleIdentifier>)
    requires
        mg.wf(),
    ensures
        ids(r@).contains(u@),
        forall|v: Seq<char>, t: Seq<char>| #[trigger] transitive_step(*mg, v, t) ==> ids(r@).contains(t),
{
    let mut r: Vec<ModuleIdentifier> = Vec::new();
    r.push(u.clone());
    assert(ids(r@)[0] == u@);
    let mut i: usize = 0;
    while i < mg.modules.len()
        invariant
            0 <= i <= mg.modules@.len(),
            mg.wf(),
            ids(r@).contains(u@),
            forall|a: int, k: int|
                0 <= a < i && 0 <= k < mg.modules@[a].1.outgoing_connections@.len()
                    && mg.modules@[a].1.outgoing_connections@[k].state == ConnectionState::TransitiveOnly
                    ==> ids(r@).contains(#[trigger] mg.modules@[a].1.outgoing_connections@[k].module_identifier@),
        decreases mg.modules@.len() - i,
    {
        let conns = &mg.modules[i].1.outgoing_connections;
        let mut k: usize = 0;
        while k < conns.len()
            invariant
                0 <= k <= conns@.len(),
                i < mg.modules@.len(),
                *conns == mg.modules@[i as int].1.outgoing_connections,
                ids(r@).contains(u@),
                forall|a: int, kk: int|
                    0 <= a < i && 0 <= kk < mg.modules@[a].1.outgoing_connections@.len()
                        && mg.modules@[a].1.outgoing_connections@[kk].state == ConnectionState::TransitiveOnly
                        ==> ids(r@).contains(#[trigger] mg.modules@[a].1.outgoing_connections@[kk].module_identifier@),
                forall|kk: int|
                    0 <= kk < k && conns@[kk].state == ConnectionState::TransitiveOnly
                        ==> ids(r@).contains(#[trigger] conns@[kk].module_identifier@),
            decreases conns@.len() - k,
        {
            if conns[k].state == ConnectionState::TransitiveOnly {
                let ghost before = ids(r@);
                r.push(conns[k].module_identifier.clone());
                proof {
                    assert(ids(r@) =~= before.push(conns@[k as int].module_identifier@));
                    assert forall|x: Seq<char>| before.contains(x) implies ids(r@).contains(x) by {
                        let j = choose|j: int| 0 <= j < before.len() && before[j] == x;
                        assert(ids(r@)[j] == x);
                    }
                    assert(ids(r@)[before.len() as int] == conns@[k as int].module_identifier@);
                }
            }
            k = k + 1;
        }
        i = i + 1;
    }
    proof {
        assert forall|v: Seq<char>, t: Seq<char>| #[trigger] transitive_step(*mg, v, t) implies ids(r@).contains(t) by {
            let a = crate::keyed::key_index(mg.modules@, v);
            crate::keyed::lemma_key_index(mg.modules@, a);
            let k = choose|k: int|
                0 <= k < mg.info(v).outgoing_connections@.len()
                    && (#[trigger] mg.info(v).outgoing_connections@[k]).module_identifier@ == t
                    && mg.info(v).outgoing_connections@[k].state == ConnectionState::TransitiveOnly;
            assert(mg.modules@[a].1.outgoing_connections@[k].module_identifier@ == t);
        }
    }
    r
}

/// The derived dependencies of module `u`, each once.
pub fn dependencies_of(mg: &ModuleGraph, u: &ModuleIdentifier) -> (r: Vec<ModuleIdentifier>)
    requires
        mg.wf(),
    ensures
        ids(r@).no_duplicates(),
        ids(r@).to_set() == derived_dependencies(*mg, u@),
{
    let universe = expansion_universe(mg, u);
    let ghost uset = ids(universe@).to_set();
    let mut visited: Vec<ModuleIdentifier> = Vec::new();
    visited.push(u.clone());
    let mut result: Vec<ModuleIdentifier> = Vec::new();
    let mut p: usize = 0;
    proof {
        assert(passes_to(*mg, u@, u@, 0));
        assert(ids(visited@) =~= seq![u@]);
        assert(ids(result@) =~= Seq::<Seq<char>>::empty());
        ids(universe@).lemma_cardinality_of_set();
        vstd::set_lib::lemma_len_subset(ids(visited@).to_set(), uset);
        ids(visited@).unique_seq_to_set();
        assert(ids(visited@).to_set().subset_of(uset)) by {
            assert(ids(visited@)[0] == u@);
        }
    }
    while p < visited.len()
        invariant
            mg.wf(),
            0 <= p <= visited@.len(),
            ids(visited@).no_duplicates(),
            ids(visited@)[0] == u@,
            visited@.len() >= 1,
            uset == ids(universe@).to_set(),
            uset.finite(),
            ids(visited@).to_set().subset_of(uset),
            visited@.len() <= uset.len(),
            forall|v: Seq<char>, t: Seq<char>| #[trigger] transitive_step(*mg, v, t) ==> uset.contains(t),
            forall|k: int| 0 <= k < visited@.len() ==> expands_to(*mg, u@, #[trigger] ids(visited@)[k]),
            forall|k: int, t: Seq<char>|
                0 <= k < p && #[trigger] transitive_step(*mg, ids(visited@)[k], t) ==> ids(visited@).contains(t),
            ids(result@).no_duplicates(),
            forall|t: Seq<char>|
                #[trigger] ids(result@).contains(t) <==> active_in(*mg, ids(visited@).subrange(0, p as int), t),
        decreases (uset.len() - visited@.len()) + (uset.len() - p),
    {
        let v = visited[p].clone();
        let ghost vv = v@;
        assert(vv == ids(visited@)[p as int]);
        match mg.module_by_identifier(&v) {
            Some(info) => {
                let conns = &info.outgoing_connections;
                let mut k: usize = 0;
                let ghost vlen0 = visited@.len();
                while k < conns.len()
                    invariant
                        mg.wf(),
                        0 <= k <= conns@.len(),
                        mg.has(vv),
                        visited@.len() >= vlen0,
                        *conns == mg.info(vv).outgoing_connections,
                        p < visited@.len(),
                        vv == ids(visited@)[p as int],
                        ids(visited@).no_duplicates(),
                        ids(visited@)[0] == u@,
                        uset == ids(universe@).to_set(),
                        uset.finite(),
                        ids(visited@).to_set().subset_of(uset),
                        visited@.len() <= uset.len(),
                        forall|a: Seq<char>, t: Seq<char>| #[trigger] transitive_step(*mg, a, t) ==> uset.contains(t),
                        forall|j: int| 0 <= j < visited@.len() ==> expands_to(*mg, u@, #[trigger] ids(visited@)[j]),
                        forall|j: int, t: Seq<char>|
                            0 <= j < p && #[trigger] transitive_step(*mg, ids(visited@)[j], t) ==> ids(visited@).contains(t),
                        forall|kk: int|
                            0 <= kk < k && conns@[kk].state == ConnectionState::TransitiveOnly
                                ==> ids(visited@).contains(#[trigger] conns@[kk].module_identifier@),
                        ids(result@).no_duplicates(),
                        forall|t: Seq<char>|
                            #[trigger] ids(result@).contains(t) <==> active_in(*mg, ids(visited@).subrange(0, p as int), t)
                                || exists|kk: int| 0 <= kk < k && (#[trigger] conns@[kk]).module_identifier@ == t
                                    && conns@[kk].state != ConnectionState::Active(false)
                                    && conns@[kk].state != ConnectionState::TransitiveOnly,
                    decreases conns@.len() - k,
                {
                    let target = &conns[k].module_identifier;
                    let state = conns[k].state;
                    let ghost old_visited = ids(visited@);
                    let ghost old_result = ids(result@);
                    if state == ConnectionState::TransitiveOnly {
                        if !contains_identifier(&visited, target) {
                            let tc = target.clone();
                            proof {
                                assert(transitive_step(*mg, vv, target@));
                                assert(expands_to(*mg, u@, vv));
                                let n = choose|n: nat| #[trigger] passes_to(*mg, u@, vv, n);
                                assert(passes_to(*mg, u@, target@, n + 1));
                                lemma_push_no_duplicates(old_visited, target@);
                                assert(ids(visited@.push(tc)) =~= old_visited.push(target@));
                                old_visited.lemma_push_to_set_commute(target@);
                                ids(visited@.push(tc)).unique_seq_to_set();
                                vstd::set_lib::lemma_len_subset(old_visited.push(target@).to_set(), uset);
                            }
                            visited.push(tc);
                            proof {
                                assert forall|x: Seq<char>| old_visited.contains(x) implies ids(visited@).contains(x) by {
                                    let j = choose|j: int| 0 <= j < old_visited.len() && old_visited[j] == x;
                                    assert(ids(visited@)[j] == x);
                                }
                                assert(ids(visited@)[old_visited.len() as int] == target@);
                                assert forall|j: int| 0 <= j < visited@.len() implies expands_to(*mg, u@, #[trigger] ids(visited@)[j]) by {
                                    if j < old_visited.len() {
                                        assert(ids(visited@)[j] == old_visited[j]);
                                    } else {
                                        let n = choose|n: nat| #[trigger] passes_to(*mg, u@, vv, n);
                                        assert(passes_to(*mg, u@, target@, n + 1));
                                    }
                                }
                                assert forall|j: int, t: Seq<char>| 0 <= j < p && #[trigger] transitive_step(*mg, ids(visited@)[j], t) implies ids(visited@).contains(t) by {
                                    assert(ids(visited@)[j] == old_visited[j]);
                                    assert(old_visited.contains(t));
                                }
                                assert(ids(visited@).subrange(0, p as int) =~= old_visited.subrange(0, p as int));
                            }
                        }
                    } else if state != ConnectionState::Active(false) {
                        insert_identifier(&mut result, target.clone());
                    }
                    k = k + 1;
                    proof {
                        assert forall|t: Seq<char>| #[trigger] ids(result@).contains(t) <==> active_in(*mg, ids(visited@).subrange(0, p as int), t)
                            || exists|kk: int| 0 <= kk < k && (#[trigger] conns@[kk]).module_identifier@ == t
                                && conns@[kk].state != ConnectionState::Active(false)
                                && conns@[kk].state != ConnectionState::TransitiveOnly by {
                            assert(ids(result@).contains(t) == ids(result@).to_set().contains(t));
                            assert(old_result.contains(t) == old_result.to_set().contains(t));
                            if t == target@ && state != ConnectionState::TransitiveOnly && state != ConnectionState::Active(false) {
                                assert(conns@[k - 1].module_identifier@ == t);
                            }
                        }
                    }
                }
                proof {
                    assert forall|t: Seq<char>| #[trigger] ids(result@).contains(t) <==> active_in(*mg, ids(visited@).subrange(0, p + 1), t) by {
                        let s0 = ids(visited@).subrange(0, p as int);
                        let s1 = ids(visited@).subrange(0, p + 1);
                        if ids(result@).contains(t) {
                            if !active_in(*mg, s0, t) {
                                let kk = choose|kk: int| 0 <= kk < k && (#[trigger] conns@[kk]).module_identifier@ == t
                                    && conns@[kk].state != ConnectionState::Active(false)
                                    && conns@[kk].state != ConnectionState::TransitiveOnly;
                                assert(active_step(*mg, s1[p as int], t));
                            } else {
                                let j = choose|j: int| 0 <= j < s0.len() && #[trigger] active_step(*mg, s0[j], t);
                                assert(s1[j] == s0[j]);
                            }
                        }
                        if active_in(*mg, s1, t) {
                            let j = choose|j: int| 0 <= j < s1.len() && #[trigger] active_step(*mg, s1[j], t);
                            if j < p {
                                assert(s1[j] == s0[j]);
                            } else {
                                let kk = choose|kk: int|
                                    0 <= kk < mg.info(vv).outgoing_connections@.len()
                                        && (#[trigger] mg.info(vv).outgoing_connections@[kk]).module_identifier@ == t
                                        && mg.info(vv).outgoing_connections@[kk].state != ConnectionState::Active(false)
                                        && mg.info(vv).outgoing_connections@[kk].state != ConnectionState::TransitiveOnly;
                                assert(conns@[kk].module_identifier@ == t);
                            }
                        }
                    }
                    assert forall|j: int, t: Seq<char>| 0 <= j < p + 1 && #[trigger] transitive_step(*mg, ids(visited@)[j], t) implies ids(visited@).contains(t) by {
                        if j == p {
                            let kk = choose|kk: int|
                                0 <= kk < mg.info(vv).outgoing_connections@.len()
                                    && (#[trigger] mg.info(vv).outgoing_connections@[kk]).module_identifier@ == t
                                    && mg.info(vv).outgoing_connections@[kk].state == ConnectionState::TransitiveOnly;
                            assert(conns@[kk].module_identifier@ == t);
                        }
                    }
                }
            },
            None => {
                proof {
                    assert forall|t: Seq<char>| #[trigger] ids(result@).contains(t) <==> active_in(*mg, ids(visited@).subrange(0, p + 1), t) by {
                        let s0 = ids(visited@).subrange(0, p as int);
                        let s1 = ids(visited@).subrange(0, p + 1);
                        if active_in(*mg, s1, t) {
                            let j = choose|j: int| 0 <= j < s1.len() && #[trigger] active_step(*mg, s1[j], t);
                            assert(j != p);
                            assert(s1[j] == s0[j]);
                        }
                        if active_in(*mg, s0, t) {
                            let j = choose|j: int| 0 <= j < s0.len() && #[trigger] active_step(*mg, s0[j], t);
                            assert(s1[j] == s0[j]);
                        }
                    }
                }
            },
        }
        p = p + 1;
    }
    proof {
        let vs = ids(visited@).to_set();
        assert(vs.contains(u@)) by {
            assert(ids(visited@)[0] == u@);
        }
        assert forall|a: Seq<char>, b: Seq<char>| vs.contains(a) && #[trigger] transitive_step(*mg, a, b) implies vs.contains(b) by {
            let j = choose|j: int| 0 <= j < ids(visited@).len() && ids(visited@)[j] == a;
            assert(ids(visited@).contains(b));
        }
        assert forall|t: Seq<char>| #[trigger] ids(result@).to_set().contains(t) == derived_dependencies(*mg, u@).contains(t) by {
            assert(ids(visited@).subrange(0, p as int) =~= ids(visited@));
            if ids(result@).contains(t) {
                let j = choose|j: int| 0 <= j < ids(visited@).len() && #[trigger] active_step(*mg, ids(visited@)[j], t);
                assert(expands_to(*mg, u@, ids(visited@)[j]));
            }
            if derived_dependencies(*mg, u@).contains(t) {
                let v = choose|v: Seq<char>| #[trigger] expands_to(*mg, u@, v) && active_step(*mg, v, t);
                let n = choose|n: nat| #[trigger] passes_to(*mg, u@, v, n);
                lemma_closed_contains_reach(*mg, u@, vs, v, n);
                let j = choose|j: int| 0 <= j < ids(visited@).len() && ids(visited@)[j] == v;
                assert(active_step(*mg, ids(visited@)[j], t));
            }
        }
        assert(ids(result@).to_set() =~= derived_dependencies(*mg, u@));
    }
    result
}

impl ChunkGraph {
    /// The modules of `chunk` that no other module of the chunk depends on,
    /// by `derived_dependencies`, in text order.
    pub fn get_chunk_root_modules(&self, chunk: &ChunkUkey, module_graph: &ModuleGraph) -> (r: Vec<ModuleIdentifier>)
        requires
            self.wf(),
            self.has_chunk(*chunk),
            module_graph.wf(),
        ensures
            strictly_sorted(ids(r@)),
            forall|x: Seq<char>|
                #[trigger] ids(r@).contains(x) <==> self.modules_of(*chunk).contains(x) && forall|y: Seq<char>|
                    self.modules_of(*chunk).contains(y) && y != x ==> !#[trigger] derived_dependencies(*module_graph, y).contains(x),
    {
        let input = self.get_ordered_chunk_modules_identifier(chunk);
        proof {
            crate::ident::lemma_strictly_sorted_no_duplicates(ids(input@));
        }
        let mut dependencies: Vec<Vec<ModuleIdentifier>> = Vec::new();
        let mut i: usize = 0;
        while i < input.len()
            invariant
                0 <= i <= input@.len(),
                module_graph.wf(),
                dependencies@.len() == i,
                forall|k: int| 0 <= k < i ==> ids((#[trigger] dependencies@[k])@).to_set() == derived_dependencies(*module_graph, input@[k]@),
            decreases input@.len() - i,
        {
            let d = dependencies_of(module_graph, &input[i]);
            dependencies.push(d);
            i = i + 1;
        }
        let roots = find_graph_roots(&input, &dependencies);
        let ghost deps = dependencies@.map_values(|d: Vec<ModuleIdentifier>| ids(d@));
        proof {
            crate::ident::lemma_strictly_sorted_no_duplicates(ids(input@));
        }
        let sorted = sort_identifiers(&roots);
        proof {
            assert forall|x: Seq<char>| #[trigger] ids(sorted@).contains(x) <==> self.modules_of(*chunk).contains(x) && forall|y: Seq<char>|
                self.modules_of(*chunk).contains(y) && y != x ==> !#[trigger] derived_dependencies(*module_graph, y).contains(x) by {
                assert(ids(sorted@).contains(x) == ids(sorted@).to_set().contains(x));
                assert(ids(roots@).contains(x) == ids(roots@).to_set().contains(x));
                assert(ids(input@).contains(x) == ids(input@).to_set().contains(x));
                if is_graph_root(ids(input@), deps, x) {
                    assert forall|y: Seq<char>| self.modules_of(*chunk).contains(y) && y != x implies !#[trigger] derived_dependencies(*module_graph, y).contains(x) by {
                        assert(ids(input@).to_set().contains(y));
                        let j = choose|j: int| 0 <= j < ids(input@).len() && ids(input@)[j] == y;
                        assert(deps[j] == ids(dependencies@[j]@));
                        assert(!deps[j].contains(x));
                        assert(!ids(dependencies@[j]@).to_set().contains(x));
                    }
                }
                if self.modules_of(*chunk).contains(x) && forall|y: Seq<char>|
                    self.modules_of(*chunk).contains(y) && y != x ==> !#[trigger] derived_dependencies(*module_graph, y).contains(x) {
                    assert forall|j: int| 0 <= j < ids(input@).len() && ids(input@)[j] != x implies !(#[trigger] deps[j]).contains(x) by {
                        let y = ids(input@)[j];
                        assert(ids(input@).to_set().contains(y));
                        assert(deps[j] == ids(dependencies@[j]@));
                        assert(!derived_dependencies(*module_graph, y).contains(x));
                        assert(ids(dependencies@[j]@).contains(x) == ids(dependencies@[j]@).to_set().contains(x));
                    }
                }
            }
        }
        sorted
    }
}

} // verus!
