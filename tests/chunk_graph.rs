use chunk_graph_core::artifacts::{ChunkId, ChunkIdsArtifact, RuntimeGlobals, RuntimeRequirementsArtifact};
use chunk_graph_core::integration::pick_integrated_name;
use chunk_graph_core::chunk::{Chunk, ChunkByUkey, ChunkGroup, ChunkGroupByUkey};
use chunk_graph_core::chunk_graph::ChunkGraph;
use chunk_graph_core::graph_roots::{dependencies_of, find_graph_roots};
use chunk_graph_core::module_graph::{ConnectionState, ModuleGraph, ModuleGraphConnection, ModuleInfo};
use chunk_graph_core::runtime_modules::RuntimeModuleInfo;
use chunk_graph_core::sizes::ChunkSizeOptions;
use chunk_graph_core::source_type::SourceType;

fn s(x: &str) -> String {
    x.to_string()
}

fn sorted(mut v: Vec<String>) -> Vec<String> {
    v.sort();
    v
}

fn strs(v: &[&str]) -> Vec<String> {
    v.iter().map(|x| x.to_string()).collect()
}

fn record<'a>(g: &'a ChunkGraph, m: &str) -> Option<&'a chunk_graph_core::chunk_graph_chunk::ChunkGraphModule> {
    g.chunk_graph_module_by_module_identifier
        .iter()
        .find(|(k, _)| k == m)
        .map(|(_, r)| r)
}

fn chunks_of(g: &ChunkGraph, m: &str) -> Vec<u32> {
    let mut v = record(g, m).map(|r| r.chunks.clone()).unwrap_or_default();
    v.sort();
    v
}

fn entry_chunks_of(g: &ChunkGraph, m: &str) -> Vec<u32> {
    let mut v = record(g, m).map(|r| r.entry_in_chunks.clone()).unwrap_or_default();
    v.sort();
    v
}

fn runtime_chunks_of(g: &ChunkGraph, m: &str) -> Vec<u32> {
    let mut v = record(g, m).map(|r| r.runtime_in_chunks.clone()).unwrap_or_default();
    v.sort();
    v
}

fn modules_of(g: &ChunkGraph, c: u32) -> Vec<String> {
    sorted(g.get_chunk_modules_identifier(&c).clone())
}

fn group(ukey: u32, initial: bool, entry: bool, runtime_chunk: Option<u32>, chunks: Vec<u32>, parents: Vec<u32>) -> ChunkGroup {
    ChunkGroup {
        ukey,
        is_entrypoint: entry,
        initial,
        runtime_chunk,
        entry_point_chunk: if entry { runtime_chunk } else { None },
        chunks,
        parents,
        children: Vec::new(),
    }
}

fn chunk_in(ukey: u32, name: Option<&str>, groups: Vec<u32>) -> Chunk {
    let mut c = Chunk::new(ukey, name.map(s));
    c.groups = groups;
    c
}

fn module(conns: Vec<(&str, ConnectionState)>, types: Vec<(SourceType, u64)>) -> ModuleInfo {
    ModuleInfo {
        source_types: types,
        outgoing_connections: conns
            .into_iter()
            .map(|(t, state)| ModuleGraphConnection { module_identifier: s(t), state })
            .collect(),
    }
}

#[test]
fn symmetry_holds_across_connects_and_disconnects() {
    let mut g = ChunkGraph::new();
    g.connect_chunk_and_module(0, s("m1"));
    g.connect_chunk_and_module(0, s("m2"));
    g.connect_chunk_and_module(1, s("m1"));
    g.connect_chunk_and_entry_module(0, s("e1"), 5);
    g.connect_chunk_and_runtime_module(1, s("r1"));
    g.connect_chunk_and_runtime_module(1, s("r1"));
    g.disconnect_chunk_and_module(&0, s("m1"));
    assert_eq!(modules_of(&g, 0), strs(&["m2"]));
    assert_eq!(modules_of(&g, 1), strs(&["m1"]));
    assert_eq!(chunks_of(&g, "m1"), vec![1]);
    assert_eq!(chunks_of(&g, "m2"), vec![0]);
    assert_eq!(g.get_chunk_entry_modules(&0), strs(&["e1"]));
    assert_eq!(entry_chunks_of(&g, "e1"), vec![0]);
    assert_eq!(g.get_chunk_runtime_modules_iterable(&1).clone(), strs(&["r1"]));
    assert_eq!(runtime_chunks_of(&g, "r1"), vec![1]);
    g.disconnect_chunk_and_entry_module(&0, s("e1"));
    assert!(g.get_chunk_entry_modules(&0).is_empty());
    assert!(entry_chunks_of(&g, "e1").is_empty());
    g.disconnect_chunk_and_runtime_module(&1, &s("r1"));
    assert!(!g.has_chunk_runtime_modules(&1));
    assert!(runtime_chunks_of(&g, "r1").is_empty());
    assert_eq!(g.get_number_of_chunk_modules(&0), 1);
    assert_eq!(g.get_number_of_entry_modules(&0), 0);
}

#[test]
fn replace_module_moves_every_edge() {
    let mut g = ChunkGraph::new();
    g.connect_chunk_and_entry_module(0, s("a"), 7);
    g.connect_chunk_and_entry_module(0, s("old"), 8);
    g.connect_chunk_and_entry_module(0, s("b"), 9);
    g.connect_chunk_and_module(0, s("old"));
    g.connect_chunk_and_module(0, s("x"));
    g.connect_chunk_and_module(1, s("old"));
    g.connect_chunk_and_runtime_module(0, s("old"));
    g.connect_chunk_and_runtime_module(0, s("r0"));
    g.replace_module(&s("old"), &s("new"));
    assert_eq!(modules_of(&g, 0), strs(&["new", "x"]));
    assert_eq!(modules_of(&g, 1), strs(&["new"]));
    let entries: Vec<(String, u32)> = g.chunk_graph_chunk_by_chunk_ukey[0].as_ref().unwrap().entry_modules.clone();
    assert_eq!(entries, vec![(s("a"), 7), (s("new"), 8), (s("b"), 9)]);
    assert_eq!(g.get_chunk_runtime_modules_iterable(&0).clone(), strs(&["r0", "new"]));
    assert_eq!(chunks_of(&g, "new"), vec![0, 1]);
    assert_eq!(entry_chunks_of(&g, "new"), vec![0]);
    assert_eq!(runtime_chunks_of(&g, "new"), vec![0]);
    assert!(chunks_of(&g, "old").is_empty());
    assert!(entry_chunks_of(&g, "old").is_empty());
    assert!(runtime_chunks_of(&g, "old").is_empty());
}

#[test]
fn integrate_chunks_moves_modules_and_groups() {
    let mut g = ChunkGraph::new();
    g.connect_chunk_and_module(0, s("m1"));
    g.connect_chunk_and_module(0, s("m2"));
    g.connect_chunk_and_module(1, s("m2"));
    g.connect_chunk_and_module(1, s("m3"));
    let mut chunks = ChunkByUkey {
        chunks: vec![chunk_in(0, Some("main"), vec![]), chunk_in(1, Some("ab"), vec![0])],
    };
    chunks.chunks[1].id_name_hints = strs(&["vendors"]);
    let mut groups = ChunkGroupByUkey { groups: vec![group(0, false, false, None, vec![1], vec![])] };
    g.integrate_chunks(&0, &1, &mut chunks, &mut groups);
    assert_eq!(modules_of(&g, 0), strs(&["m1", "m2", "m3"]));
    assert!(modules_of(&g, 1).is_empty());
    for m in ["m1", "m2", "m3"] {
        assert_eq!(chunks_of(&g, m), vec![0]);
    }
    assert_eq!(chunks.chunks[0].name, Some(s("ab")));
    assert_eq!(chunks.chunks[0].id_name_hints, strs(&["vendors"]));
    assert_eq!(chunks.chunks[0].groups, vec![0]);
    assert!(chunks.chunks[1].groups.is_empty());
    assert_eq!(groups.groups[0].chunks, vec![0]);
}

#[test]
fn integrate_chunks_moves_entries_with_their_groups() {
    let mut g = ChunkGraph::new();
    g.add_chunk(0);
    g.connect_chunk_and_entry_module(1, s("e"), 4);
    let mut chunks = ChunkByUkey { chunks: vec![chunk_in(0, Some("a"), vec![]), chunk_in(1, Some("bbb"), vec![])] };
    let mut groups = ChunkGroupByUkey { groups: vec![] };
    g.integrate_chunks(&0, &1, &mut chunks, &mut groups);
    let entries: Vec<(String, u32)> = g.chunk_graph_chunk_by_chunk_ukey[0].as_ref().unwrap().entry_modules.clone();
    assert_eq!(entries, vec![(s("e"), 4)]);
    assert_eq!(g.get_number_of_entry_modules(&1), 0);
    assert_eq!(entry_chunks_of(&g, "e"), vec![0]);
    // only the merged chunk had entry modules, so its name wins
    assert_eq!(chunks.chunks[0].name, Some(s("bbb")));
}

#[test]
fn integrated_name_prefers_shorter_then_text_order() {
    assert_eq!(pick_integrated_name(Some(s("abc")), Some(s("de")), false, false), Some(s("de")));
    assert_eq!(pick_integrated_name(Some(s("bb")), Some(s("aa")), true, true), Some(s("aa")));
    assert_eq!(pick_integrated_name(Some(s("bb")), Some(s("a")), true, false), Some(s("bb")));
    assert_eq!(pick_integrated_name(None, Some(s("x")), false, false), Some(s("x")));
    assert_eq!(pick_integrated_name(Some(s("y")), None, false, false), Some(s("y")));
    // lengths count UTF-8 bytes: "éé" is four bytes, "abc" three
    assert_eq!(pick_integrated_name(Some(s("éé")), Some(s("abc")), false, false), Some(s("abc")));
}

#[test]
fn ordered_chunk_modules_are_sorted_and_repeatable() {
    let mut g = ChunkGraph::new();
    for m in ["./src/b.js", "./src/a.js", "./lib/c.js", "./src/a.jsx"] {
        g.connect_chunk_and_module(3, s(m));
    }
    let first = g.get_ordered_chunk_modules_identifier(&3);
    let second = g.get_ordered_chunk_modules_identifier(&3);
    assert_eq!(first, second);
    assert_eq!(first, strs(&["./lib/c.js", "./src/a.js", "./src/a.jsx", "./src/b.js"]));
}

#[test]
fn can_chunks_be_integrated_examples() {
    let mut g = ChunkGraph::new();
    g.add_chunk(0);
    g.add_chunk(1);
    // R is the runtime chunk of entrypoint group 0; N sits in group 1 below it
    let chunks = ChunkByUkey { chunks: vec![chunk_in(0, None, vec![0]), chunk_in(1, None, vec![1])] };
    let groups = ChunkGroupByUkey {
        groups: vec![group(0, true, true, Some(0), vec![0], vec![]), group(1, false, false, None, vec![1], vec![0])],
    };
    assert!(g.can_chunks_be_integrated(&0, &1, &chunks, &groups));
    assert!(g.can_chunks_be_integrated(&1, &0, &chunks, &groups));
    // with entry modules on both sides they never merge, runtime or not
    let mut with_entries = ChunkGraph::new();
    with_entries.connect_chunk_and_entry_module(0, s("r.js"), 0);
    with_entries.connect_chunk_and_entry_module(1, s("n.js"), 1);
    assert!(!with_entries.can_chunks_be_integrated(&0, &1, &chunks, &groups));
    assert!(!with_entries.can_chunks_be_integrated(&1, &0, &chunks, &groups));
    let initial_groups = ChunkGroupByUkey {
        groups: vec![group(0, true, true, Some(0), vec![0], vec![]), group(1, true, false, None, vec![1], vec![0])],
    };
    assert!(!g.can_chunks_be_integrated(&0, &1, &chunks, &initial_groups));
    // neither has a runtime, both have entries
    let plain = ChunkByUkey { chunks: vec![chunk_in(0, None, vec![1]), chunk_in(1, None, vec![1])] };
    g.connect_chunk_and_entry_module(0, s("e0"), 1);
    g.connect_chunk_and_entry_module(1, s("e1"), 1);
    assert!(!g.can_chunks_be_integrated(&0, &1, &plain, &groups));
    // both have a runtime, and entries
    let both = ChunkByUkey { chunks: vec![chunk_in(0, None, vec![0]), chunk_in(1, None, vec![2])] };
    let runtime_groups = ChunkGroupByUkey {
        groups: vec![
            group(0, true, true, Some(0), vec![0], vec![]),
            group(1, false, false, None, vec![], vec![]),
            group(2, true, true, Some(1), vec![1], vec![]),
        ],
    };
    assert!(!g.can_chunks_be_integrated(&0, &1, &both, &runtime_groups));
    // a chunk that forbids integration
    let mut forbidding = ChunkByUkey { chunks: vec![chunk_in(0, None, vec![1]), chunk_in(1, None, vec![1])] };
    forbidding.chunks[0].prevent_integration = true;
    let mut h = ChunkGraph::new();
    h.add_chunk(0);
    h.add_chunk(1);
    assert!(!h.can_chunks_be_integrated(&0, &1, &forbidding, &groups));
    forbidding.chunks[0].prevent_integration = false;
    assert!(h.can_chunks_be_integrated(&0, &1, &forbidding, &groups));
}

#[test]
fn availability_walk_survives_parent_cycles() {
    let mut g = ChunkGraph::new();
    g.add_chunk(0);
    g.add_chunk(1);
    let chunks = ChunkByUkey { chunks: vec![chunk_in(0, None, vec![0]), chunk_in(1, None, vec![1])] };
    let groups = ChunkGroupByUkey {
        groups: vec![
            group(0, true, true, Some(0), vec![0], vec![]),
            group(1, false, false, None, vec![1], vec![2]),
            group(2, false, false, None, vec![], vec![1]),
        ],
    };
    assert!(g.can_chunks_be_integrated(&0, &1, &chunks, &groups));
}

#[test]
fn root_modules_follow_transitive_connections() {
    // X reaches Z only through Y's transitive-only connection; Y's own
    // live connection to Z counts for Y.
    let mg = ModuleGraph {
        modules: vec![
            (s("X"), module(vec![("Y", ConnectionState::TransitiveOnly)], vec![])),
            (s("Y"), module(vec![("Z", ConnectionState::Active(true))], vec![])),
            (s("Z"), module(vec![], vec![])),
        ],
    };
    assert_eq!(dependencies_of(&mg, &s("X")), strs(&["Z"]));
    assert_eq!(dependencies_of(&mg, &s("Y")), strs(&["Z"]));
    assert!(dependencies_of(&mg, &s("Z")).is_empty());
    let mut g = ChunkGraph::new();
    for m in ["X", "Y", "Z"] {
        g.connect_chunk_and_module(0, s(m));
    }
    assert_eq!(g.get_chunk_root_modules(&0, &mg), strs(&["X", "Y"]));
}

#[test]
fn root_modules_skip_inactive_and_record_active_targets() {
    let mg = ModuleGraph {
        modules: vec![
            (s("X"), module(vec![("Y", ConnectionState::Active(true)), ("W", ConnectionState::Active(false))], vec![])),
            (s("Y"), module(vec![("Z", ConnectionState::TransitiveOnly)], vec![])),
            (s("Z"), module(vec![("Y", ConnectionState::TransitiveOnly)], vec![])),
            (s("W"), module(vec![], vec![])),
        ],
    };
    assert_eq!(dependencies_of(&mg, &s("X")), strs(&["Y"]));
    assert!(dependencies_of(&mg, &s("Y")).is_empty());
    let mut g = ChunkGraph::new();
    for m in ["X", "Y", "Z", "W"] {
        g.connect_chunk_and_module(0, s(m));
    }
    assert_eq!(g.get_chunk_root_modules(&0, &mg), strs(&["W", "X", "Z"]));
}

#[test]
fn graph_roots_tolerate_cycles() {
    let items = strs(&["a", "b", "c"]);
    let deps = vec![strs(&["b"]), strs(&["a"]), strs(&["c", "outside"])];
    assert_eq!(find_graph_roots(&items, &deps), strs(&["c"]));
}

#[test]
fn chunk_modules_filtered_by_source_type() {
    let mg = ModuleGraph {
        modules: vec![
            (s("a.js"), module(vec![], vec![(SourceType::JavaScript, 10)])),
            (s("b.css"), module(vec![], vec![(SourceType::Css, 20), (SourceType::JavaScript, 1)])),
        ],
    };
    let mut g = ChunkGraph::new();
    g.connect_chunk_and_module(0, s("a.js"));
    g.connect_chunk_and_module(0, s("b.css"));
    g.connect_chunk_and_module(0, s("unknown"));
    assert_eq!(sorted(g.get_chunk_modules(&0, &mg)), strs(&["a.js", "b.css"]));
    assert_eq!(g.get_ordered_chunk_modules(&0, &mg), strs(&["a.js", "b.css"]));
    assert_eq!(sorted(g.get_chunk_modules_by_source_type(&0, SourceType::JavaScript, &mg)), strs(&["a.js", "b.css"]));
    g.set_chunk_modules_source_types(&0, s("b.css"), vec![SourceType::Css]);
    assert_eq!(g.get_chunk_modules_by_source_type(&0, SourceType::JavaScript, &mg), strs(&["a.js"]));
    assert_eq!(sorted(g.get_chunk_modules_iterable_by_source_type(&0, SourceType::JavaScript, &mg)), strs(&["a.js", "b.css"]));
    assert_eq!(g.get_chunk_module_source_types(&0, &s("b.css"), &mg), vec![SourceType::Css]);
    assert_eq!(g.get_chunk_module_source_types(&0, &s("a.js"), &mg), vec![SourceType::JavaScript]);
    g.disconnect_chunk_and_module(&0, s("b.css"));
    assert_eq!(g.get_chunk_module_source_types(&0, &s("a.js"), &mg), vec![SourceType::JavaScript]);
    assert_eq!(g.get_chunk_modules_size(&0, &mg), 10);
}

#[test]
fn chunk_size_uses_overhead_and_multiplier() {
    let mg = ModuleGraph {
        modules: vec![
            (s("a"), module(vec![], vec![(SourceType::JavaScript, 100), (SourceType::Css, 5)])),
            (s("b"), module(vec![], vec![(SourceType::JavaScript, 50)])),
        ],
    };
    let mut g = ChunkGraph::new();
    g.connect_chunk_and_module(0, s("a"));
    g.connect_chunk_and_module(1, s("a"));
    g.connect_chunk_and_module(1, s("b"));
    let chunks = ChunkByUkey { chunks: vec![chunk_in(0, None, vec![0]), chunk_in(1, None, vec![1])] };
    let groups = ChunkGroupByUkey {
        groups: vec![group(0, true, true, None, vec![0], vec![]), group(1, false, false, None, vec![1], vec![])],
    };
    let defaults = ChunkSizeOptions { chunk_overhead: None, entry_chunk_multiplicator: None };
    assert_eq!(g.get_chunk_modules_size(&0, &mg), 105);
    assert_eq!(g.get_chunk_size(&0, &defaults, &chunks, &groups, &mg), 10000 + 105 * 10);
    assert_eq!(g.get_chunk_size(&1, &defaults, &chunks, &groups, &mg), 10000 + 155);
    let custom = ChunkSizeOptions { chunk_overhead: Some(7), entry_chunk_multiplicator: Some(3) };
    assert_eq!(g.get_chunk_size(&1, &custom, &chunks, &groups, &mg), 7 + 155);
    // the shared module counts once
    assert_eq!(g.get_integrated_chunks_size(&0, &1, &custom, &chunks, &groups, &mg), 7 + 155 * 3);
    assert_eq!(g.get_integrated_chunks_size(&1, &1, &defaults, &chunks, &groups, &mg), 10000 + 155);
}

#[test]
fn runtime_modules_in_stage_then_identifier_order() {
    let mut g = ChunkGraph::new();
    for m in ["webpack/runtime/b", "webpack/runtime/a", "webpack/runtime/c", "webpack/runtime/d"] {
        g.connect_chunk_and_runtime_module(0, s(m));
    }
    let info = |stage: u32, full: bool, dependent: bool| RuntimeModuleInfo { stage, full_hash: full, dependent_hash: dependent, size: 1 };
    let table = vec![
        (s("webpack/runtime/a"), info(10, false, false)),
        (s("webpack/runtime/b"), info(0, false, true)),
        (s("webpack/runtime/c"), info(0, false, false)),
        (s("webpack/runtime/d"), info(5, false, false)),
    ];
    assert_eq!(
        g.get_chunk_runtime_modules_in_order(&0, &table),
        strs(&["webpack/runtime/b", "webpack/runtime/c", "webpack/runtime/d", "webpack/runtime/a"])
    );
    assert!(!g.has_chunk_full_hash_modules(&0, &table));
    assert!(g.has_chunk_dependent_hash_modules(&0, &table));
}

#[test]
fn chunk_ids_and_runtime_requirements() {
    let mut ids = ChunkIdsArtifact { by_chunk: vec![] };
    assert!(ChunkGraph::get_chunk_id(&ids, &3).is_none());
    assert!(ChunkGraph::set_chunk_id(&mut ids, 3, ChunkId::from(s("main"))));
    assert!(!ChunkGraph::set_chunk_id(&mut ids, 3, ChunkId::new(s("main"))));
    assert!(ChunkGraph::set_chunk_id(&mut ids, 3, ChunkId::new(s("other"))));
    assert_eq!(ChunkGraph::get_chunk_id(&ids, &3).unwrap().as_str(), "other");
    let mut rr = RuntimeRequirementsArtifact { by_chunk: vec![] };
    ChunkGraph::set_chunk_runtime_requirements(&mut rr, 2, RuntimeGlobals { bits: 6 });
    ChunkGraph::set_tree_runtime_requirements(&mut rr, 4, RuntimeGlobals { bits: 1 });
    assert_eq!(*ChunkGraph::get_chunk_runtime_requirements(&rr, &2), RuntimeGlobals { bits: 6 });
    assert_eq!(*ChunkGraph::get_tree_runtime_requirements(&rr, &4), RuntimeGlobals { bits: 1 });
    let mut g = ChunkGraph::new();
    assert_eq!(g.get_runtime_id(s("main")), None);
    g.set_runtime_id(s("main"), Some(s("7")));
    g.set_runtime_id(s("other"), None);
    assert_eq!(g.get_runtime_id(s("main")), Some(s("7")));
    assert_eq!(g.get_runtime_id(s("other")), None);
}

#[test]
fn remove_and_disconnect_chunk() {
    let mut g = ChunkGraph::new();
    g.connect_chunk_and_module(0, s("m"));
    g.connect_chunk_and_module(1, s("m"));
    g.connect_chunk_and_entry_module(0, s("e"), 0);
    let mut chunk = chunk_in(0, None, vec![0]);
    let mut groups = ChunkGroupByUkey { groups: vec![group(0, true, true, None, vec![0, 1], vec![])] };
    g.disconnect_chunk(&mut chunk, &mut groups);
    assert!(modules_of(&g, 0).is_empty());
    assert_eq!(chunks_of(&g, "m"), vec![1]);
    assert_eq!(g.get_chunk_entry_modules(&0), strs(&["e"]));
    assert!(chunk.groups.is_empty());
    assert_eq!(groups.groups[0].chunks, vec![1]);
    let mut h = ChunkGraph::new();
    h.add_chunk(5);
    assert!(h.remove_chunk(&5).is_some());
    assert!(h.remove_chunk(&5).is_none());
}

#[test]
fn entry_dependent_chunks() {
    let mut g = ChunkGraph::new();
    g.connect_chunk_and_entry_module(0, s("e"), 0);
    let alone = ChunkGroupByUkey { groups: vec![group(0, true, true, Some(0), vec![0], vec![])] };
    assert!(!g.has_chunk_entry_dependent_chunks(&0, &alone));
    let shared = ChunkGroupByUkey { groups: vec![group(0, true, true, Some(0), vec![0, 2], vec![])] };
    assert!(g.has_chunk_entry_dependent_chunks(&0, &shared));
}

#[test]
fn module_sizes_per_source_type() {
    let mg = ModuleGraph {
        modules: vec![
            (s("a"), module(vec![], vec![(SourceType::JavaScript, 100), (SourceType::Css, 5)])),
            (s("b"), module(vec![], vec![(SourceType::JavaScript, 50)])),
        ],
    };
    let mut g = ChunkGraph::new();
    g.connect_chunk_and_module(0, s("a"));
    g.connect_chunk_and_module(0, s("b"));
    g.connect_chunk_and_module(0, s("webpack/runtime/x"));
    let table = vec![(s("webpack/runtime/x"), RuntimeModuleInfo { stage: 0, full_hash: false, dependent_hash: false, size: 7 })];
    let sizes = g.get_chunk_modules_sizes(&0, &mg, &table);
    let slot = chunk_graph_core::module_group::source_type_slot;
    assert_eq!(sizes[slot(SourceType::JavaScript)], 150);
    assert_eq!(sizes[slot(SourceType::Css)], 5);
    assert_eq!(sizes[slot(SourceType::Runtime)], 7);
    assert_eq!(sizes[slot(SourceType::Wasm)], 0);
}

#[test]
fn referenced_chunks_and_condition_map() {
    let chunks = ChunkByUkey { chunks: vec![chunk_in(0, None, vec![0]), chunk_in(1, None, vec![1]), chunk_in(2, None, vec![2])] };
    let mut groups = ChunkGroupByUkey {
        groups: vec![
            group(0, true, true, Some(0), vec![0], vec![]),
            group(1, false, false, None, vec![1], vec![0]),
            group(2, false, false, None, vec![2, 1], vec![1]),
        ],
    };
    groups.groups[0].children = vec![1];
    groups.groups[1].children = vec![2, 0];
    let mut refs = ChunkGraph::get_all_referenced_chunks(&chunks.chunks[0], &groups);
    refs.sort();
    assert_eq!(refs, vec![0, 1, 2]);
    let mut refs_of_two = ChunkGraph::get_all_referenced_chunks(&chunks.chunks[2], &groups);
    refs_of_two.sort();
    assert_eq!(refs_of_two, vec![1, 2]);
    let mut ids = ChunkIdsArtifact { by_chunk: vec![] };
    ChunkGraph::set_chunk_id(&mut ids, 0, ChunkId::new(s("main")));
    ChunkGraph::set_chunk_id(&mut ids, 1, ChunkId::new(s("12")));
    ChunkGraph::set_chunk_id(&mut ids, 2, ChunkId::new(s("34")));
    let g = ChunkGraph::new();
    let mut map = g.get_chunk_condition_map(&2, &chunks, &groups, &ids, &vec![false, true, false]);
    map.sort();
    assert_eq!(map, vec![(s("12"), true), (s("34"), false)]);
}

#[test]
fn entry_dependent_chunks_of_an_entrypoint() {
    // group 0 is an entrypoint whose entry chunk 0 has an entry introduced
    // by group 0, which also holds chunks 1 (no runtime) and 2 (a runtime)
    let chunks = ChunkByUkey {
        chunks: vec![chunk_in(0, None, vec![0]), chunk_in(1, None, vec![0]), chunk_in(2, None, vec![0, 1]), chunk_in(3, None, vec![0])],
    };
    let groups = ChunkGroupByUkey {
        groups: vec![
            group(0, true, true, Some(0), vec![0, 1, 2, 3], vec![]),
            group(1, true, true, Some(2), vec![2], vec![]),
        ],
    };
    let mut g = ChunkGraph::new();
    g.connect_chunk_and_entry_module(0, s("main.js"), 0);
    g.add_chunk(2);
    let mut deps = g.get_chunk_entry_dependent_chunks_iterable(&3, &chunks, &groups);
    deps.sort();
    assert_eq!(deps, vec![1]);
    let mut deps_of_one = g.get_chunk_entry_dependent_chunks_iterable(&1, &chunks, &groups);
    deps_of_one.sort();
    assert_eq!(deps_of_one, vec![3]);
}

#[test]
fn chunk_records_can_be_looked_up_and_restored() {
    let mut g = ChunkGraph::new();
    assert!(g.get_chunk_graph_chunk(&4).is_none());
    g.add_chunk(4);
    let record = g.remove_chunk(&4).unwrap();
    assert!(g.get_chunk_graph_chunk(&4).is_none());
    g.add_chunk_wit_chunk_graph_chunk(4, record);
    assert!(g.get_chunk_graph_chunk(&4).is_some());
    assert!(g.expect_chunk_graph_chunk(&4).modules().is_empty());
}
