use chunk_graph_core::module_group::{compare_entries, total_size, CacheGroup, CacheGroupIdx, ModuleGroup, ModuleSizes};
use chunk_graph_core::source_type::SourceType;

fn s(x: &str) -> String {
    x.to_string()
}

fn sizes() -> ModuleSizes {
    vec![
        (s("a"), vec![(SourceType::JavaScript, 10), (SourceType::Css, 4)]),
        (s("b"), vec![(SourceType::JavaScript, 6)]),
        (s("c"), vec![(SourceType::Css, 3)]),
        (s("d"), vec![(SourceType::JavaScript, 1)]),
    ]
}

fn group_of(index: usize, priority: i64, chunks: Vec<u32>, modules: &[&str]) -> ModuleGroup {
    let cache_group = CacheGroup { priority, reuse_existing_chunk: false };
    let mut g = ModuleGroup::new(CacheGroupIdx::new(index), None, index, &cache_group);
    g.chunks = chunks;
    let ms = sizes();
    for m in modules {
        g.add_module(s(m), &ms);
    }
    g
}

fn size(g: &ModuleGroup, t: SourceType) -> u64 {
    g.sizes[chunk_graph_core::module_group::source_type_slot(t)]
}

#[test]
fn add_module_accumulates_sizes_per_type() {
    let g = group_of(0, 0, vec![1], &["a", "b", "a"]);
    assert_eq!(size(&g, SourceType::JavaScript), 16);
    assert_eq!(size(&g, SourceType::Css), 4);
    assert_eq!(total_size(&g.sizes), 20);
    let mut css = g.get_source_types_modules(&vec![SourceType::Css], &sizes());
    css.sort();
    assert_eq!(css, vec![s("a")]);
    let mut both = g.get_source_types_modules(&vec![SourceType::Css, SourceType::JavaScript], &sizes());
    both.sort();
    assert_eq!(both, vec![s("a"), s("b")]);
}

#[test]
fn add_then_remove_restores_sizes_and_indexes() {
    let mut g = group_of(0, 0, vec![1], &["b", "c"]);
    let before_js = size(&g, SourceType::JavaScript);
    let before_css = size(&g, SourceType::Css);
    let ms = sizes();
    g.add_module(s("a"), &ms);
    assert_eq!(size(&g, SourceType::JavaScript), before_js + 10);
    g.remove_module(s("a"), &ms);
    assert_eq!(size(&g, SourceType::JavaScript), before_js);
    assert_eq!(size(&g, SourceType::Css), before_css);
    for t in [SourceType::JavaScript, SourceType::Css] {
        let listed = g.get_source_types_modules(&vec![t], &ms);
        assert!(!listed.contains(&s("a")));
    }
    let mut modules = g.modules.clone();
    modules.sort();
    assert_eq!(modules, vec![s("b"), s("c")]);
    // removing a module that is not there changes nothing
    g.remove_module(s("d"), &ms);
    assert_eq!(size(&g, SourceType::JavaScript), before_js);
}

#[test]
fn remove_module_stops_sizes_at_zero() {
    let mut g = group_of(0, 0, vec![1], &["b"]);
    g.sizes[chunk_graph_core::module_group::source_type_slot(SourceType::JavaScript)] = 2;
    g.remove_module(s("b"), &sizes());
    assert_eq!(size(&g, SourceType::JavaScript), 0);
}

#[test]
fn compare_entries_follows_the_six_steps() {
    // 1. priority
    assert_eq!(compare_entries(&group_of(0, 5, vec![1], &["a"]), &group_of(0, 2, vec![1], &["a"])), 3);
    // 2. number of chunks
    assert_eq!(compare_entries(&group_of(0, 0, vec![1], &["a"]), &group_of(0, 0, vec![1, 2, 3], &["a"])), -2);
    // 3. size reduction: 14 * (2 - 1) against 6 * (2 - 1)
    assert_eq!(compare_entries(&group_of(0, 0, vec![1, 2], &["a"]), &group_of(0, 0, vec![1, 2], &["b"])), 8);
    // 4. the earlier cache group goes first
    assert_eq!(compare_entries(&group_of(1, 0, vec![1], &["b"]), &group_of(4, 0, vec![1], &["b"])), 3);
    // 5. more modules; with a single chunk neither group reduces any size
    assert_eq!(compare_entries(&group_of(0, 0, vec![1], &["b", "d"]), &group_of(0, 0, vec![1], &["a"])), 1);
    // 6. identifiers from the last: "d" against "c"
    assert_eq!(compare_entries(&group_of(0, 0, vec![1], &["a", "d"]), &group_of(0, 0, vec![1], &["a", "c"])), 1);
    assert_eq!(compare_entries(&group_of(0, 0, vec![1], &["a", "c"]), &group_of(0, 0, vec![1], &["a", "d"])), -1);
    assert_eq!(compare_entries(&group_of(0, 0, vec![1], &["a", "c"]), &group_of(0, 0, vec![1], &["c", "a"])), 0);
}

#[test]
fn sorting_by_compare_entries_ignores_initial_order() {
    let make = || {
        vec![
            group_of(0, 0, vec![1], &["a", "c"]),
            group_of(0, 0, vec![1], &["b", "d"]),
            group_of(2, 1, vec![1, 2], &["c"]),
            group_of(1, 0, vec![1, 2], &["a"]),
            group_of(0, 0, vec![1], &["a", "d"]),
        ]
    };
    let key = |v: &Vec<ModuleGroup>| -> Vec<Vec<String>> {
        v.iter()
            .map(|g| {
                let mut m = g.modules.clone();
                m.sort();
                m
            })
            .collect()
    };
    let mut forward = make();
    forward.sort_by(|a, b| compare_entries(b, a).cmp(&0));
    let mut backward = make();
    backward.reverse();
    backward.sort_by(|a, b| compare_entries(b, a).cmp(&0));
    assert_eq!(key(&forward), key(&backward));
    let groups = make();
    for i in 0..groups.len() {
        for j in 0..groups.len() {
            let r = compare_entries(&groups[i], &groups[j]);
            assert_eq!(r, -compare_entries(&groups[j], &groups[i]));
            if i != j {
                assert_ne!(r, 0);
            }
        }
    }
}

#[test]
fn add_and_remove_ignore_the_size_table_when_nothing_changes() {
    let mut g = group_of(0, 0, vec![1], &["a"]);
    let empty: ModuleSizes = vec![];
    g.add_module(s("a"), &empty);
    g.remove_module(s("z"), &empty);
    assert_eq!(g.modules, vec![s("a")]);
    assert_eq!(size(&g, SourceType::JavaScript), 10);
}

#[test]
fn remove_module_leaves_every_index() {
    let mut g = group_of(0, 0, vec![1], &["a", "b"]);
    // the module's sizes no longer name css, yet it leaves the css index
    let changed: ModuleSizes = vec![(s("a"), vec![(SourceType::JavaScript, 10)])];
    g.remove_module(s("a"), &changed);
    assert!(g.get_source_types_modules(&vec![SourceType::Css], &sizes()).is_empty());
    assert_eq!(g.get_source_types_modules(&vec![SourceType::JavaScript], &sizes()), vec![s("b")]);
    assert_eq!(size(&g, SourceType::Css), 4);
}
