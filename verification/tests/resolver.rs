use mcshader_lsp::graph::CachedStableGraph;
use mcshader_lsp::shaders::{rescan, rescan_at, scan_file, IncludeFile, ShaderFile};
use mcshader_lsp::path::ShaderStage;
use mcshader_lsp::sources::Sources;

fn chars(s: &str) -> Vec<char> {
    s.chars().collect()
}

fn pairs(graph: &CachedStableGraph, paths: &[&str]) -> Vec<(String, String, usize)> {
    let mut found = Vec::new();
    for p in paths {
        if let Some(node) = graph.node_of(p) {
            for e in graph.including_files(node) {
                found.push((p.to_string(), e.3, e.0));
            }
        }
    }
    found
}

#[test]
fn one_inclusion_gives_two_nodes_and_one_edge_on_its_line() {
    let mut sources = Sources::new();
    sources.insert(
        "/pack/shaders/final.fsh",
        "#version 120\n\n#include \"common.glsl\"\n\nvoid main() {}\n",
    );
    sources.insert("/pack/shaders/common.glsl", "float test() {\n    return 0.5;\n}\n");
    let mut graph = CachedStableGraph::new();
    let mut file = ShaderFile::new("/pack/shaders", "/pack/shaders/final.fsh");
    assert_eq!(file.file_type(), ShaderStage::Unknown);
    assert!(file.read_file(&mut graph, &sources).is_ok());
    assert_eq!(file.file_type(), ShaderStage::Fragment);
    assert_eq!(graph.node_count(), 2);
    assert_eq!(graph.edge_count(), 1);
    let list = file.including_files(&graph);
    assert_eq!(list, vec![(2, 10, 21, "/pack/shaders/common.glsl".to_string())]);
    let common = graph.node_of("/pack/shaders/common.glsl").unwrap();
    assert_eq!(graph.including_files(common).len(), 0);
}

#[test]
fn files_named_by_files_named_are_read_too() {
    let mut sources = Sources::new();
    sources.insert(
        "/pack/shaders/final.fsh",
        "#version 120\n#include \"common.glsl\"\n#include \"test/banana.glsl\"\nvoid main() {}\n",
    );
    sources.insert("/pack/shaders/common.glsl", "float a;\n");
    sources.insert("/pack/shaders/test/banana.glsl", "#include \"burger.glsl\"\nfloat b;\n");
    sources.insert("/pack/shaders/test/burger.glsl", "float c;\n");
    let mut graph = CachedStableGraph::new();
    let mut file = ShaderFile::new("/pack/shaders", "/pack/shaders/final.fsh");
    assert!(file.read_file(&mut graph, &sources).is_ok());
    assert_eq!(graph.node_count(), 4);
    assert_eq!(graph.edge_count(), 3);
    let all = [
        "/pack/shaders/final.fsh",
        "/pack/shaders/common.glsl",
        "/pack/shaders/test/banana.glsl",
        "/pack/shaders/test/burger.glsl",
    ];
    assert_eq!(
        pairs(&graph, &all),
        vec![
            ("/pack/shaders/final.fsh".to_string(), "/pack/shaders/common.glsl".to_string(), 1),
            ("/pack/shaders/final.fsh".to_string(), "/pack/shaders/test/banana.glsl".to_string(), 2),
            (
                "/pack/shaders/test/banana.glsl".to_string(),
                "/pack/shaders/test/burger.glsl".to_string(),
                0
            ),
        ]
    );
}

#[test]
fn a_file_that_is_missing_gets_a_node_all_the_same() {
    let mut sources = Sources::new();
    sources.insert("/pack/shaders/final.fsh", "#include \"missing.glsl\"\nvoid main() {}\n");
    let mut graph = CachedStableGraph::new();
    let mut file = ShaderFile::new("/pack/shaders", "/pack/shaders/final.fsh");
    assert!(file.read_file(&mut graph, &sources).is_ok());
    assert_eq!(graph.node_count(), 2);
    assert_eq!(graph.edge_count(), 1);
    let missing = graph.node_of("/pack/shaders/missing.glsl").unwrap();
    assert!(!graph.file_exists(missing));
    assert!(graph.file_exists(graph.node_of("/pack/shaders/final.fsh").unwrap()));
    assert_eq!(graph.including_files(missing).len(), 0);
    assert!(!sources.contains(&chars("/pack/shaders/missing.glsl")));
    assert!(sources.contains(&chars("/pack/shaders/final.fsh")));
}

#[test]
fn an_entry_file_that_is_missing_gets_a_node_without_inclusions() {
    let sources = Sources::new();
    let mut graph = CachedStableGraph::new();
    let mut file = ShaderFile::new("/pack/shaders", "/pack/shaders/final.vsh");
    assert!(file.read_file(&mut graph, &sources).is_ok());
    assert_eq!(file.file_type(), ShaderStage::Vertex);
    assert_eq!(graph.node_count(), 1);
    assert_eq!(graph.edge_count(), 0);
}

#[test]
fn every_occurrence_of_a_directive_is_an_edge() {
    let mut sources = Sources::new();
    sources.insert(
        "/s/final.fsh",
        "#include \"a.glsl\"\n  #include \"a.glsl\"\nfloat x;\n#include \"/a.glsl\" // again\n",
    );
    sources.insert("/s/a.glsl", "float a;\n");
    let mut graph = CachedStableGraph::new();
    let mut file = ShaderFile::new("/s", "/s/final.fsh");
    assert!(file.read_file(&mut graph, &sources).is_ok());
    assert_eq!(graph.node_count(), 2);
    assert_eq!(graph.edge_count(), 3);
    assert_eq!(
        file.including_files(&graph),
        vec![
            (0, 10, 16, "/s/a.glsl".to_string()),
            (1, 12, 18, "/s/a.glsl".to_string()),
            (3, 10, 17, "/s/a.glsl".to_string()),
        ]
    );
}

#[test]
fn what_follows_the_closing_quote_is_ignored() {
    let mut sources = Sources::new();
    sources.insert("/ws/shaders/a.glsl", "#include \"b.glsl\" // see \"c.glsl\"");
    sources.insert("/ws/shaders/b.glsl", "float b;\n");
    let mut graph = CachedStableGraph::new();
    assert!(IncludeFile::get_includes("/ws/shaders", "/ws/shaders/a.glsl", &mut graph, &sources, 0).is_ok());
    let a = IncludeFile::new("/ws/shaders", "/ws/shaders/a.glsl");
    assert_eq!(a.including_files(&graph), vec![(0, 10, 16, "/ws/shaders/b.glsl".to_string())]);
    assert_eq!(graph.node_count(), 2);
    assert_eq!(graph.node_of("/ws/shaders/c.glsl"), None);
}

#[test]
fn reading_anew_replaces_the_inclusions_and_keeps_the_nodes() {
    let mut sources = Sources::new();
    sources.insert("/s/final.fsh", "#include \"a.glsl\"\n#include \"b.glsl\"\n");
    sources.insert("/s/a.glsl", "#include \"c.glsl\"\n");
    sources.insert("/s/b.glsl", "");
    sources.insert("/s/c.glsl", "");
    let mut graph = CachedStableGraph::new();
    let mut file = ShaderFile::new("/s", "/s/final.fsh");
    assert!(file.read_file(&mut graph, &sources).is_ok());
    assert_eq!(graph.node_count(), 4);
    assert_eq!(graph.edge_count(), 3);

    assert!(file.read_file(&mut graph, &sources).is_ok());
    assert_eq!(graph.node_count(), 4);
    assert_eq!(graph.edge_count(), 3);
    assert_eq!(file.including_files(&graph).len(), 2);

    sources.insert("/s/final.fsh", "float x;\n#include \"b.glsl\"\n");
    assert!(file.read_file(&mut graph, &sources).is_ok());
    assert_eq!(graph.node_count(), 4);
    assert_eq!(graph.edge_count(), 2);
    assert_eq!(file.including_files(&graph), vec![(1, 10, 16, "/s/b.glsl".to_string())]);
    let a = graph.node_of("/s/a.glsl").unwrap();
    assert_eq!(graph.including_files(a), vec![(0, 10, 16, "/s/c.glsl".to_string())]);

    sources.insert("/s/final.fsh", "");
    assert!(file.read_file(&mut graph, &sources).is_ok());
    assert_eq!(graph.node_count(), 4);
    assert_eq!(graph.edge_count(), 1);

    file.clear_including_files(&mut graph);
    assert_eq!(graph.edge_count(), 1);
}

#[test]
fn a_file_that_is_known_is_not_read_again() {
    let mut sources = Sources::new();
    sources.insert("/s/final.fsh", "#include \"a.glsl\"\n");
    sources.insert("/s/a.glsl", "float a;\n");
    let mut graph = CachedStableGraph::new();
    let mut file = ShaderFile::new("/s", "/s/final.fsh");
    assert!(file.read_file(&mut graph, &sources).is_ok());
    assert_eq!(graph.edge_count(), 1);
    sources.insert("/s/a.glsl", "#include \"b.glsl\"\n");
    assert!(file.read_file(&mut graph, &sources).is_ok());
    assert_eq!(graph.node_count(), 2);
    assert_eq!(graph.edge_count(), 1);
    let mut a = IncludeFile::new("/s", "/s/a.glsl");
    assert!(a.update_include(&mut graph, &sources).is_ok());
    assert_eq!(graph.node_count(), 3);
    assert_eq!(graph.edge_count(), 2);
    assert_eq!(a.including_files(&graph), vec![(0, 10, 16, "/s/b.glsl".to_string())]);
}

#[test]
fn files_that_name_each_other_are_read_once() {
    let mut sources = Sources::new();
    sources.insert("/s/a.fsh", "#include \"b.glsl\"\n");
    sources.insert("/s/b.glsl", "#include \"a.fsh\"\n#include \"b.glsl\"\n");
    let mut graph = CachedStableGraph::new();
    let mut file = ShaderFile::new("/s", "/s/a.fsh");
    assert!(file.read_file(&mut graph, &sources).is_ok());
    assert_eq!(graph.node_count(), 2);
    assert_eq!(graph.edge_count(), 3);
    let b = graph.node_of("/s/b.glsl").unwrap();
    assert_eq!(
        graph.including_files(b),
        vec![(0, 10, 15, "/s/a.fsh".to_string()), (1, 10, 16, "/s/b.glsl".to_string())]
    );
}

fn chain(sources: &mut Sources, n: usize) {
    for i in 0..n {
        let text = if i + 1 < n {
            format!("float f{};\n#include \"f{}.glsl\"\n", i, i + 1)
        } else {
            format!("float f{};\n", i)
        };
        sources.insert(&format!("/s/f{}.glsl", i), &text);
    }
}

#[test]
fn files_below_the_depth_limit_are_not_read() {
    let mut sources = Sources::new();
    chain(&mut sources, 14);
    let mut graph = CachedStableGraph::new();
    assert!(rescan(&mut graph, &sources, &chars("/s"), &chars("/s/f0.glsl")).is_ok());
    assert_eq!(graph.node_count(), 12);
    assert_eq!(graph.edge_count(), 11);
    let f10 = graph.node_of("/s/f10.glsl").unwrap();
    assert_eq!(graph.including_files(f10), vec![(1, 10, 18, "/s/f11.glsl".to_string())]);
    let f11 = graph.node_of("/s/f11.glsl").unwrap();
    assert!(graph.file_exists(f11));
    assert_eq!(graph.including_files(f11).len(), 0);
    assert_eq!(graph.node_of("/s/f12.glsl"), None);

    assert!(scan_file(&mut graph, &sources, &chars("/s"), &chars("/s/f11.glsl"), 0).is_ok());
    assert_eq!(graph.node_count(), 14);
    assert_eq!(graph.edge_count(), 13);
}

#[test]
fn a_file_read_anew_deep_down_is_read_as_far_as_the_limit() {
    let mut sources = Sources::new();
    chain(&mut sources, 6);
    let mut graph = CachedStableGraph::new();
    assert!(rescan_at(&mut graph, &sources, &chars("/s"), &chars("/s/f0.glsl"), 9).is_ok());
    assert_eq!(graph.node_count(), 3);
    assert_eq!(graph.edge_count(), 2);
    assert!(graph.file_exists(graph.node_of("/s/f2.glsl").unwrap()));
    assert_eq!(graph.node_of("/s/f3.glsl"), None);
    assert!(rescan_at(&mut graph, &sources, &chars("/s"), &chars("/s/f0.glsl"), 11).is_ok());
    assert_eq!(graph.node_count(), 3);
    assert_eq!(graph.edge_count(), 1);
    assert!(rescan_at(&mut graph, &sources, &chars("/s"), &chars("/s/new.glsl"), 11).is_ok());
    assert_eq!(graph.node_count(), 4);
    assert!(!graph.file_exists(graph.node_of("/s/new.glsl").unwrap()));
}

#[test]
fn a_chain_as_deep_as_the_limit_is_read_whole() {
    let mut sources = Sources::new();
    chain(&mut sources, 11);
    let mut graph = CachedStableGraph::new();
    assert!(rescan(&mut graph, &sources, &chars("/s"), &chars("/s/f0.glsl")).is_ok());
    assert_eq!(graph.node_count(), 11);
    assert_eq!(graph.edge_count(), 10);
}

#[test]
fn taking_in_a_file_reads_it_unless_it_is_known() {
    let mut sources = Sources::new();
    sources.insert("/s/a.glsl", "#include \"b.glsl\"\n");
    sources.insert("/s/b.glsl", "");
    let mut graph = CachedStableGraph::new();
    assert!(IncludeFile::get_includes("/s", "/s/a.glsl", &mut graph, &sources, 0).is_ok());
    assert_eq!(graph.node_count(), 2);
    assert_eq!(graph.edge_count(), 1);
    sources.insert("/s/a.glsl", "");
    assert!(IncludeFile::get_includes("/s", "/s/a.glsl", &mut graph, &sources, 0).is_ok());
    assert_eq!(graph.node_count(), 2);
    assert_eq!(graph.edge_count(), 1);
    assert!(IncludeFile::get_includes("/s", "/s/c.glsl", &mut graph, &sources, 11).is_ok());
    assert_eq!(graph.node_count(), 3);
}

#[test]
fn texts_are_kept_by_path() {
    let mut sources = Sources::new();
    sources.insert("C:\\s\\a.glsl", "one\n");
    assert!(sources.contains(&chars("C:/s/a.glsl")));
    assert_eq!(sources.lines(&chars("C:/s/a.glsl")), Some(&vec![chars("one")]));
    sources.insert("C:/s/a.glsl", "two\nthree");
    assert_eq!(sources.lines(&chars("C:/s/a.glsl")), Some(&vec![chars("two"), chars("three")]));
    sources.insert("C:/s/b.glsl", "");
    assert_eq!(sources.lines(&chars("C:/s/b.glsl")), Some(&vec![]));
    sources.remove("C:\\s\\a.glsl");
    assert!(!sources.contains(&chars("C:/s/a.glsl")));
    assert_eq!(sources.lines(&chars("C:/s/a.glsl")), None);
    assert!(sources.contains(&chars("C:/s/b.glsl")));
    sources.remove("C:/s/none.glsl");
    assert!(sources.contains(&chars("C:/s/b.glsl")));
}
