use mcshader_lsp::graph::{CachedStableGraph, IncludePosition};
use mcshader_lsp::server::MinecraftShaderLanguageServer;
use mcshader_lsp::shaders::{rescan, scan_file, IncludeFile, ScanError, ShaderFile};
use mcshader_lsp::sources::Sources;

fn chars(s: &str) -> Vec<char> {
    s.chars().collect()
}

fn project() -> Sources {
    let mut sources = Sources::new();
    sources.insert("/s/final.fsh", "#include \"a.glsl\"\n#include \"b.glsl\"\n#include \"a.glsl\"\n");
    sources.insert("/s/a.glsl", "float a;\n");
    sources.insert("/s/b.glsl", "#include \"c.glsl\"\n");
    sources.insert("/s/c.glsl", "float c;\n");
    sources
}

#[test]
fn a_graph_takes_no_more_than_it_was_made_for() {
    let mut graph = CachedStableGraph::with_limits(2, 1);
    assert!(graph.has_node_room());
    assert!(graph.has_edge_room());
    let a = graph.add_node("/a");
    assert!(graph.has_node_room());
    let b = graph.add_node("/b");
    assert!(!graph.has_node_room());
    assert_eq!(graph.add_node("/a"), a);
    graph.add_edge(a, b, IncludePosition { line: 0, start: 0, end: 1 });
    assert!(!graph.has_edge_room());
    graph.clear_edges(a);
    assert!(graph.has_edge_room());
    assert!(graph.remove_node(b));
    assert!(graph.has_node_room());
    let wide = CachedStableGraph::with_limits(usize::MAX, usize::MAX);
    assert!(wide.has_node_room());
    assert!(wide.has_edge_room());
    let none = CachedStableGraph::with_limits(0, 0);
    assert!(!none.has_node_room());
    assert!(!none.has_edge_room());
}

#[test]
fn reading_stops_where_the_graph_takes_no_more_files() {
    let sources = project();
    let mut graph = CachedStableGraph::with_limits(2, 100);
    let mut file = ShaderFile::new("/s", "/s/final.fsh");
    assert_eq!(file.read_file(&mut graph, &sources), Err(ScanError::GraphFull));
    assert_eq!(graph.node_count(), 2);
    assert_eq!(graph.edge_count(), 1);
    assert_eq!(graph.node_of("/s/b.glsl"), None);

    let mut graph = CachedStableGraph::with_limits(3, 100);
    assert_eq!(file.read_file(&mut graph, &sources), Err(ScanError::GraphFull));
    assert_eq!(graph.node_count(), 3);
    assert_eq!(graph.edge_count(), 2);
    assert_eq!(graph.node_of("/s/c.glsl"), None);

    let mut graph = CachedStableGraph::with_limits(4, 100);
    assert_eq!(file.read_file(&mut graph, &sources), Ok(()));
    assert_eq!(graph.node_count(), 4);
    assert_eq!(graph.edge_count(), 4);
    assert_eq!(file.read_file(&mut graph, &sources), Ok(()));
    assert_eq!(graph.node_count(), 4);

    let mut graph = CachedStableGraph::with_limits(0, 100);
    assert_eq!(file.read_file(&mut graph, &sources), Err(ScanError::GraphFull));
    assert_eq!(graph.node_count(), 0);
}

#[test]
fn reading_stops_where_the_graph_takes_no_more_inclusions() {
    let sources = project();
    let mut file = ShaderFile::new("/s", "/s/final.fsh");
    let mut graph = CachedStableGraph::with_limits(100, 3);
    assert_eq!(file.read_file(&mut graph, &sources), Err(ScanError::GraphFull));
    assert_eq!(graph.node_count(), 4);
    assert_eq!(graph.edge_count(), 3);
    assert_eq!(file.including_files(&graph).len(), 2);

    let mut graph = CachedStableGraph::with_limits(100, 4);
    assert_eq!(file.read_file(&mut graph, &sources), Ok(()));
    assert_eq!(graph.edge_count(), 4);
    assert_eq!(file.read_file(&mut graph, &sources), Ok(()));
    assert_eq!(graph.edge_count(), 4);

    let mut graph = CachedStableGraph::with_limits(100, 0);
    assert_eq!(file.read_file(&mut graph, &sources), Err(ScanError::GraphFull));
    assert_eq!(graph.node_count(), 1);
    let mut empty = ShaderFile::new("/s", "/s/c.glsl");
    assert_eq!(empty.read_file(&mut graph, &sources), Ok(()));
    assert_eq!(graph.node_count(), 2);
}

#[test]
fn a_full_graph_takes_in_no_new_file() {
    let sources = project();
    let mut graph = CachedStableGraph::with_limits(1, 100);
    assert_eq!(IncludeFile::get_includes("/s", "/s/c.glsl", &mut graph, &sources, 0), Ok(()));
    assert_eq!(IncludeFile::get_includes("/s", "/s/a.glsl", &mut graph, &sources, 0), Err(ScanError::GraphFull));
    assert_eq!(IncludeFile::get_includes("/s", "/s/c.glsl", &mut graph, &sources, 0), Ok(()));
    assert_eq!(rescan(&mut graph, &sources, &chars("/s"), &chars("/s/a.glsl")), Err(ScanError::GraphFull));
    assert_eq!(rescan(&mut graph, &sources, &chars("/s"), &chars("/s/c.glsl")), Ok(()));
    assert_eq!(graph.node_count(), 1);
    let mut c = IncludeFile::new("/s", "/s/c.glsl");
    assert_eq!(c.update_include(&mut graph, &sources), Ok(()));
    let mut sources = sources;
    sources.insert("/s/c.glsl", "#include \"a.glsl\"\n");
    assert_eq!(c.update_include(&mut graph, &sources), Err(ScanError::GraphFull));
    assert_eq!(scan_file(&mut graph, &sources, &chars("/s"), &chars("/s/c.glsl"), 0), Err(ScanError::GraphFull));
    assert_eq!(scan_file(&mut graph, &sources, &chars("/s"), &chars("/s/c.glsl"), 11), Ok(()));
}

#[test]
fn the_server_tells_when_the_graph_is_full() {
    let mut server = MinecraftShaderLanguageServer::with_graph("Intel", CachedStableGraph::with_limits(3, 100));
    server.set_source("/s/final.fsh", "#include \"a.glsl\"\n#include \"b.glsl\"\n");
    server.set_source("/s/a.glsl", "float a;\n");
    server.set_source("/s/b.glsl", "float b;\n");
    assert_eq!(server.add_shader_file("/s", "/s/final.fsh"), Ok(()));
    assert_eq!(server.update_lint("/s/a.glsl"), vec!["/s/final.fsh".to_string()]);

    server.set_source("/s/other.vsh", "void main() {}\n");
    assert_eq!(server.add_shader_file("/s", "/s/other.vsh"), Err(ScanError::GraphFull));
    assert_eq!(server.update_lint("/s/other.vsh"), Vec::<String>::new());
    assert!(server.lint_shader("/s/other.vsh").is_none());

    server.set_source("/s/a.glsl", "#include \"c.glsl\"\n");
    assert_eq!(server.update_file("/s/a.glsl"), Err(ScanError::GraphFull));
    assert_eq!(server.watched_file_changed("/s/a.glsl", false), Err(ScanError::GraphFull));
    assert_eq!(server.watched_file_changed("/s/final.fsh", false), Ok(vec!["/s/final.fsh".to_string()]));
    let changes = vec![("/s/b.glsl".to_string(), false), ("/s/a.glsl".to_string(), false)];
    assert_eq!(server.did_change_watched_files(&changes), Err(ScanError::GraphFull));
    assert_eq!(server.watched_file_changed("/s/b.glsl", true), Ok(vec!["/s/final.fsh".to_string()]));
    assert_eq!(server.graph().node_count(), 3);
    server.set_source("/s/final.fsh", "#include \"a.glsl\"\n");
    assert_eq!(server.update_file("/s/final.fsh"), Ok(()));
    assert_eq!(server.graph().node_count(), 3);
    assert_eq!(server.watched_file_changed("/s/b.glsl", true), Ok(vec![]));
    assert_eq!(server.graph().node_count(), 2);
}
