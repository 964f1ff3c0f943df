use mcshader_lsp::graph::{CachedStableGraph, IncludePosition};
use mcshader_lsp::shaders::{rescan, IncludeFile, ShaderFile};
use mcshader_lsp::sources::Sources;
use std::collections::VecDeque;

fn chars(s: &str) -> Vec<char> {
    s.chars().collect()
}

fn read(sources: &Sources, graph: &mut CachedStableGraph, path: &str) -> ShaderFile {
    let mut file = ShaderFile::new("/s", path);
    assert!(file.read_file(graph, sources).is_ok());
    file
}

#[test]
fn a_file_named_stands_in_place_of_the_line_that_names_it() {
    let mut sources = Sources::new();
    sources.insert(
        "/s/final.fsh",
        "#version 120\n\n#include \"common.glsl\"\n\nvoid main() {}\n",
    );
    sources.insert("/s/common.glsl", "float test() {\n    return 0.5;\n}\n");
    let mut graph = CachedStableGraph::new();
    let file = read(&sources, &mut graph, "/s/final.fsh");
    let mut table = Vec::new();
    let text = file.merge_shader_file(&graph, &sources, &mut table);
    assert_eq!(
        text,
        "#version 120\n\n#line 1 1\nfloat test() {\n    return 0.5;\n}\n#line 4 0\n\nvoid main() {}\n"
    );
    assert_eq!(
        table,
        vec![(0, "/s/final.fsh".to_string()), (1, "/s/common.glsl".to_string())]
    );
}

#[test]
fn a_file_without_inclusions_is_written_as_it_stands() {
    let mut sources = Sources::new();
    sources.insert("/s/final.fsh", "#version 120\r\nvoid main() {}");
    let mut graph = CachedStableGraph::new();
    let file = read(&sources, &mut graph, "/s/final.fsh");
    let mut table = Vec::new();
    let text = file.merge_shader_file(&graph, &sources, &mut table);
    assert_eq!(text, "#version 120\nvoid main() {}\n");
    assert_eq!(table, vec![(0, "/s/final.fsh".to_string())]);
}

#[test]
fn an_entry_file_without_text_gives_an_empty_text() {
    let sources = Sources::new();
    let graph = CachedStableGraph::new();
    let file = ShaderFile::new("/s", "/s/final.fsh");
    let mut table = vec![(7, "/other".to_string())];
    let text = file.merge_shader_file(&graph, &sources, &mut table);
    assert_eq!(text, "");
    assert_eq!(table, vec![(7, "/other".to_string()), (0, "/s/final.fsh".to_string())]);
}

#[test]
fn every_occurrence_gets_a_number_of_its_own() {
    let mut sources = Sources::new();
    sources.insert("/s/final.fsh", "#include \"a.glsl\"\n#include \"b.glsl\"\n#include \"a.glsl\"\nend\n");
    sources.insert("/s/a.glsl", "A\n#include \"b.glsl\"\n");
    sources.insert("/s/b.glsl", "B\n");
    let mut graph = CachedStableGraph::new();
    let file = read(&sources, &mut graph, "/s/final.fsh");
    let mut table = Vec::new();
    let text = file.merge_shader_file(&graph, &sources, &mut table);
    assert_eq!(
        text,
        concat_lines(&[
            "#line 1 1", "A", "#line 1 2", "B", "#line 3 1", "#line 2 0",
            "#line 1 3", "B", "#line 3 0",
            "#line 1 4", "A", "#line 1 5", "B", "#line 3 4", "#line 4 0",
            "end",
        ])
    );
    assert_eq!(
        table,
        vec![
            (0, "/s/final.fsh".to_string()),
            (1, "/s/a.glsl".to_string()),
            (2, "/s/b.glsl".to_string()),
            (3, "/s/b.glsl".to_string()),
            (4, "/s/a.glsl".to_string()),
            (5, "/s/b.glsl".to_string()),
        ]
    );
}

fn concat_lines(lines: &[&str]) -> String {
    let mut s = String::new();
    for l in lines {
        s.push_str(l);
        s.push('\n');
    }
    s
}

fn resumes(text: &str) -> usize {
    text.lines().filter(|l| l.starts_with("#line ") && !l.starts_with("#line 1 ")).count()
}

fn chain(sources: &mut Sources, n: usize) {
    for i in 0..n {
        let text = if i + 1 < n {
            format!("float f{};\n#include \"f{}.glsl\"\n", i, i + 1)
        } else {
            format!("float f{};\n", i)
        };
        sources.insert(&format!("/s/f{}.glsl", i), &text);
    }
}

#[test]
fn a_chain_of_three_inclusions_gives_four_numbers_and_three_ways_back() {
    let mut sources = Sources::new();
    chain(&mut sources, 4);
    let mut graph = CachedStableGraph::new();
    let file = read(&sources, &mut graph, "/s/f0.glsl");
    let mut table = Vec::new();
    let text = file.merge_shader_file(&graph, &sources, &mut table);
    assert_eq!(
        text,
        concat_lines(&[
            "float f0;", "#line 1 1", "float f1;", "#line 1 2", "float f2;", "#line 1 3",
            "float f3;", "#line 3 2", "#line 3 1", "#line 3 0",
        ])
    );
    let ids: Vec<usize> = table.iter().map(|e| e.0).collect();
    assert_eq!(ids, vec![0, 1, 2, 3]);
    assert_eq!(resumes(&text), 3);
}

#[test]
fn a_chain_as_deep_as_the_limit_is_written_out_whole() {
    for d in 0..=10usize {
        let mut sources = Sources::new();
        chain(&mut sources, d + 1);
        let mut graph = CachedStableGraph::new();
        let file = read(&sources, &mut graph, "/s/f0.glsl");
        let mut table = Vec::new();
        let text = file.merge_shader_file(&graph, &sources, &mut table);
        assert_eq!(table.len(), d + 1);
        let ids: Vec<usize> = table.iter().map(|e| e.0).collect();
        assert_eq!(ids, (0..=d).collect::<Vec<usize>>());
        assert_eq!(resumes(&text), d);
        assert!(!text.contains("#include"));
    }
}

#[test]
fn a_file_below_the_depth_limit_is_left_as_its_line() {
    let mut sources = Sources::new();
    chain(&mut sources, 13);
    let mut graph = CachedStableGraph::new();
    let file = read(&sources, &mut graph, "/s/f0.glsl");
    let mut table = Vec::new();
    let text = file.merge_shader_file(&graph, &sources, &mut table);
    assert_eq!(table.len(), 11);
    assert_eq!(table[10], (10, "/s/f10.glsl".to_string()));
    assert!(text.contains("float f10;\n#include \"f11.glsl\"\n#line 3 10\n#line 3 9\n"));
    assert!(!text.contains("float f11;"));
    assert_eq!(text.matches("#include").count(), 1);
}

#[test]
fn a_missing_file_is_left_as_its_line() {
    let mut sources = Sources::new();
    sources.insert("/s/final.fsh", "a\n#include \"missing.glsl\"\nb\n#include \"c.glsl\"\n");
    sources.insert("/s/c.glsl", "C\n");
    let mut graph = CachedStableGraph::new();
    let file = read(&sources, &mut graph, "/s/final.fsh");
    let mut table = Vec::new();
    let text = file.merge_shader_file(&graph, &sources, &mut table);
    assert_eq!(
        text,
        concat_lines(&["a", "#include \"missing.glsl\"", "#line 3 0", "b", "#line 1 2", "C", "#line 5 0"])
    );
    assert_eq!(table, vec![(0, "/s/final.fsh".to_string()), (2, "/s/c.glsl".to_string())]);
}

#[test]
fn a_file_that_went_missing_since_it_was_read_is_left_as_its_line() {
    let mut sources = Sources::new();
    sources.insert("/s/final.fsh", "#include \"c.glsl\"\n");
    sources.insert("/s/c.glsl", "C\n");
    let mut graph = CachedStableGraph::new();
    let file = read(&sources, &mut graph, "/s/final.fsh");
    sources.remove("/s/c.glsl");
    let mut table = Vec::new();
    let text = file.merge_shader_file(&graph, &sources, &mut table);
    assert_eq!(text, "#include \"c.glsl\"\n#line 2 0\n");
    assert_eq!(table, vec![(0, "/s/final.fsh".to_string())]);
}

#[test]
fn a_file_that_turned_up_since_it_was_looked_for_is_left_as_its_line() {
    let mut sources = Sources::new();
    sources.insert("/s/final.fsh", "#include \"c.glsl\"\nend\n");
    let mut graph = CachedStableGraph::new();
    let mut file = read(&sources, &mut graph, "/s/final.fsh");
    let c = graph.node_of("/s/c.glsl").unwrap();
    assert!(!graph.file_exists(c));
    sources.insert("/s/c.glsl", "C\n");
    let mut table = Vec::new();
    let text = file.merge_shader_file(&graph, &sources, &mut table);
    assert_eq!(text, "#include \"c.glsl\"\n#line 2 0\nend\n");
    assert_eq!(table, vec![(0, "/s/final.fsh".to_string())]);

    assert!(file.read_file(&mut graph, &sources).is_ok());
    assert!(!graph.file_exists(c));
    let mut c_file = IncludeFile::new("/s", "/s/c.glsl");
    assert!(c_file.update_include(&mut graph, &sources).is_ok());
    assert!(graph.file_exists(c));
    let mut table = Vec::new();
    let text = file.merge_shader_file(&graph, &sources, &mut table);
    assert_eq!(text, "#line 1 1\nC\n#line 2 0\nend\n");
    assert_eq!(table, vec![(0, "/s/final.fsh".to_string()), (1, "/s/c.glsl".to_string())]);
}

#[test]
fn merging_twice_gives_the_same_text_and_table() {
    let mut sources = Sources::new();
    sources.insert("/s/final.fsh", "#include \"a.glsl\"\n#include \"b.glsl\"\n#include \"a.glsl\"\nend\n");
    sources.insert("/s/a.glsl", "A\n#include \"b.glsl\"\n");
    sources.insert("/s/b.glsl", "B\n");
    let mut graph = CachedStableGraph::new();
    let file = read(&sources, &mut graph, "/s/final.fsh");
    let mut first_table = Vec::new();
    let first = file.merge_shader_file(&graph, &sources, &mut first_table);
    let mut second_table = Vec::new();
    let second = file.merge_shader_file(&graph, &sources, &mut second_table);
    assert_eq!(first, second);
    assert_eq!(first_table, second_table);
    assert_eq!(first_table.len(), 6);
}

#[test]
fn files_that_name_each_other_are_written_out_down_to_the_limit() {
    let mut sources = Sources::new();
    sources.insert("/s/a.fsh", "#include \"a.fsh\"\n");
    let mut graph = CachedStableGraph::new();
    let file = read(&sources, &mut graph, "/s/a.fsh");
    let mut table = Vec::new();
    let text = file.merge_shader_file(&graph, &sources, &mut table);
    assert_eq!(table.len(), 11);
    assert_eq!(text.matches("#line 1 ").count(), 10);
    assert_eq!(text.matches("#include \"a.fsh\"\n").count(), 1);
    assert_eq!(resumes(&text), 11);
}

#[test]
fn of_two_inclusions_on_one_line_the_first_counts() {
    let mut sources = Sources::new();
    sources.insert("/s/final.fsh", "x\ny\nz\n");
    sources.insert("/s/a.glsl", "A\n");
    sources.insert("/s/b.glsl", "B\n");
    let mut graph = CachedStableGraph::new();
    let f = graph.add_node("/s/final.fsh");
    let a = graph.add_node("/s/a.glsl");
    let b = graph.add_node("/s/b.glsl");
    graph.set_file_exists(a, true);
    graph.set_file_exists(b, true);
    graph.add_edge(f, b, IncludePosition { line: 1, start: 0, end: 1 });
    graph.add_edge(f, a, IncludePosition { line: 1, start: 0, end: 1 });
    graph.add_edge(f, a, IncludePosition { line: 2, start: 0, end: 1 });
    graph.add_edge(f, b, IncludePosition { line: 9, start: 0, end: 1 });
    let file = ShaderFile::new("/s", "/s/final.fsh");
    let mut table = Vec::new();
    let text = file.merge_shader_file(&graph, &sources, &mut table);
    assert_eq!(
        text,
        concat_lines(&["x", "#line 1 1", "B", "#line 3 0", "#line 1 2", "A", "#line 4 0"])
    );
    assert_eq!(
        table,
        vec![
            (0, "/s/final.fsh".to_string()),
            (1, "/s/b.glsl".to_string()),
            (2, "/s/a.glsl".to_string())
        ]
    );
}

#[test]
fn a_file_named_is_written_out_under_the_number_handed_in() {
    let mut sources = Sources::new();
    sources.insert("/s/a.glsl", "A\n#include \"b.glsl\"\nA2\n");
    sources.insert("/s/b.glsl", "B\n");
    let mut graph = CachedStableGraph::new();
    assert!(rescan(&mut graph, &sources, &chars("/s"), &chars("/s/a.glsl")).is_ok());
    let a = IncludeFile::new("/s", "/s/a.glsl");
    let mut table = Vec::new();
    let mut id = 5;
    let text = a.merge_include("#include \"a.glsl\"", &graph, &sources, &mut table, &mut id, 1);
    assert_eq!(text, concat_lines(&["#line 1 5", "A", "#line 1 6", "B", "#line 3 5", "A2"]));
    assert_eq!(table, vec![(5, "/s/a.glsl".to_string()), (6, "/s/b.glsl".to_string())]);
    assert_eq!(id, 6);

    let mut table = Vec::new();
    let mut id = 5;
    let text = a.merge_include("#include \"a.glsl\"", &graph, &sources, &mut table, &mut id, 10);
    assert_eq!(
        text,
        concat_lines(&["#line 1 5", "A", "#include \"b.glsl\"", "#line 3 5", "A2"])
    );
    assert_eq!(table, vec![(5, "/s/a.glsl".to_string())]);
    assert_eq!(id, 6);

    let mut table = Vec::new();
    let mut id = 5;
    let text = a.merge_include("#include \"a.glsl\"", &graph, &sources, &mut table, &mut id, 11);
    assert_eq!(text, "#include \"a.glsl\"\n");
    assert_eq!(table, vec![]);
    assert_eq!(id, 5);
}

#[test]
fn no_file_is_written_out_when_the_numbers_are_used_up() {
    let mut sources = Sources::new();
    sources.insert("/s/a.glsl", "A\n#include \"b.glsl\"\n");
    sources.insert("/s/b.glsl", "B\n");
    let mut graph = CachedStableGraph::new();
    assert!(rescan(&mut graph, &sources, &chars("/s"), &chars("/s/a.glsl")).is_ok());
    let a = IncludeFile::new("/s", "/s/a.glsl");
    let mut table = Vec::new();
    let mut id = 0xffff_fffe;
    let text = a.merge_include("line", &graph, &sources, &mut table, &mut id, 1);
    assert_eq!(
        text,
        concat_lines(&["#line 1 4294967294", "A", "#include \"b.glsl\"", "#line 3 4294967294"])
    );
    assert_eq!(table, vec![(0xffff_fffe, "/s/a.glsl".to_string())]);
    assert_eq!(id, 0xffff_ffff);
    let mut table = Vec::new();
    let text = a.merge_include("line", &graph, &sources, &mut table, &mut id, 1);
    assert_eq!(text, "line\n");
    assert_eq!(table, vec![]);
    assert_eq!(id, 0xffff_ffff);
}

#[test]
fn the_next_inclusion_is_taken_off_the_front() {
    let mut list = VecDeque::new();
    list.push_back((2, 10, 21, "/s/common.glsl".to_string()));
    list.push_back((5, 10, 12, "/s/b.glsl".to_string()));
    assert_eq!(IncludeFile::next_include_file(&mut list), (2, 10, 21, "/s/common.glsl".to_string()));
    assert_eq!(list.len(), 1);
    assert_eq!(IncludeFile::next_include_file(&mut list), (5, 10, 12, "/s/b.glsl".to_string()));
    assert_eq!(list.len(), 0);
    assert_eq!(IncludeFile::next_include_file(&mut list), (65535, 65535, 65535, "/".to_string()));
    assert_eq!(list.len(), 0);
}

#[test]
fn adding_the_same_parents_again_changes_nothing() {
    let mut sources = Sources::new();
    sources.insert("/s/final.fsh", "#include \"a.glsl\"\n#include \"b.glsl\"\n");
    sources.insert("/s/a.glsl", "#include \"b.glsl\"\n");
    sources.insert("/s/b.glsl", "#include \"a.glsl\"\n#include \"c.glsl\"\n");
    let mut graph = CachedStableGraph::new();
    let _file = read(&sources, &mut graph, "/s/final.fsh");
    let mut table = vec![IncludeFile::new("/s", "/s/other.glsl")];
    let parents = vec!["/s/final.fsh".to_string(), "/s/final.fsh".to_string(), "/s/x.vsh".to_string()];
    IncludeFile::update_parent("/s", "/s/final.fsh", &parents, &mut table, &graph, 0);
    let once: Vec<(String, Vec<String>)> =
        table.iter().map(|f| (f.path(), f.included_shaders().clone())).collect();
    let both = vec!["/s/final.fsh".to_string(), "/s/x.vsh".to_string()];
    assert_eq!(
        once,
        vec![
            ("/s/other.glsl".to_string(), vec![]),
            ("/s/final.fsh".to_string(), both.clone()),
            ("/s/a.glsl".to_string(), both.clone()),
            ("/s/b.glsl".to_string(), both.clone()),
            ("/s/c.glsl".to_string(), both.clone()),
        ]
    );
    IncludeFile::update_parent("/s", "/s/final.fsh", &parents, &mut table, &graph, 0);
    let twice: Vec<(String, Vec<String>)> =
        table.iter().map(|f| (f.path(), f.included_shaders().clone())).collect();
    assert_eq!(once, twice);
}

#[test]
fn parents_go_down_to_the_files_named() {
    let mut sources = Sources::new();
    sources.insert("/s/final.fsh", "#include \"a.glsl\"\n");
    sources.insert("/s/a.glsl", "#include \"b.glsl\"\n#include \"b.glsl\"\n");
    sources.insert("/s/b.glsl", "#include \"a.glsl\"\n");
    let mut graph = CachedStableGraph::new();
    let _file = read(&sources, &mut graph, "/s/final.fsh");
    let mut table = vec![IncludeFile::new("/s", "/s/b.glsl")];
    let parents = vec!["/s/final.fsh".to_string(), "/s/other.vsh".to_string()];
    IncludeFile::update_parent("/s", "/s/a.glsl", &parents, &mut table, &graph, 0);
    assert_eq!(table.len(), 2);
    assert_eq!(table[0].path(), "/s/b.glsl");
    assert_eq!(table[0].included_shaders(), &parents);
    assert_eq!(table[1].path(), "/s/a.glsl");
    assert_eq!(table[1].included_shaders(), &parents);
    let more = vec!["/s/other.vsh".to_string(), "/s/third.gsh".to_string()];
    IncludeFile::update_parent("/s", "/s/b.glsl", &more, &mut table, &graph, 10);
    assert_eq!(table.len(), 2);
    assert_eq!(
        table[0].included_shaders(),
        &vec!["/s/final.fsh".to_string(), "/s/other.vsh".to_string(), "/s/third.gsh".to_string()]
    );
    assert_eq!(table[1].included_shaders(), &parents);
    IncludeFile::update_parent("/s", "/s/b.glsl", &more, &mut table, &graph, 9);
    assert_eq!(
        table[1].included_shaders(),
        &vec!["/s/final.fsh".to_string(), "/s/other.vsh".to_string(), "/s/third.gsh".to_string()]
    );
    IncludeFile::update_parent("/s", "/s/b.glsl", &vec!["/x".to_string()], &mut table, &graph, 11);
    assert_eq!(table[0].included_shaders().len(), 3);
    table[0].forget_parent(&"/s/other.vsh".to_string());
    assert_eq!(
        table[0].included_shaders(),
        &vec!["/s/final.fsh".to_string(), "/s/third.gsh".to_string()]
    );
}
