use mcshader_lsp::parser::Severity;
use mcshader_lsp::path::ShaderStage;
use mcshader_lsp::server::MinecraftShaderLanguageServer;

fn new_temp_server() -> MinecraftShaderLanguageServer {
    MinecraftShaderLanguageServer::new("NVIDIA Corporation")
}

fn join(root: &str, parts: &[&str]) -> String {
    let mut path = root.to_string();
    for p in parts {
        path.push('/');
        path.push_str(p);
    }
    path
}

fn project_01(server: &mut MinecraftShaderLanguageServer, root: &str) {
    server.set_source(
        &join(root, &["shaders", "final.fsh"]),
        "#version 120\n\n#include \"/common.glsl\"\n\nvoid main() {\n    gl_FragColor[0] = 0.0;\n}\n",
    );
    server.set_source(
        &join(root, &["shaders", "common.glsl"]),
        "float test() {\n    return 0.5;\n}\n",
    );
    let work_space = join(root, &["shaders"]);
    assert!(server.add_shader_file(&work_space, &join(root, &["shaders", "final.fsh"])).is_ok());
}

fn project_05(server: &mut MinecraftShaderLanguageServer, root: &str) {
    server.set_source(
        &join(root, &["shaders", "final.fsh"]),
        "#version 120\n\n#include \"/common.glsl\"\n#include \"/test/banana.glsl\"\n\nvoid main() {\n    gl_FragColor[0] = 0.0;\n}\n",
    );
    server.set_source(&join(root, &["shaders", "common.glsl"]), "float test() {\n    return 0.5;\n}\n");
    server.set_source(
        &join(root, &["shaders", "test", "banana.glsl"]),
        "#include \"/test/burger.glsl\"\n\nfloat banana() {\n    return burger();\n}\n",
    );
    server.set_source(
        &join(root, &["shaders", "test", "burger.glsl"]),
        "float burger() {\n    return 1.0;\n}\n",
    );
    let work_space = join(root, &["shaders"]);
    assert!(server.add_shader_file(&work_space, &join(root, &["shaders", "final.fsh"])).is_ok());
}

#[test]
fn test_empty_initialize() {
    let server = new_temp_server();
    assert_eq!(server.graph().edge_count(), 0);
    assert_eq!(server.graph().node_count(), 0);
    assert_eq!(server.update_lint("/tmp/mcshader/shaders/final.fsh").len(), 0);
    assert!(server.document_link("/tmp/mcshader/shaders/final.fsh").is_none());
}

#[test]
fn test_01_initialize() {
    let mut server = new_temp_server();
    let tmp_path = "/tmp/mcshader";
    project_01(&mut server, tmp_path);

    assert_eq!(server.graph().edge_count(), 1);
    assert_eq!(server.graph().node_count(), 2);

    let node1 = server.graph().node_of(&join(tmp_path, &["shaders", "final.fsh"])).unwrap();
    let node2 = server.graph().node_of(&join(tmp_path, &["shaders", "common.glsl"])).unwrap();
    assert_eq!(server.graph().get_node(node1), join(tmp_path, &["shaders", "final.fsh"]));
    assert_eq!(server.graph().get_node(node2), join(tmp_path, &["shaders", "common.glsl"]));
    assert_eq!(server.graph().child_node_indexes(node1), vec![node2]);

    let edges = server.graph().get_child_positions(node1, node2);
    assert_eq!(edges.len(), 1);
    assert_eq!(edges[0].line, 2);
}

#[test]
fn test_05_initialize() {
    let mut server = new_temp_server();
    let tmp_path = "/tmp/mcshader";
    project_05(&mut server, tmp_path);

    assert_eq!(server.graph().edge_count(), 3);
    assert_eq!(server.graph().node_count(), 4);

    let pairs = vec![
        (join(tmp_path, &["shaders", "final.fsh"]), join(tmp_path, &["shaders", "common.glsl"])),
        (
            join(tmp_path, &["shaders", "final.fsh"]),
            join(tmp_path, &["shaders", "test", "banana.glsl"]),
        ),
        (
            join(tmp_path, &["shaders", "test", "banana.glsl"]),
            join(tmp_path, &["shaders", "test", "burger.glsl"]),
        ),
    ];
    let mut seen = 0;
    for path in [
        join(tmp_path, &["shaders", "final.fsh"]),
        join(tmp_path, &["shaders", "common.glsl"]),
        join(tmp_path, &["shaders", "test", "banana.glsl"]),
        join(tmp_path, &["shaders", "test", "burger.glsl"]),
    ] {
        let node = server.graph().node_of(&path).unwrap();
        for edge in server.graph().including_files(node) {
            let first = path.clone();
            let second = edge.3;
            let contains = pairs.contains(&(first.clone(), second.clone()));
            assert!(contains, "doesn't contain ({:?}, {:?})", first, second);
            seen += 1;
        }
    }
    assert_eq!(seen, 3);
}

#[test]
fn test07_rewrited_file_system() {
    let mut server = new_temp_server();
    let tmp_path = "/tmp/mcshader";
    project_05(&mut server, tmp_path);

    let entry = join(tmp_path, &["shaders", "final.fsh"]);
    let (stage, shader_content, file_list) = server.lint_shader(&entry).unwrap();
    assert_eq!(stage, ShaderStage::Fragment);
    assert_eq!(
        shader_content,
        "#version 120\n\n#line 1 1\nfloat test() {\n    return 0.5;\n}\n#line 4 0\n#line 1 2\n#line 1 3\nfloat burger() {\n    return 1.0;\n}\n#line 2 2\n\nfloat banana() {\n    return burger();\n}\n#line 5 0\n\nvoid main() {\n    gl_FragColor[0] = 0.0;\n}\n"
    );
    assert_eq!(
        file_list,
        vec![
            (0, join(tmp_path, &["shaders", "final.fsh"])),
            (1, join(tmp_path, &["shaders", "common.glsl"])),
            (2, join(tmp_path, &["shaders", "test", "banana.glsl"])),
            (3, join(tmp_path, &["shaders", "test", "burger.glsl"])),
        ]
    );
}

#[test]
fn a_clean_compile_clears_every_file_of_the_text() {
    let mut server = new_temp_server();
    server.set_source("/p/shaders/final.fsh", "#include \"a.glsl\"\n#include \"b.glsl\"\n");
    server.set_source("/p/shaders/a.glsl", "float a;\n");
    server.set_source("/p/shaders/b.glsl", "float b;\n");
    assert!(server.add_shader_file("/p/shaders", "/p/shaders/final.fsh").is_ok());
    let (_, _, table) = server.lint_shader("/p/shaders/final.fsh").unwrap();
    let found = server.diagnostics(None, &table);
    assert_eq!(found.len(), 3);
    let paths: Vec<&str> = found.iter().map(|e| e.0.as_str()).collect();
    assert_eq!(paths, vec!["/p/shaders/final.fsh", "/p/shaders/a.glsl", "/p/shaders/b.glsl"]);
    assert!(found.iter().all(|e| e.1.is_empty()));
}

#[test]
fn a_finding_goes_back_to_the_file_it_came_from() {
    let mut server = new_temp_server();
    server.set_source("/p/shaders/final.fsh", "#version 120\n#include \"a.glsl\"\nvoid main() {}\n");
    server.set_source("/p/shaders/a.glsl", "float a;\nfloat b = x;\n");
    assert!(server.add_shader_file("/p/shaders", "/p/shaders/final.fsh").is_ok());
    let (_, text, table) = server.lint_shader("/p/shaders/final.fsh").unwrap();
    assert_eq!(text, "#version 120\n#line 1 1\nfloat a;\nfloat b = x;\n#line 3 0\nvoid main() {}\n");
    let log = "1(2) : error C1008: undefined variable \"x\"\n0(3) : warning C7000: unused\n";
    let found = server.diagnostics(Some(log), &table);
    assert_eq!(found.len(), 2);
    assert_eq!(found[0].0, "/p/shaders/a.glsl");
    assert_eq!(found[0].1.len(), 1);
    assert_eq!(found[0].1[0].line, 1);
    assert_eq!(found[0].1[0].severity, Severity::Error);
    assert_eq!(found[0].1[0].message, "undefined variable \"x\"");
    assert_eq!(found[1].0, "/p/shaders/final.fsh");
    assert_eq!(found[1].1[0].line, 2);
    assert_eq!(found[1].1[0].severity, Severity::Warning);
}

#[test]
fn a_missing_file_does_not_stop_the_compile() {
    let mut server = new_temp_server();
    server.set_source("/p/shaders/final.vsh", "#include \"gone.glsl\"\nvoid main() {}\n");
    assert!(server.add_shader_file("/p/shaders", "/p/shaders/final.vsh").is_ok());
    assert_eq!(server.graph().node_count(), 2);
    assert_eq!(server.graph().edge_count(), 1);
    assert!(server.file_exists("/p/shaders/final.vsh"));
    assert!(!server.file_exists("/p/shaders/gone.glsl"));
    assert!(!server.file_exists("/p/shaders/never.glsl"));
    assert_eq!(server.unread_files(), vec!["/p/shaders/gone.glsl".to_string()]);
    let (stage, text, table) = server.lint_shader("/p/shaders/final.vsh").unwrap();
    assert_eq!(stage, ShaderStage::Vertex);
    assert_eq!(text, "#include \"gone.glsl\"\n#line 2 0\nvoid main() {}\n");
    assert_eq!(table, vec![(0, "/p/shaders/final.vsh".to_string())]);
    assert_eq!(server.diagnostics(None, &table).len(), 1);
}

#[test]
fn what_is_no_entry_file_is_not_compiled() {
    let mut server = new_temp_server();
    project_01(&mut server, "/p");
    assert!(server.lint_shader("/p/shaders/common.glsl").is_none());
    assert!(server.lint_shader("/p/shaders/none.fsh").is_none());
    server.forget_source("/p/shaders/final.fsh");
    assert!(server.lint_shader("/p/shaders/final.fsh").is_none());
}

#[test]
fn a_saved_file_is_read_anew() {
    let mut server = new_temp_server();
    project_05(&mut server, "/p");
    server.set_source("/p/shaders/final.fsh", "#include \"/test/banana.glsl\"\n");
    assert!(server.update_file("/p/shaders/final.fsh").is_ok());
    assert_eq!(server.graph().edge_count(), 2);
    assert_eq!(server.graph().node_count(), 4);
    server.set_source("/p/shaders/test/banana.glsl", "float banana;\n#include \"new.glsl\"\n#include \"new.glsl\"\n");
    assert!(server.update_file("/p/shaders/test/banana.glsl").is_ok());
    assert_eq!(server.graph().edge_count(), 3);
    assert_eq!(server.graph().node_count(), 5);
    assert_eq!(
        server.document_link("/p/shaders/test/banana.glsl"),
        Some(vec![
            (1, 10, 18, "/p/shaders/test/new.glsl".to_string()),
            (2, 10, 18, "/p/shaders/test/new.glsl".to_string()),
        ])
    );
    assert!(server.update_file("/p/shaders/unknown.glsl").is_ok());
    assert_eq!(server.graph().edge_count(), 3);
    assert_eq!(server.graph().node_count(), 5);
}

#[test]
fn files_read_later_are_read_at_the_depth_they_were_found_at() {
    let mut server = new_temp_server();
    server.set_source("/p/f0.fsh", "#include \"f1.glsl\"\n");
    assert!(server.add_shader_file("/p", "/p/f0.fsh").is_ok());
    assert_eq!(server.unread_files(), vec!["/p/f1.glsl".to_string()]);
    for i in 1..=12 {
        server.set_source(&format!("/p/f{}.glsl", i), &format!("#include \"f{}.glsl\"\n", i + 1));
    }
    assert_eq!(server.unread_files(), Vec::<String>::new());
    assert!(server.update_file_at("/p/f1.glsl", 8).is_ok());
    assert!(server.file_exists("/p/f1.glsl"));
    assert_eq!(server.graph().node_count(), 5);
    assert_eq!(server.graph().edge_count(), 4);
    assert!(server.graph().node_of("/p/f4.glsl").is_some());
    assert!(server.graph().node_of("/p/f5.glsl").is_none());
    assert_eq!(server.document_link("/p/f3.glsl"), Some(vec![(0, 10, 17, "/p/f4.glsl".to_string())]));
    assert_eq!(server.document_link("/p/f4.glsl"), Some(vec![]));

    assert!(server.update_file_at("/p/f4.glsl", 11).is_ok());
    assert_eq!(server.graph().node_count(), 5);
    assert!(server.update_file_at("/p/f4.glsl", 10).is_ok());
    assert_eq!(server.graph().node_count(), 6);
    assert_eq!(server.graph().edge_count(), 5);
    assert!(server.update_file_at("/p/f0.fsh", 0).is_ok());
    assert_eq!(server.graph().node_count(), 6);
    assert!(server.update_file_at("/p/unknown.glsl", 0).is_ok());
    assert_eq!(server.graph().node_count(), 6);
}

#[test]
fn a_file_forgotten_is_no_entry_file_and_has_no_record() {
    let mut server = new_temp_server();
    project_05(&mut server, "/p");
    assert!(server.add_shader_file("/p/shaders", "/p/shaders/final.fsh").is_ok());
    assert_eq!(server.update_lint("/p/shaders/final.fsh"), vec!["/p/shaders/final.fsh".to_string()]);
    server.remove_shader_file("/p/shaders/final.fsh");
    assert_eq!(server.update_lint("/p/shaders/final.fsh"), Vec::<String>::new());
    assert!(server.lint_shader("/p/shaders/final.fsh").is_none());
    assert_eq!(server.document_link("/p/shaders/final.fsh"), None);
    assert_eq!(server.update_lint("/p/shaders/common.glsl"), Vec::<String>::new());
    assert_eq!(server.document_link("/p/shaders/common.glsl"), Some(vec![]));
    server.remove_shader_file("/p/shaders/common.glsl");
    assert_eq!(server.document_link("/p/shaders/common.glsl"), None);
    assert_eq!(server.graph().node_count(), 2);
}

#[test]
fn links_are_the_inclusions_of_a_file() {
    let mut server = new_temp_server();
    project_05(&mut server, "/p");
    assert_eq!(
        server.document_link("/p/shaders/final.fsh"),
        Some(vec![
            (2, 10, 22, "/p/shaders/common.glsl".to_string()),
            (3, 10, 27, "/p/shaders/test/banana.glsl".to_string()),
        ])
    );
    assert_eq!(server.document_link("/p/shaders/common.glsl"), Some(vec![]));
    assert_eq!(server.document_link("/p/shaders/other.glsl"), None);
}

#[test]
fn a_change_is_compiled_in_the_entry_files_that_reach_the_file() {
    let mut server = new_temp_server();
    project_05(&mut server, "/p");
    server.set_source("/p/shaders/final.vsh", "#include \"/test/burger.glsl\"\n");
    assert!(server.add_shader_file("/p/shaders", "/p/shaders/final.vsh").is_ok());
    assert_eq!(server.update_lint("/p/shaders/final.fsh"), vec!["/p/shaders/final.fsh".to_string()]);
    assert_eq!(server.update_lint("/p/shaders/common.glsl"), vec!["/p/shaders/final.fsh".to_string()]);
    assert_eq!(
        server.update_lint("/p/shaders/test/burger.glsl"),
        vec!["/p/shaders/final.fsh".to_string(), "/p/shaders/final.vsh".to_string()]
    );
    assert_eq!(server.update_lint("/p/shaders/nothing.glsl"), Vec::<String>::new());

    let changes = vec![
        ("/p/shaders/test/burger.glsl".to_string(), false),
        ("/p/shaders/final.vsh".to_string(), false),
        ("/p/shaders/common.glsl".to_string(), false),
        ("/p/shaders/unknown.glsl".to_string(), false),
        ("/p/shaders/common.glsl".to_string(), true),
    ];
    assert_eq!(
        server.did_change_watched_files(&changes),
        Ok(vec!["/p/shaders/final.fsh".to_string(), "/p/shaders/final.vsh".to_string()])
    );
    assert_eq!(server.graph().node_count(), 5);
    assert_eq!(server.graph().edge_count(), 4);
}

#[test]
fn a_deleted_entry_file_is_forgotten() {
    let mut server = new_temp_server();
    project_05(&mut server, "/p");
    server.set_source("/p/shaders/final.vsh", "#include \"/final.fsh\"\n#include \"/common.glsl\"\n");
    assert!(server.add_shader_file("/p/shaders", "/p/shaders/final.vsh").is_ok());
    assert_eq!(server.graph().node_count(), 5);
    assert_eq!(server.graph().edge_count(), 5);
    assert_eq!(
        server.update_lint("/p/shaders/common.glsl"),
        vec!["/p/shaders/final.fsh".to_string(), "/p/shaders/final.vsh".to_string()]
    );

    assert_eq!(
        server.watched_file_changed("/p/shaders/final.fsh", true),
        Ok(vec!["/p/shaders/final.vsh".to_string()])
    );
    assert!(!server.file_exists("/p/shaders/final.fsh"));
    assert_eq!(server.graph().node_count(), 5);
    assert_eq!(server.graph().edge_count(), 3);
    assert!(server.lint_shader("/p/shaders/final.fsh").is_none());
    assert_eq!(server.update_lint("/p/shaders/common.glsl"), vec!["/p/shaders/final.vsh".to_string()]);
    let (_, text, table) = server.lint_shader("/p/shaders/final.vsh").unwrap();
    assert_eq!(
        text,
        "#include \"/final.fsh\"\n#line 2 0\n#line 1 2\nfloat test() {\n    return 0.5;\n}\n#line 3 0\n"
    );
    assert_eq!(table.len(), 2);

    server.remove_shader_file("/p/shaders/final.vsh");
    assert_eq!(server.graph().node_count(), 4);
    assert_eq!(server.graph().edge_count(), 1);
    assert!(server.graph().node_of("/p/shaders/final.vsh").is_none());
    assert!(server.graph().node_of("/p/shaders/final.fsh").is_some());
    assert_eq!(server.update_lint("/p/shaders/common.glsl"), Vec::<String>::new());
    assert_eq!(server.watched_file_changed("/p/shaders/common.glsl", true), Ok(vec![]));
    assert_eq!(server.graph().node_count(), 3);
    assert!(server.graph().node_of("/p/shaders/common.glsl").is_none());
}

#[test]
fn a_deleted_file_is_compiled_out_of_the_entry_files_that_reached_it() {
    let mut server = new_temp_server();
    project_05(&mut server, "/p");
    assert_eq!(
        server.watched_file_changed("/p/shaders/test/burger.glsl", true),
        Ok(vec!["/p/shaders/final.fsh".to_string()])
    );
    assert_eq!(server.graph().node_count(), 4);
    assert_eq!(server.graph().edge_count(), 3);
    assert!(!server.file_exists("/p/shaders/test/burger.glsl"));
    assert_eq!(server.document_link("/p/shaders/test/burger.glsl"), None);
    assert_eq!(server.update_lint("/p/shaders/test/burger.glsl"), Vec::<String>::new());
    let (_, text, table) = server.lint_shader("/p/shaders/final.fsh").unwrap();
    assert!(text.contains("#line 1 2\n#include \"/test/burger.glsl\"\n#line 2 2\n"));
    assert_eq!(table.len(), 3);
    assert_eq!(server.watched_file_changed("/p/shaders/never.glsl", true), Ok(vec![]));
    assert_eq!(server.graph().node_count(), 4);
}

#[test]
fn an_entry_file_added_twice_is_known_once() {
    let mut server = new_temp_server();
    project_01(&mut server, "/p");
    assert!(server.add_shader_file("/p/shaders", "/p/shaders/final.fsh").is_ok());
    assert!(server.add_shader_file("/p\\shaders", "\\p\\shaders\\final.fsh").is_ok());
    assert_eq!(server.graph().node_count(), 2);
    assert_eq!(server.graph().edge_count(), 1);
    assert_eq!(server.update_lint("/p/shaders/final.fsh"), vec!["/p/shaders/final.fsh".to_string()]);
    assert_eq!(server.update_lint("/p/shaders/common.glsl"), vec!["/p/shaders/final.fsh".to_string()]);
    server.remove_shader_file("/p/shaders/final.fsh");
    assert_eq!(server.update_lint("/p/shaders/final.fsh"), Vec::<String>::new());
    assert_eq!(server.graph().node_count(), 1);
}
