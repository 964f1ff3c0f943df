use mcshader_lsp::parser::{
    add_entry, add_finding, clear_diagnostics, Diagnostic, DiagnosticsParser, Grammar, Severity,
};

fn table() -> Vec<(usize, String)> {
    vec![
        (0, "/s/final.fsh".to_string()),
        (1, "/s/common.glsl".to_string()),
        (2, "/s/test/banana.glsl".to_string()),
    ]
}

fn flat(found: &Vec<(String, Vec<Diagnostic>)>) -> Vec<(String, u32, Severity, String)> {
    let mut all = Vec::new();
    for (path, list) in found {
        for d in list {
            all.push((path.clone(), d.line, d.severity, d.message.clone()));
        }
    }
    all
}

#[test]
fn the_vendor_selects_grammar_and_offset() {
    let nvidia = DiagnosticsParser::new("NVIDIA Corporation");
    assert_eq!(nvidia.grammar_in_use(), Grammar::Nvidia);
    assert_eq!(nvidia.line_offset(), 1);
    let ati = DiagnosticsParser::new("ATI Technologies");
    assert_eq!(ati.grammar_in_use(), Grammar::Generic);
    assert_eq!(ati.line_offset(), 0);
    let other = DiagnosticsParser::new("Intel");
    assert_eq!(other.grammar_in_use(), Grammar::Generic);
    assert_eq!(other.line_offset(), 1);
    let lower = DiagnosticsParser::new("nvidia corporation");
    assert_eq!(lower.grammar_in_use(), Grammar::Generic);
    assert_eq!(lower.line_offset(), 1);
}

#[test]
fn an_nvidia_finding_lands_on_the_line_before_the_one_reported() {
    let parser = DiagnosticsParser::new("NVIDIA Corporation");
    let found = parser.parse_diagnostics("0(5) : error C1008: undefined variable", &table());
    assert_eq!(
        flat(&found),
        vec![("/s/final.fsh".to_string(), 4, Severity::Error, "undefined variable".to_string())]
    );
}

#[test]
fn findings_are_kept_by_file_in_the_order_of_the_log() {
    let parser = DiagnosticsParser::new("NVIDIA Corporation");
    let log = "1(3) : warning C7050: \"x\" might be used before being initialized\n\
               0(9) : error C0000: syntax error, unexpected '}'\n\
               some words of the driver\n\
               1(1) : error C1008: undefined variable \"y\"\r\n\
               2(10) : error B0001: bad\n";
    let found = parser.parse_diagnostics(log, &table());
    let paths: Vec<&str> = found.iter().map(|e| e.0.as_str()).collect();
    assert_eq!(paths, vec!["/s/common.glsl", "/s/final.fsh", "/s/test/banana.glsl"]);
    assert_eq!(
        flat(&found),
        vec![
            (
                "/s/common.glsl".to_string(),
                2,
                Severity::Warning,
                "\"x\" might be used before being initialized".to_string()
            ),
            (
                "/s/common.glsl".to_string(),
                0,
                Severity::Error,
                "undefined variable \"y\"".to_string()
            ),
            (
                "/s/final.fsh".to_string(),
                8,
                Severity::Error,
                "syntax error, unexpected '}'".to_string()
            ),
            ("/s/test/banana.glsl".to_string(), 9, Severity::Error, "bad".to_string()),
        ]
    );
}

#[test]
fn lines_that_do_not_match_are_dropped() {
    let parser = DiagnosticsParser::new("NVIDIA Corporation");
    let log = "\n0(5): error C1008: no blank\n(5) : error C1008: no file\n0(5) : fatal C1008: x\n\
               0(5) : error D1008: bad code\n0(5) : error C1008: \nERROR: 0:5: 'a' : generic\n";
    assert_eq!(parser.parse_diagnostics(log, &table()).len(), 0);
    assert_eq!(parser.parse_diagnostics("", &table()).len(), 0);
}

#[test]
fn a_finding_against_a_file_that_is_not_in_the_table_is_dropped() {
    let parser = DiagnosticsParser::new("NVIDIA Corporation");
    let log = "7(5) : error C1008: a\n99999999999(5) : error C1008: b\n0(99999999999) : error C1008: c\n";
    assert_eq!(parser.parse_diagnostics(log, &table()).len(), 0);
    assert_eq!(parser.parse_diagnostics("0(5) : error C1008: a", &Vec::new()).len(), 0);
}

#[test]
fn a_line_before_the_first_stays_the_first() {
    let parser = DiagnosticsParser::new("NVIDIA Corporation");
    let found = parser.parse_diagnostics("0(0) : error C1: a\n0(1) : error C1: b\n0(2) : error C1: c", &table());
    let lines: Vec<u32> = flat(&found).iter().map(|f| f.1).collect();
    assert_eq!(lines, vec![0, 0, 1]);
}

#[test]
fn the_generic_grammar_names_severity_file_and_line() {
    let parser = DiagnosticsParser::new("Intel");
    let log = "ERROR: 0:5: 'foo' : undeclared identifier\n\
               WARNING: 1:12: 'x' :  unused variable\n\
               ERROR: 2:1: error(#132) Syntax error\n\
               ERROR: 0:5: no quote here\n\
               error: 0:5: 'foo' : lower case\n";
    let found = parser.parse_diagnostics(log, &table());
    assert_eq!(
        flat(&found),
        vec![
            ("/s/final.fsh".to_string(), 4, Severity::Error, "undeclared identifier".to_string()),
            ("/s/common.glsl".to_string(), 11, Severity::Warning, "unused variable".to_string()),
            ("/s/test/banana.glsl".to_string(), 0, Severity::Error, "Syntax error".to_string()),
        ]
    );
}

#[test]
fn the_compiler_of_ati_counts_lines_from_zero() {
    let parser = DiagnosticsParser::new("ATI Technologies");
    let found = parser.parse_diagnostics("ERROR: 0:5: 'foo' : undeclared identifier", &table());
    assert_eq!(
        flat(&found),
        vec![("/s/final.fsh".to_string(), 5, Severity::Error, "undeclared identifier".to_string())]
    );
    let found = parser.parse_diagnostics("ERROR: 0:0: 'foo' : x", &table());
    assert_eq!(flat(&found)[0].1, 0);
}

#[test]
fn the_generic_grammar_takes_a_path_for_a_file_too() {
    let parser = DiagnosticsParser::new("Intel");
    let log = "ERROR: /s/common.glsl:3: 'a' : by path\nERROR: /s/none.glsl:3: 'a' : unknown\n";
    let found = parser.parse_diagnostics(log, &table());
    assert_eq!(
        flat(&found),
        vec![("/s/common.glsl".to_string(), 2, Severity::Error, "by path".to_string())]
    );
    let numbered = vec![(5, "1".to_string()), (1, "/s/one.glsl".to_string())];
    let found = parser.parse_diagnostics("ERROR: 1:3: 'a' : by number first\nERROR: 5:3: 'a' : x", &numbered);
    assert_eq!(
        flat(&found),
        vec![
            ("/s/one.glsl".to_string(), 2, Severity::Error, "by number first".to_string()),
            ("1".to_string(), 2, Severity::Error, "x".to_string()),
        ]
    );
}

#[test]
fn without_a_log_every_file_gets_an_empty_entry() {
    let parser = DiagnosticsParser::new("NVIDIA Corporation");
    let found = parser.remap(None, &table());
    assert_eq!(found.len(), 3);
    let paths: Vec<&str> = found.iter().map(|e| e.0.as_str()).collect();
    assert_eq!(paths, vec!["/s/final.fsh", "/s/common.glsl", "/s/test/banana.glsl"]);
    for entry in &found {
        assert!(entry.1.is_empty());
    }
    let found = parser.remap(Some("0(5) : error C1008: undefined variable"), &table());
    assert_eq!(found.len(), 1);
    assert_eq!(found[0].1.len(), 1);
    assert_eq!(parser.remap(Some(""), &table()).len(), 0);
}

#[test]
fn a_file_that_occurs_twice_gets_one_empty_entry() {
    let twice = vec![
        (0, "/s/final.fsh".to_string()),
        (1, "/s/a.glsl".to_string()),
        (2, "/s/b.glsl".to_string()),
        (3, "/s/a.glsl".to_string()),
    ];
    let found = clear_diagnostics(&twice);
    let paths: Vec<&str> = found.iter().map(|e| e.0.as_str()).collect();
    assert_eq!(paths, vec!["/s/final.fsh", "/s/a.glsl", "/s/b.glsl"]);
    assert_eq!(clear_diagnostics(&Vec::new()).len(), 0);
    let parser = DiagnosticsParser::new("NVIDIA Corporation");
    let found = parser.parse_diagnostics("3(2) : error C1: second", &twice);
    assert_eq!(flat(&found), vec![("/s/a.glsl".to_string(), 1, Severity::Error, "second".to_string())]);
}

#[test]
fn a_finding_is_read_from_the_groups_of_a_match() {
    let nvidia = DiagnosticsParser::new("NVIDIA Corporation");
    let groups = Some(vec![
        Some("1(7) : warning C1: text".to_string()),
        Some("1".to_string()),
        Some("7".to_string()),
        Some("warning".to_string()),
        Some("text".to_string()),
    ]);
    let (path, d) = nvidia.read_finding(&groups, &table()).unwrap();
    assert_eq!(path, "/s/common.glsl");
    assert_eq!((d.line, d.severity, d.message.as_str()), (6, Severity::Warning, "text"));

    let generic = DiagnosticsParser::new("Intel");
    let (path, d) = generic.read_finding(&Some(vec![
        None,
        Some("ERROR".to_string()),
        Some("2".to_string()),
        Some("1".to_string()),
        Some("m".to_string()),
    ]), &table()).unwrap();
    assert_eq!(path, "/s/test/banana.glsl");
    assert_eq!((d.line, d.severity, d.message.as_str()), (0, Severity::Error, "m"));

    assert!(nvidia.read_finding(&None, &table()).is_none());
    assert!(nvidia.read_finding(&Some(vec![]), &table()).is_none());
    let short = Some(vec![Some("a".to_string()), Some("1".to_string()), Some("7".to_string()), Some("error".to_string())]);
    assert!(nvidia.read_finding(&short, &table()).is_none());
    let gap = Some(vec![
        Some("a".to_string()),
        Some("1".to_string()),
        None,
        Some("error".to_string()),
        Some("m".to_string()),
    ]);
    assert!(nvidia.read_finding(&gap, &table()).is_none());
    let word = Some(vec![
        Some("a".to_string()),
        Some("1".to_string()),
        Some("7".to_string()),
        Some("Error".to_string()),
        Some("m".to_string()),
    ]);
    assert!(nvidia.read_finding(&word, &table()).is_none());
    let by_path = Some(vec![
        Some("a".to_string()),
        Some("/s/common.glsl".to_string()),
        Some("7".to_string()),
        Some("error".to_string()),
        Some("m".to_string()),
    ]);
    assert!(nvidia.read_finding(&by_path, &table()).is_none());
}

#[test]
fn findings_against_one_file_stand_together() {
    let mut found: Vec<(String, Vec<Diagnostic>)> = Vec::new();
    let d = |line: u32| Diagnostic { line, severity: Severity::Error, message: "m".to_string() };
    add_finding(&mut found, "/a".to_string(), d(1));
    add_finding(&mut found, "/b".to_string(), d(2));
    add_finding(&mut found, "/a".to_string(), d(3));
    add_entry(&mut found, "/b".to_string());
    add_entry(&mut found, "/c".to_string());
    assert_eq!(found.len(), 3);
    let lines: Vec<Vec<u32>> = found.iter().map(|e| e.1.iter().map(|d| d.line).collect()).collect();
    assert_eq!(lines, vec![vec![1, 3], vec![2], vec![]]);
}
