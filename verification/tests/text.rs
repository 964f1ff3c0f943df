use mcshader_lsp::directive::{find_last, is_white_space, parse_directive};
use mcshader_lsp::path::{normalize, resolve, stage_for, ShaderStage};
use mcshader_lsp::text::{
    chars_eq, decimal_digits, from_chars, parse_decimal, slice_chars, split_lines, to_chars,
};

fn chars(s: &str) -> Vec<char> {
    s.chars().collect()
}

fn lines(text: &str) -> Vec<String> {
    split_lines(text).iter().map(|l| l.iter().collect()).collect()
}

#[test]
fn chars_and_strings_go_both_ways() {
    assert_eq!(to_chars("a\u{e9}\u{4e2d}"), vec!['a', '\u{e9}', '\u{4e2d}']);
    assert_eq!(from_chars(&chars("float x;")), "float x;");
    assert_eq!(from_chars(&Vec::new()), "");
    assert_eq!(slice_chars(&chars("abcdef"), 2, 4), chars("cd"));
    assert!(chars_eq(&chars("abc"), &chars("abc")));
    assert!(!chars_eq(&chars("abc"), &chars("abd")));
    assert!(!chars_eq(&chars("abc"), &chars("ab")));
}

#[test]
fn lines_end_at_line_feeds() {
    assert_eq!(lines(""), Vec::<String>::new());
    assert_eq!(lines("a"), vec!["a"]);
    assert_eq!(lines("a\n"), vec!["a"]);
    assert_eq!(lines("a\nb"), vec!["a", "b"]);
    assert_eq!(lines("a\n\nb\n"), vec!["a", "", "b"]);
    assert_eq!(lines("\n"), vec![""]);
    assert_eq!(lines("\n\n"), vec!["", ""]);
}

#[test]
fn a_carriage_return_before_a_line_feed_ends_the_line_too() {
    assert_eq!(lines("a\r\nb\r\n"), vec!["a", "b"]);
    assert_eq!(lines("a\r"), vec!["a\r"]);
    assert_eq!(lines("a\rb\n"), vec!["a\rb"]);
    assert_eq!(lines("a\r\r\n"), vec!["a\r"]);
    assert_eq!(lines("\r\n"), vec![""]);
}

#[test]
fn numbers_are_written_in_decimal() {
    assert_eq!(decimal_digits(0), chars("0"));
    assert_eq!(decimal_digits(7), chars("7"));
    assert_eq!(decimal_digits(10), chars("10"));
    assert_eq!(decimal_digits(4096), chars("4096"));
    assert_eq!(decimal_digits(u128::MAX), chars("340282366920938463463374607431768211455"));
}

#[test]
fn numbers_are_read_from_decimal() {
    assert_eq!(parse_decimal(&chars("0")), Some(0));
    assert_eq!(parse_decimal(&chars("5")), Some(5));
    assert_eq!(parse_decimal(&chars("007")), Some(7));
    assert_eq!(parse_decimal(&chars("4294967295")), Some(4294967295));
    assert_eq!(parse_decimal(&chars("4294967296")), None);
    assert_eq!(parse_decimal(&chars("99999999999999999999999999")), None);
    assert_eq!(parse_decimal(&chars("")), None);
    assert_eq!(parse_decimal(&chars("12a")), None);
    assert_eq!(parse_decimal(&chars("-1")), None);
    assert_eq!(parse_decimal(&chars("\u{663}")), None);
}

#[test]
fn a_directive_names_what_stands_between_its_quotes() {
    assert_eq!(parse_directive(&chars("#include \"common.glsl\"")), Some((10, 21)));
    assert_eq!(parse_directive(&chars("  \t#include \"a\"")), Some((13, 14)));
    assert_eq!(parse_directive(&chars("#include \"a\"\r")), Some((10, 11)));
    assert_eq!(parse_directive(&chars("#include \"a\" // note")), Some((10, 11)));
    assert_eq!(parse_directive(&chars("\u{3000}#include \"a\"")), Some((11, 12)));
}

#[test]
fn the_first_quote_behind_the_opening_one_closes_a_directive() {
    assert_eq!(parse_directive(&chars("#include \"a\" \"b\"")), Some((10, 11)));
    assert_eq!(parse_directive(&chars("#include \"b.glsl\" // see \"c.glsl\"")), Some((10, 16)));
    assert_eq!(parse_directive(&chars("#include \"a\"\"")), Some((10, 11)));
    assert_eq!(parse_directive(&chars("#include \"a b\\c\"x")), Some((10, 15)));
}

#[test]
fn lines_that_are_no_directive() {
    assert_eq!(parse_directive(&chars("")), None);
    assert_eq!(parse_directive(&chars("#include")), None);
    assert_eq!(parse_directive(&chars("#include \"")), None);
    assert_eq!(parse_directive(&chars("#include \"\"")), None);
    assert_eq!(parse_directive(&chars("#include \"\"\"")), None);
    assert_eq!(parse_directive(&chars("#include \"\"a\"")), None);
    assert_eq!(parse_directive(&chars("#include \"a")), None);
    assert_eq!(parse_directive(&chars("#include  \"a\"")), None);
    assert_eq!(parse_directive(&chars("#include\t\"a\"")), None);
    assert_eq!(parse_directive(&chars("# include \"a\"")), None);
    assert_eq!(parse_directive(&chars("#Include \"a\"")), None);
    assert_eq!(parse_directive(&chars("//#include \"a\"")), None);
    assert_eq!(parse_directive(&chars("x #include \"a\"")), None);
    assert_eq!(parse_directive(&chars("#include <a>")), None);
    assert_eq!(parse_directive(&chars("#include 'a'")), None);
}

#[test]
fn white_space_is_what_unicode_calls_so() {
    for c in [' ', '\t', '\n', '\r', '\u{b}', '\u{c}', '\u{85}', '\u{a0}', '\u{1680}', '\u{2000}',
        '\u{200a}', '\u{2028}', '\u{2029}', '\u{202f}', '\u{205f}', '\u{3000}']
    {
        assert!(is_white_space(c), "{:?}", c);
        assert!(c.is_whitespace());
    }
    for c in ['a', '#', '"', '\u{8}', '\u{e}', '\u{200b}', '\u{180e}', '\u{feff}', '\u{2060}'] {
        assert!(!is_white_space(c), "{:?}", c);
        assert!(!c.is_whitespace());
    }
    assert_eq!(find_last(&chars("a.b.c"), '.'), Some(3));
    assert_eq!(find_last(&chars("abc"), '.'), None);
}

#[test]
fn a_rooted_target_is_looked_for_in_the_work_space() {
    let r = resolve(&chars("/pack/shaders"), &chars("/pack/shaders/world0/final.fsh"), &chars("/lib/common.glsl"));
    assert_eq!(from_chars(&r), "/pack/shaders/lib/common.glsl");
    let r = resolve(&chars("/pack/shaders/"), &chars("/pack/shaders/final.fsh"), &chars("/common.glsl"));
    assert_eq!(from_chars(&r), "/pack/shaders/common.glsl");
    let r = resolve(&chars(""), &chars("final.fsh"), &chars("/common.glsl"));
    assert_eq!(from_chars(&r), "common.glsl");
}

#[test]
fn any_other_target_is_looked_for_beside_the_file() {
    let r = resolve(&chars("/pack/shaders"), &chars("/pack/shaders/world0/final.fsh"), &chars("common.glsl"));
    assert_eq!(from_chars(&r), "/pack/shaders/world0/common.glsl");
    let r = resolve(&chars("/pack/shaders"), &chars("/pack/shaders/final.fsh"), &chars("test/banana.glsl"));
    assert_eq!(from_chars(&r), "/pack/shaders/test/banana.glsl");
    let r = resolve(&chars("/pack/shaders"), &chars("final.fsh"), &chars("common.glsl"));
    assert_eq!(from_chars(&r), "common.glsl");
}

#[test]
fn backslashes_are_read_as_slashes() {
    assert_eq!(from_chars(&normalize(&chars("C:\\pack\\shaders/a.glsl"))), "C:/pack/shaders/a.glsl");
    let r = resolve(&chars("C:\\pack\\shaders"), &chars("C:\\pack\\shaders\\final.fsh"), &chars("\\lib\\a.glsl"));
    assert_eq!(from_chars(&r), "C:/pack/shaders/lib/a.glsl");
    let r = resolve(&chars("C:\\pack\\shaders"), &chars("C:\\pack\\shaders\\final.fsh"), &chars("lib\\a.glsl"));
    assert_eq!(from_chars(&r), "C:/pack/shaders/lib/a.glsl");
}

#[test]
fn the_stage_comes_from_the_extension() {
    assert_eq!(stage_for(&chars("/pack/shaders/final.fsh")), ShaderStage::Fragment);
    assert_eq!(stage_for(&chars("/pack/shaders/final.vsh")), ShaderStage::Vertex);
    assert_eq!(stage_for(&chars("/pack/shaders/final.gsh")), ShaderStage::Geometry);
    assert_eq!(stage_for(&chars("/pack/shaders/final.csh")), ShaderStage::Compute);
    assert_eq!(stage_for(&chars("/pack/shaders/common.glsl")), ShaderStage::Unknown);
    assert_eq!(stage_for(&chars("/pack/shaders/final")), ShaderStage::Unknown);
    assert_eq!(stage_for(&chars("/pack/shaders.fsh/final")), ShaderStage::Unknown);
    assert_eq!(stage_for(&chars("/pack/shaders/.fsh")), ShaderStage::Unknown);
    assert_eq!(stage_for(&chars("final.tar.fsh")), ShaderStage::Fragment);
    assert_eq!(stage_for(&chars("C:\\pack\\final.vsh")), ShaderStage::Vertex);
    assert_eq!(stage_for(&chars("final.FSH")), ShaderStage::Unknown);
}
