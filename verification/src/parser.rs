//! Reading the log of the shader compiler: each line that reports a finding
//! names a file of the merged text and a line in it, and is turned into a
//! finding against the file that the text was merged from.

use vstd::prelude::*;
use crate::shaders::table_view;
use crate::text::{
    chars_eq, from_chars, line_views, lines_of, parse_decimal, parsed_number, split_lines, to_chars,
};

verus! {

/// How grave a finding is.
#[derive(Clone, Copy, Debug, PartialEq, Eq, Structural)]
pub enum Severity {
    Error,
    Warning,
}

/// The form in which a compiler reports a finding.
#[derive(Clone, Copy, Debug, PartialEq, Eq, Structural)]
pub enum Grammar {
    /// File number, line in brackets, severity, code, message.
    Nvidia,
    /// Severity, file, line, message.
    Generic,
}

/// One finding against a file.
#[derive(Debug)]
pub struct Diagnostic {
    /// The line, counted from zero.
    pub line: u32,
    pub severity: Severity,
    pub message: String,
}

/// A finding as the contracts see it.
pub struct DiagnosticView {
    pub line: int,
    pub severity: Severity,
    pub message: Seq<char>,
}

impl View for Diagnostic {
    type V = DiagnosticView;

    open spec fn view(&self) -> DiagnosticView {
        DiagnosticView { line: self.line as int, severity: self.severity, message: self.message@ }
    }
}

/// The pattern of a finding in the log of an NVIDIA compiler.
pub const NVIDIA_PATTERN: &'static str =
    r"^(?P<filepath>\d+)\((?P<linenum>\d+)\) : (?P<severity>error|warning) [A-C]\d+: (?P<output>.+)";

/// The pattern of a finding in the log of any other compiler.
pub const GENERIC_PATTERN: &'static str =
    r#"^(?P<severity>ERROR|WARNING): (?P<filepath>[^?<>*|"\n]+):(?P<linenum>\d+): (?:'.*' :|[a-z]+\(#\d+\)) +(?P<output>.+)$"#;

/// What the regular expression `pattern` captures in `text`: `None` where
/// `pattern` is no regular expression or does not match; else, for the whole
/// match and then for each group of the pattern in turn, the text that it
/// matched, or `None` for a group that took no part.
pub uninterp spec fn regex_captures(pattern: Seq<char>, text: Seq<char>) -> Option<
    Seq<Option<Seq<char>>>,
>;

/// What `capture_groups` hands back, as the contracts see it.
pub open spec fn groups_view(groups: Option<Vec<Option<String>>>) -> Option<Seq<Option<Seq<char>>>> {
    match groups {
        Some(v) => Some(
            Seq::new(
                v@.len(),
                |i: int|
                    match v@[i] {
                        Some(s) => Some(s@),
                        None => None,
                    },
            ),
        ),
        None => None,
    }
}

/// Matches `text` against the regular expression `pattern` with
/// `regex::Regex::new` and `Regex::captures`, and hands back what
/// `Captures::iter` yields: the text of the whole match and of each group.
/// The result depends on the two arguments alone.
#[verifier::external_body]
pub(crate) fn capture_groups(pattern: &str, text: &str) -> (groups: Option<Vec<Option<String>>>)
    ensures
        groups_view(groups) == regex_captures(pattern@, text@),
{
    let re = regex::Regex::new(pattern).ok()?;
    let caps = re.captures(text)?;
    Some(caps.iter().map(|m| m.map(|m| m.as_str().to_string())).collect())
}

/// The pattern of a grammar.
pub open spec fn pattern_of(grammar: Grammar) -> Seq<char> {
    match grammar {
        Grammar::Nvidia => NVIDIA_PATTERN@,
        Grammar::Generic => GENERIC_PATTERN@,
    }
}

/// The groups of a grammar that hold the file, the line, the severity and
/// the message.
pub open spec fn groups_of(grammar: Grammar) -> (int, int, int, int) {
    match grammar {
        Grammar::Nvidia => (1, 2, 3, 4),
        Grammar::Generic => (2, 3, 1, 4),
    }
}

/// The text of group `i`, where there is such a group and it took part.
pub open spec fn group(groups: Seq<Option<Seq<char>>>, i: int) -> Option<Seq<char>> {
    if 0 <= i < groups.len() {
        groups[i]
    } else {
        None
    }
}

/// The path of the first file of `table` that has the number `id`.
pub open spec fn file_numbered(table: Seq<(int, Seq<char>)>, id: int) -> Option<Seq<char>>
    decreases table.len(),
{
    if table.len() == 0 {
        None
    } else if table[0].0 == id {
        Some(table[0].1)
    } else {
        file_numbered(table.drop_first(), id)
    }
}

/// Whether `table` holds a file of the path `path`.
pub open spec fn holds_path(table: Seq<(int, Seq<char>)>, path: Seq<char>) -> bool {
    exists|i: int| 0 <= i < table.len() && (#[trigger] table[i]).1 == path
}

/// The file that a finding names by `token`: the file of that number, or,
/// in the generic grammar, else the file of that path.
pub open spec fn file_named(grammar: Grammar, table: Seq<(int, Seq<char>)>, token: Seq<char>) -> Option<
    Seq<char>,
> {
    let numbered = match parsed_number(token) {
        Some(n) => file_numbered(table, n as int),
        None => None,
    };
    match grammar {
        Grammar::Nvidia => numbered,
        Grammar::Generic => if numbered is Some {
            numbered
        } else if holds_path(table, token) {
            Some(token)
        } else {
            None
        },
    }
}

/// The severity that a log names by `word`.
pub open spec fn severity_named(word: Seq<char>) -> Option<Severity> {
    if word == "error"@ || word == "ERROR"@ {
        Some(Severity::Error)
    } else if word == "warning"@ || word == "WARNING"@ {
        Some(Severity::Warning)
    } else {
        None
    }
}

/// The line of a file, counted from zero, that a compiler means by `line`
/// where it counts from `offset`.
pub open spec fn corrected_line(line: int, offset: int) -> int {
    if line >= offset {
        line - offset
    } else {
        0
    }
}

/// The finding that a log line makes whose captures are `captures`, with the
/// file it is made against. `None` where the line did not match, where a
/// group is missing, where the file is not in the table, or where the line
/// number or the severity cannot be read.
pub open spec fn finding_of(
    grammar: Grammar,
    offset: int,
    table: Seq<(int, Seq<char>)>,
    captures: Option<Seq<Option<Seq<char>>>>,
) -> Option<(Seq<char>, DiagnosticView)> {
    match captures {
        None => None,
        Some(groups) => {
            let at = groups_of(grammar);
            match (group(groups, at.0), group(groups, at.1), group(groups, at.2), group(groups, at.3)) {
                (Some(file), Some(line), Some(word), Some(message)) => match (
                    file_named(grammar, table, file),
                    parsed_number(line),
                    severity_named(word),
                ) {
                    (Some(path), Some(n), Some(severity)) => Some(
                        (
                            path,
                            DiagnosticView {
                                line: corrected_line(n as int, offset),
                                severity,
                                message,
                            },
                        ),
                    ),
                    _ => None,
                },
                _ => None,
            }
        },
    }
}

/// Findings by file, as the contracts see them.
pub open spec fn findings_view(found: Seq<(String, Vec<Diagnostic>)>) -> Seq<
    (Seq<char>, Seq<DiagnosticView>),
> {
    Seq::new(
        found.len(),
        |i: int| (found[i].0@, Seq::new(found[i].1@.len(), |k: int| found[i].1@[k]@)),
    )
}

/// The place from `from` on of the first entry of `found` for `path`, or the
/// length of `found` where there is none.
pub open spec fn place_of(found: Seq<(Seq<char>, Seq<DiagnosticView>)>, path: Seq<char>, from: int) -> int
    decreases found.len() - from,
{
    if from < 0 || from >= found.len() {
        found.len() as int
    } else if found[from].0 == path {
        from
    } else {
        place_of(found, path, from + 1)
    }
}

/// `found` with one more finding against `path`: behind the findings that
/// its entry holds, or in a new entry at the end.
pub open spec fn with_finding(
    found: Seq<(Seq<char>, Seq<DiagnosticView>)>,
    path: Seq<char>,
    d: DiagnosticView,
) -> Seq<(Seq<char>, Seq<DiagnosticView>)> {
    let i = place_of(found, path, 0);
    if i < found.len() {
        found.update(i, (path, found[i].1.push(d)))
    } else {
        found.push((path, seq![d]))
    }
}

/// `found` with an entry for `path`, which is empty where it is new.
pub open spec fn with_entry(found: Seq<(Seq<char>, Seq<DiagnosticView>)>, path: Seq<char>) -> Seq<
    (Seq<char>, Seq<DiagnosticView>),
> {
    if place_of(found, path, 0) < found.len() {
        found
    } else {
        found.push((path, Seq::empty()))
    }
}

/// The findings that the first `n` lines of a log make, by file: the files
/// in the order in which the log names them first, the findings against one
/// file in the order of the log.
pub open spec fn remapped(
    grammar: Grammar,
    offset: int,
    table: Seq<(int, Seq<char>)>,
    lines: Seq<Seq<char>>,
    n: int,
) -> Seq<(Seq<char>, Seq<DiagnosticView>)>
    decreases n,
{
    if n <= 0 {
        Seq::empty()
    } else {
        let before = remapped(grammar, offset, table, lines, n - 1);
        match finding_of(
            grammar,
            offset,
            table,
            regex_captures(pattern_of(grammar), lines[n - 1]),
        ) {
            Some((path, d)) => with_finding(before, path, d),
            None => before,
        }
    }
}

/// An empty entry for each file among the first `n` of `table`, each path
/// once, in the order of the table.
pub open spec fn cleared(table: Seq<(int, Seq<char>)>, n: int) -> Seq<
    (Seq<char>, Seq<DiagnosticView>),
>
    decreases n,
{
    if n <= 0 {
        Seq::empty()
    } else {
        with_entry(cleared(table, n - 1), table[n - 1].1)
    }
}

/// What is told of the files of a merged text after it was compiled: with a
/// log, the findings that its lines make; without one, an empty entry for
/// each file.
pub open spec fn remap_result(
    grammar: Grammar,
    offset: int,
    table: Seq<(int, Seq<char>)>,
    log: Option<Seq<char>>,
) -> Seq<(Seq<char>, Seq<DiagnosticView>)> {
    match log {
        Some(text) => remapped(grammar, offset, table, lines_of(text), lines_of(text).len() as int),
        None => cleared(table, table.len() as int),
    }
}

/// A finding with its file, as the contracts see it.
pub open spec fn finding_view(found: Option<(String, Diagnostic)>) -> Option<
    (Seq<char>, DiagnosticView),
> {
    match found {
        Some((path, d)) => Some((path@, d@)),
        None => None,
    }
}

/// The text of group `i`.
fn group_text(groups: &Vec<Option<String>>, i: usize) -> (r: Option<&String>)
    ensures
        match r {
            Some(s) => group(groups_view(Some(*groups))->0, i as int) == Some(s@),
            None => group(groups_view(Some(*groups))->0, i as int) is None,
        },
{
    if i < groups.len() {
        match &groups[i] {
            Some(s) => Some(s),
            None => None,
        }
    } else {
        None
    }
}

/// The path of the first file of `files` that has the number `id`.
fn path_numbered(files: &Vec<(usize, String)>, id: usize) -> (r: Option<String>)
    ensures
        match r {
            Some(p) => file_numbered(table_view(files@), id as int) == Some(p@),
            None => file_numbered(table_view(files@), id as int) is None,
        },
{
    let ghost table = table_view(files@);
    let mut i: usize = 0;
    assert(table.skip(0) =~= table);
    while i < files.len()
        invariant
            i <= files.len(),
            table == table_view(files@),
            file_numbered(table.skip(i as int), id as int) == file_numbered(table, id as int),
        decreases files.len() - i,
    {
        assert(table.skip(i as int)[0] == table[i as int]);
        assert(table.skip(i as int).drop_first() =~= table.skip(i + 1));
        if files[i].0 == id {
            return Some(files[i].1.clone());
        }
        i = i + 1;
    }
    assert(table.skip(i as int).len() == 0);
    None
}

/// Whether `files` holds a file of the path `path`.
fn has_path(files: &Vec<(usize, String)>, path: &String) -> (r: bool)
    ensures
        r == holds_path(table_view(files@), path@),
{
    let ghost table = table_view(files@);
    let mut i: usize = 0;
    while i < files.len()
        invariant
            i <= files.len(),
            table == table_view(files@),
            forall|j: int| 0 <= j < i ==> (#[trigger] table[j]).1 != path@,
        decreases files.len() - i,
    {
        if files[i].1 == *path {
            assert(table[i as int].1 == path@);
            return true;
        }
        i = i + 1;
    }
    false
}

/// The severity that a log names by `word`.
fn severity_for(word: &String) -> (r: Option<Severity>)
    ensures
        r == severity_named(word@),
{
    let w = to_chars(word.as_str());
    if chars_eq(&w, &to_chars("error")) || chars_eq(&w, &to_chars("ERROR")) {
        Some(Severity::Error)
    } else if chars_eq(&w, &to_chars("warning")) || chars_eq(&w, &to_chars("WARNING")) {
        Some(Severity::Warning)
    } else {
        None
    }
}

/// Adds one finding against `path` to `found`.
#[verifier::rlimit(50)]
pub fn add_finding(found: &mut Vec<(String, Vec<Diagnostic>)>, path: String, d: Diagnostic)
    ensures
        findings_view(final(found)@) == with_finding(findings_view(old(found)@), path@, d@),
{
    let ghost view = findings_view(found@);
    let mut i: usize = 0;
    while i < found.len()
        invariant
            i <= found.len(),
            found@ == old(found)@,
            view == findings_view(found@),
            place_of(view, path@, i as int) == place_of(view, path@, 0),
        decreases found.len() - i,
    {
        assert(view[i as int].0 == found@[i as int].0@);
        if found[i].0 == path {
            let (p, mut ds) = found.remove(i);
            ds.push(d);
            let ghost inner = Seq::new(ds@.len(), |k: int| ds@[k]@);
            found.insert(i, (p, ds));
            proof {
                assert(place_of(view, path@, 0) == i);
                assert(inner =~= view[i as int].1.push(d@));
                let goal = view.update(i as int, (path@, view[i as int].1.push(d@)));
                assert(findings_view(found@).len() == goal.len());
                assert forall|k: int| 0 <= k < goal.len() implies findings_view(found@)[k]
                    == goal[k] by {
                    if k == i {
                        assert(findings_view(found@)[k].1 =~= inner);
                    } else {
                        assert(found@[k] == old(found)@[k]);
                    }
                }
                assert(findings_view(found@) =~= goal);
            }
            return ;
        }
        i = i + 1;
    }
    let mut ds: Vec<Diagnostic> = Vec::new();
    ds.push(d);
    let ghost inner = Seq::new(ds@.len(), |k: int| ds@[k]@);
    found.push((path, ds));
    proof {
        assert(place_of(view, path@, 0) == view.len());
        assert(inner =~= seq![d@]);
        let goal = view.push((path@, seq![d@]));
        assert forall|k: int| 0 <= k < goal.len() implies findings_view(found@)[k] == goal[k] by {
            if k == view.len() {
                assert(findings_view(found@)[k].1 =~= inner);
            } else {
                assert(found@[k] == old(found)@[k]);
            }
        }
        assert(findings_view(found@) =~= goal);
    }
}

/// Adds an entry for `path` to `found` unless it has one.
pub fn add_entry(found: &mut Vec<(String, Vec<Diagnostic>)>, path: String)
    ensures
        findings_view(final(found)@) == with_entry(findings_view(old(found)@), path@),
{
    let ghost view = findings_view(found@);
    let mut i: usize = 0;
    while i < found.len()
        invariant
            i <= found.len(),
            found@ == old(found)@,
            view == findings_view(found@),
            place_of(view, path@, i as int) == place_of(view, path@, 0),
        decreases found.len() - i,
    {
        assert(view[i as int].0 == found@[i as int].0@);
        if found[i].0 == path {
            assert(place_of(view, path@, 0) == i);
            return ;
        }
        i = i + 1;
    }
    let ds: Vec<Diagnostic> = Vec::new();
    let ghost inner = Seq::new(ds@.len(), |k: int| ds@[k]@);
    found.push((path, ds));
    proof {
        assert(place_of(view, path@, 0) == view.len());
        assert(inner =~= Seq::<DiagnosticView>::empty());
        let goal = view.push((path@, Seq::<DiagnosticView>::empty()));
        assert forall|k: int| 0 <= k < goal.len() implies findings_view(found@)[k] == goal[k] by {
            if k == view.len() {
                assert(findings_view(found@)[k].1 =~= inner);
            } else {
                assert(found@[k] == old(found)@[k]);
            }
        }
        assert(findings_view(found@) =~= goal);
    }
}

/// An empty entry for each file of `files`, each path once.
pub fn clear_diagnostics(files: &Vec<(usize, String)>) -> (found: Vec<(String, Vec<Diagnostic>)>)
    ensures
        findings_view(found@) == cleared(table_view(files@), files@.len() as int),
{
    let mut found: Vec<(String, Vec<Diagnostic>)> = Vec::new();
    let mut i: usize = 0;
    assert(findings_view(found@) =~= cleared(table_view(files@), 0));
    while i < files.len()
        invariant
            i <= files.len(),
            findings_view(found@) == cleared(table_view(files@), i as int),
        decreases files.len() - i,
    {
        add_entry(&mut found, files[i].1.clone());
        i = i + 1;
    }
    found
}

/// Reads the log of one compiler.
pub struct DiagnosticsParser {
    line_offset: u32,
    grammar: Grammar,
}

/// The name by which NVIDIA compilers are known.
pub const NVIDIA: &'static str = "NVIDIA Corporation";

/// The name by which ATI compilers are known.
pub const ATI: &'static str = "ATI Technologies";

/// The grammar of the compiler of `vendor`.
pub open spec fn grammar_for(vendor: Seq<char>) -> Grammar {
    if vendor == NVIDIA@ {
        Grammar::Nvidia
    } else {
        Grammar::Generic
    }
}

/// The number that the compiler of `vendor` gives the first line of a file.
pub open spec fn offset_for(vendor: Seq<char>) -> int {
    if vendor == ATI@ {
        0
    } else {
        1
    }
}

impl DiagnosticsParser {
    /// The grammar that the log is read by.
    pub closed spec fn grammar(&self) -> Grammar {
        self.grammar
    }

    /// The number that the compiler gives the first line of a file.
    pub closed spec fn offset(&self) -> int {
        self.line_offset as int
    }

    /// The parser for the log of the compiler of `vendor`.
    pub fn new(vendor: &str) -> (parser: DiagnosticsParser)
        ensures
            parser.grammar() == grammar_for(vendor@),
            parser.offset() == offset_for(vendor@),
    {
        let name = to_chars(vendor);
        let grammar = if chars_eq(&name, &to_chars(NVIDIA)) {
            Grammar::Nvidia
        } else {
            Grammar::Generic
        };
        let line_offset: u32 = if chars_eq(&name, &to_chars(ATI)) {
            0
        } else {
            1
        };
        DiagnosticsParser { line_offset, grammar }
    }

    /// The grammar that the log is read by.
    pub fn grammar_in_use(&self) -> (g: Grammar)
        ensures
            g == self.grammar(),
    {
        self.grammar
    }

    /// The number that the compiler gives the first line of a file.
    pub fn line_offset(&self) -> (n: u32)
        ensures
            n == self.offset(),
    {
        self.line_offset
    }
    /// The finding that a log line makes whose captures are `captures`, with
    /// the file it is made against.
    #[verifier::rlimit(50)]
    pub fn read_finding(
        &self,
        captures: &Option<Vec<Option<String>>>,
        files: &Vec<(usize, String)>,
    ) -> (found: Option<(String, Diagnostic)>)
        ensures
            finding_view(found) == finding_of(
                self.grammar(),
                self.offset(),
                table_view(files@),
                groups_view(*captures),
            ),
    {
        let groups = match captures {
            Some(groups) => groups,
            None => {
                return None;
            },
        };
        let (fi, li, si, oi): (usize, usize, usize, usize) = match self.grammar {
            Grammar::Nvidia => (1, 2, 3, 4),
            Grammar::Generic => (2, 3, 1, 4),
        };
        let file = match group_text(groups, fi) {
            Some(s) => s,
            None => {
                return None;
            },
        };
        let line = match group_text(groups, li) {
            Some(s) => s,
            None => {
                return None;
            },
        };
        let word = match group_text(groups, si) {
            Some(s) => s,
            None => {
                return None;
            },
        };
        let message = match group_text(groups, oi) {
            Some(s) => s,
            None => {
                return None;
            },
        };
        let numbered = match parse_decimal(&to_chars(file.as_str())) {
            Some(n) => path_numbered(files, n as usize),
            None => None,
        };
        let path = match self.grammar {
            Grammar::Nvidia => numbered,
            Grammar::Generic => if numbered.is_some() {
                numbered
            } else if has_path(files, file) {
                Some(file.clone())
            } else {
                None
            },
        };
        let path = match path {
            Some(p) => p,
            None => {
                return None;
            },
        };
        let n = match parse_decimal(&to_chars(line.as_str())) {
            Some(n) => n,
            None => {
                return None;
            },
        };
        let severity = match severity_for(word) {
            Some(s) => s,
            None => {
                return None;
            },
        };
        let corrected: u32 = if n >= self.line_offset {
            n - self.line_offset
        } else {
            0
        };
        Some((path, Diagnostic { line: corrected, severity, message: message.clone() }))
    }

    /// The findings of a log, by file.
    pub fn parse_diagnostics(&self, compile_log: &str, files: &Vec<(usize, String)>) -> (found: Vec<
        (String, Vec<Diagnostic>),
    >)
        ensures
            findings_view(found@) == remapped(
                self.grammar(),
                self.offset(),
                table_view(files@),
                lines_of(compile_log@),
                lines_of(compile_log@).len() as int,
            ),
    {
        let lines = split_lines(compile_log);
        let pattern = match self.grammar {
            Grammar::Nvidia => NVIDIA_PATTERN,
            Grammar::Generic => GENERIC_PATTERN,
        };
        let mut found: Vec<(String, Vec<Diagnostic>)> = Vec::new();
        let mut i: usize = 0;
        assert(findings_view(found@) =~= remapped(
            self.grammar(),
            self.offset(),
            table_view(files@),
            lines_of(compile_log@),
            0,
        ));
        while i < lines.len()
            invariant
                i <= lines.len(),
                line_views(lines@) == lines_of(compile_log@),
                pattern@ == pattern_of(self.grammar()),
                findings_view(found@) == remapped(
                    self.grammar(),
                    self.offset(),
                    table_view(files@),
                    lines_of(compile_log@),
                    i as int,
                ),
            decreases lines.len() - i,
        {
            assert(line_views(lines@)[i as int] == lines@[i as int]@);
            let line = from_chars(&lines[i]);
            let captures = capture_groups(pattern, line.as_str());
            match self.read_finding(&captures, files) {
                Some((path, d)) => {
                    add_finding(&mut found, path, d);
                },
                None => {},
            }
            i = i + 1;
        }
        found
    }

    /// What is told of the files of a merged text after it was compiled: the
    /// findings of the log, or, where the compiler left no log, an empty
    /// entry for each file.
    pub fn remap(&self, log: Option<&str>, files: &Vec<(usize, String)>) -> (found: Vec<
        (String, Vec<Diagnostic>),
    >)
        ensures
            findings_view(found@) == remap_result(
                self.grammar(),
                self.offset(),
                table_view(files@),
                match log {
                    Some(text) => Some(text@),
                    None => None,
                },
            ),
    {
        match log {
            Some(text) => self.parse_diagnostics(text, files),
            None => clear_diagnostics(files),
        }
    }
}

} // verus!
