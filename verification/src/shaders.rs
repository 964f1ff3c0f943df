//! Entry files and the files they name: reading their directives into the
//! graph, and writing an entry file out as one text with everything it names
//! in place.

use vstd::prelude::*;
use std::collections::VecDeque;
use crate::directive::{directive_span, lemma_directive_span, parse_directive};
use crate::graph::{
    entries_view, entry_view, has_edge_room, has_node_room, keeps_files, leaves_others,
    lemma_placed_last, marked, with_file, with_inclusion, without_inclusions, CachedStableGraph,
    GraphView, IncludePosition, Inclusion,
};
use crate::path::{normalize, normalized, resolve, resolved, stage_for, stage_of, ShaderStage};
use crate::sources::Sources;
use crate::text::{
    append_chars, chars_eq, decimal, decimal_digits, from_chars, line_views, push_char,
    slice_chars, to_chars,
};

verus! {

/// How deep directives are followed: a file named through more than this
/// many directives is neither read nor written out.
pub const DEPTH_LIMIT: usize = 10;

/// Why reading directives stopped early.
#[derive(Clone, Copy, Debug, PartialEq, Eq, Structural)]
pub enum ScanError {
    /// The graph holds as many files or inclusions as it can.
    GraphFull,
}

/// The inclusion that line `i` of the file `path` makes, where that line is
/// a directive.
pub open spec fn inclusion_at(
    work_space: Seq<char>,
    path: Seq<char>,
    line: Seq<char>,
    i: int,
) -> Option<Inclusion> {
    match directive_span(line) {
        Some((s, e)) => Some(
            Inclusion {
                line: i,
                start: s,
                end: e,
                target: resolved(work_space, path, line.subrange(s, e)),
            },
        ),
        None => None,
    }
}

/// The inclusions that the first `n` lines of the file `path` make, in the
/// order of the lines.
pub open spec fn directives(
    work_space: Seq<char>,
    path: Seq<char>,
    lines: Seq<Seq<char>>,
    n: int,
) -> Seq<Inclusion>
    decreases n,
{
    if n <= 0 {
        Seq::empty()
    } else {
        let before = directives(work_space, path, lines, n - 1);
        match inclusion_at(work_space, path, lines[n - 1], n - 1) {
            Some(inc) => before.push(inc),
            None => before,
        }
    }
}

/// The inclusions of the first `n` lines stand on lines before `n`.
pub proof fn lemma_directives_lines(
    work_space: Seq<char>,
    path: Seq<char>,
    lines: Seq<Seq<char>>,
    n: int,
)
    ensures
        forall|k: int|
            0 <= k < directives(work_space, path, lines, n).len() ==> (#[trigger] directives(
                work_space,
                path,
                lines,
                n,
            )[k]).line < n,
    decreases n,
{
    if n > 0 {
        lemma_directives_lines(work_space, path, lines, n - 1);
        let before = directives(work_space, path, lines, n - 1);
        let all = directives(work_space, path, lines, n);
        assert forall|k: int| 0 <= k < all.len() implies (#[trigger] all[k]).line < n by {
            if k < before.len() {
                assert(all[k] == before[k]);
            }
        }
    }
}

/// Whether `list` holds the inclusions that some of the first lines of the
/// file `path` make, and no others.
pub open spec fn read_so_far(
    list: Seq<Inclusion>,
    work_space: Seq<char>,
    path: Seq<char>,
    lines: Seq<Seq<char>>,
) -> bool {
    exists|n: int| 0 <= n <= lines.len() && list == #[trigger] directives(work_space, path, lines, n)
}

/// Whether `list` is what a file may hold once it was read anew at `depth`,
/// whether or not the graph got full on the way: inclusions that some of
/// the first lines of its text make, and none where the text was not read.
pub open spec fn read_anew(
    list: Seq<Inclusion>,
    src: Map<Seq<char>, Seq<Seq<char>>>,
    work_space: Seq<char>,
    path: Seq<char>,
    depth: nat,
) -> bool {
    if src.contains_key(path) && depth <= DEPTH_LIMIT {
        read_so_far(list, work_space, path, src[path])
    } else {
        list.len() == 0
    }
}

/// `v` with the file `path`: where `v` has no such file, it is added, and it
/// is taken down whether it has a text.
pub open spec fn held(v: GraphView, src: Map<Seq<char>, Seq<Seq<char>>>, path: Seq<char>) -> GraphView {
    if v.files.contains_key(path) {
        v
    } else {
        marked(with_file(v, path), path, src.contains_key(path))
    }
}

/// The graph after the lines from `i` on of the file `path` are read at
/// `depth`: each directive adds the file it names, where the graph has none
/// of that path, and an inclusion; a file added so is read in turn, one level
/// deeper, before the next line. `None` where the graph gets full.
pub open spec fn scanned_lines(
    v: GraphView,
    src: Map<Seq<char>, Seq<Seq<char>>>,
    work_space: Seq<char>,
    path: Seq<char>,
    lines: Seq<Seq<char>>,
    i: int,
    depth: nat,
) -> Option<GraphView>
    decreases DEPTH_LIMIT + 1 - depth, 0int, lines.len() - i,
{
    if i < 0 || i >= lines.len() || depth > DEPTH_LIMIT {
        Some(v)
    } else {
        match inclusion_at(work_space, path, lines[i], i) {
            None => scanned_lines(v, src, work_space, path, lines, i + 1, depth),
            Some(inc) => {
                let known = v.files.contains_key(inc.target);
                if (!known && !has_node_room(v)) || !has_edge_room(v) {
                    None
                } else {
                    let added = with_inclusion(held(v, src, inc.target), path, inc);
                    let below = if known {
                        Some(added)
                    } else {
                        scanned_file(added, src, work_space, inc.target, depth + 1)
                    };
                    match below {
                        Some(next) => scanned_lines(
                            next,
                            src,
                            work_space,
                            path,
                            lines,
                            i + 1,
                            depth,
                        ),
                        None => None,
                    }
                }
            },
        }
    }
}

/// The graph after the file `path` is read at `depth`. A file that lies
/// deeper than the limit or has no text is left as it is.
pub open spec fn scanned_file(
    v: GraphView,
    src: Map<Seq<char>, Seq<Seq<char>>>,
    work_space: Seq<char>,
    path: Seq<char>,
    depth: nat,
) -> Option<GraphView>
    decreases DEPTH_LIMIT + 1 - depth, 1int, 0int,
{
    if depth > DEPTH_LIMIT || !src.contains_key(path) {
        Some(v)
    } else {
        scanned_lines(v, src, work_space, path, src[path], 0, depth)
    }
}

/// The graph after the file `path` is read anew at `depth`: the file is
/// added where the graph has none of that path, its inclusions are dropped,
/// it is taken down whether it has a text, and its text is read from the
/// first line. `None` where the graph gets full.
pub open spec fn rescanned_at(
    v: GraphView,
    src: Map<Seq<char>, Seq<Seq<char>>>,
    work_space: Seq<char>,
    path: Seq<char>,
    depth: nat,
) -> Option<GraphView> {
    if !v.files.contains_key(path) && !has_node_room(v) {
        None
    } else {
        scanned_file(
            marked(without_inclusions(with_file(v, path), path), path, src.contains_key(path)),
            src,
            work_space,
            path,
            depth,
        )
    }
}

/// The graph after the file `path` is read anew as a file that no directive
/// led to.
pub open spec fn rescanned(
    v: GraphView,
    src: Map<Seq<char>, Seq<Seq<char>>>,
    work_space: Seq<char>,
    path: Seq<char>,
) -> Option<GraphView> {
    rescanned_at(v, src, work_space, path, 0)
}

/// Reads the directives of the file `path`, which the graph holds, into the
/// graph, and those of every file that they add, down to the depth limit.
#[verifier::rlimit(50)]
pub fn scan_file(
    graph: &mut CachedStableGraph,
    sources: &Sources,
    work_space: &Vec<char>,
    path: &Vec<char>,
    depth: usize,
) -> (r: Result<(), ScanError>)
    requires
        old(graph).wf(),
        sources.wf(),
        old(graph)@.files.contains_key(path@),
    ensures
        final(graph).wf(),
        match r {
            Ok(_) => Some(final(graph)@) == scanned_file(
                old(graph)@,
                sources@,
                work_space@,
                path@,
                depth as nat,
            ),
            Err(_) => scanned_file(old(graph)@, sources@, work_space@, path@, depth as nat) is None,
        },
        keeps_files(old(graph)@, final(graph)@),
        leaves_others(old(graph)@, final(graph)@, path@),
        old(graph)@.files[path@].len() == 0 && depth <= DEPTH_LIMIT && sources@.contains_key(path@)
            ==> read_so_far(final(graph)@.files[path@], work_space@, path@, sources@[path@]),
        forall|n: u32| #[trigger]
            old(graph).has_node(n) ==> final(graph).has_node(n) && final(graph).path_of(n) == old(graph).path_of(n),
    decreases DEPTH_LIMIT + 1 - depth,
{
    if depth > DEPTH_LIMIT {
        return Ok(());
    }
    let lines = match sources.lines(path) {
        Some(lines) => lines,
        None => {
            return Ok(());
        },
    };
    let name = from_chars(path);
    let node = graph.add_node(name.as_str());
    let ghost goal = scanned_file(old(graph)@, sources@, work_space@, path@, depth as nat);
    let mut i: usize = 0;
    while i < lines.len()
        invariant
            i <= lines.len(),
            depth <= DEPTH_LIMIT,
            graph.wf(),
            sources.wf(),
            graph.has_node(node),
            graph.path_of(node) == path@,
            goal == scanned_file(old(graph)@, sources@, work_space@, path@, depth as nat),
            keeps_files(old(graph)@, graph@),
            leaves_others(old(graph)@, graph@, path@),
            graph@.files.contains_key(path@),
            old(graph)@.files[path@].len() == 0 ==> graph@.files[path@] == directives(
                work_space@,
                path@,
                line_views(lines@),
                i as int,
            ),
            line_views(lines@) == sources@[path@],
            scanned_lines(
                graph@,
                sources@,
                work_space@,
                path@,
                line_views(lines@),
                i as int,
                depth as nat,
            ) == goal,
            forall|n: u32| #[trigger]
                old(graph).has_node(n) ==> graph.has_node(n) && graph.path_of(n) == old(graph).path_of(n),
        decreases lines.len() - i,
    {
        assert(line_views(lines@)[i as int] == lines@[i as int]@);
        match parse_directive(&lines[i]) {
            None => {},
            Some((start, end)) => {
                proof {
                    lemma_directive_span(lines@[i as int]@);
                }
                let raw = slice_chars(&lines[i], start, end);
                let target = resolve(work_space, path, &raw);
                let target_name = from_chars(&target);
                let known = graph.node_of(target_name.as_str()).is_some();
                let ghost inc = Inclusion {
                    line: i as int,
                    start: start as int,
                    end: end as int,
                    target: target@,
                };
                let ghost before = *graph;
                proof {
                    graph.lemma_nodes_are_files();
                    assert(inclusion_at(work_space@, path@, lines@[i as int]@, i as int) == Some(
                        inc,
                    ));
                    assert(known == graph@.files.contains_key(target@));
                }
                if (!known && !graph.has_node_room()) || !graph.has_edge_room() {
                    assert(goal is None);
                    return Err(ScanError::GraphFull);
                }
                proof {
                    lemma_directives_lines(work_space@, path@, line_views(lines@), i as int);
                    if old(graph)@.files[path@].len() == 0 {
                        lemma_placed_last(graph@.files[path@], inc);
                    }
                }
                let child = graph.add_node(target_name.as_str());
                if !known {
                    let readable = sources.contains(&target);
                    graph.set_file_exists(child, readable);
                }
                let ghost mid = *graph;
                graph.add_edge(node, child, IncludePosition { line: i, start, end });
                let ghost added = *graph;
                proof {
                    assert(mid@ == held(before@, sources@, target@));
                    assert(added@ == with_inclusion(held(before@, sources@, target@), path@, inc));
                    assert(keeps_files(before@, added@));
                    assert(leaves_others(before@, added@, path@));
                    assert(mid@.files[path@] == before@.files[path@]);
                    assert(old(graph)@.files[path@].len() == 0 ==> added@.files[path@] == directives(
                        work_space@,
                        path@,
                        line_views(lines@),
                        i + 1,
                    ));
                    assert(leaves_others(old(graph)@, added@, path@)) by {
                        assert forall|p: Seq<char>|
                            old(graph)@.files.contains_key(p) && p != path@ implies #[trigger] added@.files[p]
                            == old(graph)@.files[p] by {
                            assert(before@.files.contains_key(p));
                            assert(before@.files[p] == old(graph)@.files[p]);
                        }
                    }
                    assert(keeps_files(old(graph)@, added@)) by {
                        assert forall|p: Seq<char>| #[trigger]
                            old(graph)@.files.contains_key(p) implies added@.files.contains_key(
                            p,
                        ) by {
                            assert(before@.files.contains_key(p));
                        }
                    }
                    assert forall|n: u32| #[trigger] before.has_node(n) implies added.has_node(n)
                        && added.path_of(n) == before.path_of(n) by {
                        assert(mid.has_node(n));
                    }
                    added.lemma_nodes_are_files();
                }
                if !known {
                    match scan_file(graph, sources, work_space, &target, depth + 1) {
                        Ok(_) => {},
                        Err(e) => {
                            proof {
                                assert(goal is None);
                                assert(graph@.files[path@] == added@.files[path@]);
                                assert(leaves_others(old(graph)@, graph@, path@)) by {
                                    assert forall|p: Seq<char>|
                                        old(graph)@.files.contains_key(p) && p != path@ implies #[trigger] graph@.files[p]
                                        == old(graph)@.files[p] by {
                                        assert(added@.files.contains_key(p));
                                        assert(added@.files[p] == old(graph)@.files[p]);
                                    }
                                }
                                assert(keeps_files(old(graph)@, graph@)) by {
                                    assert forall|p: Seq<char>| #[trigger]
                                        old(graph)@.files.contains_key(p) implies graph@.files.contains_key(
                                        p,
                                    ) by {
                                        assert(added@.files.contains_key(p));
                                    }
                                }
                                assert forall|n: u32| #[trigger] old(graph).has_node(n) implies graph.has_node(
                                    n,
                                ) && graph.path_of(n) == old(graph).path_of(n) by {
                                    assert(before.has_node(n));
                                    assert(added.has_node(n));
                                }
                            }
                            return Err(e);
                        },
                    }
                }
                proof {
                    assert(graph@.files[path@] == added@.files[path@]);
                    assert(leaves_others(old(graph)@, graph@, path@)) by {
                        assert forall|p: Seq<char>|
                            old(graph)@.files.contains_key(p) && p != path@ implies #[trigger] graph@.files[p]
                            == old(graph)@.files[p] by {
                            assert(added@.files.contains_key(p));
                            assert(added@.files[p] == old(graph)@.files[p]);
                        }
                    }
                    assert(keeps_files(old(graph)@, graph@)) by {
                        assert forall|p: Seq<char>| #[trigger]
                            old(graph)@.files.contains_key(p) implies graph@.files.contains_key(
                            p,
                        ) by {
                            assert(added@.files.contains_key(p));
                        }
                    }
                    assert forall|n: u32| #[trigger] old(graph).has_node(n) implies graph.has_node(n)
                        && graph.path_of(n) == old(graph).path_of(n) by {
                        assert(before.has_node(n));
                        assert(added.has_node(n));
                    }
                }
            },
        }
        i = i + 1;
    }
    Ok(())
}

/// The largest number that a file can get in a merged text. An inclusion
/// whose number would not lie below it is left as its line stands.
pub const ID_LIMIT: usize = 0xffff_ffff;

/// What a merge has produced so far.
pub struct MergeState {
    /// The text written.
    pub text: Seq<char>,
    /// The files written out, each with its number, in the order in which
    /// they were begun.
    pub table: Seq<(int, Seq<char>)>,
    /// The number that was given out last.
    pub last_id: int,
    /// How many times the text went back to a file after an inclusion.
    pub resumes: int,
}

/// The line that tells the compiler that the next line is line `line` of
/// file number `file`: `#line`, the line, the file.
pub open spec fn line_directive(line: int, file: int) -> Seq<char> {
    seq!['#', 'l', 'i', 'n', 'e', ' '] + decimal(line as nat) + seq![' '] + decimal(file as nat)
        + seq!['\n']
}

/// The number after `last`, or the limit where there is none.
pub open spec fn next_id(last: int) -> int {
    if last < ID_LIMIT {
        last + 1
    } else {
        ID_LIMIT as int
    }
}

/// The first inclusion of `list` that stands on line `line`.
pub open spec fn first_on_line(list: Seq<Inclusion>, line: int) -> Option<Inclusion>
    decreases list.len(),
{
    if list.len() == 0 {
        None
    } else if list[0].line == line {
        Some(list[0])
    } else {
        first_on_line(list.drop_first(), line)
    }
}

/// The inclusions of the file `path`; none where the graph has no such file.
pub open spec fn inclusions_in(files: Map<Seq<char>, Seq<Inclusion>>, path: Seq<char>) -> Seq<
    Inclusion,
> {
    if files.contains_key(path) {
        files[path]
    } else {
        Seq::empty()
    }
}

/// `st` with `line` written as it stands.
pub open spec fn with_line(st: MergeState, line: Seq<char>) -> MergeState {
    MergeState { text: st.text + line + seq!['\n'], ..st }
}

/// The merge after the lines from `i` on of the file `path`, which has the
/// number `id`, are written at `depth`. A line on which the file has an
/// inclusion gives way to the file named, which gets the next number, and to
/// a directive that leads back to the line after it; of several inclusions on
/// one line the first counts. Any other line is written as it stands.
pub open spec fn merged_lines(
    g: GraphView,
    src: Map<Seq<char>, Seq<Seq<char>>>,
    path: Seq<char>,
    id: int,
    depth: nat,
    lines: Seq<Seq<char>>,
    i: int,
    st: MergeState,
) -> MergeState
    decreases DEPTH_LIMIT + 1 - depth, 0int, lines.len() - i,
{
    if i < 0 || i >= lines.len() || depth > DEPTH_LIMIT {
        st
    } else {
        let next = match first_on_line(inclusions_in(g.files, path), i) {
            None => with_line(st, lines[i]),
            Some(inc) => {
                let inner = merged_file(
                    g,
                    src,
                    inc.target,
                    lines[i],
                    depth + 1,
                    MergeState { last_id: next_id(st.last_id), ..st },
                );
                MergeState {
                    text: inner.text + line_directive(i + 2, id),
                    resumes: inner.resumes + 1,
                    ..inner
                }
            },
        };
        merged_lines(g, src, path, id, depth, lines, i + 1, next)
    }
}

/// The merge after the file `path`, named on the line `naming`, is written
/// at `depth` under the number given out last. A file that lies deeper than
/// the limit, could not be read when it was last looked for, has no text or
/// finds no number left is not written out: the line that names it is
/// written as it stands.
pub open spec fn merged_file(
    g: GraphView,
    src: Map<Seq<char>, Seq<Seq<char>>>,
    path: Seq<char>,
    naming: Seq<char>,
    depth: nat,
    st: MergeState,
) -> MergeState
    decreases DEPTH_LIMIT + 1 - depth, 1int, 0int,
{
    if depth > DEPTH_LIMIT || !g.present.contains(path) || !src.contains_key(path) || st.last_id
        >= ID_LIMIT || st.last_id < 0 {
        with_line(st, naming)
    } else {
        merged_lines(
            g,
            src,
            path,
            st.last_id,
            depth,
            src[path],
            0,
            MergeState {
                text: st.text + line_directive(1, st.last_id),
                table: st.table.push((st.last_id, path)),
                ..st
            },
        )
    }
}

/// The merge of the entry file `path` into a table that holds `table`: the
/// entry file has the number 0 and is written from its first line. An entry
/// file without text gives an empty text.
pub open spec fn merged_entry(
    g: GraphView,
    src: Map<Seq<char>, Seq<Seq<char>>>,
    path: Seq<char>,
    table: Seq<(int, Seq<char>)>,
) -> MergeState {
    merged_lines(
        g,
        src,
        path,
        0,
        0,
        if src.contains_key(path) {
            src[path]
        } else {
            Seq::empty()
        },
        0,
        MergeState { text: Seq::empty(), table: table.push((0, path)), last_id: 0, resumes: 0 },
    )
}

/// A table of files as the contracts see it.
pub open spec fn table_view(table: Seq<(usize, String)>) -> Seq<(int, Seq<char>)> {
    Seq::new(table.len(), |i: int| (table[i].0 as int, table[i].1@))
}

/// Pushing onto a table pushes onto its view.
pub proof fn lemma_table_push(table: Seq<(usize, String)>, entry: (usize, String))
    ensures
        table_view(table.push(entry)) == table_view(table).push((entry.0 as int, entry.1@)),
{
    assert(table_view(table.push(entry)) =~= table_view(table).push((entry.0 as int, entry.1@)));
}

/// Where no inclusion before `k` stands on `line`, the first on that line is
/// the first from `k` on.
pub proof fn lemma_first_on_line_skip(list: Seq<Inclusion>, line: int, k: int)
    requires
        0 <= k <= list.len(),
        forall|j: int| 0 <= j < k ==> (#[trigger] list[j]).line != line,
    ensures
        first_on_line(list, line) == first_on_line(list.skip(k), line),
    decreases k,
{
    if k > 0 {
        assert(list[0].line != line);
        let t = list.drop_first();
        assert forall|j: int| 0 <= j < k - 1 implies (#[trigger] t[j]).line != line by {
            assert(t[j] == list[j + 1]);
        }
        lemma_first_on_line_skip(t, line, k - 1);
        assert(t.skip(k - 1) =~= list.skip(k));
    } else {
        assert(list.skip(0) =~= list);
    }
}

/// The place in `list` of the first inclusion on line `line`.
fn find_on_line(list: &Vec<(usize, usize, usize, String)>, line: usize) -> (r: Option<usize>)
    ensures
        match r {
            Some(k) => k < list@.len() && first_on_line(entries_view(list@), line as int) == Some(
                entries_view(list@)[k as int],
            ),
            None => first_on_line(entries_view(list@), line as int) is None,
        },
{
    let ghost view = entries_view(list@);
    let mut k: usize = 0;
    while k < list.len()
        invariant
            k <= list.len(),
            view == entries_view(list@),
            forall|j: int| 0 <= j < k ==> (#[trigger] view[j]).line != line as int,
        decreases list.len() - k,
    {
        if list[k].0 == line {
            proof {
                lemma_first_on_line_skip(view, line as int, k as int);
                assert(view.skip(k as int)[0] == view[k as int]);
            }
            return Some(k);
        }
        k = k + 1;
    }
    proof {
        lemma_first_on_line_skip(view, line as int, view.len() as int);
        assert(view.skip(view.len() as int).len() == 0);
    }
    None
}

/// Writes the directive that names line `line` of file number `file`.
fn emit_line_directive(out: &mut String, line: u128, file: usize)
    ensures
        final(out)@ == old(out)@ + line_directive(line as int, file as int),
{
    push_char(out, '#');
    push_char(out, 'l');
    push_char(out, 'i');
    push_char(out, 'n');
    push_char(out, 'e');
    push_char(out, ' ');
    let a = decimal_digits(line);
    append_chars(out, &a);
    push_char(out, ' ');
    let b = decimal_digits(file as u128);
    append_chars(out, &b);
    push_char(out, '\n');
    assert(out@ =~= old(out)@ + line_directive(line as int, file as int));
}

/// Writes `line` as it stands.
fn emit_line(out: &mut String, line: &Vec<char>)
    ensures
        final(out)@ == old(out)@ + line@ + seq!['\n'],
{
    append_chars(out, line);
    push_char(out, '\n');
    assert(out@ =~= old(out)@ + line@ + seq!['\n']);
}

/// What the three values that a merge carries along stand for.
pub open spec fn merge_state(
    text: Seq<char>,
    table: Seq<(usize, String)>,
    last_id: usize,
    resumes: int,
) -> MergeState {
    MergeState { text, table: table_view(table), last_id: last_id as int, resumes }
}

/// The inclusions of a file with the nodes that they name; none for a file
/// that the graph does not hold.
fn inclusions_of_node(graph: &CachedStableGraph, node: Option<u32>, path: Ghost<Seq<char>>) -> (r: (
    Vec<(usize, usize, usize, String)>,
    Vec<u32>,
))
    requires
        graph.wf(),
        match node {
            Some(n) => graph.has_node(n) && graph.path_of(n) == path@,
            None => !graph@.files.contains_key(path@),
        },
    ensures
        entries_view(r.0@) == inclusions_in(graph@.files, path@),
        r.1@.len() == r.0@.len(),
        forall|k: int|
            0 <= k < r.1@.len() ==> graph.has_node(#[trigger] r.1@[k]) && graph.path_of(r.1@[k])
                == r.0@[k].3@,
{
    match node {
        Some(n) => {
            proof {
                graph.lemma_nodes_are_files();
            }
            let list = graph.including_files(n);
            let kids = graph.included_nodes(n);
            assert forall|k: int| 0 <= k < kids@.len() implies graph.path_of(#[trigger] kids@[k])
                == list@[k].3@ by {
                assert(entries_view(list@)[k].target == list@[k].3@);
            }
            (list, kids)
        },
        None => {
            let list: Vec<(usize, usize, usize, String)> = Vec::new();
            assert(entries_view(list@) =~= inclusions_in(graph@.files, path@));
            (list, Vec::new())
        },
    }
}

/// Writes the lines of the file `path`, which has the number `id`.
#[verifier::rlimit(50)]
fn merge_lines_into(
    graph: &CachedStableGraph,
    sources: &Sources,
    path: &Vec<char>,
    list: &Vec<(usize, usize, usize, String)>,
    kids: &Vec<u32>,
    id: usize,
    depth: usize,
    lines: &Vec<Vec<char>>,
    out: &mut String,
    table: &mut Vec<(usize, String)>,
    last_id: &mut usize,
    resumes: Ghost<int>,
) -> (r: Ghost<int>)
    requires
        graph.wf(),
        sources.wf(),
        depth <= DEPTH_LIMIT,
        entries_view(list@) == inclusions_in(graph@.files, path@),
        kids@.len() == list@.len(),
        forall|k: int|
            0 <= k < kids@.len() ==> graph.has_node(#[trigger] kids@[k]) && graph.path_of(kids@[k])
                == list@[k].3@,
    ensures
        merge_state(final(out)@, final(table)@, *final(last_id), r@) == merged_lines(
            graph@,
            sources@,
            path@,
            id as int,
            depth as nat,
            line_views(lines@),
            0,
            merge_state(old(out)@, old(table)@, *old(last_id), resumes@),
        ),
    decreases DEPTH_LIMIT + 1 - depth, 0int,
{
    let ghost goal = merged_lines(
        graph@,
        sources@,
        path@,
        id as int,
        depth as nat,
        line_views(lines@),
        0,
        merge_state(old(out)@, old(table)@, *old(last_id), resumes@),
    );
    let ghost mut count = resumes@;
    let mut i: usize = 0;
    while i < lines.len()
        invariant
            i <= lines.len(),
            graph.wf(),
            sources.wf(),
            depth <= DEPTH_LIMIT,
            entries_view(list@) == inclusions_in(graph@.files, path@),
            kids@.len() == list@.len(),
            forall|k: int|
                0 <= k < kids@.len() ==> graph.has_node(#[trigger] kids@[k]) && graph.path_of(
                    kids@[k],
                ) == list@[k].3@,
            merged_lines(
                graph@,
                sources@,
                path@,
                id as int,
                depth as nat,
                line_views(lines@),
                i as int,
                merge_state(out@, table@, *last_id, count),
            ) == goal,
        decreases lines.len() - i,
    {
        assert(line_views(lines@)[i as int] == lines@[i as int]@);
        match find_on_line(list, i) {
            None => {
                emit_line(out, &lines[i]);
            },
            Some(k) => {
                let child: usize = if *last_id < ID_LIMIT {
                    *last_id + 1
                } else {
                    ID_LIMIT
                };
                *last_id = child;
                let target = to_chars(list[k].3.as_str());
                let r = merge_file_into(
                    graph,
                    sources,
                    Some(kids[k]),
                    &target,
                    &lines[i],
                    depth + 1,
                    out,
                    table,
                    last_id,
                    Ghost(count),
                );
                emit_line_directive(out, i as u128 + 2, id);
                proof {
                    count = r@ + 1;
                }
            },
        }
        i = i + 1;
    }
    Ghost(count)
}

/// Writes the file `path`, which the line `naming` names, under the number
/// given out last, or that line where the file is not written out.
#[verifier::rlimit(50)]
fn merge_file_into(
    graph: &CachedStableGraph,
    sources: &Sources,
    node: Option<u32>,
    path: &Vec<char>,
    naming: &Vec<char>,
    depth: usize,
    out: &mut String,
    table: &mut Vec<(usize, String)>,
    last_id: &mut usize,
    resumes: Ghost<int>,
) -> (r: Ghost<int>)
    requires
        graph.wf(),
        sources.wf(),
        match node {
            Some(n) => graph.has_node(n) && graph.path_of(n) == path@,
            None => !graph@.files.contains_key(path@),
        },
    ensures
        merge_state(final(out)@, final(table)@, *final(last_id), r@) == merged_file(
            graph@,
            sources@,
            path@,
            naming@,
            depth as nat,
            merge_state(old(out)@, old(table)@, *old(last_id), resumes@),
        ),
    decreases DEPTH_LIMIT + 1 - depth, 1int,
{
    let id = *last_id;
    proof {
        graph.lemma_nodes_are_files();
    }
    let readable = match node {
        Some(n) => graph.file_exists(n),
        None => false,
    };
    if depth > DEPTH_LIMIT || !readable || id >= ID_LIMIT {
        emit_line(out, naming);
        return resumes;
    }
    let lines = match sources.lines(path) {
        Some(lines) => lines,
        None => {
            emit_line(out, naming);
            return resumes;
        },
    };
    emit_line_directive(out, 1, id);
    proof {
        graph.lemma_nodes_are_files();
    }
    let name = from_chars(path);
    proof {
        lemma_table_push(table@, (id, name));
    }
    table.push((id, name));
    let (list, kids) = inclusions_of_node(graph, node, Ghost(path@));
    merge_lines_into(
        graph,
        sources,
        path,
        &list,
        &kids,
        id,
        depth,
        lines,
        out,
        table,
        last_id,
        resumes,
    )
}

/// The graph after the file `path` is taken in at `depth`: a file that the
/// graph holds is left as it is; any other is added and read.
pub open spec fn taken_in(
    v: GraphView,
    src: Map<Seq<char>, Seq<Seq<char>>>,
    work_space: Seq<char>,
    path: Seq<char>,
    depth: nat,
) -> Option<GraphView> {
    if v.files.contains_key(path) {
        Some(v)
    } else if !has_node_room(v) {
        None
    } else {
        scanned_file(held(v, src, path), src, work_space, path, depth)
    }
}

/// Reads the file `path` anew at `depth`: adds it where the graph has none
/// of that path, drops its inclusions and reads its directives from the
/// first line.
pub fn rescan_at(
    graph: &mut CachedStableGraph,
    sources: &Sources,
    work_space: &Vec<char>,
    path: &Vec<char>,
    depth: usize,
) -> (r: Result<(), ScanError>)
    requires
        old(graph).wf(),
        sources.wf(),
    ensures
        final(graph).wf(),
        match r {
            Ok(_) => Some(final(graph)@) == rescanned_at(
                old(graph)@,
                sources@,
                work_space@,
                path@,
                depth as nat,
            ),
            Err(_) => rescanned_at(old(graph)@, sources@, work_space@, path@, depth as nat) is None,
        },
        keeps_files(old(graph)@, final(graph)@),
        leaves_others(old(graph)@, final(graph)@, path@),
        final(graph)@.files.contains_key(path@) ==> read_anew(
            final(graph)@.files[path@],
            sources@,
            work_space@,
            path@,
            depth as nat,
        ),
{
    let name = from_chars(path);
    if graph.node_of(name.as_str()).is_none() && !graph.has_node_room() {
        proof {
            graph.lemma_nodes_are_files();
        }
        return Err(ScanError::GraphFull);
    }
    proof {
        graph.lemma_nodes_are_files();
    }
    let node = graph.add_node(name.as_str());
    graph.clear_edges(node);
    let readable = sources.contains(path);
    graph.set_file_exists(node, readable);
    let ghost start = graph@;
    proof {
        graph.lemma_nodes_are_files();
        assert(keeps_files(old(graph)@, start));
        assert(leaves_others(old(graph)@, start, path@));
        assert(start.files[path@].len() == 0);
    }
    let r = scan_file(graph, sources, work_space, path, depth);
    proof {
        assert forall|p: Seq<char>| #[trigger] old(graph)@.files.contains_key(p) implies graph@.files.contains_key(
            p,
        ) by {
            assert(start.files.contains_key(p));
        }
        assert forall|p: Seq<char>|
            old(graph)@.files.contains_key(p) && p != path@ implies #[trigger] graph@.files[p]
            == old(graph)@.files[p] by {
            assert(start.files.contains_key(p));
            assert(start.files[p] == old(graph)@.files[p]);
        }
        if !(sources@.contains_key(path@) && depth <= DEPTH_LIMIT) {
            assert(r is Ok);
        }
    }
    r
}

/// Reads the file `path` anew, as a file that no directive led to.
pub fn rescan(
    graph: &mut CachedStableGraph,
    sources: &Sources,
    work_space: &Vec<char>,
    path: &Vec<char>,
) -> (r: Result<(), ScanError>)
    requires
        old(graph).wf(),
        sources.wf(),
    ensures
        final(graph).wf(),
        match r {
            Ok(_) => Some(final(graph)@) == rescanned(old(graph)@, sources@, work_space@, path@),
            Err(_) => rescanned(old(graph)@, sources@, work_space@, path@) is None,
        },
        keeps_files(old(graph)@, final(graph)@),
        leaves_others(old(graph)@, final(graph)@, path@),
        final(graph)@.files.contains_key(path@) ==> read_anew(
            final(graph)@.files[path@],
            sources@,
            work_space@,
            path@,
            0,
        ),
{
    rescan_at(graph, sources, work_space, path, 0)
}

/// An entry file as the contracts see it.
pub struct ShaderRecord {
    pub path: Seq<char>,
    pub work_space: Seq<char>,
    pub stage: ShaderStage,
}

/// An entry file: a file that is compiled for one stage of the pipeline.
pub struct ShaderFile {
    path: Vec<char>,
    file_type: ShaderStage,
    work_space: Vec<char>,
}

impl ShaderFile {
    /// The path of the file.
    pub closed spec fn path_view(&self) -> Seq<char> {
        self.path@
    }

    /// The directory that rooted paths are looked for in.
    pub closed spec fn work_space_view(&self) -> Seq<char> {
        self.work_space@
    }

    /// The stage that the file is compiled for.
    pub closed spec fn stage(&self) -> ShaderStage {
        self.file_type
    }

    /// The entry file `path` of the work space `work_space`. Its stage is
    /// unknown until the file is read.
    pub fn new(work_space: &str, path: &str) -> (file: ShaderFile)
        ensures
            file.path_view() == normalized(path@),
            file.work_space_view() == normalized(work_space@),
            file.stage() == ShaderStage::Unknown,
    {
        ShaderFile {
            path: normalize(&to_chars(path)),
            file_type: ShaderStage::Unknown,
            work_space: normalize(&to_chars(work_space)),
        }
    }

    /// The stage that the file is compiled for.
    pub fn file_type(&self) -> (stage: ShaderStage)
        ensures
            stage == self.stage(),
    {
        self.file_type
    }

    /// The file as the contracts see it.
    pub open spec fn record(&self) -> ShaderRecord {
        ShaderRecord {
            path: self.path_view(),
            work_space: self.work_space_view(),
            stage: self.stage(),
        }
    }

    /// Takes the stage of the file from its name.
    pub fn set_stage(&mut self)
        ensures
            final(self).path_view() == old(self).path_view(),
            final(self).work_space_view() == old(self).work_space_view(),
            final(self).stage() == stage_of(old(self).path_view()),
    {
        self.file_type = stage_for(&self.path);
    }

    /// The characters of the path of the file.
    pub fn path_chars(&self) -> (path: &Vec<char>)
        ensures
            path@ == self.path_view(),
    {
        &self.path
    }

    /// The characters of the directory that rooted paths are looked for in.
    pub fn work_space_chars(&self) -> (root: &Vec<char>)
        ensures
            root@ == self.work_space_view(),
    {
        &self.work_space
    }

    /// The path of the file.
    pub fn path(&self) -> (path: String)
        ensures
            path@ == self.path_view(),
    {
        from_chars(&self.path)
    }

    /// The inclusions of the file, in working order.
    pub fn including_files(&self, graph: &CachedStableGraph) -> (list: Vec<
        (usize, usize, usize, String),
    >)
        requires
            graph.wf(),
        ensures
            entries_view(list@) == inclusions_in(graph@.files, self.path_view()),
    {
        let name = from_chars(&self.path);
        let node = graph.node_of(name.as_str());
        inclusions_of_node(graph, node, Ghost(self.path@)).0
    }

    /// Drops the inclusions of the file.
    pub fn clear_including_files(&self, graph: &mut CachedStableGraph)
        requires
            old(graph).wf(),
        ensures
            final(graph).wf(),
            final(graph)@ == if old(graph)@.files.contains_key(self.path_view()) {
                without_inclusions(old(graph)@, self.path_view())
            } else {
                old(graph)@
            },
    {
        let name = from_chars(&self.path);
        proof {
            graph.lemma_nodes_are_files();
        }
        match graph.node_of(name.as_str()) {
            Some(node) => {
                graph.clear_edges(node);
            },
            None => {},
        }
    }

    /// Reads the file anew: takes its stage from its name and its directives
    /// into the graph.
    pub fn read_file(&mut self, graph: &mut CachedStableGraph, sources: &Sources) -> (r: Result<
        (),
        ScanError,
    >)
        requires
            old(graph).wf(),
            sources.wf(),
        ensures
            final(graph).wf(),
            final(self).path_view() == old(self).path_view(),
            final(self).work_space_view() == old(self).work_space_view(),
            final(self).stage() == stage_of(old(self).path_view()),
            match r {
                Ok(_) => Some(final(graph)@) == rescanned(
                    old(graph)@,
                    sources@,
                    old(self).work_space_view(),
                    old(self).path_view(),
                ),
                Err(_) => rescanned(
                    old(graph)@,
                    sources@,
                    old(self).work_space_view(),
                    old(self).path_view(),
                ) is None,
            },
            keeps_files(old(graph)@, final(graph)@),
            leaves_others(old(graph)@, final(graph)@, old(self).path_view()),
            final(graph)@.files.contains_key(old(self).path_view()) ==> read_anew(
                final(graph)@.files[old(self).path_view()],
                sources@,
                old(self).work_space_view(),
                old(self).path_view(),
                0,
            ),
    {
        self.file_type = stage_for(&self.path);
        rescan(graph, sources, &self.work_space, &self.path)
    }

    /// Writes the file out as one text, with every file that it names in
    /// place of the line that names it, and enters the files written into
    /// `file_list`, the entry file under the number 0.
    pub fn merge_shader_file(
        &self,
        graph: &CachedStableGraph,
        sources: &Sources,
        file_list: &mut Vec<(usize, String)>,
    ) -> (text: String)
        requires
            graph.wf(),
            sources.wf(),
        ensures
            text@ == merged_entry(
                graph@,
                sources@,
                self.path_view(),
                table_view(old(file_list)@),
            ).text,
            table_view(final(file_list)@) == merged_entry(
                graph@,
                sources@,
                self.path_view(),
                table_view(old(file_list)@),
            ).table,
    {
        let name = from_chars(&self.path);
        let node = graph.node_of(name.as_str());
        let (list, kids) = inclusions_of_node(graph, node, Ghost(self.path@));
        proof {
            lemma_table_push(file_list@, (0usize, name));
        }
        file_list.push((0, name));
        let no_lines: Vec<Vec<char>> = Vec::new();
        let lines = match sources.lines(&self.path) {
            Some(lines) => lines,
            None => {
                assert(line_views(no_lines@) =~= Seq::<Seq<char>>::empty());
                &no_lines
            },
        };
        let mut out = String::new();
        let mut last_id: usize = 0;
        merge_lines_into(
            graph,
            sources,
            &self.path,
            &list,
            &kids,
            0,
            0,
            lines,
            &mut out,
            file_list,
            &mut last_id,
            Ghost(0),
        );
        out
    }
}

/// The views of a list of strings.
pub open spec fn strings_view(list: Seq<String>) -> Seq<Seq<char>> {
    Seq::new(list.len(), |i: int| list[i]@)
}

/// A file that other files name, as the contracts see it.
pub struct IncludeRecord {
    pub path: Seq<char>,
    pub work_space: Seq<char>,
    /// The entry files that are known to reach the file.
    pub parents: Seq<Seq<char>>,
}

/// A table of such files as the contracts see it.
pub open spec fn records_view(table: Seq<IncludeFile>) -> Seq<IncludeRecord> {
    Seq::new(table.len(), |i: int| table[i].record())
}

/// `list` with those of the first `n` of `parents` added that it lacks.
pub open spec fn with_parents(list: Seq<Seq<char>>, parents: Seq<Seq<char>>, n: int) -> Seq<
    Seq<char>,
>
    decreases n,
{
    if n <= 0 {
        list
    } else {
        let before = with_parents(list, parents, n - 1);
        if before.contains(parents[n - 1]) {
            before
        } else {
            before.push(parents[n - 1])
        }
    }
}

/// Those of the first `n` of `list` that are not `parent`.
pub open spec fn without_parent(list: Seq<Seq<char>>, parent: Seq<char>, n: int) -> Seq<Seq<char>>
    decreases n,
{
    if n <= 0 {
        Seq::empty()
    } else {
        let before = without_parent(list, parent, n - 1);
        if list[n - 1] == parent {
            before
        } else {
            before.push(list[n - 1])
        }
    }
}

/// The place from `from` on of the first record of `table` for `path`, or
/// the length of `table` where there is none.
pub open spec fn record_place(table: Seq<IncludeRecord>, path: Seq<char>, from: int) -> int
    decreases table.len() - from,
{
    if from < 0 || from >= table.len() {
        table.len() as int
    } else if table[from].path == path {
        from
    } else {
        record_place(table, path, from + 1)
    }
}

/// `table` with `parents` added to the record of `path`, which is made for
/// the work space `work_space` where the table has none.
pub open spec fn parents_added(
    table: Seq<IncludeRecord>,
    work_space: Seq<char>,
    path: Seq<char>,
    parents: Seq<Seq<char>>,
) -> Seq<IncludeRecord> {
    let i = record_place(table, path, 0);
    if i < table.len() {
        table.update(
            i,
            IncludeRecord {
                parents: with_parents(table[i].parents, parents, parents.len() as int),
                ..table[i]
            },
        )
    } else {
        table.push(
            IncludeRecord {
                path,
                work_space,
                parents: with_parents(Seq::empty(), parents, parents.len() as int),
            },
        )
    }
}

/// The table after `parents` are added, at `depth`, to the files that the
/// inclusions from `k` on of `list` name.
pub open spec fn children_updated(
    files: Map<Seq<char>, Seq<Inclusion>>,
    table: Seq<IncludeRecord>,
    work_space: Seq<char>,
    list: Seq<Inclusion>,
    k: int,
    parents: Seq<Seq<char>>,
    depth: nat,
) -> Seq<IncludeRecord>
    decreases DEPTH_LIMIT + 1 - depth, 0int, list.len() - k,
{
    if k < 0 || k >= list.len() || depth > DEPTH_LIMIT {
        table
    } else {
        children_updated(
            files,
            parents_updated(files, table, work_space, list[k].target, parents, depth + 1),
            work_space,
            list,
            k + 1,
            parents,
            depth,
        )
    }
}

/// The table after `parents` are added, at `depth`, to the file `path` and
/// to every file that it names, down to the depth limit.
pub open spec fn parents_updated(
    files: Map<Seq<char>, Seq<Inclusion>>,
    table: Seq<IncludeRecord>,
    work_space: Seq<char>,
    path: Seq<char>,
    parents: Seq<Seq<char>>,
    depth: nat,
) -> Seq<IncludeRecord>
    decreases DEPTH_LIMIT + 1 - depth, 1int, 0int,
{
    if depth > DEPTH_LIMIT {
        table
    } else {
        children_updated(
            files,
            parents_added(table, work_space, path, parents),
            work_space,
            inclusions_in(files, path),
            0,
            parents,
            depth,
        )
    }
}

/// Whether no two records of `table` are for one path.
pub open spec fn distinct_records(table: Seq<IncludeRecord>) -> bool {
    forall|i: int, j: int|
        0 <= i < j < table.len() ==> (#[trigger] table[i]).path != (#[trigger] table[j]).path
}

/// Where `path` has a record from `from` on, the place found is that of its
/// first; else no record from `from` on is for `path`.
pub proof fn lemma_record_place(table: Seq<IncludeRecord>, path: Seq<char>, from: int)
    requires
        0 <= from <= table.len(),
    ensures
        from <= record_place(table, path, from) <= table.len(),
        record_place(table, path, from) < table.len() ==> table[record_place(table, path, from)].path
            == path,
        forall|i: int| from <= i < record_place(table, path, from) ==> (#[trigger] table[i]).path != path,
    decreases table.len() - from,
{
    if from < table.len() && table[from].path != path {
        lemma_record_place(table, path, from + 1);
    }
}

/// Adding parents to the record of a path leaves every path with one record.
pub proof fn lemma_parents_added_distinct(
    table: Seq<IncludeRecord>,
    work_space: Seq<char>,
    path: Seq<char>,
    parents: Seq<Seq<char>>,
)
    requires
        distinct_records(table),
    ensures
        distinct_records(parents_added(table, work_space, path, parents)),
{
    lemma_record_place(table, path, 0);
    let after = parents_added(table, work_space, path, parents);
    let at = record_place(table, path, 0);
    assert forall|i: int, j: int| 0 <= i < j < after.len() implies (#[trigger] after[i]).path != (
    #[trigger] after[j]).path by {
        if at < table.len() {
            assert(after[i].path == table[i].path);
            assert(after[j].path == table[j].path);
        } else if j < table.len() {
            assert(after[i] == table[i] && after[j] == table[j]);
        } else {
            assert(after[i] == table[i]);
            assert(table[i].path != path);
        }
    }
}

/// Adding parents to the files that inclusions name leaves every path with
/// one record.
pub proof fn lemma_children_updated_distinct(
    files: Map<Seq<char>, Seq<Inclusion>>,
    table: Seq<IncludeRecord>,
    work_space: Seq<char>,
    list: Seq<Inclusion>,
    k: int,
    parents: Seq<Seq<char>>,
    depth: nat,
)
    requires
        distinct_records(table),
    ensures
        distinct_records(children_updated(files, table, work_space, list, k, parents, depth)),
    decreases DEPTH_LIMIT + 1 - depth, 0int, list.len() - k,
{
    if k < 0 || k >= list.len() || depth > DEPTH_LIMIT {
    } else {
        lemma_parents_updated_distinct(files, table, work_space, list[k].target, parents, depth + 1);
        lemma_children_updated_distinct(
            files,
            parents_updated(files, table, work_space, list[k].target, parents, depth + 1),
            work_space,
            list,
            k + 1,
            parents,
            depth,
        );
    }
}

/// Adding parents to a file and to the files that it names leaves every path
/// with one record.
pub proof fn lemma_parents_updated_distinct(
    files: Map<Seq<char>, Seq<Inclusion>>,
    table: Seq<IncludeRecord>,
    work_space: Seq<char>,
    path: Seq<char>,
    parents: Seq<Seq<char>>,
    depth: nat,
)
    requires
        distinct_records(table),
    ensures
        distinct_records(parents_updated(files, table, work_space, path, parents, depth)),
    decreases DEPTH_LIMIT + 1 - depth, 1int, 0int,
{
    if depth <= DEPTH_LIMIT {
        lemma_parents_added_distinct(table, work_space, path, parents);
        lemma_children_updated_distinct(
            files,
            parents_added(table, work_space, path, parents),
            work_space,
            inclusions_in(files, path),
            0,
            parents,
            depth,
        );
    }
}

/// Those of `list` that are not `parent`.
pub fn other_parents(list: &Vec<String>, parent: &String) -> (kept: Vec<String>)
    ensures
        strings_view(kept@) == without_parent(
            strings_view(list@),
            parent@,
            list@.len() as int,
        ),
{
    let mut kept: Vec<String> = Vec::new();
    let mut i: usize = 0;
    assert(strings_view(kept@) =~= without_parent(strings_view(list@), parent@, 0));
    while i < list.len()
        invariant
            i <= list.len(),
            strings_view(kept@) == without_parent(strings_view(list@), parent@, i as int),
        decreases list.len() - i,
    {
        assert(strings_view(list@)[i as int] == list@[i as int]@);
        if list[i] != *parent {
            let ghost before = kept@;
            kept.push(list[i].clone());
            assert(strings_view(kept@) =~= strings_view(before).push(list@[i as int]@));
        }
        i = i + 1;
    }
    kept
}

/// Whether `list` holds a string of the text `s`.
fn holds_string(list: &Vec<String>, s: &String) -> (r: bool)
    ensures
        r == strings_view(list@).contains(s@),
{
    let mut i: usize = 0;
    while i < list.len()
        invariant
            i <= list.len(),
            forall|j: int| 0 <= j < i ==> strings_view(list@)[j] != s@,
        decreases list.len() - i,
    {
        if list[i] == *s {
            assert(strings_view(list@)[i as int] == s@);
            return true;
        }
        i = i + 1;
    }
    false
}

/// Adds to `list` those of `parents` that it lacks.
pub fn extend_parents(list: &mut Vec<String>, parents: &Vec<String>)
    ensures
        strings_view(final(list)@) == with_parents(
            strings_view(old(list)@),
            strings_view(parents@),
            parents@.len() as int,
        ),
{
    let mut i: usize = 0;
    while i < parents.len()
        invariant
            i <= parents.len(),
            strings_view(list@) == with_parents(
                strings_view(old(list)@),
                strings_view(parents@),
                i as int,
            ),
        decreases parents.len() - i,
    {
        assert(strings_view(parents@)[i as int] == parents@[i as int]@);
        if !holds_string(list, &parents[i]) {
            let ghost before = list@;
            list.push(parents[i].clone());
            assert(strings_view(list@) =~= strings_view(before).push(parents@[i as int]@));
        }
        i = i + 1;
    }
}

/// Adds `parents` to the record of `path`, which is made where the table
/// has none.
#[verifier::rlimit(50)]
fn add_parents(
    table: &mut Vec<IncludeFile>,
    work_space: &Vec<char>,
    path: &Vec<char>,
    parents: &Vec<String>,
)
    ensures
        records_view(final(table)@) == parents_added(
            records_view(old(table)@),
            work_space@,
            path@,
            strings_view(parents@),
        ),
{
    let ghost view = records_view(table@);
    let mut i: usize = 0;
    while i < table.len()
        invariant
            i <= table.len(),
            table@ == old(table)@,
            view == records_view(table@),
            record_place(view, path@, i as int) == record_place(view, path@, 0),
        decreases table.len() - i,
    {
        assert(view[i as int] == table@[i as int].record());
        if chars_eq(&table[i].path, path) {
            let mut file = table.remove(i);
            extend_parents(&mut file.included_shaders, parents);
            table.insert(i, file);
            proof {
                assert(record_place(view, path@, 0) == i);
                let goal = parents_added(view, work_space@, path@, strings_view(parents@));
                assert forall|k: int| 0 <= k < goal.len() implies records_view(table@)[k]
                    == goal[k] by {
                    if k != i {
                        assert(table@[k] == old(table)@[k]);
                    }
                }
                assert(records_view(table@) =~= goal);
            }
            return ;
        }
        i = i + 1;
    }
    let mut list: Vec<String> = Vec::new();
    extend_parents(&mut list, parents);
    let file = IncludeFile {
        path: slice_chars(path, 0, path.len()),
        work_space: slice_chars(work_space, 0, work_space.len()),
        included_shaders: list,
    };
    table.push(file);
    proof {
        assert(record_place(view, path@, 0) == view.len());
        assert(path@.subrange(0, path@.len() as int) =~= path@);
        assert(work_space@.subrange(0, work_space@.len() as int) =~= work_space@);
        assert(strings_view(Seq::<String>::empty()) =~= Seq::<Seq<char>>::empty());
        let goal = parents_added(view, work_space@, path@, strings_view(parents@));
        assert forall|k: int| 0 <= k < goal.len() implies records_view(table@)[k] == goal[k] by {
            if k < view.len() {
                assert(table@[k] == old(table)@[k]);
            }
        }
        assert(records_view(table@) =~= goal);
    }
}

/// Adds `parents` to the record of the file `path` and to those of every
/// file that it names, down to the depth limit.
#[verifier::rlimit(50)]
fn update_parent_at(
    graph: &CachedStableGraph,
    node: Option<u32>,
    path: &Vec<char>,
    work_space: &Vec<char>,
    parents: &Vec<String>,
    table: &mut Vec<IncludeFile>,
    depth: usize,
)
    requires
        graph.wf(),
        match node {
            Some(n) => graph.has_node(n) && graph.path_of(n) == path@,
            None => !graph@.files.contains_key(path@),
        },
    ensures
        records_view(final(table)@) == parents_updated(
            graph@.files,
            records_view(old(table)@),
            work_space@,
            path@,
            strings_view(parents@),
            depth as nat,
        ),
    decreases DEPTH_LIMIT + 1 - depth,
{
    if depth > DEPTH_LIMIT {
        return ;
    }
    add_parents(table, work_space, path, parents);
    let (list, kids) = inclusions_of_node(graph, node, Ghost(path@));
    let ghost goal = parents_updated(
        graph@.files,
        records_view(old(table)@),
        work_space@,
        path@,
        strings_view(parents@),
        depth as nat,
    );
    let mut k: usize = 0;
    while k < list.len()
        invariant
            k <= list.len(),
            depth <= DEPTH_LIMIT,
            graph.wf(),
            entries_view(list@) == inclusions_in(graph@.files, path@),
            kids@.len() == list@.len(),
            forall|j: int|
                0 <= j < kids@.len() ==> graph.has_node(#[trigger] kids@[j]) && graph.path_of(
                    kids@[j],
                ) == list@[j].3@,
            children_updated(
                graph@.files,
                records_view(table@),
                work_space@,
                entries_view(list@),
                k as int,
                strings_view(parents@),
                depth as nat,
            ) == goal,
        decreases list.len() - k,
    {
        let target = to_chars(list[k].3.as_str());
        assert(entries_view(list@)[k as int].target == list@[k as int].3@);
        update_parent_at(graph, Some(kids[k]), &target, work_space, parents, table, depth + 1);
        k = k + 1;
    }
}

/// What `next_include_file` hands back where no inclusion is left.
pub open spec fn no_inclusion() -> Inclusion {
    Inclusion { line: 0xffff, start: 0xffff, end: 0xffff, target: seq!['/'] }
}

/// A file that other files name.
pub struct IncludeFile {
    path: Vec<char>,
    work_space: Vec<char>,
    included_shaders: Vec<String>,
}

impl IncludeFile {
    /// The path of the file.
    pub closed spec fn path_view(&self) -> Seq<char> {
        self.path@
    }

    /// The directory that rooted paths are looked for in.
    pub closed spec fn work_space_view(&self) -> Seq<char> {
        self.work_space@
    }

    /// The paths of the entry files that are known to reach this file.
    pub closed spec fn parents(&self) -> Seq<Seq<char>> {
        strings_view(self.included_shaders@)
    }

    /// The record as the contracts see it.
    pub open spec fn record(&self) -> IncludeRecord {
        IncludeRecord {
            path: self.path_view(),
            work_space: self.work_space_view(),
            parents: self.parents(),
        }
    }

    /// The file `path` of the work space `work_space`, with no entry file
    /// known to reach it.
    pub fn new(work_space: &str, path: &str) -> (file: IncludeFile)
        ensures
            file.path_view() == normalized(path@),
            file.work_space_view() == normalized(work_space@),
            file.parents() == Seq::<Seq<char>>::empty(),
    {
        let file = IncludeFile {
            path: normalize(&to_chars(path)),
            work_space: normalize(&to_chars(work_space)),
            included_shaders: Vec::new(),
        };
        assert(file.parents() =~= Seq::<Seq<char>>::empty());
        file
    }

    /// The path of the file.
    pub fn path(&self) -> (path: String)
        ensures
            path@ == self.path_view(),
    {
        from_chars(&self.path)
    }

    /// The characters of the path of the file.
    pub fn path_chars(&self) -> (path: &Vec<char>)
        ensures
            path@ == self.path_view(),
    {
        &self.path
    }

    /// The characters of the directory that rooted paths are looked for in.
    pub fn work_space_chars(&self) -> (root: &Vec<char>)
        ensures
            root@ == self.work_space_view(),
    {
        &self.work_space
    }

    /// Takes the entry file `parent` off the entry files that are known to
    /// reach this file.
    pub fn forget_parent(&mut self, parent: &String)
        ensures
            final(self).path_view() == old(self).path_view(),
            final(self).work_space_view() == old(self).work_space_view(),
            final(self).parents() == without_parent(
                old(self).parents(),
                parent@,
                old(self).parents().len() as int,
            ),
    {
        let kept = other_parents(&self.included_shaders, parent);
        self.included_shaders = kept;
    }

    /// The entry files that are known to reach this file.
    pub fn included_shaders(&self) -> (list: &Vec<String>)
        ensures
            strings_view(list@) == self.parents(),
    {
        &self.included_shaders
    }

    /// The inclusions of the file, in working order.
    pub fn including_files(&self, graph: &CachedStableGraph) -> (list: Vec<
        (usize, usize, usize, String),
    >)
        requires
            graph.wf(),
        ensures
            entries_view(list@) == inclusions_in(graph@.files, self.path_view()),
    {
        let name = from_chars(&self.path);
        let node = graph.node_of(name.as_str());
        inclusions_of_node(graph, node, Ghost(self.path@)).0
    }

    /// Takes the first inclusion off `including_files`. Where none is left,
    /// hands back the line and columns 65535 and the path `/`.
    pub fn next_include_file(including_files: &mut VecDeque<(usize, usize, usize, String)>) -> (next: (
        usize,
        usize,
        usize,
        String,
    ))
        ensures
            old(including_files)@.len() > 0 ==> next == old(including_files)@[0]
                && final(including_files)@ == old(including_files)@.drop_first(),
            old(including_files)@.len() == 0 ==> entry_view(next) == no_inclusion()
                && final(including_files)@ == old(including_files)@,
    {
        match including_files.pop_front() {
            Some(entry) => {
                assert(including_files@ =~= old(including_files)@.drop_first());
                entry
            },
            None => {
                let mut root = String::new();
                push_char(&mut root, '/');
                assert(root@ =~= seq!['/']);
                (0xffff, 0xffff, 0xffff, root)
            },
        }
    }

    /// Takes the file `include_path` into the graph at `depth`: a file that
    /// the graph holds is left as it is; any other is added and its
    /// directives are read.
    pub fn get_includes(
        work_space: &str,
        include_path: &str,
        graph: &mut CachedStableGraph,
        sources: &Sources,
        depth: usize,
    ) -> (r: Result<(), ScanError>)
        requires
            old(graph).wf(),
            sources.wf(),
        ensures
            final(graph).wf(),
            match r {
                Ok(_) => Some(final(graph)@) == taken_in(
                    old(graph)@,
                    sources@,
                    normalized(work_space@),
                    normalized(include_path@),
                    depth as nat,
                ),
                Err(_) => taken_in(
                    old(graph)@,
                    sources@,
                    normalized(work_space@),
                    normalized(include_path@),
                    depth as nat,
                ) is None,
            },
            keeps_files(old(graph)@, final(graph)@),
            leaves_others(old(graph)@, final(graph)@, normalized(include_path@)),
    {
        let path = normalize(&to_chars(include_path));
        let root = normalize(&to_chars(work_space));
        let name = from_chars(&path);
        proof {
            graph.lemma_nodes_are_files();
        }
        if graph.node_of(name.as_str()).is_some() {
            return Ok(());
        }
        if !graph.has_node_room() {
            return Err(ScanError::GraphFull);
        }
        let node = graph.add_node(name.as_str());
        let readable = sources.contains(&path);
        graph.set_file_exists(node, readable);
        let ghost start = graph@;
        proof {
            graph.lemma_nodes_are_files();
            assert(keeps_files(old(graph)@, start));
        }
        let r = scan_file(graph, sources, &root, &path, depth);
        proof {
            assert forall|p: Seq<char>| #[trigger] old(graph)@.files.contains_key(p) implies graph@.files.contains_key(
                p,
            ) by {
                assert(start.files.contains_key(p));
            }
            assert forall|p: Seq<char>|
                old(graph)@.files.contains_key(p) && p != path@ implies #[trigger] graph@.files[p]
                == old(graph)@.files[p] by {
                assert(start.files.contains_key(p));
                assert(start.files[p] == old(graph)@.files[p]);
            }
        }
        r
    }

    /// Reads the file anew: drops its inclusions and reads its directives
    /// into the graph.
    pub fn update_include(&mut self, graph: &mut CachedStableGraph, sources: &Sources) -> (r: Result<
        (),
        ScanError,
    >)
        requires
            old(graph).wf(),
            sources.wf(),
        ensures
            final(graph).wf(),
            *final(self) == *old(self),
            match r {
                Ok(_) => Some(final(graph)@) == rescanned(
                    old(graph)@,
                    sources@,
                    old(self).work_space_view(),
                    old(self).path_view(),
                ),
                Err(_) => rescanned(
                    old(graph)@,
                    sources@,
                    old(self).work_space_view(),
                    old(self).path_view(),
                ) is None,
            },
            keeps_files(old(graph)@, final(graph)@),
            leaves_others(old(graph)@, final(graph)@, old(self).path_view()),
            final(graph)@.files.contains_key(old(self).path_view()) ==> read_anew(
                final(graph)@.files[old(self).path_view()],
                sources@,
                old(self).work_space_view(),
                old(self).path_view(),
                0,
            ),
    {
        rescan(graph, sources, &self.work_space, &self.path)
    }

    /// Writes the file out in place of the line `original_content` that
    /// names it, under the number `file_id`, or that line where the file is
    /// not written out: at a `depth` beyond the limit, without a text, or
    /// with no number left. Enters the files written into `file_list` and
    /// leaves the number given out last in `file_id`.
    pub fn merge_include(
        &self,
        original_content: &str,
        graph: &CachedStableGraph,
        sources: &Sources,
        file_list: &mut Vec<(usize, String)>,
        file_id: &mut usize,
        depth: usize,
    ) -> (text: String)
        requires
            graph.wf(),
            sources.wf(),
        ensures
            text@ == merged_file(
                graph@,
                sources@,
                self.path_view(),
                original_content@,
                depth as nat,
                merge_state(Seq::empty(), old(file_list)@, *old(file_id), 0),
            ).text,
            table_view(final(file_list)@) == merged_file(
                graph@,
                sources@,
                self.path_view(),
                original_content@,
                depth as nat,
                merge_state(Seq::empty(), old(file_list)@, *old(file_id), 0),
            ).table,
            *final(file_id) as int == merged_file(
                graph@,
                sources@,
                self.path_view(),
                original_content@,
                depth as nat,
                merge_state(Seq::empty(), old(file_list)@, *old(file_id), 0),
            ).last_id,
    {
        let name = from_chars(&self.path);
        proof {
            graph.lemma_nodes_are_files();
        }
        let node = graph.node_of(name.as_str());
        let naming = to_chars(original_content);
        let mut out = String::new();
        merge_file_into(
            graph,
            sources,
            node,
            &self.path,
            &naming,
            depth,
            &mut out,
            file_list,
            file_id,
            Ghost(0),
        );
        out
    }
    /// Adds the entry files `parent_file` to the record of the file
    /// `include_path` in `include_files` and to those of every file that it
    /// names, down to the depth limit. A file without a record gets one, for
    /// the work space `work_space`.
    pub fn update_parent(
        work_space: &str,
        include_path: &str,
        parent_file: &Vec<String>,
        include_files: &mut Vec<IncludeFile>,
        graph: &CachedStableGraph,
        depth: usize,
    )
        requires
            graph.wf(),
        ensures
            records_view(final(include_files)@) == parents_updated(
                graph@.files,
                records_view(old(include_files)@),
                normalized(work_space@),
                normalized(include_path@),
                strings_view(parent_file@),
                depth as nat,
            ),
    {
        let path = normalize(&to_chars(include_path));
        let root = normalize(&to_chars(work_space));
        let name = from_chars(&path);
        proof {
            graph.lemma_nodes_are_files();
        }
        let node = graph.node_of(name.as_str());
        update_parent_at(graph, node, &path, &root, parent_file, include_files, depth);
    }
}

/// Adds `parents` to the records of the files that the file `path` names
/// and of every file that these name, down to the depth limit.
#[verifier::rlimit(50)]
pub fn update_children(
    graph: &CachedStableGraph,
    path: &Vec<char>,
    work_space: &Vec<char>,
    parents: &Vec<String>,
    table: &mut Vec<IncludeFile>,
)
    requires
        graph.wf(),
    ensures
        records_view(final(table)@) == children_updated(
            graph@.files,
            records_view(old(table)@),
            work_space@,
            inclusions_in(graph@.files, path@),
            0,
            strings_view(parents@),
            0,
        ),
{
    let name = from_chars(path);
    proof {
        graph.lemma_nodes_are_files();
    }
    let node = graph.node_of(name.as_str());
    let (list, kids) = inclusions_of_node(graph, node, Ghost(path@));
    let ghost goal = children_updated(
        graph@.files,
        records_view(old(table)@),
        work_space@,
        inclusions_in(graph@.files, path@),
        0,
        strings_view(parents@),
        0,
    );
    let mut k: usize = 0;
    while k < list.len()
        invariant
            k <= list.len(),
            graph.wf(),
            entries_view(list@) == inclusions_in(graph@.files, path@),
            kids@.len() == list@.len(),
            forall|j: int|
                0 <= j < kids@.len() ==> graph.has_node(#[trigger] kids@[j]) && graph.path_of(
                    kids@[j],
                ) == list@[j].3@,
            children_updated(
                graph@.files,
                records_view(table@),
                work_space@,
                entries_view(list@),
                k as int,
                strings_view(parents@),
                0,
            ) == goal,
        decreases list.len() - k,
    {
        let target = to_chars(list[k].3.as_str());
        assert(entries_view(list@)[k as int].target == list@[k as int].3@);
        update_parent_at(graph, Some(kids[k]), &target, work_space, parents, table, 1);
        k = k + 1;
    }
}

} // verus!
