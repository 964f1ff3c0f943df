//! What holds of reading and merging whatever the files are.

use vstd::prelude::*;
use crate::graph::{
    lemma_placed_last, marked, with_file, with_inclusion, without_inclusions, GraphView, Inclusion,
};
use crate::parser::{
    cleared, file_named, file_numbered, finding_of, holds_path, pattern_of, place_of,
    regex_captures, remapped, with_finding, DiagnosticView, Grammar,
};
use crate::text::parsed_number;
use crate::server::{file_updated, is_include, is_shader, shader_place, ServerView};
use crate::shaders::{
    children_updated, directives, distinct_records, first_on_line, held, inclusion_at, inclusions_in,
    lemma_directives_lines, lemma_parents_added_distinct, lemma_record_place, line_directive, merged_entry, merged_file, merged_lines, next_id,
    parents_added, parents_updated, record_place, rescanned, scanned_file, scanned_lines,
    with_line, with_parents, IncludeRecord, MergeState, DEPTH_LIMIT, ID_LIMIT,
};

verus! {

/// What reading a file leaves alone: every file that the graph held is held
/// afterwards, with the inclusions it had unless it is the file read, and no
/// file is lost.
pub open spec fn kept(v: GraphView, after: GraphView, path: Seq<char>) -> bool {
    &&& after.nodes >= v.nodes
    &&& forall|p: Seq<char>| #[trigger] v.files.contains_key(p) ==> after.files.contains_key(p)
    &&& forall|p: Seq<char>|
        v.files.contains_key(p) && p != path ==> #[trigger] after.files[p] == v.files[p]
}

/// Reading the lines of a file changes no other file that the graph held.
#[verifier::rlimit(50)]
pub proof fn lemma_scanned_lines_keep(
    v: GraphView,
    src: Map<Seq<char>, Seq<Seq<char>>>,
    work_space: Seq<char>,
    path: Seq<char>,
    lines: Seq<Seq<char>>,
    i: int,
    depth: nat,
)
    requires
        v.files.contains_key(path),
        scanned_lines(v, src, work_space, path, lines, i, depth) is Some,
    ensures
        kept(v, scanned_lines(v, src, work_space, path, lines, i, depth)->0, path),
    decreases DEPTH_LIMIT + 1 - depth, 0int, lines.len() - i,
{
    if i < 0 || i >= lines.len() || depth > DEPTH_LIMIT {
    } else {
        match inclusion_at(work_space, path, lines[i], i) {
            None => {
                lemma_scanned_lines_keep(v, src, work_space, path, lines, i + 1, depth);
            },
            Some(inc) => {
                let known = v.files.contains_key(inc.target);
                let added = with_inclusion(held(v, src, inc.target), path, inc);
                assert(kept(v, added, path));
                if known {
                    lemma_scanned_lines_keep(added, src, work_space, path, lines, i + 1, depth);
                    let last = scanned_lines(added, src, work_space, path, lines, i + 1, depth)->0;
                    assert(kept(v, last, path));
                } else {
                    lemma_scanned_file_keeps(added, src, work_space, inc.target, depth + 1);
                    let next = scanned_file(added, src, work_space, inc.target, depth + 1)->0;
                    assert(kept(added, next, inc.target));
                    lemma_scanned_lines_keep(next, src, work_space, path, lines, i + 1, depth);
                    let last = scanned_lines(next, src, work_space, path, lines, i + 1, depth)->0;
                    assert(kept(v, last, path)) by {
                        assert forall|p: Seq<char>|
                            v.files.contains_key(p) && p != path implies #[trigger] last.files[p]
                            == v.files[p] by {
                            assert(added.files.contains_key(p));
                            assert(next.files.contains_key(p));
                            assert(next.files[p] == added.files[p]);
                        }
                        assert forall|p: Seq<char>| #[trigger]
                            v.files.contains_key(p) implies last.files.contains_key(p) by {
                            assert(added.files.contains_key(p));
                            assert(next.files.contains_key(p));
                        }
                    }
                }
            },
        }
    }
}

/// Reading a file changes no other file that the graph held.
pub proof fn lemma_scanned_file_keeps(
    v: GraphView,
    src: Map<Seq<char>, Seq<Seq<char>>>,
    work_space: Seq<char>,
    path: Seq<char>,
    depth: nat,
)
    requires
        v.files.contains_key(path),
        scanned_file(v, src, work_space, path, depth) is Some,
    ensures
        kept(v, scanned_file(v, src, work_space, path, depth)->0, path),
    decreases DEPTH_LIMIT + 1 - depth, 1int, 0int,
{
    if depth > DEPTH_LIMIT || !src.contains_key(path) {
    } else {
        lemma_scanned_lines_keep(v, src, work_space, path, src[path], 0, depth);
    }
}

/// Where the graph holds for a file the inclusions of its first `i` lines,
/// reading the lines from `i` on leaves it with the inclusions of all lines.
pub proof fn lemma_scanned_lines_mirror(
    v: GraphView,
    src: Map<Seq<char>, Seq<Seq<char>>>,
    work_space: Seq<char>,
    path: Seq<char>,
    lines: Seq<Seq<char>>,
    i: int,
    depth: nat,
)
    requires
        0 <= i <= lines.len(),
        depth <= DEPTH_LIMIT,
        v.files.contains_key(path),
        v.files[path] == directives(work_space, path, lines, i),
        scanned_lines(v, src, work_space, path, lines, i, depth) is Some,
    ensures
        scanned_lines(v, src, work_space, path, lines, i, depth)->0.files.contains_key(path),
        scanned_lines(v, src, work_space, path, lines, i, depth)->0.files[path] == directives(
            work_space,
            path,
            lines,
            lines.len() as int,
        ),
    decreases lines.len() - i,
{
    if i < lines.len() {
        match inclusion_at(work_space, path, lines[i], i) {
            None => {
                lemma_scanned_lines_mirror(v, src, work_space, path, lines, i + 1, depth);
            },
            Some(inc) => {
                let known = v.files.contains_key(inc.target);
                let had = held(v, src, inc.target);
                let added = with_inclusion(had, path, inc);
                lemma_directives_lines(work_space, path, lines, i);
                assert(had.files[path] == v.files[path]);
                lemma_placed_last(had.files[path], inc);
                assert(added.files[path] == directives(work_space, path, lines, i + 1));
                if known {
                    lemma_scanned_lines_mirror(added, src, work_space, path, lines, i + 1, depth);
                } else {
                    lemma_scanned_file_keeps(added, src, work_space, inc.target, depth + 1);
                    let next = scanned_file(added, src, work_space, inc.target, depth + 1)->0;
                    assert(kept(added, next, inc.target));
                    assert(added.files.contains_key(path));
                    assert(next.files[path] == added.files[path]);
                    lemma_scanned_lines_mirror(next, src, work_space, path, lines, i + 1, depth);
                }
            },
        }
    }
}

/// After a file is read anew, the graph holds for it just the inclusions
/// that the directives of its text make, one for each directive and in the
/// order of the lines; none where the file has no text. The graph holds no
/// fewer files than before, and every file that it held.
pub proof fn lemma_rescan_mirrors_text(
    v: GraphView,
    src: Map<Seq<char>, Seq<Seq<char>>>,
    work_space: Seq<char>,
    path: Seq<char>,
)
    requires
        rescanned(v, src, work_space, path) is Some,
    ensures
        rescanned(v, src, work_space, path)->0.files.contains_key(path),
        rescanned(v, src, work_space, path)->0.files[path] == (if src.contains_key(path) {
            directives(work_space, path, src[path], src[path].len() as int)
        } else {
            Seq::empty()
        }),
        rescanned(v, src, work_space, path)->0.nodes >= v.nodes,
        forall|p: Seq<char>| #[trigger]
            v.files.contains_key(p) ==> rescanned(v, src, work_space, path)->0.files.contains_key(p),
{
    let start = marked(
        without_inclusions(with_file(v, path), path),
        path,
        src.contains_key(path),
    );
    assert(start.files.contains_key(path));
    assert(start.files[path] == directives(work_space, path, Seq::<Seq<char>>::empty(), 0));
    lemma_scanned_file_keeps(start, src, work_space, path, 0);
    let after = rescanned(v, src, work_space, path)->0;
    assert(kept(start, after, path));
    assert forall|p: Seq<char>| #[trigger] v.files.contains_key(p) implies after.files.contains_key(
        p,
    ) by {
        assert(start.files.contains_key(p));
    }
    if src.contains_key(path) {
        assert(start.files[path] == directives(work_space, path, src[path], 0));
        lemma_scanned_lines_mirror(start, src, work_space, path, src[path], 0, 0);
    }
}

/// Whether `chain` is a chain of files of which each names the next, once
/// and on a line of its text, and the last names none. Every file of the
/// chain has a text and could be read when it was last looked for.
pub open spec fn is_chain(
    g: GraphView,
    src: Map<Seq<char>, Seq<Seq<char>>>,
    chain: Seq<Seq<char>>,
) -> bool {
    &&& chain.len() >= 1
    &&& forall|k: int|
        0 <= k < chain.len() ==> src.contains_key(#[trigger] chain[k]) && g.present.contains(
            chain[k],
        )
    &&& forall|k: int|
        0 <= k < chain.len() - 1 ==> {
            let list = inclusions_in(g.files, #[trigger] chain[k]);
            &&& list.len() == 1
            &&& list[0].target == chain[k + 1]
            &&& 0 <= list[0].line < src[chain[k]].len()
        }
    &&& inclusions_in(g.files, chain.last()).len() == 0
}

/// The files of `chain` from the one at `k` on, each with its place in the
/// chain as its number.
pub open spec fn chain_table(chain: Seq<Seq<char>>, k: int) -> Seq<(int, Seq<char>)> {
    Seq::new((chain.len() - k) as nat, |j: int| (k + j, chain[k + j]))
}

/// Lines on which a file has no inclusion are written without a file
/// getting a number.
pub proof fn lemma_plain_lines(
    g: GraphView,
    src: Map<Seq<char>, Seq<Seq<char>>>,
    path: Seq<char>,
    id: int,
    depth: nat,
    lines: Seq<Seq<char>>,
    i: int,
    st: MergeState,
)
    requires
        0 <= i,
        forall|j: int|
            i <= j < lines.len() ==> first_on_line(inclusions_in(g.files, path), j) is None,
    ensures
        merged_lines(g, src, path, id, depth, lines, i, st).table == st.table,
        merged_lines(g, src, path, id, depth, lines, i, st).last_id == st.last_id,
        merged_lines(g, src, path, id, depth, lines, i, st).resumes == st.resumes,
    decreases lines.len() - i,
{
    if i < lines.len() && depth <= DEPTH_LIMIT {
        assert(first_on_line(inclusions_in(g.files, path), i) is None);
        lemma_plain_lines(g, src, path, id, depth, lines, i + 1, with_line(st, lines[i]));
    }
}

/// A file with one inclusion has it on the line of that inclusion and on no
/// other; a file without inclusions has none on any line.
pub proof fn lemma_first_on_line_of_one(list: Seq<Inclusion>, line: int)
    requires
        list.len() <= 1,
    ensures
        first_on_line(list, line) == if list.len() == 1 && list[0].line == line {
            Some(list[0])
        } else {
            None
        },
{
    if list.len() == 1 && list[0].line != line {
        let rest = list.drop_first();
        assert(rest.len() == 0);
        assert(first_on_line(rest, line) is None);
        assert(first_on_line(list, line) == first_on_line(rest, line));
    }
}

/// The lines from `i` on of the file at `k` of a chain, where `i` lies not
/// behind the line that names the next file: the files behind `k` get the
/// numbers up to the last, and the text goes back to a file once for each
/// of them.
#[verifier::rlimit(50)]
pub proof fn lemma_chain_lines(
    g: GraphView,
    src: Map<Seq<char>, Seq<Seq<char>>>,
    chain: Seq<Seq<char>>,
    k: int,
    i: int,
    st: MergeState,
)
    requires
        is_chain(g, src, chain),
        chain.len() - 1 <= DEPTH_LIMIT,
        0 <= k < chain.len() - 1,
        0 <= i <= inclusions_in(g.files, chain[k])[0].line,
        st.last_id == k,
    ensures
        merged_lines(g, src, chain[k], k, k as nat, src[chain[k]], i, st).table == st.table
            + chain_table(chain, k + 1),
        merged_lines(g, src, chain[k], k, k as nat, src[chain[k]], i, st).last_id
            == chain.len() - 1,
        merged_lines(g, src, chain[k], k, k as nat, src[chain[k]], i, st).resumes
            == st.resumes + (chain.len() - 1 - k),
    decreases chain.len() - k, 0int, src[chain[k]].len() - i,
{
    let path = chain[k];
    let lines = src[path];
    let list = inclusions_in(g.files, path);
    let inc = list[0];
    lemma_first_on_line_of_one(list, i);
    if i < inc.line {
        lemma_chain_lines(
            g,
            src,
            chain,
            k,
            i + 1,
            with_line(st, lines[i]),
        );
    } else {
        let given = MergeState { last_id: next_id(st.last_id), ..st };
        lemma_chain_file(g, src, chain, k + 1, lines[i], given);
        let inner = merged_file(g, src, inc.target, lines[i], (k + 1) as nat, given);
        let next = MergeState {
            text: inner.text + line_directive(i + 2, k),
            resumes: inner.resumes + 1,
            ..inner
        };
        assert forall|j: int| i + 1 <= j < lines.len() implies first_on_line(list, j) is None by {
            lemma_first_on_line_of_one(list, j);
        }
        lemma_plain_lines(g, src, path, k, k as nat, lines, i + 1, next);
    }
}

/// The file at `k` of a chain, written under the number `k`: the files from
/// `k` on get the numbers up to the last, and the text goes back to a file
/// once for each file behind `k`.
pub proof fn lemma_chain_file(
    g: GraphView,
    src: Map<Seq<char>, Seq<Seq<char>>>,
    chain: Seq<Seq<char>>,
    k: int,
    naming: Seq<char>,
    st: MergeState,
)
    requires
        is_chain(g, src, chain),
        chain.len() - 1 <= DEPTH_LIMIT,
        1 <= k < chain.len(),
        st.last_id == k,
    ensures
        merged_file(g, src, chain[k], naming, k as nat, st).table == st.table + chain_table(
            chain,
            k,
        ),
        merged_file(g, src, chain[k], naming, k as nat, st).last_id == chain.len() - 1,
        merged_file(g, src, chain[k], naming, k as nat, st).resumes == st.resumes + (
        chain.len() - 1 - k),
    decreases chain.len() - k, 1int, 0int,
{
    let path = chain[k];
    let begun = MergeState {
        text: st.text + line_directive(1, st.last_id),
        table: st.table.push((st.last_id, path)),
        ..st
    };
    assert(src.contains_key(chain[k]));
    if k == chain.len() - 1 {
        let list = inclusions_in(g.files, path);
        assert forall|j: int| 0 <= j < src[path].len() implies first_on_line(list, j) is None by {
            lemma_first_on_line_of_one(list, j);
        }
        lemma_plain_lines(g, src, path, k, k as nat, src[path], 0, begun);
        assert(st.table.push((k, path)) =~= st.table + chain_table(chain, k));
    } else {
        lemma_chain_lines(g, src, chain, k, 0, begun);
        assert(begun.table + chain_table(chain, k + 1) =~= st.table + chain_table(chain, k));
    }
}

/// An entry file that begins a chain of `d + 1` files, with `d` at most the
/// depth limit, is merged into a text of `d + 1` files, which get the numbers
/// from 0 to `d` in the order of the chain, and the text goes back to a file
/// `d` times.
pub proof fn lemma_chain_merge(
    g: GraphView,
    src: Map<Seq<char>, Seq<Seq<char>>>,
    chain: Seq<Seq<char>>,
)
    requires
        is_chain(g, src, chain),
        chain.len() - 1 <= DEPTH_LIMIT,
    ensures
        merged_entry(g, src, chain[0], Seq::empty()).table.len() == chain.len(),
        forall|k: int|
            0 <= k < chain.len() ==> #[trigger] merged_entry(
                g,
                src,
                chain[0],
                Seq::empty(),
            ).table[k] == (k, chain[k]),
        merged_entry(g, src, chain[0], Seq::empty()).resumes == chain.len() - 1,
{
    let path = chain[0];
    let begun = MergeState {
        text: Seq::empty(),
        table: Seq::<(int, Seq<char>)>::empty().push((0, path)),
        last_id: 0,
        resumes: 0,
    };
    assert(src.contains_key(chain[0]));
    let merged = merged_entry(g, src, path, Seq::empty());
    if chain.len() == 1 {
        let list = inclusions_in(g.files, path);
        assert forall|j: int| 0 <= j < src[path].len() implies first_on_line(list, j) is None by {
            lemma_first_on_line_of_one(list, j);
        }
        lemma_plain_lines(g, src, path, 0, 0, src[path], 0, begun);
        assert(merged.table =~= chain_table(chain, 0));
    } else {
        lemma_chain_lines(g, src, chain, 0, 0, begun);
        assert(merged.table =~= chain_table(chain, 0));
    }
}

/// Merging depends on the files, their inclusions and their texts alone: two
/// merges of one entry file over the same graph and texts give the same text
/// and the same table.
pub proof fn lemma_merge_repeats(
    g: GraphView,
    src: Map<Seq<char>, Seq<Seq<char>>>,
    path: Seq<char>,
    table: Seq<(int, Seq<char>)>,
    first: MergeState,
    second: MergeState,
)
    requires
        first == merged_entry(g, src, path, table),
        second == merged_entry(g, src, path, table),
    ensures
        first.text == second.text,
        first.table == second.table,
{
}

/// After a file that the server knows is read anew, the graph holds for it
/// just the inclusions that the directives of its text make, and no fewer
/// files than before.
pub proof fn lemma_update_mirrors_text(v: ServerView, path: Seq<char>)
    requires
        is_shader(v, path) || is_include(v, path),
        file_updated(v, path) is Some,
    ensures
        file_updated(v, path)->0.graph.files.contains_key(path),
        file_updated(v, path)->0.graph.files[path] == (if v.texts.contains_key(path) {
            directives(
                if is_shader(v, path) {
                    v.shaders[shader_place(v.shaders, path, 0)].work_space
                } else {
                    v.includes[record_place(v.includes, path, 0)].work_space
                },
                path,
                v.texts[path],
                v.texts[path].len() as int,
            )
        } else {
            Seq::empty()
        }),
        file_updated(v, path)->0.graph.nodes >= v.graph.nodes,
{
    let work_space = if is_shader(v, path) {
        v.shaders[shader_place(v.shaders, path, 0)].work_space
    } else {
        v.includes[record_place(v.includes, path, 0)].work_space
    };
    lemma_rescan_mirrors_text(v.graph, v.texts, work_space, path);
}

/// Where `path` has an entry from `from` on, the place found is that of its
/// first; else no entry from `from` on is for `path`.
pub proof fn lemma_place_of(found: Seq<(Seq<char>, Seq<DiagnosticView>)>, path: Seq<char>, from: int)
    requires
        0 <= from <= found.len(),
    ensures
        from <= place_of(found, path, from) <= found.len(),
        place_of(found, path, from) < found.len() ==> found[place_of(found, path, from)].0 == path,
        forall|i: int| from <= i < place_of(found, path, from) ==> (#[trigger] found[i]).0 != path,
    decreases found.len() - from,
{
    if from < found.len() && found[from].0 != path {
        lemma_place_of(found, path, from + 1);
    }
}

/// The place of the first entry for `path` once one more entry stands at the
/// end.
pub proof fn lemma_place_of_push(
    found: Seq<(Seq<char>, Seq<DiagnosticView>)>,
    entry: (Seq<char>, Seq<DiagnosticView>),
    path: Seq<char>,
    from: int,
)
    requires
        0 <= from <= found.len(),
    ensures
        place_of(found.push(entry), path, from) == (if place_of(found, path, from) < found.len() {
            place_of(found, path, from)
        } else if entry.0 == path {
            found.len() as int
        } else {
            found.len() as int + 1
        }),
    decreases found.len() - from,
{
    let longer = found.push(entry);
    if from < found.len() {
        assert(longer[from] == found[from]);
        if found[from].0 != path {
            lemma_place_of_push(found, entry, path, from + 1);
        }
    } else {
        assert(longer[from] == entry);
        assert(place_of(longer, path, from + 1) == longer.len());
    }
}

/// Where the compiler left no log, every entry is empty.
pub proof fn lemma_cleared_entries_are_empty(table: Seq<(int, Seq<char>)>, n: int, i: int)
    requires
        0 <= i < cleared(table, n).len(),
    ensures
        cleared(table, n)[i].1.len() == 0,
    decreases n,
{
    if n > 0 {
        let before = cleared(table, n - 1);
        if i < before.len() {
            lemma_cleared_entries_are_empty(table, n - 1, i);
        }
    }
}

/// Where the compiler left no log, every entry is for a file of the table.
pub proof fn lemma_cleared_entries_are_files(table: Seq<(int, Seq<char>)>, n: int, i: int)
    requires
        0 <= n <= table.len(),
        0 <= i < cleared(table, n).len(),
    ensures
        exists|k: int| 0 <= k < n && (#[trigger] table[k]).1 == cleared(table, n)[i].0,
    decreases n,
{
    if n > 0 {
        let before = cleared(table, n - 1);
        if i < before.len() {
            lemma_cleared_entries_are_files(table, n - 1, i);
            let k = choose|k: int| 0 <= k < n - 1 && (#[trigger] table[k]).1 == before[i].0;
            assert(table[k].1 == cleared(table, n)[i].0);
        } else {
            assert(table[n - 1].1 == cleared(table, n)[i].0);
        }
    }
}

/// Where the compiler left no log, every file of the table has an entry.
pub proof fn lemma_cleared_covers_files(table: Seq<(int, Seq<char>)>, n: int, k: int)
    requires
        0 <= k < n <= table.len(),
    ensures
        place_of(cleared(table, n), table[k].1, 0) < cleared(table, n).len(),
    decreases n,
{
    let before = cleared(table, n - 1);
    let path = table[n - 1].1;
    if place_of(before, path, 0) >= before.len() {
        lemma_place_of_push(before, (path, Seq::empty()), table[k].1, 0);
    }
    if k < n - 1 {
        lemma_cleared_covers_files(table, n - 1, k);
    } else {
        lemma_place_of(before, path, 0);
    }
}

/// Where the compiler left no log, no file has two entries.
pub proof fn lemma_cleared_entries_differ(table: Seq<(int, Seq<char>)>, n: int, i: int, j: int)
    requires
        0 <= i < j < cleared(table, n).len(),
    ensures
        cleared(table, n)[i].0 != cleared(table, n)[j].0,
    decreases n,
{
    if n > 0 {
        let before = cleared(table, n - 1);
        let path = table[n - 1].1;
        if j < before.len() {
            lemma_cleared_entries_differ(table, n - 1, i, j);
        } else {
            lemma_place_of(before, path, 0);
            assert(before[i].0 != path);
        }
    }
}

/// Whether the files of a merge were numbered in rising order, with no
/// number above the one given out last.
pub open spec fn numbered_in_order(st: MergeState) -> bool {
    &&& 0 <= st.last_id <= ID_LIMIT
    &&& forall|i: int, j: int|
        0 <= i < j < st.table.len() ==> (#[trigger] st.table[i]).0 < (#[trigger] st.table[j]).0
    &&& forall|i: int|
        0 <= i < st.table.len() ==> (#[trigger] st.table[i]).0 <= st.last_id && st.table[i].0
            < ID_LIMIT
}

/// Whether the merge `after` has gone on from `before`: it has every entry
/// of its table, and has given out no lower number.
pub open spec fn goes_on(before: MergeState, after: MergeState) -> bool {
    &&& after.last_id >= before.last_id
    &&& after.table.len() >= before.table.len()
    &&& forall|i: int| 0 <= i < before.table.len() ==> #[trigger] after.table[i] == before.table[i]
}

/// Writing lines keeps the numbers of a merge in rising order.
#[verifier::rlimit(50)]
pub proof fn lemma_lines_numbered(
    g: GraphView,
    src: Map<Seq<char>, Seq<Seq<char>>>,
    path: Seq<char>,
    id: int,
    depth: nat,
    lines: Seq<Seq<char>>,
    i: int,
    st: MergeState,
)
    requires
        numbered_in_order(st),
    ensures
        numbered_in_order(merged_lines(g, src, path, id, depth, lines, i, st)),
        goes_on(st, merged_lines(g, src, path, id, depth, lines, i, st)),
    decreases DEPTH_LIMIT + 1 - depth, 0int, lines.len() - i,
{
    if i < 0 || i >= lines.len() || depth > DEPTH_LIMIT {
    } else {
        match first_on_line(inclusions_in(g.files, path), i) {
            None => {
                let next = with_line(st, lines[i]);
                lemma_lines_numbered(g, src, path, id, depth, lines, i + 1, next);
                let last = merged_lines(g, src, path, id, depth, lines, i + 1, next);
                assert forall|k: int| 0 <= k < st.table.len() implies #[trigger] last.table[k]
                    == st.table[k] by {
                    assert(next.table[k] == st.table[k]);
                }
            },
            Some(inc) => {
                let given = MergeState { last_id: next_id(st.last_id), ..st };
                lemma_file_numbered(g, src, inc.target, lines[i], depth + 1, given);
                let inner = merged_file(g, src, inc.target, lines[i], depth + 1, given);
                let next = MergeState {
                    text: inner.text + line_directive(i + 2, id),
                    resumes: inner.resumes + 1,
                    ..inner
                };
                lemma_lines_numbered(g, src, path, id, depth, lines, i + 1, next);
                let last = merged_lines(g, src, path, id, depth, lines, i + 1, next);
                assert forall|k: int| 0 <= k < st.table.len() implies #[trigger] last.table[k]
                    == st.table[k] by {
                    assert(given.table[k] == st.table[k]);
                    assert(inner.table[k] == given.table[k]);
                    assert(next.table[k] == inner.table[k]);
                }
            },
        }
    }
}

/// Writing a file out under a number that no file has yet keeps the numbers
/// of a merge in rising order.
pub proof fn lemma_file_numbered(
    g: GraphView,
    src: Map<Seq<char>, Seq<Seq<char>>>,
    path: Seq<char>,
    naming: Seq<char>,
    depth: nat,
    st: MergeState,
)
    requires
        0 <= st.last_id <= ID_LIMIT,
        forall|i: int, j: int|
            0 <= i < j < st.table.len() ==> (#[trigger] st.table[i]).0 < (#[trigger] st.table[j]).0,
        forall|i: int|
            0 <= i < st.table.len() ==> (#[trigger] st.table[i]).0 < st.last_id && st.table[i].0
                < ID_LIMIT,
    ensures
        numbered_in_order(merged_file(g, src, path, naming, depth, st)),
        goes_on(st, merged_file(g, src, path, naming, depth, st)),
    decreases DEPTH_LIMIT + 1 - depth, 1int, 0int,
{
    if depth > DEPTH_LIMIT || !g.present.contains(path) || !src.contains_key(path) || st.last_id
        >= ID_LIMIT || st.last_id < 0 {
    } else {
        let begun = MergeState {
            text: st.text + line_directive(1, st.last_id),
            table: st.table.push((st.last_id, path)),
            ..st
        };
        assert(numbered_in_order(begun));
        lemma_lines_numbered(g, src, path, st.last_id, depth, src[path], 0, begun);
        let after = merged_lines(g, src, path, st.last_id, depth, src[path], 0, begun);
        assert forall|i: int| 0 <= i < st.table.len() implies #[trigger] after.table[i]
            == st.table[i] by {
            assert(begun.table[i] == st.table[i]);
        }
    }
}

/// In the table of a merge the entry file stands first, under the number 0,
/// and every file that follows has a higher number than the one before it.
pub proof fn lemma_table_numbers_rise(
    g: GraphView,
    src: Map<Seq<char>, Seq<Seq<char>>>,
    path: Seq<char>,
)
    ensures
        merged_entry(g, src, path, Seq::empty()).table.len() >= 1,
        merged_entry(g, src, path, Seq::empty()).table[0] == (0int, path),
        forall|i: int, j: int|
            0 <= i < j < merged_entry(g, src, path, Seq::empty()).table.len() ==> (
            #[trigger] merged_entry(g, src, path, Seq::empty()).table[i]).0 < (#[trigger] merged_entry(
                g,
                src,
                path,
                Seq::empty(),
            ).table[j]).0,
{
    let begun = MergeState {
        text: Seq::empty(),
        table: Seq::<(int, Seq<char>)>::empty().push((0, path)),
        last_id: 0,
        resumes: 0,
    };
    let lines = if src.contains_key(path) {
        src[path]
    } else {
        Seq::empty()
    };
    assert(numbered_in_order(begun));
    lemma_lines_numbered(g, src, path, 0, 0, lines, 0, begun);
    let after = merged_entry(g, src, path, Seq::empty());
    assert(after.table[0] == begun.table[0]);
}

/// The file of a number is a file of the table.
pub proof fn lemma_numbered_file_is_in_table(table: Seq<(int, Seq<char>)>, id: int)
    requires
        file_numbered(table, id) is Some,
    ensures
        holds_path(table, file_numbered(table, id)->0),
    decreases table.len(),
{
    if table.len() > 0 {
        if table[0].0 == id {
            assert(table[0].1 == file_numbered(table, id)->0);
        } else {
            let rest = table.drop_first();
            lemma_numbered_file_is_in_table(rest, id);
            let k = choose|k: int|
                0 <= k < rest.len() && (#[trigger] rest[k]).1 == file_numbered(rest, id)->0;
            assert(table[k + 1].1 == file_numbered(table, id)->0);
        }
    }
}

/// A finding is made against a file of the table.
pub proof fn lemma_finding_is_against_a_file(
    grammar: Grammar,
    offset: int,
    table: Seq<(int, Seq<char>)>,
    captures: Option<Seq<Option<Seq<char>>>>,
)
    requires
        finding_of(grammar, offset, table, captures) is Some,
    ensures
        (finding_of(grammar, offset, table, captures) matches Some(found) && holds_path(table, found.0)),
{
    let found = finding_of(grammar, offset, table, captures)->0;
    let path = found.0;
    assert forall|token: Seq<char>| file_named(grammar, table, token) == Some(path) implies holds_path(
        table,
        path,
    ) by {
        match parsed_number(token) {
            Some(n) => {
                if file_numbered(table, n as int) is Some {
                    lemma_numbered_file_is_in_table(table, n as int);
                }
            },
            None => {},
        }
    }
}

/// The findings of a log are made against files of the table alone.
pub proof fn lemma_remapped_files(
    grammar: Grammar,
    offset: int,
    table: Seq<(int, Seq<char>)>,
    lines: Seq<Seq<char>>,
    n: int,
    i: int,
)
    requires
        0 <= i < remapped(grammar, offset, table, lines, n).len(),
    ensures
        holds_path(table, remapped(grammar, offset, table, lines, n)[i].0),
    decreases n,
{
    if n > 0 {
        let before = remapped(grammar, offset, table, lines, n - 1);
        let captures = regex_captures(pattern_of(grammar), lines[n - 1]);
        match finding_of(grammar, offset, table, captures) {
            Some((path, d)) => {
                lemma_finding_is_against_a_file(grammar, offset, table, captures);
                lemma_place_of(before, path, 0);
                let after = with_finding(before, path, d);
                if i < before.len() && i != place_of(before, path, 0) {
                    assert(after[i] == before[i]);
                    lemma_remapped_files(grammar, offset, table, lines, n - 1, i);
                }
            },
            None => {
                lemma_remapped_files(grammar, offset, table, lines, n - 1, i);
            },
        }
    }
}

/// Whether `list` holds each of the first `n` of `parents`.
pub open spec fn holds_all(list: Seq<Seq<char>>, parents: Seq<Seq<char>>, n: int) -> bool {
    forall|k: int| 0 <= k < n ==> list.contains(#[trigger] parents[k])
}

/// Adding parents to a list keeps what the list held, in place, and leaves
/// it holding each of them.
pub proof fn lemma_with_parents(list: Seq<Seq<char>>, parents: Seq<Seq<char>>, n: int)
    requires
        0 <= n <= parents.len(),
    ensures
        with_parents(list, parents, n).len() >= list.len(),
        with_parents(list, parents, n).take(list.len() as int) == list,
        holds_all(with_parents(list, parents, n), parents, n),
    decreases n,
{
    if n > 0 {
        lemma_with_parents(list, parents, n - 1);
        let before = with_parents(list, parents, n - 1);
        let after = with_parents(list, parents, n);
        assert(after.take(list.len() as int) =~= before.take(list.len() as int));
        assert forall|k: int| 0 <= k < n implies after.contains(#[trigger] parents[k]) by {
            if k < n - 1 {
                let at = choose|at: int| 0 <= at < before.len() && before[at] == parents[k];
                assert(after[at] == parents[k]);
            } else if before.contains(parents[k]) {
            } else {
                assert(after[before.len() as int] == parents[k]);
            }
        }
    } else {
        assert(list.take(list.len() as int) =~= list);
    }
}

/// Adding parents that a list holds leaves the list as it is.
pub proof fn lemma_with_parents_held(list: Seq<Seq<char>>, parents: Seq<Seq<char>>, n: int)
    requires
        0 <= n <= parents.len(),
        holds_all(list, parents, n),
    ensures
        with_parents(list, parents, n) == list,
    decreases n,
{
    if n > 0 {
        lemma_with_parents_held(list, parents, n - 1);
        assert(list.contains(parents[n - 1]));
    }
}

/// The place of the record of `path` in a table that begins with the paths
/// of `table` is its place in `table`, where `table` has such a record.
pub proof fn lemma_record_place_kept(
    table: Seq<IncludeRecord>,
    longer: Seq<IncludeRecord>,
    path: Seq<char>,
    from: int,
)
    requires
        0 <= from <= table.len() <= longer.len(),
        forall|i: int| 0 <= i < table.len() ==> (#[trigger] longer[i]).path == table[i].path,
        record_place(table, path, from) < table.len(),
    ensures
        record_place(longer, path, from) == record_place(table, path, from),
    decreases table.len() - from,
{
    if from < table.len() {
        assert(longer[from].path == table[from].path);
        if table[from].path != path {
            lemma_record_place_kept(table, longer, path, from + 1);
        }
    }
}

/// The files that a file reaches through the inclusions from `k` on of
/// `list`, in the order in which they are come to, each as often as it is
/// come to.
pub open spec fn reached_through(
    files: Map<Seq<char>, Seq<Inclusion>>,
    list: Seq<Inclusion>,
    k: int,
    depth: nat,
) -> Seq<Seq<char>>
    decreases DEPTH_LIMIT + 1 - depth, 0int, list.len() - k,
{
    if k < 0 || k >= list.len() || depth > DEPTH_LIMIT {
        Seq::empty()
    } else {
        reached(files, list[k].target, depth + 1) + reached_through(files, list, k + 1, depth)
    }
}

/// The file `path` and the files that it reaches, down to the depth limit,
/// in the order in which they are come to.
pub open spec fn reached(files: Map<Seq<char>, Seq<Inclusion>>, path: Seq<char>, depth: nat) -> Seq<
    Seq<char>,
>
    decreases DEPTH_LIMIT + 1 - depth, 1int, 0int,
{
    if depth > DEPTH_LIMIT {
        Seq::empty()
    } else {
        seq![path] + reached_through(files, inclusions_in(files, path), 0, depth)
    }
}

/// `table` with `parents` added to the records of the first `n` of `paths`,
/// one after the other.
pub open spec fn added_to_all(
    table: Seq<IncludeRecord>,
    work_space: Seq<char>,
    paths: Seq<Seq<char>>,
    parents: Seq<Seq<char>>,
    n: int,
) -> Seq<IncludeRecord>
    decreases n,
{
    if n <= 0 {
        table
    } else {
        parents_added(
            added_to_all(table, work_space, paths, parents, n - 1),
            work_space,
            paths[n - 1],
            parents,
        )
    }
}

/// Adding to the paths of two lists one after the other is adding to the
/// paths of the first and then to those of the second.
pub proof fn lemma_added_to_both(
    table: Seq<IncludeRecord>,
    work_space: Seq<char>,
    first: Seq<Seq<char>>,
    second: Seq<Seq<char>>,
    parents: Seq<Seq<char>>,
    m: int,
)
    requires
        0 <= m <= second.len(),
    ensures
        added_to_all(table, work_space, first + second, parents, first.len() + m) == added_to_all(
            added_to_all(table, work_space, first, parents, first.len() as int),
            work_space,
            second,
            parents,
            m,
        ),
    decreases m,
{
    if m > 0 {
        lemma_added_to_both(table, work_space, first, second, parents, m - 1);
        assert((first + second)[first.len() + m - 1] == second[m - 1]);
    } else {
        lemma_added_to_first(table, work_space, first, first + second, parents, first.len() as int);
    }
}

/// Adding to the first `n` paths of a list looks at no other.
pub proof fn lemma_added_to_first(
    table: Seq<IncludeRecord>,
    work_space: Seq<char>,
    paths: Seq<Seq<char>>,
    others: Seq<Seq<char>>,
    parents: Seq<Seq<char>>,
    n: int,
)
    requires
        0 <= n <= paths.len(),
        n <= others.len(),
        forall|i: int| 0 <= i < n ==> paths[i] == others[i],
    ensures
        added_to_all(table, work_space, paths, parents, n) == added_to_all(
            table,
            work_space,
            others,
            parents,
            n,
        ),
    decreases n,
{
    if n > 0 {
        lemma_added_to_first(table, work_space, paths, others, parents, n - 1);
    }
}

/// Adding parents to the files that inclusions lead to is adding them to the
/// records of the files reached, one after the other.
pub proof fn lemma_children_updated_is_added(
    files: Map<Seq<char>, Seq<Inclusion>>,
    table: Seq<IncludeRecord>,
    work_space: Seq<char>,
    list: Seq<Inclusion>,
    k: int,
    parents: Seq<Seq<char>>,
    depth: nat,
)
    ensures
        children_updated(files, table, work_space, list, k, parents, depth) == added_to_all(
            table,
            work_space,
            reached_through(files, list, k, depth),
            parents,
            reached_through(files, list, k, depth).len() as int,
        ),
    decreases DEPTH_LIMIT + 1 - depth, 0int, list.len() - k,
{
    if k < 0 || k >= list.len() || depth > DEPTH_LIMIT {
    } else {
        let first = reached(files, list[k].target, depth + 1);
        let second = reached_through(files, list, k + 1, depth);
        lemma_parents_updated_is_added(files, table, work_space, list[k].target, parents, depth + 1);
        let mid = parents_updated(files, table, work_space, list[k].target, parents, depth + 1);
        lemma_children_updated_is_added(files, mid, work_space, list, k + 1, parents, depth);
        lemma_added_to_both(table, work_space, first, second, parents, second.len() as int);
    }
}

/// Adding parents to a file and to the files that it names is adding them to
/// the records of the files reached, one after the other.
pub proof fn lemma_parents_updated_is_added(
    files: Map<Seq<char>, Seq<Inclusion>>,
    table: Seq<IncludeRecord>,
    work_space: Seq<char>,
    path: Seq<char>,
    parents: Seq<Seq<char>>,
    depth: nat,
)
    ensures
        parents_updated(files, table, work_space, path, parents, depth) == added_to_all(
            table,
            work_space,
            reached(files, path, depth),
            parents,
            reached(files, path, depth).len() as int,
        ),
    decreases DEPTH_LIMIT + 1 - depth, 1int, 0int,
{
    if depth <= DEPTH_LIMIT {
        let first = seq![path];
        let second = reached_through(files, inclusions_in(files, path), 0, depth);
        let begun = parents_added(table, work_space, path, parents);
        lemma_children_updated_is_added(
            files,
            begun,
            work_space,
            inclusions_in(files, path),
            0,
            parents,
            depth,
        );
        lemma_added_to_both(table, work_space, first, second, parents, second.len() as int);
        assert(added_to_all(table, work_space, first, parents, 1) == begun) by {
            assert(added_to_all(table, work_space, first, parents, 0) == table);
        }
    }
}

/// What adding `parents` to the records of `paths` has done to `table`:
/// every record that was there is there, for its path and work space, with
/// the parents it had in front of any new ones, and unchanged unless its
/// path is one of `paths`; every new record is for one of `paths`; and each
/// of `paths` has a record, which holds every parent. No path has two
/// records.
pub open spec fn gained(
    table: Seq<IncludeRecord>,
    after: Seq<IncludeRecord>,
    paths: Seq<Seq<char>>,
    parents: Seq<Seq<char>>,
) -> bool {
    &&& distinct_records(after)
    &&& after.len() >= table.len()
    &&& forall|i: int|
        0 <= i < table.len() ==> {
            &&& (#[trigger] after[i]).path == table[i].path
            &&& after[i].work_space == table[i].work_space
            &&& after[i].parents.len() >= table[i].parents.len()
            &&& after[i].parents.take(table[i].parents.len() as int) == table[i].parents
            &&& (!paths.contains(table[i].path) ==> after[i] == table[i])
        }
    &&& forall|i: int| table.len() <= i < after.len() ==> paths.contains((#[trigger] after[i]).path)
    &&& forall|i: int|
        0 <= i < after.len() && paths.contains((#[trigger] after[i]).path) ==> holds_all(
            after[i].parents,
            parents,
            parents.len() as int,
        )
    &&& forall|k: int|
        0 <= k < paths.len() ==> record_place(after, #[trigger] paths[k], 0) < after.len()
}

/// Adding parents to the record of one more path.
#[verifier::rlimit(100)]
pub proof fn lemma_one_more_gains(
    table: Seq<IncludeRecord>,
    mid: Seq<IncludeRecord>,
    work_space: Seq<char>,
    paths: Seq<Seq<char>>,
    path: Seq<char>,
    parents: Seq<Seq<char>>,
)
    requires
        gained(table, mid, paths, parents),
    ensures
        gained(table, parents_added(mid, work_space, path, parents), paths.push(path), parents),
{
    let after = parents_added(mid, work_space, path, parents);
    let more = paths.push(path);
    let at = record_place(mid, path, 0);
    lemma_record_place(mid, path, 0);
    lemma_parents_added_distinct(mid, work_space, path, parents);
    assert(more[paths.len() as int] == path);
    assert forall|x: Seq<char>| paths.contains(x) implies more.contains(x) by {
        let k = choose|k: int| 0 <= k < paths.len() && paths[k] == x;
        assert(more[k] == x);
    }
    assert forall|x: Seq<char>| more.contains(x) && x != path implies paths.contains(x) by {
        let k = choose|k: int| 0 <= k < more.len() && more[k] == x;
        assert(paths[k] == x);
    }
    if at < mid.len() {
        lemma_with_parents(mid[at].parents, parents, parents.len() as int);
    } else {
        lemma_with_parents(Seq::empty(), parents, parents.len() as int);
    }
    assert forall|i: int| 0 <= i < mid.len() && i != at implies #[trigger] after[i] == mid[i] by {}
    assert forall|i: int| 0 <= i < mid.len() implies (#[trigger] after[i]).path == mid[i].path by {}
    assert(after[at].path == path);
    assert(holds_all(after[at].parents, parents, parents.len() as int));
    assert forall|i: int| 0 <= i < table.len() implies {
        &&& (#[trigger] after[i]).path == table[i].path
        &&& after[i].work_space == table[i].work_space
        &&& after[i].parents.len() >= table[i].parents.len()
        &&& after[i].parents.take(table[i].parents.len() as int) == table[i].parents
        &&& (!more.contains(table[i].path) ==> after[i] == table[i])
    } by {
        assert(mid[i].path == table[i].path);
        if i == at {
            assert(after[i].parents.take(mid[i].parents.len() as int) == mid[i].parents);
            assert(after[i].parents.take(table[i].parents.len() as int) =~= mid[i].parents.take(
                table[i].parents.len() as int,
            ));
            assert(more.contains(table[i].path));
        } else {
            assert(after[i] == mid[i]);
            if !more.contains(table[i].path) {
                assert(!paths.contains(table[i].path));
            }
        }
    }
    assert forall|i: int| table.len() <= i < after.len() implies more.contains(
        (#[trigger] after[i]).path,
    ) by {
        if i == at {
        } else {
            assert(after[i] == mid[i]);
            assert(paths.contains(mid[i].path));
        }
    }
    assert forall|i: int| 0 <= i < after.len() && more.contains((#[trigger] after[i]).path) implies holds_all(
        after[i].parents,
        parents,
        parents.len() as int,
    ) by {
        if i != at {
            assert(after[i] == mid[i]);
            assert(mid[i].path != path);
            assert(paths.contains(mid[i].path));
        }
    }
    assert forall|k: int| 0 <= k < more.len() implies record_place(after, #[trigger] more[k], 0)
        < after.len() by {
        if k < paths.len() {
            assert(more[k] == paths[k]);
            lemma_record_place_kept(mid, after, paths[k], 0);
        } else if at < mid.len() {
            lemma_record_place_kept(mid, after, path, 0);
        } else {
            lemma_record_place(after, path, 0);
        }
    }
}

/// Adding parents to the records of paths, one after the other.
pub proof fn lemma_added_to_all_gains(
    table: Seq<IncludeRecord>,
    work_space: Seq<char>,
    paths: Seq<Seq<char>>,
    parents: Seq<Seq<char>>,
    n: int,
)
    requires
        distinct_records(table),
        0 <= n <= paths.len(),
    ensures
        gained(table, added_to_all(table, work_space, paths, parents, n), paths.take(n), parents),
    decreases n,
{
    if n > 0 {
        lemma_added_to_all_gains(table, work_space, paths, parents, n - 1);
        let mid = added_to_all(table, work_space, paths, parents, n - 1);
        lemma_one_more_gains(table, mid, work_space, paths.take(n - 1), paths[n - 1], parents);
        assert(paths.take(n - 1).push(paths[n - 1]) =~= paths.take(n));
    } else {
        assert forall|i: int| 0 <= i < table.len() implies table[i].parents.take(
            table[i].parents.len() as int,
        ) == (#[trigger] table[i]).parents by {
            assert(table[i].parents.take(table[i].parents.len() as int) =~= table[i].parents);
        }
        assert(paths.take(0).len() == 0);
    }
}

/// Adding parents to records that hold them leaves the table as it is.
pub proof fn lemma_added_again(
    table: Seq<IncludeRecord>,
    work_space: Seq<char>,
    paths: Seq<Seq<char>>,
    parents: Seq<Seq<char>>,
    n: int,
)
    requires
        0 <= n <= paths.len(),
        forall|k: int|
            0 <= k < paths.len() ==> record_place(table, #[trigger] paths[k], 0) < table.len()
                && holds_all(
                table[record_place(table, paths[k], 0)].parents,
                parents,
                parents.len() as int,
            ),
    ensures
        added_to_all(table, work_space, paths, parents, n) == table,
    decreases n,
{
    if n > 0 {
        lemma_added_again(table, work_space, paths, parents, n - 1);
        let path = paths[n - 1];
        let at = record_place(table, path, 0);
        lemma_record_place(table, path, 0);
        assert(record_place(table, paths[n - 1], 0) < table.len());
        lemma_with_parents_held(table[at].parents, parents, parents.len() as int);
        let same = IncludeRecord {
            parents: with_parents(table[at].parents, parents, parents.len() as int),
            ..table[at]
        };
        assert(same == table[at]);
        assert(table.update(at, same) =~= table);
    }
}

/// What `update_parent` does: the file and the files that it reaches, down
/// to the depth limit, have a record each that holds every parent; every
/// record that was there keeps its path, its work space and, in front, the
/// parents it had; and the record of a file that is not reached is left as
/// it was.
pub proof fn lemma_update_parent_reaches(
    files: Map<Seq<char>, Seq<Inclusion>>,
    table: Seq<IncludeRecord>,
    work_space: Seq<char>,
    path: Seq<char>,
    parents: Seq<Seq<char>>,
    depth: nat,
)
    requires
        distinct_records(table),
    ensures
        gained(
            table,
            parents_updated(files, table, work_space, path, parents, depth),
            reached(files, path, depth),
            parents,
        ),
{
    let paths = reached(files, path, depth);
    lemma_parents_updated_is_added(files, table, work_space, path, parents, depth);
    lemma_added_to_all_gains(table, work_space, paths, parents, paths.len() as int);
    assert(paths.take(paths.len() as int) =~= paths);
}

/// Adding the same parents to the same file a second time changes nothing.
pub proof fn lemma_update_parent_twice(
    files: Map<Seq<char>, Seq<Inclusion>>,
    table: Seq<IncludeRecord>,
    work_space: Seq<char>,
    path: Seq<char>,
    parents: Seq<Seq<char>>,
    depth: nat,
)
    requires
        distinct_records(table),
    ensures
        parents_updated(
            files,
            parents_updated(files, table, work_space, path, parents, depth),
            work_space,
            path,
            parents,
            depth,
        ) == parents_updated(files, table, work_space, path, parents, depth),
{
    let paths = reached(files, path, depth);
    let once = parents_updated(files, table, work_space, path, parents, depth);
    lemma_update_parent_reaches(files, table, work_space, path, parents, depth);
    lemma_parents_updated_is_added(files, once, work_space, path, parents, depth);
    assert forall|k: int| 0 <= k < paths.len() implies record_place(once, #[trigger] paths[k], 0)
        < once.len() && holds_all(
        once[record_place(once, paths[k], 0)].parents,
        parents,
        parents.len() as int,
    ) by {
        lemma_record_place(once, paths[k], 0);
        let at = record_place(once, paths[k], 0);
        assert(once[at].path == paths[k]);
        assert(paths.contains(once[at].path));
    }
    lemma_added_again(once, work_space, paths, parents, paths.len() as int);
}

} // verus!
