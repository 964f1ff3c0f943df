//! What the language server knows of a project and what it decides when a
//! file changes: which files are read anew, and which entry files are
//! compiled again.

use vstd::prelude::*;
use crate::graph::{
    entries_view, is_included, keeps_files, leaves_others, without_file, without_inclusions,
    CachedStableGraph, GraphView, Inclusion, EDGE_LIMIT, NODE_LIMIT,
};
use crate::parser::{
    findings_view, grammar_for, offset_for, remap_result, Diagnostic, DiagnosticsParser,
};
use crate::path::{normalize, normalized, stage_of, ShaderStage};
use crate::shaders::{
    children_updated, distinct_records, extend_parents, inclusions_in,
    lemma_children_updated_distinct, lemma_record_place, merged_entry, other_parents,
    read_anew, record_place, records_view, rescan_at, rescanned_at, strings_view, table_view,
    update_children, with_parents, without_parent, IncludeFile, IncludeRecord, MergeState,
    ScanError, ShaderFile, ShaderRecord,
};
use crate::sources::Sources;
use crate::text::{chars_eq, from_chars, lines_of, slice_chars, to_chars};

verus! {

/// The state of the server as the contracts see it.
pub struct ServerView {
    /// The files and their inclusions.
    pub graph: GraphView,
    /// The lines of the files that have a text.
    pub texts: Map<Seq<char>, Seq<Seq<char>>>,
    /// The entry files.
    pub shaders: Seq<ShaderRecord>,
    /// The files that entry files reach, with the entry files that reach
    /// them.
    pub includes: Seq<IncludeRecord>,
}

/// A table of entry files as the contracts see it.
pub open spec fn shaders_view(table: Seq<ShaderFile>) -> Seq<ShaderRecord> {
    Seq::new(table.len(), |i: int| table[i].record())
}

/// The place from `from` on of the first entry file of `table` with the
/// path `path`, or the length of `table` where there is none.
pub open spec fn shader_place(table: Seq<ShaderRecord>, path: Seq<char>, from: int) -> int
    decreases table.len() - from,
{
    if from < 0 || from >= table.len() {
        table.len() as int
    } else if table[from].path == path {
        from
    } else {
        shader_place(table, path, from + 1)
    }
}

/// Whether `path` is an entry file.
pub open spec fn is_shader(v: ServerView, path: Seq<char>) -> bool {
    shader_place(v.shaders, path, 0) < v.shaders.len()
}

/// Whether `path` has a record as a file that entry files reach.
pub open spec fn is_include(v: ServerView, path: Seq<char>) -> bool {
    record_place(v.includes, path, 0) < v.includes.len()
}

/// The entry files that are known to reach `path`.
pub open spec fn parents_of(v: ServerView, path: Seq<char>) -> Seq<Seq<char>> {
    if is_include(v, path) {
        v.includes[record_place(v.includes, path, 0)].parents
    } else {
        Seq::empty()
    }
}

/// `table` without its first entry file of the path `path`.
pub open spec fn without_shader(table: Seq<ShaderRecord>, path: Seq<char>) -> Seq<ShaderRecord> {
    let i = shader_place(table, path, 0);
    if i < table.len() {
        table.remove(i)
    } else {
        table
    }
}

/// Whether no two entry files of `table` have one path.
pub open spec fn distinct_shaders(table: Seq<ShaderRecord>) -> bool {
    forall|i: int, j: int|
        0 <= i < j < table.len() ==> (#[trigger] table[i]).path != (#[trigger] table[j]).path
}

/// Where `path` is an entry file from `from` on, the place found is that of
/// its first entry; else no entry file from `from` on has the path.
pub proof fn lemma_shader_place(table: Seq<ShaderRecord>, path: Seq<char>, from: int)
    requires
        0 <= from <= table.len(),
    ensures
        from <= shader_place(table, path, from) <= table.len(),
        shader_place(table, path, from) < table.len() ==> table[shader_place(table, path, from)].path
            == path,
        forall|i: int| from <= i < shader_place(table, path, from) ==> (#[trigger] table[i]).path != path,
    decreases table.len() - from,
{
    if from < table.len() && table[from].path != path {
        lemma_shader_place(table, path, from + 1);
    }
}

/// A table in which no entry has the path `path` has no place for it.
pub proof fn lemma_shader_absent(table: Seq<ShaderRecord>, path: Seq<char>, from: int)
    requires
        0 <= from <= table.len(),
        forall|i: int| from <= i < table.len() ==> (#[trigger] table[i]).path != path,
    ensures
        shader_place(table, path, from) == table.len(),
    decreases table.len() - from,
{
    if from < table.len() {
        lemma_shader_absent(table, path, from + 1);
    }
}

/// A table in which no record is for the path `path` has no place for it.
pub proof fn lemma_record_absent(table: Seq<IncludeRecord>, path: Seq<char>, from: int)
    requires
        0 <= from <= table.len(),
        forall|i: int| from <= i < table.len() ==> (#[trigger] table[i]).path != path,
    ensures
        record_place(table, path, from) == table.len(),
    decreases table.len() - from,
{
    if from < table.len() {
        lemma_record_absent(table, path, from + 1);
    }
}

/// The state after the file `path` is read anew at `depth` for the work
/// space `work_space`, and `parents` are added to the records of the files
/// that it names, down to the depth limit. `None` where the graph gets full.
pub open spec fn refreshed_at(
    v: ServerView,
    work_space: Seq<char>,
    path: Seq<char>,
    parents: Seq<Seq<char>>,
    depth: nat,
) -> Option<ServerView> {
    match rescanned_at(v.graph, v.texts, work_space, path, depth) {
        None => None,
        Some(graph) => Some(
            ServerView {
                graph,
                includes: children_updated(
                    graph.files,
                    v.includes,
                    work_space,
                    inclusions_in(graph.files, path),
                    0,
                    parents,
                    0,
                ),
                ..v
            },
        ),
    }
}

/// The state after the file `path` is read anew as a file that no directive
/// led to.
pub open spec fn refreshed(
    v: ServerView,
    work_space: Seq<char>,
    path: Seq<char>,
    parents: Seq<Seq<char>>,
) -> Option<ServerView> {
    refreshed_at(v, work_space, path, parents, 0)
}

/// The state after `path` is taken as an entry file of `work_space` and read.
pub open spec fn shader_added(v: ServerView, work_space: Seq<char>, path: Seq<char>) -> Option<
    ServerView,
> {
    match refreshed(v, work_space, path, seq![path]) {
        None => None,
        Some(r) => Some(
            ServerView {
                shaders: without_shader(v.shaders, path).push(
                    ShaderRecord { path, work_space, stage: stage_of(path) },
                ),
                ..r
            },
        ),
    }
}

/// The graph after the file `path` is deleted: its inclusions are dropped,
/// and the file itself unless another file still names it.
pub open spec fn node_removed(g: GraphView, path: Seq<char>) -> GraphView {
    if g.files.contains_key(path) {
        let cleared = without_inclusions(g, path);
        without_file(cleared, path, !is_included(cleared, path))
    } else {
        g
    }
}

/// The records of `table`, none of which has `path` among the entry files
/// that reach it.
pub open spec fn without_parent_in(table: Seq<IncludeRecord>, path: Seq<char>) -> Seq<
    IncludeRecord,
> {
    Seq::new(
        table.len(),
        |i: int|
            IncludeRecord {
                parents: without_parent(table[i].parents, path, table[i].parents.len() as int),
                ..table[i]
            },
    )
}

/// `table` without its first record of the path `path`.
pub open spec fn without_record(table: Seq<IncludeRecord>, path: Seq<char>) -> Seq<IncludeRecord> {
    let j = record_place(table, path, 0);
    if j < table.len() {
        table.remove(j)
    } else {
        table
    }
}

/// The state after the file `path` is deleted: it is no entry file and has
/// no record and no text any more, no file has it among the entry files that
/// reach it, and the graph holds it only as far as another file names it.
pub open spec fn shader_removed(v: ServerView, path: Seq<char>) -> ServerView {
    ServerView {
        graph: node_removed(v.graph, path),
        texts: v.texts.remove(path),
        shaders: without_shader(v.shaders, path),
        includes: without_record(without_parent_in(v.includes, path), path),
    }
}

/// The state after the file `path` is read anew at `depth`: an entry file
/// for its work space, with its stage taken from its name; any other file
/// that entry files reach for its own. A file that is neither is left alone.
pub open spec fn file_updated_at(v: ServerView, path: Seq<char>, depth: nat) -> Option<ServerView> {
    let i = shader_place(v.shaders, path, 0);
    let j = record_place(v.includes, path, 0);
    if i < v.shaders.len() {
        match refreshed_at(v, v.shaders[i].work_space, path, seq![path], depth) {
            None => None,
            Some(r) => Some(
                ServerView {
                    shaders: v.shaders.update(
                        i,
                        ShaderRecord { stage: stage_of(path), ..v.shaders[i] },
                    ),
                    ..r
                },
            ),
        }
    } else if j < v.includes.len() {
        refreshed_at(v, v.includes[j].work_space, path, v.includes[j].parents, depth)
    } else {
        Some(v)
    }
}

/// The state after the file `path` is read anew as a file that no directive
/// led to.
pub open spec fn file_updated(v: ServerView, path: Seq<char>) -> Option<ServerView> {
    file_updated_at(v, path, 0)
}

/// The entry files to compile after the file `path` changed: the file
/// itself where it is an entry file, then the entry files that reach it.
pub open spec fn lint_targets_of(v: ServerView, path: Seq<char>) -> Seq<Seq<char>> {
    (if is_shader(v, path) {
        seq![path]
    } else {
        Seq::empty()
    }) + parents_of(v, path)
}

/// The state after the watched file `path` changed, with the entry files to
/// compile: a deleted file is removed, and the other entry files that
/// reached it are compiled; an entry file is read anew and compiled; any
/// other file that entry files reach is read anew, and the entry files that
/// reach it are compiled.
pub open spec fn change_applied(v: ServerView, path: Seq<char>, deleted: bool) -> Option<
    (ServerView, Seq<Seq<char>>),
> {
    if deleted {
        Some(
            (
                shader_removed(v, path),
                without_parent(parents_of(v, path), path, parents_of(v, path).len() as int),
            ),
        )
    } else if is_shader(v, path) {
        match file_updated(v, path) {
            Some(r) => Some((r, seq![path])),
            None => None,
        }
    } else if is_include(v, path) {
        match file_updated(v, path) {
            Some(r) => Some((r, parents_of(r, path))),
            None => None,
        }
    } else {
        Some((v, Seq::empty()))
    }
}

/// The stage of the entry file `path` that has a text; `None` where `path`
/// is no entry file or has no text.
pub open spec fn lint_stage(v: ServerView, path: Seq<char>) -> Option<ShaderStage> {
    let i = shader_place(v.shaders, path, 0);
    if i < v.shaders.len() && v.texts.contains_key(path) {
        Some(v.shaders[i].stage)
    } else {
        None
    }
}

/// The merged text of the entry file `path` with the table of the files in
/// it.
pub open spec fn lint_text(v: ServerView, path: Seq<char>) -> MergeState {
    merged_entry(v.graph, v.texts, path, Seq::empty())
}

/// The links of the file `path`: its inclusions, where it is an entry file
/// or a file that entry files reach.
pub open spec fn links_of(v: ServerView, path: Seq<char>) -> Option<Seq<Inclusion>> {
    if is_shader(v, path) || is_include(v, path) {
        Some(inclusions_in(v.graph.files, path))
    } else {
        None
    }
}

/// The state after the first `n` of `changes` are applied, with the entry
/// files to compile, each once. `None` where the graph gets full.
pub open spec fn changes_applied(v: ServerView, changes: Seq<(Seq<char>, bool)>, n: int) -> Option<
    (ServerView, Seq<Seq<char>>),
>
    decreases n,
{
    if n <= 0 {
        Some((v, Seq::empty()))
    } else {
        match changes_applied(v, changes, n - 1) {
            None => None,
            Some((before, targets)) => match change_applied(
                before,
                changes[n - 1].0,
                changes[n - 1].1,
            ) {
                None => None,
                Some((after, more)) => Some(
                    (after, with_parents(targets, more, more.len() as int)),
                ),
            },
        }
    }
}

/// The state after the first `n` of `changes` are applied; `v` where the
/// graph got full.
pub open spec fn state_after(v: ServerView, changes: Seq<(Seq<char>, bool)>, n: int) -> ServerView {
    match changes_applied(v, changes, n) {
        Some((state, _)) => state,
        None => v,
    }
}

/// Whether `after` is the state in which going through `changes` stopped
/// because the graph was full: some of the first changes were applied, the
/// next one found the graph full, and left the texts, the entry files and
/// the records as they were and every file in the graph.
pub open spec fn stopped_at_a_change(
    v: ServerView,
    changes: Seq<(Seq<char>, bool)>,
    after: ServerView,
) -> bool {
    exists|k: int|
        0 <= k < changes.len() && (#[trigger] changes_applied(v, changes, k)) is Some
            && change_applied(state_after(v, changes, k), changes[k].0, changes[k].1) is None
            && keeps_files(state_after(v, changes, k).graph, after.graph) && after.texts
            == state_after(v, changes, k).texts && after.shaders == state_after(
            v,
            changes,
            k,
        ).shaders && after.includes == state_after(v, changes, k).includes
}

/// Once the graph is full, it stays so.
pub proof fn lemma_changes_stay_none(
    v: ServerView,
    changes: Seq<(Seq<char>, bool)>,
    n: int,
    m: int,
)
    requires
        n <= m,
        changes_applied(v, changes, n) is None,
    ensures
        changes_applied(v, changes, m) is None,
    decreases m - n,
{
    if n < m {
        lemma_changes_stay_none(v, changes, n, m - 1);
    }
}

/// A list of changes as the contracts see it: each path, with slashes, and
/// whether the file was deleted.
pub open spec fn changes_view(changes: Seq<(String, bool)>) -> Seq<(Seq<char>, bool)> {
    Seq::new(changes.len(), |i: int| (normalized(changes[i].0@), changes[i].1))
}

/// A table in which every path occurs once holds no entry file of the path
/// `path` once its first is taken away, and every other path still once.
pub proof fn lemma_cut_shader(table: Seq<ShaderRecord>, path: Seq<char>)
    requires
        distinct_shaders(table),
    ensures
        distinct_shaders(without_shader(table, path)),
        shader_place(without_shader(table, path), path, 0) == without_shader(table, path).len(),
{
    lemma_shader_place(table, path, 0);
    let at = shader_place(table, path, 0);
    let cut = without_shader(table, path);
    if at < table.len() {
        assert forall|i: int| 0 <= i < cut.len() implies #[trigger] cut[i] == table[if i < at {
            i
        } else {
            i + 1
        }] by {}
        assert forall|i: int| 0 <= i < cut.len() implies (#[trigger] cut[i]).path != path by {
            let k = if i < at {
                i
            } else {
                i + 1
            };
            assert(cut[i] == table[k]);
            if k < at {
                assert(table[k].path != table[at].path);
            } else {
                assert(table[at].path != table[k].path);
            }
        }
        assert forall|i: int, j: int| 0 <= i < j < cut.len() implies (#[trigger] cut[i]).path != (
        #[trigger] cut[j]).path by {
            let a = if i < at {
                i
            } else {
                i + 1
            };
            let b = if j < at {
                j
            } else {
                j + 1
            };
            assert(cut[i] == table[a] && cut[j] == table[b]);
        }
    }
    lemma_shader_absent(cut, path, 0);
}

/// A table in which every path occurs once holds no record of the path
/// `path` once its first is taken away, and every other path still once.
pub proof fn lemma_cut_record(table: Seq<IncludeRecord>, path: Seq<char>)
    requires
        distinct_records(table),
    ensures
        distinct_records(without_record(table, path)),
        record_place(without_record(table, path), path, 0) == without_record(table, path).len(),
{
    lemma_record_place(table, path, 0);
    let at = record_place(table, path, 0);
    let cut = without_record(table, path);
    if at < table.len() {
        assert forall|i: int| 0 <= i < cut.len() implies #[trigger] cut[i] == table[if i < at {
            i
        } else {
            i + 1
        }] by {}
        assert forall|i: int| 0 <= i < cut.len() implies (#[trigger] cut[i]).path != path by {
            let k = if i < at {
                i
            } else {
                i + 1
            };
            assert(cut[i] == table[k]);
            if k < at {
                assert(table[k].path != table[at].path);
            } else {
                assert(table[at].path != table[k].path);
            }
        }
        assert forall|i: int, j: int| 0 <= i < j < cut.len() implies (#[trigger] cut[i]).path != (
        #[trigger] cut[j]).path by {
            let a = if i < at {
                i
            } else {
                i + 1
            };
            let b = if j < at {
                j
            } else {
                j + 1
            };
            assert(cut[i] == table[a] && cut[j] == table[b]);
        }
    }
    lemma_record_absent(cut, path, 0);
}

/// What the language server knows: the files with their inclusions and
/// texts, which of them are entry files, and how the log of the compiler is
/// read.
pub struct MinecraftShaderLanguageServer {
    graph: CachedStableGraph,
    sources: Sources,
    shader_files: Vec<ShaderFile>,
    include_files: Vec<IncludeFile>,
    diagnostics_parser: DiagnosticsParser,
}

impl View for MinecraftShaderLanguageServer {
    type V = ServerView;

    closed spec fn view(&self) -> ServerView {
        ServerView {
            graph: self.graph@,
            texts: self.sources@,
            shaders: shaders_view(self.shader_files@),
            includes: records_view(self.include_files@),
        }
    }
}

impl MinecraftShaderLanguageServer {
    /// What holds of every state.
    pub closed spec fn wf(&self) -> bool {
        &&& self.graph.wf()
        &&& self.sources.wf()
        &&& distinct_shaders(shaders_view(self.shader_files@))
        &&& distinct_records(records_view(self.include_files@))
    }

    /// A path occurs once among the entry files and once among the records.
    pub proof fn lemma_paths_occur_once(&self)
        requires
            self.wf(),
        ensures
            distinct_shaders(self@.shaders),
            distinct_records(self@.includes),
    {
    }

    /// How the log of the compiler is read.
    pub closed spec fn parser(&self) -> DiagnosticsParser {
        self.diagnostics_parser
    }

    /// A server that knows no file, for the compiler of `vendor`.
    pub fn new(vendor: &str) -> (server: MinecraftShaderLanguageServer)
        ensures
            server.wf(),
            server@.graph.files == Map::<Seq<char>, Seq<Inclusion>>::empty(),
            server@.graph.nodes == 0,
            server@.graph.edges == 0,
            server@.graph.clock == 0,
            server@.graph.present == Set::<Seq<char>>::empty(),
            server@.graph.node_limit == NODE_LIMIT,
            server@.graph.edge_limit == EDGE_LIMIT,
            server@.texts == Map::<Seq<char>, Seq<Seq<char>>>::empty(),
            server@.shaders == Seq::<ShaderRecord>::empty(),
            server@.includes == Seq::<IncludeRecord>::empty(),
            server.parser().grammar() == grammar_for(vendor@),
            server.parser().offset() == offset_for(vendor@),
    {
        MinecraftShaderLanguageServer::with_graph(vendor, CachedStableGraph::new())
    }

    /// A server that knows the files of `graph`, none of them as an entry
    /// file and none with its text, for the compiler of `vendor`.
    pub fn with_graph(vendor: &str, graph: CachedStableGraph) -> (server:
        MinecraftShaderLanguageServer)
        requires
            graph.wf(),
        ensures
            server.wf(),
            server@.graph == graph@,
            server@.texts == Map::<Seq<char>, Seq<Seq<char>>>::empty(),
            server@.shaders == Seq::<ShaderRecord>::empty(),
            server@.includes == Seq::<IncludeRecord>::empty(),
            server.parser().grammar() == grammar_for(vendor@),
            server.parser().offset() == offset_for(vendor@),
    {
        let server = MinecraftShaderLanguageServer {
            graph,
            sources: Sources::new(),
            shader_files: Vec::new(),
            include_files: Vec::new(),
            diagnostics_parser: DiagnosticsParser::new(vendor),
        };
        assert(server@.shaders =~= Seq::<ShaderRecord>::empty());
        assert(server@.includes =~= Seq::<IncludeRecord>::empty());
        server
    }

    /// The files and their inclusions.
    pub fn graph(&self) -> (graph: &CachedStableGraph)
        requires
            self.wf(),
        ensures
            graph.wf(),
            graph@ == self@.graph,
    {
        &self.graph
    }

    /// Takes `text` as what the file `path` holds now.
    pub fn set_source(&mut self, path: &str, text: &str)
        requires
            old(self).wf(),
        ensures
            final(self).wf(),
            final(self).parser() == old(self).parser(),
            final(self)@ == (ServerView {
                texts: old(self)@.texts.insert(normalized(path@), lines_of(text@)),
                ..old(self)@
            }),
    {
        self.sources.insert(path, text);
    }

    /// Takes the file `path` as one that cannot be read.
    pub fn forget_source(&mut self, path: &str)
        requires
            old(self).wf(),
        ensures
            final(self).wf(),
            final(self).parser() == old(self).parser(),
            final(self)@ == (ServerView {
                texts: old(self)@.texts.remove(normalized(path@)),
                ..old(self)@
            }),
    {
        self.sources.remove(path);
    }

    /// Where the entry file `path` stands in the table.
    fn shader_index(&self, path: &Vec<char>) -> (r: Option<usize>)
        ensures
            match r {
                Some(i) => i < self@.shaders.len() && shader_place(self@.shaders, path@, 0) == i
                    && self@.shaders[i as int].path == path@,
                None => shader_place(self@.shaders, path@, 0) == self@.shaders.len(),
            },
    {
        let ghost view = self@.shaders;
        let mut i: usize = 0;
        while i < self.shader_files.len()
            invariant
                i <= self.shader_files.len(),
                view == shaders_view(self.shader_files@),
                shader_place(view, path@, i as int) == shader_place(view, path@, 0),
            decreases self.shader_files.len() - i,
        {
            assert(view[i as int] == self.shader_files@[i as int].record());
            if chars_eq(self.shader_files[i].path_chars(), path) {
                return Some(i);
            }
            i = i + 1;
        }
        None
    }

    /// Where the record of the file `path` stands in the table.
    fn include_index(&self, path: &Vec<char>) -> (r: Option<usize>)
        ensures
            match r {
                Some(i) => i < self@.includes.len() && record_place(self@.includes, path@, 0) == i
                    && self@.includes[i as int].path == path@,
                None => record_place(self@.includes, path@, 0) == self@.includes.len(),
            },
    {
        let ghost view = self@.includes;
        let mut i: usize = 0;
        while i < self.include_files.len()
            invariant
                i <= self.include_files.len(),
                view == records_view(self.include_files@),
                record_place(view, path@, i as int) == record_place(view, path@, 0),
            decreases self.include_files.len() - i,
        {
            assert(view[i as int] == self.include_files@[i as int].record());
            if chars_eq(self.include_files[i].path_chars(), path) {
                return Some(i);
            }
            i = i + 1;
        }
        None
    }

    /// Reads the file `path` anew at `depth` and adds `parents` to the
    /// records of the files that it names.
    fn refresh(
        &mut self,
        work_space: &Vec<char>,
        path: &Vec<char>,
        parents: &Vec<String>,
        depth: usize,
    ) -> (r: Result<(), ScanError>)
        requires
            old(self).wf(),
        ensures
            final(self).wf(),
            final(self).parser() == old(self).parser(),
            final(self).shader_files == old(self).shader_files,
            keeps_files(old(self)@.graph, final(self)@.graph),
            leaves_others(old(self)@.graph, final(self)@.graph, path@),
            final(self)@.graph.files.contains_key(path@) ==> read_anew(
                final(self)@.graph.files[path@],
                old(self)@.texts,
                work_space@,
                path@,
                depth as nat,
            ),
            match r {
                Ok(_) => Some(final(self)@) == refreshed_at(
                    old(self)@,
                    work_space@,
                    path@,
                    strings_view(parents@),
                    depth as nat,
                ),
                Err(_) => refreshed_at(
                    old(self)@,
                    work_space@,
                    path@,
                    strings_view(parents@),
                    depth as nat,
                ) is None && final(self)@.texts == old(self)@.texts && final(self)@.includes
                    == old(self)@.includes,
            },
    {
        match rescan_at(&mut self.graph, &self.sources, work_space, path, depth) {
            Ok(_) => {},
            Err(e) => {
                return Err(e);
            },
        }
        proof {
            lemma_children_updated_distinct(
                self.graph@.files,
                records_view(self.include_files@),
                work_space@,
                inclusions_in(self.graph@.files, path@),
                0,
                strings_view(parents@),
                0,
            );
        }
        update_children(&self.graph, path, work_space, parents, &mut self.include_files);
        Ok(())
    }

    /// Takes `file_path` as an entry file of the work space `work_space` and
    /// reads it. An entry file of that path that was known is replaced.
    #[verifier::rlimit(50)]
    pub fn add_shader_file(&mut self, work_space: &str, file_path: &str) -> (r: Result<
        (),
        ScanError,
    >)
        requires
            old(self).wf(),
        ensures
            final(self).wf(),
            final(self).parser() == old(self).parser(),
            match r {
                Ok(_) => Some(final(self)@) == shader_added(
                    old(self)@,
                    normalized(work_space@),
                    normalized(file_path@),
                ),
                Err(_) => shader_added(old(self)@, normalized(work_space@), normalized(file_path@))
                    is None && final(self)@.texts == old(self)@.texts && final(self)@.shaders
                    == old(self)@.shaders && final(self)@.includes == old(self)@.includes,
            },
            keeps_files(old(self)@.graph, final(self)@.graph),
            leaves_others(old(self)@.graph, final(self)@.graph, normalized(file_path@)),
            final(self)@.graph.files.contains_key(normalized(file_path@)) ==> read_anew(
                final(self)@.graph.files[normalized(file_path@)],
                old(self)@.texts,
                normalized(work_space@),
                normalized(file_path@),
                0,
            ),
    {
        let mut file = ShaderFile::new(work_space, file_path);
        let mut parents: Vec<String> = Vec::new();
        parents.push(file.path());
        assert(strings_view(parents@) =~= seq![normalized(file_path@)]);
        let path = normalize(&to_chars(file_path));
        let root = normalize(&to_chars(work_space));
        match self.refresh(&root, &path, &parents, 0) {
            Ok(_) => {},
            Err(e) => {
                return Err(e);
            },
        }
        file.set_stage();
        let ghost before = self.shader_files@;
        proof {
            lemma_shader_place(shaders_view(before), path@, 0);
        }
        match self.shader_index(&path) {
            Some(i) => {
                self.shader_files.remove(i);
            },
            None => {},
        }
        let ghost mid = self.shader_files@;
        self.shader_files.push(file);
        proof {
            assert(shaders_view(mid) =~= without_shader(shaders_view(before), path@));
            assert(shaders_view(self.shader_files@) =~= shaders_view(mid).push(file.record()));
            lemma_cut_shader(shaders_view(before), path@);
            let after = shaders_view(self.shader_files@);
            assert forall|i: int, j: int| 0 <= i < j < after.len() implies (#[trigger] after[i]).path
                != (#[trigger] after[j]).path by {
                if j < shaders_view(mid).len() {
                    assert(after[i] == shaders_view(mid)[i] && after[j] == shaders_view(mid)[j]);
                } else {
                    assert(after[i] == shaders_view(mid)[i]);
                }
            }
        }
        Ok(())
    }

    /// Forgets the file `file_path`, an entry file or any other: takes it off
    /// the entry files and off the records of the files that it reached,
    /// forgets its own record and its text, and removes it from the graph as
    /// far as no other file names it.
    #[verifier::rlimit(50)]
    pub fn remove_shader_file(&mut self, file_path: &str)
        requires
            old(self).wf(),
        ensures
            final(self).wf(),
            final(self).parser() == old(self).parser(),
            final(self)@ == shader_removed(old(self)@, normalized(file_path@)),
            !is_shader(final(self)@, normalized(file_path@)),
            !is_include(final(self)@, normalized(file_path@)),
    {
        let path = normalize(&to_chars(file_path));
        let name = from_chars(&path);
        let ghost before = self.shader_files@;
        proof {
            lemma_cut_shader(shaders_view(before), path@);
        }
        match self.shader_index(&path) {
            Some(i) => {
                self.shader_files.remove(i);
            },
            None => {},
        }
        proof {
            assert(shaders_view(self.shader_files@) =~= without_shader(
                shaders_view(before),
                path@,
            ));
        }
        let ghost table = self.include_files@;
        let mut i: usize = 0;
        while i < self.include_files.len()
            invariant
                i <= self.include_files.len(),
                name@ == path@,
                self.include_files@.len() == table.len(),
                self.graph == old(self).graph,
                self.sources == old(self).sources,
                self.diagnostics_parser == old(self).diagnostics_parser,
                shaders_view(self.shader_files@) == without_shader(old(self)@.shaders, path@),
                distinct_shaders(shaders_view(self.shader_files@)),
                forall|k: int|
                    0 <= k < i ==> (#[trigger] self.include_files@[k]).record()
                        == without_parent_in(records_view(table), path@)[k],
                forall|k: int|
                    i <= k < table.len() ==> #[trigger] self.include_files@[k] == table[k],
            decreases self.include_files.len() - i,
        {
            let mut file = self.include_files.remove(i);
            file.forget_parent(&name);
            self.include_files.insert(i, file);
            i = i + 1;
        }
        proof {
            assert(records_view(self.include_files@) =~= without_parent_in(
                records_view(table),
                path@,
            ));
        }
        let ghost cut = self.include_files@;
        proof {
            let view = records_view(cut);
            assert forall|a: int, b: int| 0 <= a < b < view.len() implies (#[trigger] view[a]).path
                != (#[trigger] view[b]).path by {
                assert(view[a].path == records_view(table)[a].path);
                assert(view[b].path == records_view(table)[b].path);
            }
            lemma_cut_record(view, path@);
        }
        match self.include_index(&path) {
            Some(j) => {
                self.include_files.remove(j);
            },
            None => {},
        }
        proof {
            assert(records_view(self.include_files@) =~= without_record(records_view(cut), path@));
            self.graph.lemma_nodes_are_files();
        }
        match self.graph.node_of(name.as_str()) {
            Some(node) => {
                self.graph.remove_node(node);
            },
            None => {},
        }
        self.sources.remove(file_path);
    }

    /// Reads the file `path` anew where it is an entry file or a file that
    /// entry files reach, as a file that no directive led to.
    pub fn update_file(&mut self, path: &str) -> (r: Result<(), ScanError>)
        requires
            old(self).wf(),
        ensures
            final(self).wf(),
            final(self).parser() == old(self).parser(),
            keeps_files(old(self)@.graph, final(self)@.graph),
            leaves_others(old(self)@.graph, final(self)@.graph, normalized(path@)),
            match r {
                Ok(_) => Some(final(self)@) == file_updated(old(self)@, normalized(path@)),
                Err(_) => file_updated(old(self)@, normalized(path@)) is None && final(self)@.texts
                    == old(self)@.texts && final(self)@.shaders == old(self)@.shaders && final(self)@.includes
                    == old(self)@.includes,
            },
    {
        self.update_file_at(path, 0)
    }

    /// Reads the file `path` anew where it is an entry file or a file that
    /// entry files reach, as a file that `depth` directives led to: the files
    /// that it names are read as far as the depth limit leaves room.
    #[verifier::rlimit(50)]
    pub fn update_file_at(&mut self, path: &str, depth: usize) -> (r: Result<(), ScanError>)
        requires
            old(self).wf(),
        ensures
            final(self).wf(),
            final(self).parser() == old(self).parser(),
            keeps_files(old(self)@.graph, final(self)@.graph),
            leaves_others(old(self)@.graph, final(self)@.graph, normalized(path@)),
            match r {
                Ok(_) => Some(final(self)@) == file_updated_at(
                    old(self)@,
                    normalized(path@),
                    depth as nat,
                ),
                Err(_) => file_updated_at(old(self)@, normalized(path@), depth as nat) is None
                    && final(self)@.texts == old(self)@.texts && final(self)@.shaders == old(self)@.shaders
                    && final(self)@.includes == old(self)@.includes,
            },
    {
        let key = normalize(&to_chars(path));
        match self.shader_index(&key) {
            Some(i) => {
                let mut parents: Vec<String> = Vec::new();
                parents.push(from_chars(&key));
                assert(strings_view(parents@) =~= seq![key@]);
                let held = self.shader_files[i].work_space_chars();
                let root = slice_chars(held, 0, held.len());
                assert(root@ =~= self.shader_files@[i as int].work_space_view());
                match self.refresh(&root, &key, &parents, depth) {
                    Ok(_) => {},
                    Err(e) => {
                        return Err(e);
                    },
                }
                let ghost before = self.shader_files@;
                let mut file = self.shader_files.remove(i);
                file.set_stage();
                self.shader_files.insert(i, file);
                proof {
                    assert(shaders_view(before)[i as int] == before[i as int].record());
                    assert(before[i as int].path_view() == key@);
                    assert(self.shader_files@[i as int].record() == (ShaderRecord {
                        stage: stage_of(key@),
                        ..shaders_view(before)[i as int]
                    }));
                    assert forall|k: int| 0 <= k < before.len() && k != i implies self.shader_files@[k]
                        == before[k] by {}
                    assert(shaders_view(self.shader_files@) =~= shaders_view(before).update(
                        i as int,
                        ShaderRecord { stage: stage_of(key@), ..shaders_view(before)[i as int] },
                    ));
                    let after = shaders_view(self.shader_files@);
                    assert forall|a: int, b: int| 0 <= a < b < after.len() implies (
                    #[trigger] after[a]).path != (#[trigger] after[b]).path by {
                        assert(after[a].path == shaders_view(before)[a].path);
                        assert(after[b].path == shaders_view(before)[b].path);
                    }
                }
                return Ok(());
            },
            None => {},
        }
        match self.include_index(&key) {
            Some(j) => {
                let held = self.include_files[j].work_space_chars();
                let root = slice_chars(held, 0, held.len());
                assert(root@ =~= self.include_files@[j as int].work_space_view());
                let parents = self.include_files[j].included_shaders().clone();
                self.refresh(&root, &key, &parents, depth)
            },
            None => Ok(()),
        }
    }
    /// What is handed to the compiler for the entry file `path`: its stage,
    /// its merged text and the table of the files in that text.
    pub fn lint_shader(&self, path: &str) -> (r: Option<(ShaderStage, String, Vec<(usize, String)>)>)
        requires
            self.wf(),
        ensures
            match r {
                Some((stage, text, table)) => lint_stage(self@, normalized(path@)) == Some(stage)
                    && text@ == lint_text(self@, normalized(path@)).text && table_view(table@)
                    == lint_text(self@, normalized(path@)).table,
                None => lint_stage(self@, normalized(path@)) is None,
            },
    {
        let key = normalize(&to_chars(path));
        let i = match self.shader_index(&key) {
            Some(i) => i,
            None => {
                return None;
            },
        };
        if !self.sources.contains(&key) {
            return None;
        }
        let mut table: Vec<(usize, String)> = Vec::new();
        assert(table_view(table@) =~= Seq::<(int, Seq<char>)>::empty());
        let file = &self.shader_files[i];
        assert(self@.shaders[i as int] == file.record());
        let text = file.merge_shader_file(&self.graph, &self.sources, &mut table);
        Some((file.file_type(), text, table))
    }

    /// What is told of the files of a merged text after it was compiled: the
    /// findings of the log, or, where the compiler left no log, an empty
    /// entry for each file.
    pub fn diagnostics(&self, log: Option<&str>, files: &Vec<(usize, String)>) -> (found: Vec<
        (String, Vec<Diagnostic>),
    >)
        ensures
            findings_view(found@) == remap_result(
                self.parser().grammar(),
                self.parser().offset(),
                table_view(files@),
                match log {
                    Some(text) => Some(text@),
                    None => None,
                },
            ),
    {
        self.diagnostics_parser.remap(log, files)
    }

    /// The entry files to compile after the file `path` changed.
    pub fn update_lint(&self, path: &str) -> (targets: Vec<String>)
        ensures
            strings_view(targets@) == lint_targets_of(self@, normalized(path@)),
    {
        let key = normalize(&to_chars(path));
        let mut targets: Vec<String> = Vec::new();
        if self.shader_index(&key).is_some() {
            targets.push(from_chars(&key));
        }
        let ghost first = strings_view(targets@);
        assert(first =~= if is_shader(self@, key@) {
            seq![key@]
        } else {
            Seq::<Seq<char>>::empty()
        });
        match self.include_index(&key) {
            Some(j) => {
                let parents = self.include_files[j].included_shaders();
                assert(self@.includes[j as int] == self.include_files@[j as int].record());
                let mut k: usize = 0;
                while k < parents.len()
                    invariant
                        k <= parents.len(),
                        strings_view(targets@) == first + strings_view(parents@).take(k as int),
                    decreases parents.len() - k,
                {
                    let ghost before = targets@;
                    let parent = parents[k].clone();
                    targets.push(parent);
                    proof {
                        assert(strings_view(targets@) =~= strings_view(before).push(parent@));
                        assert(strings_view(parents@).take(k + 1) =~= strings_view(parents@).take(
                            k as int,
                        ).push(parents@[k as int]@));
                        assert(strings_view(targets@) =~= first + strings_view(parents@).take(
                            k + 1,
                        ));
                    }
                    k = k + 1;
                }
                assert(strings_view(parents@).take(parents@.len() as int) =~= strings_view(
                    parents@,
                ));
            },
            None => {
                assert(strings_view(targets@) =~= first + Seq::<Seq<char>>::empty());
            },
        }
        targets
    }

    /// The links of the file `path`, one for each of its inclusions: the
    /// line, the columns of the path named, and the file named.
    pub fn document_link(&self, path: &str) -> (links: Option<Vec<(usize, usize, usize, String)>>)
        requires
            self.wf(),
        ensures
            match links {
                Some(list) => links_of(self@, normalized(path@)) == Some(entries_view(list@)),
                None => links_of(self@, normalized(path@)) is None,
            },
    {
        let key = normalize(&to_chars(path));
        if self.shader_index(&key).is_none() && self.include_index(&key).is_none() {
            return None;
        }
        let name = from_chars(&key);
        proof {
            self.graph.lemma_nodes_are_files();
        }
        match self.graph.node_of(name.as_str()) {
            Some(node) => Some(self.graph.including_files(node)),
            None => {
                let list: Vec<(usize, usize, usize, String)> = Vec::new();
                assert(entries_view(list@) =~= Seq::<Inclusion>::empty());
                Some(list)
            },
        }
    }

    /// Takes in that the watched file `path` changed, or was deleted, and
    /// hands back the entry files to compile.
    #[verifier::rlimit(50)]
    pub fn watched_file_changed(&mut self, path: &str, deleted: bool) -> (r: Result<
        Vec<String>,
        ScanError,
    >)
        requires
            old(self).wf(),
        ensures
            final(self).wf(),
            final(self).parser() == old(self).parser(),
            match r {
                Ok(targets) => change_applied(old(self)@, normalized(path@), deleted) == Some(
                    (final(self)@, strings_view(targets@)),
                ),
                Err(_) => change_applied(old(self)@, normalized(path@), deleted) is None
                    && keeps_files(old(self)@.graph, final(self)@.graph) && leaves_others(
                    old(self)@.graph,
                    final(self)@.graph,
                    normalized(path@),
                ) && final(self)@.texts
                    == old(self)@.texts && final(self)@.shaders == old(self)@.shaders && final(self)@.includes
                    == old(self)@.includes,
            },
    {
        let key = normalize(&to_chars(path));
        let shader = self.shader_index(&key).is_some();
        let mut targets: Vec<String> = Vec::new();
        assert(strings_view(targets@) =~= Seq::<Seq<char>>::empty());
        if deleted {
            let targets = match self.include_index(&key) {
                Some(j) => {
                    assert(self@.includes[j as int] == self.include_files@[j as int].record());
                    other_parents(self.include_files[j].included_shaders(), &from_chars(&key))
                },
                None => {
                    assert(without_parent(Seq::<Seq<char>>::empty(), key@, 0) =~= Seq::<
                        Seq<char>,
                    >::empty());
                    targets
                },
            };
            self.remove_shader_file(path);
            return Ok(targets);
        }
        if shader {
            match self.update_file(path) {
                Ok(_) => {},
                Err(e) => {
                    return Err(e);
                },
            }
            targets.push(from_chars(&key));
            assert(strings_view(targets@) =~= seq![key@]);
            return Ok(targets);
        }
        if self.include_index(&key).is_some() {
            match self.update_file(path) {
                Ok(_) => {},
                Err(e) => {
                    return Err(e);
                },
            }
            match self.include_index(&key) {
                Some(j) => {
                    let parents = self.include_files[j].included_shaders();
                    assert(self@.includes[j as int] == self.include_files@[j as int].record());
                    let mut k: usize = 0;
                    while k < parents.len()
                        invariant
                            k <= parents.len(),
                            strings_view(targets@) == strings_view(parents@).take(k as int),
                        decreases parents.len() - k,
                    {
                        let ghost before = targets@;
                        let parent = parents[k].clone();
                        targets.push(parent);
                        proof {
                            assert(strings_view(targets@) =~= strings_view(before).push(parent@));
                            assert(strings_view(parents@).take(k + 1) =~= strings_view(
                                parents@,
                            ).take(k as int).push(parents@[k as int]@));
                        }
                        k = k + 1;
                    }
                    assert(strings_view(parents@).take(parents@.len() as int) =~= strings_view(
                        parents@,
                    ));
                },
                None => {},
            }
            return Ok(targets);
        }
        Ok(targets)
    }

    /// Takes in that the watched files of `changes` changed, each with
    /// whether it was deleted, and hands back the entry files to compile,
    /// each once.
    #[verifier::rlimit(50)]
    pub fn did_change_watched_files(&mut self, changes: &Vec<(String, bool)>) -> (r: Result<
        Vec<String>,
        ScanError,
    >)
        requires
            old(self).wf(),
        ensures
            final(self).wf(),
            final(self).parser() == old(self).parser(),
            match r {
                Ok(targets) => changes_applied(
                    old(self)@,
                    changes_view(changes@),
                    changes@.len() as int,
                ) == Some((final(self)@, strings_view(targets@))),
                Err(_) => changes_applied(old(self)@, changes_view(changes@), changes@.len() as int)
                    is None && stopped_at_a_change(old(self)@, changes_view(changes@), final(self)@),
            },
    {
        let mut targets: Vec<String> = Vec::new();
        assert(strings_view(targets@) =~= Seq::<Seq<char>>::empty());
        let mut i: usize = 0;
        while i < changes.len()
            invariant
                i <= changes.len(),
                self.wf(),
                self.parser() == old(self).parser(),
                changes_applied(old(self)@, changes_view(changes@), i as int) == Some(
                    (self@, strings_view(targets@)),
                ),
            decreases changes.len() - i,
        {
            assert(changes_view(changes@)[i as int] == (
                normalized(changes@[i as int].0@),
                changes@[i as int].1,
            ));
            let ghost before = self@;
            match self.watched_file_changed(changes[i].0.as_str(), changes[i].1) {
                Ok(more) => {
                    extend_parents(&mut targets, &more);
                },
                Err(e) => {
                    proof {
                        lemma_changes_stay_none(
                            old(self)@,
                            changes_view(changes@),
                            i + 1,
                            changes@.len() as int,
                        );
                        assert(changes_applied(old(self)@, changes_view(changes@), i as int) == Some(
                            (before, strings_view(targets@)),
                        ));
                    }
                    return Err(e);
                },
            }
            i = i + 1;
        }
        Ok(targets)
    }
    /// The files of the graph that have no text, each once: the files to
    /// look for before the graph is complete.
    #[verifier::rlimit(50)]
    pub fn unread_files(&self) -> (paths: Vec<String>)
        requires
            self.wf(),
        ensures
            forall|i: int, j: int| 0 <= i < j < paths@.len() ==> paths@[i]@ != paths@[j]@,
            forall|i: int|
                0 <= i < paths@.len() ==> self@.graph.files.contains_key(#[trigger] paths@[i]@)
                    && !self@.texts.contains_key(paths@[i]@),
            forall|p: Seq<char>|
                self@.graph.files.contains_key(p) && !self@.texts.contains_key(p) ==> exists|i: int|
                    0 <= i < paths@.len() && #[trigger] paths@[i]@ == p,
    {
        let all = self.graph.files();
        let mut paths: Vec<String> = Vec::new();
        let ghost mut from: Seq<int> = Seq::empty();
        let mut i: usize = 0;
        while i < all.len()
            invariant
                i <= all.len(),
                self.wf(),
                forall|a: int, b: int| 0 <= a < b < all@.len() ==> all@[a]@ != all@[b]@,
                forall|k: int|
                    0 <= k < all@.len() ==> self@.graph.files.contains_key(#[trigger] all@[k]@),
                from.len() == paths@.len(),
                forall|k: int|
                    0 <= k < paths@.len() ==> 0 <= #[trigger] from[k] < i && paths@[k]@
                        == all@[from[k]]@ && !self@.texts.contains_key(paths@[k]@),
                forall|a: int, b: int| 0 <= a < b < from.len() ==> from[a] < from[b],
                forall|k: int|
                    0 <= k < i && !self@.texts.contains_key(all@[k]@) ==> exists|m: int|
                        0 <= m < paths@.len() && #[trigger] paths@[m]@ == all@[k]@,
            decreases all.len() - i,
        {
            let key = to_chars(all[i].as_str());
            if !self.sources.contains(&key) {
                let ghost before = paths@;
                paths.push(all[i].clone());
                proof {
                    from = from.push(i as int);
                    assert forall|k: int|
                        0 <= k < i + 1 && !self@.texts.contains_key(all@[k]@) implies exists|m: int|
                        0 <= m < paths@.len() && #[trigger] paths@[m]@ == all@[k]@ by {
                        if k < i {
                            let m = choose|m: int|
                                0 <= m < before.len() && #[trigger] before[m]@ == all@[k]@;
                            assert(paths@[m]@ == all@[k]@);
                        } else {
                            assert(paths@[before.len() as int]@ == all@[k]@);
                        }
                    }
                }
            }
            i = i + 1;
        }
        proof {
            assert forall|a: int, b: int| 0 <= a < b < paths@.len() implies paths@[a]@
                != paths@[b]@ by {
                assert(from[a] < from[b]);
            }
            assert forall|k: int| 0 <= k < paths@.len() implies self@.graph.files.contains_key(
                #[trigger] paths@[k]@,
            ) && !self@.texts.contains_key(paths@[k]@) by {
                assert(self@.graph.files.contains_key(all@[from[k]]@));
            }
            assert forall|p: Seq<char>|
                self@.graph.files.contains_key(p) && !self@.texts.contains_key(p) implies exists|
                m: int,
            |
                0 <= m < paths@.len() && #[trigger] paths@[m]@ == p by {
                let k = choose|k: int| 0 <= k < all@.len() && #[trigger] all@[k]@ == p;
                assert(!self@.texts.contains_key(all@[k]@));
            }
        }
        paths
    }
    /// Whether the file `path` is in the graph and could be read when it was
    /// last looked for.
    pub fn file_exists(&self, path: &str) -> (r: bool)
        requires
            self.wf(),
        ensures
            r == self@.graph.present.contains(normalized(path@)),
    {
        let key = normalize(&to_chars(path));
        let name = from_chars(&key);
        proof {
            self.graph.lemma_nodes_are_files();
        }
        match self.graph.node_of(name.as_str()) {
            Some(node) => self.graph.file_exists(node),
            None => false,
        }
    }
}

} // verus!
