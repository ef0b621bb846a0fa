//! Whole-snapshot dependency resolution.
//!
//! The resolver never touches the file system. A caller enumerates and
//! reads the candidate files, canonicalizes their paths, and hands the
//! snapshot in as a list of [`SourceFile`]s; within one call a path
//! string is the identity of a file. Resolution then is a pure function
//! of the snapshot: files reachable from the root through imports are
//! discovered, their facts extracted, the four dependency edge kinds
//! synthesized and reconciled, and a deterministic execution order
//! produced by topological sort — or a typed error when the root is
//! missing from the snapshot, a reachable file does not parse, or the
//! reconciled edges form a cycle.

use vstd::prelude::*;

use crate::edges::{
    build_edge_list, contains_name, facts_view, first_declarer, imports_adj, spec_edges,
    strs_view, NodeFacts, NodeFactsV,
};
use crate::graph::{
    adj_view, edges_wf, reach_plus_table, reachable_from, reaches, reaches_plus, remaining_nodes,
    spec_kahn, succ_wf, kahn_sort,
};
use crate::parser::{
    parse_file, parse_result_matches, spec_parse_file, FileFacts, ImportFacts, ParseError,
    ParsedFile,
};
use crate::paths::{parent_of, spec_resolve_import};
use crate::text::{seg_string, to_char_vec};

verus! {

/// A single file handed to the resolver: its canonical path and its
/// text.
#[derive(Debug, Clone)]
pub struct SourceFile {
    pub path: String,
    pub content: String,
}

/// Why resolution failed.
#[derive(Debug, Clone, PartialEq, Eq)]
pub enum ResolveError {
    /// The root file is not in the snapshot.
    IoError { path: String },
    /// A reachable file could not be parsed.
    ParseError { path: String, source: ParseError },
    /// The reconciled edges admit no order; the unorderable files are
    /// listed in discovery order.
    CircularDependency { cycle: Vec<String> },
    /// An import led to a file missing from the snapshot.
    ImportNotFound { import_path: String, resolved_path: String },
}

/// A non-fatal observation made during resolution.
#[derive(Debug, Clone, PartialEq, Eq)]
pub enum Warning {
    /// An import resolved to a path that is not in the snapshot.
    UnresolvedImport { file: String, raw_path: String, resolved_path: String },
    /// A datasource was declared a second time; the first declaration
    /// stays authoritative.
    DuplicateDeclaration { datasource: String, first_file: String, other_file: String },
    /// A file of a batch could not be parsed and was skipped.
    UnparsableFile { file: String, error: ParseError },
    /// A file of a batch was not in the snapshot and was skipped.
    UnreadableFile { file: String },
}

// ---------------------------------------------------------------------------
// The snapshot, in specification.
// ---------------------------------------------------------------------------

/// The first snapshot index at or after `i` whose path is `p`.
pub open spec fn lookup_from(fs: Seq<SourceFile>, p: Seq<char>, i: int) -> Option<int>
    decreases fs.len() - i when 0 <= i <= fs.len()
{
    if i >= fs.len() {
        None
    } else if fs[i].path@ == p {
        Some(i)
    } else {
        lookup_from(fs, p, i + 1)
    }
}

/// The file a path names: the first snapshot entry bearing it.
pub open spec fn lookup_path(fs: Seq<SourceFile>, p: Seq<char>) -> Option<int> {
    lookup_from(fs, p, 0)
}

pub proof fn lemma_lookup_from(fs: Seq<SourceFile>, p: Seq<char>, i: int)
    requires
        0 <= i <= fs.len(),
    ensures
        match lookup_from(fs, p, i) {
            None => forall|j: int| i <= j < fs.len() ==> (#[trigger] fs[j].path@) != p,
            Some(j) => i <= j < fs.len() && fs[j].path@ == p,
        },
    decreases fs.len() - i,
{
    if i < fs.len() && fs[i].path@ != p {
        lemma_lookup_from(fs, p, i + 1);
    }
}

/// The directory a file's imports resolve against.
pub open spec fn dir_of(p: Seq<char>) -> Seq<char> {
    match parent_of(p) {
        Some(d) => d,
        None => "."@,
    }
}

/// The snapshot file an import leads to, if it resolves and is present.
pub open spec fn import_target(fs: Seq<SourceFile>, dir: Seq<char>, f: ImportFacts) -> Option<
    int,
> {
    match spec_resolve_import(f, dir) {
        None => None,
        Some(p) => lookup_path(fs, p),
    }
}

/// The snapshot indices the imports from `k` on lead to, in order.
pub open spec fn succ_from(
    fs: Seq<SourceFile>,
    dir: Seq<char>,
    imps: Seq<ImportFacts>,
    k: int,
) -> Seq<usize>
    decreases imps.len() - k when 0 <= k <= imps.len()
{
    if k >= imps.len() {
        Seq::empty()
    } else {
        (match import_target(fs, dir, imps[k]) {
            Some(j) => seq![j as usize],
            None => Seq::empty(),
        }) + succ_from(fs, dir, imps, k + 1)
    }
}

/// The snapshot files file `i` imports (empty when it does not parse).
pub open spec fn node_succ(fs: Seq<SourceFile>, i: int) -> Seq<usize> {
    match spec_parse_file(fs[i].content@) {
        Ok(f) => succ_from(fs, dir_of(fs[i].path@), f.imports, 0),
        Err(_) => Seq::empty(),
    }
}

/// The import graph over the whole snapshot.
pub open spec fn snap_succ(fs: Seq<SourceFile>) -> Seq<Seq<usize>> {
    Seq::new(fs.len(), |i: int| node_succ(fs, i))
}

pub proof fn lemma_succ_from_wf(fs: Seq<SourceFile>, dir: Seq<char>, imps: Seq<ImportFacts>, k: int)
    requires
        0 <= k <= imps.len(),
        fs.len() <= usize::MAX,
    ensures
        forall|x: int|
            0 <= x < succ_from(fs, dir, imps, k).len() ==> (#[trigger] succ_from(
                fs,
                dir,
                imps,
                k,
            )[x]) < fs.len(),
    decreases imps.len() - k,
{
    if k < imps.len() {
        lemma_succ_from_wf(fs, dir, imps, k + 1);
        match import_target(fs, dir, imps[k]) {
            Some(j) => {
                match spec_resolve_import(imps[k], dir) {
                    Some(p) => {
                        lemma_lookup_from(fs, p, 0);
                    },
                    None => {},
                }
                let head = seq![j as usize];
                assert(succ_from(fs, dir, imps, k) == head + succ_from(fs, dir, imps, k + 1));
                assert forall|x: int|
                    0 <= x < succ_from(fs, dir, imps, k).len() implies (#[trigger] succ_from(
                    fs,
                    dir,
                    imps,
                    k,
                )[x]) < fs.len() by {
                    if x == 0 {
                        assert(succ_from(fs, dir, imps, k)[0] == j as usize);
                    } else {
                        assert(succ_from(fs, dir, imps, k)[x] == succ_from(fs, dir, imps, k + 1)[x
                            - 1]);
                    }
                }
            },
            None => {
                assert(succ_from(fs, dir, imps, k) =~= succ_from(fs, dir, imps, k + 1));
            },
        }
    }
}

/// The import graph of a snapshot is well-formed.
pub proof fn lemma_snap_succ_wf(fs: Seq<SourceFile>)
    requires
        fs.len() <= usize::MAX,
    ensures
        succ_wf(snap_succ(fs)),
{
    assert forall|a: int, x: int|
        0 <= a < snap_succ(fs).len() && 0 <= x < snap_succ(fs)[a].len() implies (
    #[trigger] snap_succ(fs)[a][x]) < snap_succ(fs).len() by {
        match spec_parse_file(fs[a].content@) {
            Ok(f) => {
                lemma_succ_from_wf(fs, dir_of(fs[a].path@), f.imports, 0);
            },
            Err(_) => {},
        }
    }
}

/// The files reachable from root `r` through imports, ascending.
pub open spec fn spec_nodes_from(fs: Seq<SourceFile>, r: usize, i: int) -> Seq<usize>
    decreases fs.len() - i when 0 <= i <= fs.len()
{
    if i >= fs.len() {
        Seq::empty()
    } else if reaches(snap_succ(fs), r, i as usize) {
        seq![i as usize] + spec_nodes_from(fs, r, i + 1)
    } else {
        spec_nodes_from(fs, r, i + 1)
    }
}

pub open spec fn spec_nodes(fs: Seq<SourceFile>, r: usize) -> Seq<usize> {
    spec_nodes_from(fs, r, 0)
}

/// The least reachable file from `i` on that fails to parse.
pub open spec fn first_bad_from(fs: Seq<SourceFile>, r: usize, i: int) -> Option<int>
    decreases fs.len() - i when 0 <= i <= fs.len()
{
    if i >= fs.len() {
        None
    } else if reaches(snap_succ(fs), r, i as usize) && spec_parse_file(fs[i].content@) is Err {
        Some(i)
    } else {
        first_bad_from(fs, r, i + 1)
    }
}

// ---------------------------------------------------------------------------
// Node facts and derived indices, in specification.
// ---------------------------------------------------------------------------

/// The first position of `j` in `nodes` at or after `i` (the length when
/// absent).
pub open spec fn pos_of(nodes: Seq<usize>, j: usize, i: int) -> int
    decreases nodes.len() - i when 0 <= i <= nodes.len()
{
    if i >= nodes.len() {
        nodes.len() as int
    } else if nodes[i] == j {
        i
    } else {
        pos_of(nodes, j, i + 1)
    }
}

pub proof fn lemma_pos_of(nodes: Seq<usize>, j: usize, i: int)
    requires
        0 <= i <= nodes.len(),
    ensures
        i <= pos_of(nodes, j, i) <= nodes.len(),
        pos_of(nodes, j, i) < nodes.len() ==> nodes[pos_of(nodes, j, i)] == j,
        forall|p: int| i <= p < pos_of(nodes, j, i) ==> nodes[p] != j,
        (exists|p: int| i <= p < nodes.len() && nodes[p] == j) ==> pos_of(nodes, j, i)
            < nodes.len(),
    decreases nodes.len() - i,
{
    if i < nodes.len() && nodes[i] != j {
        lemma_pos_of(nodes, j, i + 1);
    }
}

/// The datasource names file `i` declares.
pub open spec fn decls_of(fs: Seq<SourceFile>, i: int) -> Seq<Seq<char>> {
    match spec_parse_file(fs[i].content@) {
        Ok(f) => f.datasources,
        Err(_) => Seq::empty(),
    }
}

/// The datasource names file `i` writes to.
pub open spec fn upds_of(fs: Seq<SourceFile>, i: int) -> Seq<Seq<char>> {
    match spec_parse_file(fs[i].content@) {
        Ok(f) => Seq::new(f.persists.len(), |y: int| f.persists[y].target),
        Err(_) => Seq::empty(),
    }
}

/// Node `k`'s import targets, renumbered to positions in `nodes`.
pub open spec fn local_succ(fs: Seq<SourceFile>, nodes: Seq<usize>, k: int) -> Seq<usize> {
    Seq::new(
        node_succ(fs, nodes[k] as int).len(),
        |x: int| pos_of(nodes, node_succ(fs, nodes[k] as int)[x], 0) as usize,
    )
}

/// The dependency facts of the discovered nodes.
pub open spec fn node_facts(fs: Seq<SourceFile>, nodes: Seq<usize>) -> Seq<NodeFactsV> {
    Seq::new(
        nodes.len(),
        |k: int| NodeFactsV {
            imports: local_succ(fs, nodes, k),
            declares: decls_of(fs, nodes[k] as int),
            updates: upds_of(fs, nodes[k] as int),
        },
    )
}

/// Membership of the discovered node list: exactly the reachable files.
pub proof fn lemma_nodes_member(fs: Seq<SourceFile>, r: usize, i: int)
    requires
        0 <= i <= fs.len(),
        fs.len() <= usize::MAX,
    ensures
        forall|j: usize|
            #[trigger] spec_nodes_from(fs, r, i).contains(j) <==> (i <= j < fs.len() && reaches(
                snap_succ(fs),
                r,
                j,
            )),
    decreases fs.len() - i,
{
    if i < fs.len() {
        lemma_nodes_member(fs, r, i + 1);
        assert forall|j: usize|
            #[trigger] spec_nodes_from(fs, r, i).contains(j) implies (i <= j < fs.len()
            && reaches(snap_succ(fs), r, j)) by {
            let p = choose|p: int|
                0 <= p < spec_nodes_from(fs, r, i).len() && spec_nodes_from(fs, r, i)[p] == j;
            if reaches(snap_succ(fs), r, i as usize) {
                if p > 0 {
                    assert(spec_nodes_from(fs, r, i + 1)[p - 1] == j);
                    assert(spec_nodes_from(fs, r, i + 1).contains(j));
                }
            } else {
                assert(spec_nodes_from(fs, r, i + 1)[p] == j);
                assert(spec_nodes_from(fs, r, i + 1).contains(j));
            }
        }
        assert forall|j: usize|
            (i <= j < fs.len() && reaches(snap_succ(fs), r, j)) implies #[trigger] spec_nodes_from(
            fs,
            r,
            i,
        ).contains(j) by {
            if i == j {
                assert(spec_nodes_from(fs, r, i)[0] == j);
            } else {
                assert(spec_nodes_from(fs, r, i + 1).contains(j));
                let p = choose|p: int|
                    0 <= p < spec_nodes_from(fs, r, i + 1).len() && (#[trigger] spec_nodes_from(
                        fs,
                        r,
                        i + 1,
                    )[p]) == j;
                if reaches(snap_succ(fs), r, i as usize) {
                    assert(spec_nodes_from(fs, r, i)[p + 1] == j);
                } else {
                    assert(spec_nodes_from(fs, r, i)[p] == j);
                }
            }
        }
    }
}

// ---------------------------------------------------------------------------
// The result object, in specification.
// ---------------------------------------------------------------------------

/// Relied-on name for `pathdiff::diff_paths`: the relative path from
/// `base` to `path`, a lexical function of the two paths alone.
pub uninterp spec fn rel_path_of(path: Seq<char>, base: Seq<char>) -> Option<Seq<char>>;

/// The relative path shown for a file: the difference to the root's
/// directory, or the path itself when no difference exists.
pub open spec fn rel_display(path: Seq<char>, base: Seq<char>) -> Seq<char> {
    match rel_path_of(path, base) {
        Some(q) => q,
        None => path,
    }
}

/// Relies on `pathdiff::diff_paths`: constructs the relative path from
/// `base` to `path`, lexically.
#[verifier::external_body]
fn diff_paths(path: &str, base: &str) -> (r: Option<String>)
    ensures
        match (r, rel_path_of(path@, base@)) {
            (Some(p), Some(q)) => p@ == q,
            (None, None) => true,
            _ => false,
        },
{
    match pathdiff::diff_paths(std::path::Path::new(path), std::path::Path::new(base)) {
        Some(p) => Some(p.to_string_lossy().into_owned()),
        None => None,
    }
}

/// One import as the result reports it.
#[derive(Debug, Clone)]
pub struct ImportInfo {
    pub raw_path: String,
    pub alias: Option<String>,
    pub resolved_path: Option<String>,
    pub is_stdlib: bool,
}

pub ghost struct ImportInfoV {
    pub raw_path: Seq<char>,
    pub alias: Option<Seq<char>>,
    pub resolved_path: Option<Seq<char>>,
    pub is_stdlib: bool,
}

impl View for ImportInfo {
    type V = ImportInfoV;

    open spec fn view(&self) -> ImportInfoV {
        ImportInfoV {
            raw_path: self.raw_path@,
            alias: match self.alias {
                Some(ref a) => Some(a@),
                None => None,
            },
            resolved_path: match self.resolved_path {
                Some(ref p) => Some(p@),
                None => None,
            },
            is_stdlib: self.is_stdlib,
        }
    }
}

/// One datasource declaration as the result reports it.
#[derive(Debug, Clone)]
pub struct DatasourceInfo {
    pub name: String,
}

impl View for DatasourceInfo {
    type V = Seq<char>;

    open spec fn view(&self) -> Seq<char> {
        self.name@
    }
}

/// One persist statement as the result reports it.
#[derive(Debug, Clone)]
pub struct PersistInfo {
    pub mode: String,
    pub target_datasource: String,
}

pub ghost struct PersistInfoV {
    pub mode: Seq<char>,
    pub target: Seq<char>,
}

impl View for PersistInfo {
    type V = PersistInfoV;

    open spec fn view(&self) -> PersistInfoV {
        PersistInfoV { mode: self.mode@, target: self.target_datasource@ }
    }
}

/// One file of the dependency graph.
#[derive(Debug, Clone)]
pub struct FileNode {
    pub path: String,
    pub relative_path: String,
    pub imports: Vec<ImportInfo>,
    pub datasources: Vec<DatasourceInfo>,
    pub persists: Vec<PersistInfo>,
    pub import_dependencies: Vec<String>,
    pub updates_datasources: Vec<String>,
    pub declares_datasources: Vec<String>,
    pub depends_on_datasources: Vec<String>,
}

pub ghost struct FileNodeV {
    pub path: Seq<char>,
    pub relative_path: Seq<char>,
    pub imports: Seq<ImportInfoV>,
    pub datasources: Seq<Seq<char>>,
    pub persists: Seq<PersistInfoV>,
    pub import_dependencies: Seq<Seq<char>>,
    pub updates_datasources: Seq<Seq<char>>,
    pub declares_datasources: Seq<Seq<char>>,
    pub depends_on_datasources: Seq<Seq<char>>,
}

impl View for FileNode {
    type V = FileNodeV;

    open spec fn view(&self) -> FileNodeV {
        FileNodeV {
            path: self.path@,
            relative_path: self.relative_path@,
            imports: Seq::new(self.imports@.len(), |x: int| self.imports@[x]@),
            datasources: Seq::new(self.datasources@.len(), |x: int| self.datasources@[x]@),
            persists: Seq::new(self.persists@.len(), |x: int| self.persists@[x]@),
            import_dependencies: strs_view(self.import_dependencies@),
            updates_datasources: strs_view(self.updates_datasources@),
            declares_datasources: strs_view(self.declares_datasources@),
            depends_on_datasources: strs_view(self.depends_on_datasources@),
        }
    }
}

/// The result of a resolution.
#[derive(Debug, Clone)]
pub struct DependencyGraph {
    /// The canonical root path.
    pub root: String,
    /// Every discovered file in execution order: dependencies first.
    pub order: Vec<String>,
    /// One entry per discovered file, in discovery order.
    pub files: Vec<FileNode>,
    /// Datasource name to its authoritative (first seen) declaring file.
    pub datasource_declarations: Vec<(String, String)>,
    /// Datasource name to the files that write it, in discovery order.
    pub datasource_updaters: Vec<(String, Vec<String>)>,
    /// Non-fatal observations.
    pub warnings: Vec<Warning>,
}

/// The resolver itself. Each call owns its whole transient state, so
/// concurrent resolutions are independent.
pub struct ImportResolver {}

/// The keyword of a persist mode.
pub open spec fn mode_str(m: crate::parser::PersistMode) -> Seq<char> {
    match m {
        crate::parser::PersistMode::Append => "append"@,
        crate::parser::PersistMode::Overwrite => "overwrite"@,
        crate::parser::PersistMode::Persist => "persist"@,
    }
}

/// The reported imports of file `gi`, with the snapshot file each one
/// resolves to. A reserved-namespace import never carries a resolved
/// path.
pub open spec fn spec_import_infos(fs: Seq<SourceFile>, gi: int) -> Seq<ImportInfoV> {
    match spec_parse_file(fs[gi].content@) {
        Ok(f) => Seq::new(
            f.imports.len(),
            |x: int| ImportInfoV {
                raw_path: f.imports[x].raw_path,
                alias: f.imports[x].alias,
                resolved_path: match import_target(fs, dir_of(fs[gi].path@), f.imports[x]) {
                    Some(j) => Some(fs[j].path@),
                    None => None,
                },
                is_stdlib: f.imports[x].is_stdlib,
            },
        ),
        Err(_) => Seq::empty(),
    }
}

/// The reported persist statements of file `gi`.
pub open spec fn spec_persist_infos(fs: Seq<SourceFile>, gi: int) -> Seq<PersistInfoV> {
    match spec_parse_file(fs[gi].content@) {
        Ok(f) => Seq::new(
            f.persists.len(),
            |y: int| PersistInfoV { mode: mode_str(f.persists[y].mode), target: f.persists[y].target },
        ),
        Err(_) => Seq::empty(),
    }
}

// The datasource names a node depends on through its imports, collected
// in ascending node order, first occurrence kept, skipping names the
// node declares itself.

pub open spec fn dep_names(
    facts: Seq<NodeFactsV>,
    v: int,
    g: int,
    y: int,
    acc: Seq<Seq<char>>,
) -> Seq<Seq<char>>
    decreases facts[g].declares.len() - y when 0 <= y <= facts[g].declares.len()
{
    if y >= facts[g].declares.len() {
        acc
    } else {
        let nm = facts[g].declares[y];
        if acc.contains(nm) || facts[v].declares.contains(nm) {
            dep_names(facts, v, g, y + 1, acc)
        } else {
            dep_names(facts, v, g, y + 1, acc.push(nm))
        }
    }
}

pub open spec fn dep_nodes(facts: Seq<NodeFactsV>, v: int, g: int, acc: Seq<Seq<char>>) -> Seq<
    Seq<char>,
>
    decreases facts.len() - g when 0 <= g <= facts.len()
{
    if g >= facts.len() {
        acc
    } else if g != v && reaches_plus(imports_adj(facts), v as usize, g as usize) {
        dep_nodes(facts, v, g + 1, dep_names(facts, v, g, 0, acc))
    } else {
        dep_nodes(facts, v, g + 1, acc)
    }
}

pub open spec fn spec_depends(facts: Seq<NodeFactsV>, v: int) -> Seq<Seq<char>> {
    dep_nodes(facts, v, 0, Seq::empty())
}

/// What the graph reports for the `k`-th discovered file.
pub open spec fn spec_file_node(
    fs: Seq<SourceFile>,
    nodes: Seq<usize>,
    facts: Seq<NodeFactsV>,
    base: Seq<char>,
    k: int,
) -> FileNodeV {
    let gi = nodes[k] as int;
    FileNodeV {
        path: fs[gi].path@,
        relative_path: rel_display(fs[gi].path@, base),
        imports: spec_import_infos(fs, gi),
        datasources: decls_of(fs, gi),
        persists: spec_persist_infos(fs, gi),
        import_dependencies: Seq::new(
            node_succ(fs, gi).len(),
            |x: int| fs[node_succ(fs, gi)[x] as int].path@,
        ),
        updates_datasources: upds_of(fs, gi),
        declares_datasources: decls_of(fs, gi),
        depends_on_datasources: spec_depends(facts, k),
    }
}

// Datasource name to authoritative declarer: first seen over nodes in
// discovery order.

pub open spec fn has_decl(acc: Seq<(Seq<char>, int)>, nm: Seq<char>) -> bool {
    exists|p: int| 0 <= p < acc.len() && (#[trigger] acc[p]).0 == nm
}

pub open spec fn decl_names(
    facts: Seq<NodeFactsV>,
    k: int,
    y: int,
    acc: Seq<(Seq<char>, int)>,
) -> Seq<(Seq<char>, int)>
    decreases facts[k].declares.len() - y when 0 <= y <= facts[k].declares.len()
{
    if y >= facts[k].declares.len() {
        acc
    } else {
        let nm = facts[k].declares[y];
        if has_decl(acc, nm) {
            decl_names(facts, k, y + 1, acc)
        } else {
            decl_names(facts, k, y + 1, acc.push((nm, k)))
        }
    }
}

pub open spec fn decl_nodes(facts: Seq<NodeFactsV>, k: int, acc: Seq<(Seq<char>, int)>) -> Seq<
    (Seq<char>, int),
>
    decreases facts.len() - k when 0 <= k <= facts.len()
{
    if k >= facts.len() {
        acc
    } else {
        decl_nodes(facts, k + 1, decl_names(facts, k, 0, acc))
    }
}

pub open spec fn spec_decls(facts: Seq<NodeFactsV>) -> Seq<(Seq<char>, int)> {
    decl_nodes(facts, 0, Seq::empty())
}

// Datasource name to its updater nodes, in discovery order.

pub open spec fn upd_pos(acc: Seq<(Seq<char>, Seq<int>)>, nm: Seq<char>, i: int) -> int
    decreases acc.len() - i when 0 <= i <= acc.len()
{
    if i >= acc.len() {
        acc.len() as int
    } else if acc[i].0 == nm {
        i
    } else {
        upd_pos(acc, nm, i + 1)
    }
}

pub open spec fn upd_names(
    facts: Seq<NodeFactsV>,
    k: int,
    y: int,
    acc: Seq<(Seq<char>, Seq<int>)>,
) -> Seq<(Seq<char>, Seq<int>)>
    decreases facts[k].updates.len() - y when 0 <= y <= facts[k].updates.len()
{
    if y >= facts[k].updates.len() {
        acc
    } else {
        let nm = facts[k].updates[y];
        let p = upd_pos(acc, nm, 0);
        if p < acc.len() {
            upd_names(facts, k, y + 1, acc.update(p, (nm, acc[p].1.push(k))))
        } else {
            upd_names(facts, k, y + 1, acc.push((nm, seq![k])))
        }
    }
}

pub open spec fn upd_nodes(
    facts: Seq<NodeFactsV>,
    k: int,
    acc: Seq<(Seq<char>, Seq<int>)>,
) -> Seq<(Seq<char>, Seq<int>)>
    decreases facts.len() - k when 0 <= k <= facts.len()
{
    if k >= facts.len() {
        acc
    } else {
        upd_nodes(facts, k + 1, upd_names(facts, k, 0, acc))
    }
}

pub open spec fn spec_upds(facts: Seq<NodeFactsV>) -> Seq<(Seq<char>, Seq<int>)> {
    upd_nodes(facts, 0, Seq::empty())
}

/// The execution order, as paths: Kahn's sort over the reconciled edges,
/// node positions mapped back to snapshot paths.
pub open spec fn spec_order(fs: Seq<SourceFile>, nodes: Seq<usize>, facts: Seq<NodeFactsV>) -> Seq<
    Seq<char>,
> {
    Seq::new(
        spec_kahn(nodes.len() as int, spec_edges(facts)).len(),
        |q: int| fs[nodes[spec_kahn(nodes.len() as int, spec_edges(facts))[q] as int] as int].path@,
    )
}

/// Everything the graph promises, given root index `ri`.
pub open spec fn graph_ok(root: Seq<char>, fs: Seq<SourceFile>, ri: usize, g: DependencyGraph) -> bool {
    let nodes = spec_nodes(fs, ri);
    let facts = node_facts(fs, nodes);
    let ord = spec_kahn(nodes.len() as int, spec_edges(facts));
    &&& g.root@ == root
    &&& strs_view(g.order@) == spec_order(fs, nodes, facts)
    &&& g.files@.len() == nodes.len()
    &&& forall|k: int| 0 <= k < nodes.len() ==> (#[trigger] g.files@[k])@ == spec_file_node(
        fs,
        nodes,
        facts,
        dir_of(root),
        k,
    )
    &&& Seq::new(g.datasource_declarations@.len(), |p: int| (g.datasource_declarations@[p].0@,
    g.datasource_declarations@[p].1@)) == Seq::new(spec_decls(facts).len(), |p: int| (spec_decls(
        facts,
    )[p].0, fs[nodes[spec_decls(facts)[p].1] as int].path@))
    &&& Seq::new(g.datasource_updaters@.len(), |p: int| (g.datasource_updaters@[p].0@, strs_view(
        g.datasource_updaters@[p].1@,
    ))) == Seq::new(spec_upds(facts).len(), |p: int| (spec_upds(facts)[p].0, Seq::new(spec_upds(
        facts,
    )[p].1.len(), |q: int| fs[nodes[spec_upds(facts)[p].1[q]] as int].path@)))
    &&& forall|kk: int, q: int|
        0 <= kk < spec_edges(facts).len() && 0 <= q < ord.len() && (#[trigger] spec_edges(
            facts,
        )[kk]).1 == (#[trigger] ord[q]) ==> exists|p: int| 0 <= p < q && ord[p] == spec_edges(
            facts,
        )[kk].0
}

/// The whole contract of [`ImportResolver::resolve`]: which case of the
/// input yields which result, and what the result holds.
pub open spec fn resolve_post(
    root: Seq<char>,
    fs: Seq<SourceFile>,
    r: Result<DependencyGraph, ResolveError>,
) -> bool {
    match lookup_path(fs, root) {
        None => match r {
            Err(ResolveError::IoError { path }) => path@ == root,
            _ => false,
        },
        Some(ri) => match first_bad_from(fs, ri as usize, 0) {
            Some(b) => match r {
                Err(ResolveError::ParseError { path, source }) => path@ == fs[b].path@ && (
                match spec_parse_file(fs[b].content@) {
                    Err(e) => source == e,
                    Ok(_) => false,
                }),
                _ => false,
            },
            None => {
                let nodes = spec_nodes(fs, ri as usize);
                let facts = node_facts(fs, nodes);
                let ord = spec_kahn(nodes.len() as int, spec_edges(facts));
                if ord.len() == nodes.len() {
                    match r {
                        Ok(g) => graph_ok(root, fs, ri as usize, g),
                        _ => false,
                    }
                } else {
                    match r {
                        Err(ResolveError::CircularDependency { cycle }) => cycle@.len() > 0
                            && strs_view(cycle@) == Seq::new(
                            remaining_nodes(nodes.len() as int, ord, 0).len(),
                            |p: int| fs[nodes[remaining_nodes(nodes.len() as int, ord, 0)[p] as int] as int].path@,
                        ),
                        _ => false,
                    }
                }
            },
        },
    }
}

// ---------------------------------------------------------------------------
// Executable building blocks.
// ---------------------------------------------------------------------------

/// The first snapshot entry whose path is `p`.
pub(crate) fn lookup(files: &Vec<SourceFile>, p: &String) -> (r: Option<usize>)
    ensures
        match (r, lookup_path(files@, p@)) {
            (Some(a), Some(b)) => a as int == b && a < files@.len(),
            (None, None) => true,
            _ => false,
        },
{
    let mut i: usize = 0;
    while i < files.len()
        invariant
            i <= files@.len(),
            lookup_from(files@, p@, 0) == lookup_from(files@, p@, i as int),
        decreases files@.len() - i,
    {
        if files[i].path.eq(p) {
            return Some(i);
        }
        i += 1;
    }
    None
}

/// The directory a file's imports resolve against.
fn dir_of_x(path: &String) -> (d: String)
    ensures
        d@ == dir_of(path@),
{
    let v = to_char_vec(path.as_str());
    match crate::paths::parent_x(&v) {
        Some(p) => {
            let n = p.len();
            let s = seg_string(&p, 0, n);
            proof {
                assert(p@.subrange(0, n as int) =~= p@);
            }
            s
        },
        None => ".".to_owned(),
    }
}

/// The relative path shown for a file.
fn relative_display(path: &String, base: &String) -> (r: String)
    ensures
        r@ == rel_display(path@, base@),
{
    match diff_paths(path.as_str(), base.as_str()) {
        Some(p) => p,
        None => path.clone(),
    }
}

/// A copy of a name list.
pub(crate) fn clone_strs(v: &Vec<String>) -> (r: Vec<String>)
    ensures
        strs_view(r@) == strs_view(v@),
        r@.len() == v@.len(),
{
    let mut r: Vec<String> = Vec::new();
    let mut i: usize = 0;
    while i < v.len()
        invariant
            i <= v@.len(),
            r@.len() == i,
            forall|j: int| 0 <= j < i ==> (#[trigger] r@[j])@ == v@[j]@,
        decreases v@.len() - i,
    {
        r.push(v[i].clone());
        i += 1;
    }
    proof {
        assert(strs_view(r@) =~= strs_view(v@));
    }
    r
}

/// The import graph of the snapshot, one target list per file.
pub(crate) fn build_succ(files: &Vec<SourceFile>, parsed: &Vec<Result<ParsedFile, ParseError>>) -> (succ: Vec<
    Vec<usize>,
>)
    requires
        parsed@.len() == files@.len(),
        forall|i: int|
            0 <= i < files@.len() ==> parse_result_matches(
                #[trigger] parsed@[i],
                spec_parse_file(files@[i].content@),
            ),
    ensures
        succ@.len() == files@.len(),
        forall|i: int| 0 <= i < files@.len() ==> (#[trigger] succ@[i])@ == node_succ(files@, i),
{
    let ghost fsv = files@;
    let n = files.len();
    let mut succ: Vec<Vec<usize>> = Vec::new();
    let mut i: usize = 0;
    while i < n
        invariant
            i <= n,
            n == fsv.len(),
            fsv == files@,
            parsed@.len() == n,
            forall|j: int|
                0 <= j < n ==> parse_result_matches(
                    #[trigger] parsed@[j],
                    spec_parse_file(fsv[j].content@),
                ),
            succ@.len() == i,
            forall|j: int| 0 <= j < i ==> (#[trigger] succ@[j])@ == node_succ(fsv, j),
        decreases n - i,
    {
        match &parsed[i] {
            Err(_) => {
                let s: Vec<usize> = Vec::new();
                proof {
                    assert(s@ =~= node_succ(fsv, i as int));
                }
                succ.push(s);
            },
            Ok(p) => {
                let ghost f = spec_parse_file(fsv[i as int].content@)->Ok_0;
                proof {
                    assert(p@ == f);
                }
                let dir = dir_of_x(&files[i].path);
                let mut s: Vec<usize> = Vec::new();
                let mut k: usize = 0;
                let nk = p.imports.len();
                while k < nk
                    invariant
                        k <= nk,
                        nk == p.imports@.len(),
                        p@ == f,
                        nk == f.imports.len(),
                        fsv == files@,
                        i < fsv.len(),
                        dir@ == dir_of(fsv[i as int].path@),
                        succ_from(fsv, dir@, f.imports, 0) == s@ + succ_from(
                            fsv,
                            dir@,
                            f.imports,
                            k as int,
                        ),
                    decreases nk - k,
                {
                    proof {
                        assert(p.imports@[k as int]@ == f.imports[k as int]);
                    }
                    let ghost s0 = s@;
                    match p.imports[k].resolve(dir.as_str()) {
                        Some(cand) => {
                            match lookup(files, &cand) {
                                Some(j) => {
                                    s.push(j);
                                    proof {
                                        assert(import_target(fsv, dir@, f.imports[k as int])
                                            == Some(j as int));
                                        assert((s0 + seq![j]) + succ_from(
                                            fsv,
                                            dir@,
                                            f.imports,
                                            k as int + 1,
                                        ) =~= s0 + (seq![j] + succ_from(
                                            fsv,
                                            dir@,
                                            f.imports,
                                            k as int + 1,
                                        )));
                                    }
                                },
                                None => {
                                    proof {
                                        assert(import_target(fsv, dir@, f.imports[k as int])
                                            is None);
                                        assert(Seq::<usize>::empty() + succ_from(
                                            fsv,
                                            dir@,
                                            f.imports,
                                            k as int + 1,
                                        ) =~= succ_from(fsv, dir@, f.imports, k as int + 1));
                                    }
                                },
                            }
                        },
                        None => {
                            proof {
                                assert(import_target(fsv, dir@, f.imports[k as int]) is None);
                                assert(Seq::<usize>::empty() + succ_from(
                                    fsv,
                                    dir@,
                                    f.imports,
                                    k as int + 1,
                                ) =~= succ_from(fsv, dir@, f.imports, k as int + 1));
                            }
                        },
                    }
                    k += 1;
                }
                proof {
                    assert(succ_from(fsv, dir@, f.imports, nk as int) =~= Seq::<usize>::empty());
                    assert(s@ + Seq::<usize>::empty() =~= s@);
                    assert(s@ == node_succ(fsv, i as int));
                }
                succ.push(s);
            },
        }
        i += 1;
    }
    succ
}

/// The first position of `t` in `nodes` (the length when absent).
fn pos_scan(nodes: &Vec<usize>, t: usize) -> (p: usize)
    ensures
        p as int == pos_of(nodes@, t, 0),
{
    let mut p: usize = 0;
    while p < nodes.len()
        invariant
            p <= nodes@.len(),
            pos_of(nodes@, t, 0) == pos_of(nodes@, t, p as int),
        decreases nodes@.len() - p,
    {
        if nodes[p] == t {
            return p;
        }
        p += 1;
    }
    p
}

/// The dependency facts of the discovered nodes.
fn build_facts(
    files: &Vec<SourceFile>,
    parsed: &Vec<Result<ParsedFile, ParseError>>,
    succ: &Vec<Vec<usize>>,
    nodes: &Vec<usize>,
) -> (nf: Vec<NodeFacts>)
    requires
        parsed@.len() == files@.len(),
        succ@.len() == files@.len(),
        forall|i: int|
            0 <= i < files@.len() ==> parse_result_matches(
                #[trigger] parsed@[i],
                spec_parse_file(files@[i].content@),
            ),
        forall|i: int| 0 <= i < files@.len() ==> (#[trigger] succ@[i])@ == node_succ(files@, i),
        forall|k: int| 0 <= k < nodes@.len() ==> (#[trigger] nodes@[k]) < files@.len(),
    ensures
        nf@.len() == nodes@.len(),
        facts_view(nf@) == node_facts(files@, nodes@),
{
    let ghost fsv = files@;
    let m = nodes.len();
    let mut nf: Vec<NodeFacts> = Vec::new();
    let mut k: usize = 0;
    while k < m
        invariant
            k <= m,
            m == nodes@.len(),
            fsv == files@,
            parsed@.len() == fsv.len(),
            succ@.len() == fsv.len(),
            forall|i: int|
                0 <= i < fsv.len() ==> parse_result_matches(
                    #[trigger] parsed@[i],
                    spec_parse_file(fsv[i].content@),
                ),
            forall|i: int| 0 <= i < fsv.len() ==> (#[trigger] succ@[i])@ == node_succ(fsv, i),
            forall|j: int| 0 <= j < nodes@.len() ==> (#[trigger] nodes@[j]) < fsv.len(),
            nf@.len() == k,
            forall|j: int| 0 <= j < k ==> (#[trigger] nf@[j])@ == node_facts(fsv, nodes@)[j],
        decreases m - k,
    {
        let gi = nodes[k];
        // local import targets
        let mut imp: Vec<usize> = Vec::new();
        let snum = succ[gi].len();
        let mut x: usize = 0;
        while x < snum
            invariant
                x <= snum,
                gi < fsv.len(),
                succ@.len() == fsv.len(),
                snum == succ@[gi as int]@.len(),
                forall|i: int| 0 <= i < fsv.len() ==> (#[trigger] succ@[i])@ == node_succ(fsv, i),
                imp@.len() == x,
                forall|j: int|
                    0 <= j < x ==> (#[trigger] imp@[j]) as int == pos_of(
                        nodes@,
                        node_succ(fsv, gi as int)[j],
                        0,
                    ),
            decreases snum - x,
        {
            let t = succ[gi][x];
            let p = pos_scan(nodes, t);
            imp.push(p);
            x += 1;
        }
        // declared and written names
        let mut declares: Vec<String> = Vec::new();
        let mut updates: Vec<String> = Vec::new();
        match &parsed[gi] {
            Err(_) => {},
            Ok(pf) => {
                let ghost f = spec_parse_file(fsv[gi as int].content@)->Ok_0;
                proof {
                    assert(pf@ == f);
                }
                let nd = pf.datasources.len();
                let mut y: usize = 0;
                while y < nd
                    invariant
                        y <= nd,
                        pf@ == f,
                        nd == pf.datasources@.len(),
                        nd == f.datasources.len(),
                        declares@.len() == y,
                        forall|j: int| 0 <= j < y ==> (#[trigger] declares@[j])@ == f.datasources[j],
                    decreases nd - y,
                {
                    proof {
                        assert(pf.datasources@[y as int]@ == f.datasources[y as int]);
                    }
                    declares.push(pf.datasources[y].name.clone());
                    y += 1;
                }
                let np = pf.persists.len();
                let mut y2: usize = 0;
                while y2 < np
                    invariant
                        y2 <= np,
                        pf@ == f,
                        np == pf.persists@.len(),
                        np == f.persists.len(),
                        updates@.len() == y2,
                        forall|j: int|
                            0 <= j < y2 ==> (#[trigger] updates@[j])@ == f.persists[j].target,
                    decreases np - y2,
                {
                    proof {
                        assert(pf.persists@[y2 as int]@ == f.persists[y2 as int]);
                    }
                    updates.push(pf.persists[y2].target_datasource.clone());
                    y2 += 1;
                }
            },
        }
        let item = NodeFacts { imports: imp, declares, updates };
        proof {
            assert(item@.imports =~= local_succ(fsv, nodes@, k as int));
            assert(item@.declares =~= decls_of(fsv, gi as int));
            assert(item@.updates =~= upds_of(fsv, gi as int));
            assert(item@ == node_facts(fsv, nodes@)[k as int]);
        }
        nf.push(item);
        k += 1;
    }
    proof {
        assert(facts_view(nf@) =~= node_facts(fsv, nodes@));
    }
    nf
}

pub proof fn lemma_first_bad_from(fs: Seq<SourceFile>, r: usize, i: int)
    requires
        0 <= i <= fs.len(),
    ensures
        match first_bad_from(fs, r, i) {
            None => forall|j: int|
                i <= j < fs.len() && reaches(snap_succ(fs), r, j as usize) ==> !((
                #[trigger] spec_parse_file(fs[j].content@)) is Err),
            Some(b) => i <= b < fs.len() && reaches(snap_succ(fs), r, b as usize)
                && spec_parse_file(fs[b].content@) is Err,
        },
    decreases fs.len() - i,
{
    if i < fs.len() && !(reaches(snap_succ(fs), r, i as usize) && spec_parse_file(
        fs[i].content@,
    ) is Err) {
        lemma_first_bad_from(fs, r, i + 1);
    }
}

pub proof fn lemma_nodes_len(fs: Seq<SourceFile>, r: usize, i: int)
    requires
        0 <= i <= fs.len(),
    ensures
        spec_nodes_from(fs, r, i).len() <= fs.len() - i,
    decreases fs.len() - i,
{
    if i < fs.len() {
        lemma_nodes_len(fs, r, i + 1);
    }
}

/// Every discovered node is a snapshot index.
pub proof fn lemma_nodes_bounds(fs: Seq<SourceFile>, r: usize)
    requires
        fs.len() <= usize::MAX,
    ensures
        forall|k: int|
            0 <= k < spec_nodes(fs, r).len() ==> (#[trigger] spec_nodes(fs, r)[k]) < fs.len(),
{
    lemma_nodes_member(fs, r, 0);
    assert forall|k: int|
        0 <= k < spec_nodes(fs, r).len() implies (#[trigger] spec_nodes(fs, r)[k]) < fs.len() by {
        assert(spec_nodes(fs, r).contains(spec_nodes(fs, r)[k]));
    }
}

/// The discovered facts are well-formed: every local import target is a
/// discovered node.
pub proof fn lemma_facts_wf(fs: Seq<SourceFile>, r: usize)
    requires
        fs.len() <= usize::MAX,
        r < fs.len(),
    ensures
        crate::edges::facts_wf(node_facts(fs, spec_nodes(fs, r))),
{
    let nodes = spec_nodes(fs, r);
    let facts = node_facts(fs, nodes);
    lemma_nodes_member(fs, r, 0);
    lemma_nodes_len(fs, r, 0);
    lemma_snap_succ_wf(fs);
    assert forall|k: int, x: int|
        0 <= k < facts.len() && 0 <= x < facts[k].imports.len() implies (
    #[trigger] facts[k].imports[x]) < facts.len() by {
        let gi = nodes[k] as int;
        assert(nodes.contains(nodes[k]));
        assert(reaches(snap_succ(fs), r, nodes[k]));
        let t = node_succ(fs, gi)[x];
        assert(snap_succ(fs)[gi] == node_succ(fs, gi));
        assert(snap_succ(fs)[gi].contains(t));
        crate::graph::lemma_reaches_step(snap_succ(fs), r, nodes[k], t);
        assert(t < fs.len());
        assert(nodes.contains(t));
        lemma_pos_of(nodes, t, 0);
        assert(facts[k].imports[x] as int == pos_of(nodes, t, 0));
    }
}

/// The datasource names a node can use, in deterministic order.
fn build_depends(nf: &Vec<NodeFacts>, rp: &Vec<Vec<bool>>, k: usize) -> (r: Vec<String>)
    requires
        k < nf@.len(),
        rp@.len() == nf@.len(),
        forall|a: int| 0 <= a < rp@.len() ==> (#[trigger] rp@[a])@.len() == nf@.len(),
        forall|a: usize, b: usize|
            a < nf@.len() && b < nf@.len() ==> ((#[trigger] rp@[a as int]@[b as int])
                <==> reaches_plus(imports_adj(facts_view(nf@)), a, b)),
    ensures
        strs_view(r@) == spec_depends(facts_view(nf@), k as int),
{
    let ghost facts = facts_view(nf@);
    let n = nf.len();
    let mut acc: Vec<String> = Vec::new();
    proof {
        assert(strs_view(acc@) =~= Seq::<Seq<char>>::empty());
    }
    let mut g: usize = 0;
    while g < n
        invariant
            g <= n,
            k < n,
            n == nf@.len(),
            facts == facts_view(nf@),
            facts.len() == n,
            rp@.len() == n,
            forall|a: int| 0 <= a < rp@.len() ==> (#[trigger] rp@[a])@.len() == n,
            forall|a: usize, b: usize|
                a < n && b < n ==> ((#[trigger] rp@[a as int]@[b as int]) <==> reaches_plus(
                    imports_adj(facts),
                    a,
                    b,
                )),
            spec_depends(facts, k as int) == dep_nodes(facts, k as int, g as int, strs_view(acc@)),
        decreases n - g,
    {
        if g != k && rp[k][g] {
            let ghost acc_in = strs_view(acc@);
            let nd = nf[g].declares.len();
            let mut y: usize = 0;
            while y < nd
                invariant
                    y <= nd,
                    g < n,
                    k < n,
                    g != k,
                    n == nf@.len(),
                    facts == facts_view(nf@),
                    facts.len() == n,
                    nd == facts[g as int].declares.len(),
                    dep_names(facts, k as int, g as int, 0, acc_in) == dep_names(
                        facts,
                        k as int,
                        g as int,
                        y as int,
                        strs_view(acc@),
                    ),
                decreases nd - y,
            {
                proof {
                    assert(nf@[g as int]@ == facts[g as int]);
                    assert(nf@[k as int]@ == facts[k as int]);
                }
                let nm = &nf[g].declares[y];
                proof {
                    assert(nm@ == facts[g as int].declares[y as int]);
                }
                if !contains_name(&acc, nm) && !contains_name(&nf[k].declares, nm) {
                    let ghost acc0 = strs_view(acc@);
                    acc.push(nm.clone());
                    proof {
                        assert(strs_view(acc@) =~= acc0.push(nm@));
                    }
                }
                y += 1;
            }
        } else {
        }
        g += 1;
    }
    proof {
        assert(dep_nodes(facts, k as int, n as int, strs_view(acc@)) == strs_view(acc@));
    }
    acc
}

/// The view of declaration entries.
pub open spec fn decls_view(s: Seq<(String, usize)>) -> Seq<(Seq<char>, int)> {
    Seq::new(s.len(), |p: int| (s[p].0@, s[p].1 as int))
}

/// Datasource name to first declaring node, first seen wins.
fn build_decl_entries(nf: &Vec<NodeFacts>) -> (r: Vec<(String, usize)>)
    ensures
        decls_view(r@) == spec_decls(facts_view(nf@)),
{
    let ghost facts = facts_view(nf@);
    let n = nf.len();
    let mut acc: Vec<(String, usize)> = Vec::new();
    proof {
        assert(decls_view(acc@) =~= Seq::<(Seq<char>, int)>::empty());
    }
    let mut k: usize = 0;
    while k < n
        invariant
            k <= n,
            n == nf@.len(),
            facts == facts_view(nf@),
            facts.len() == n,
            spec_decls(facts) == decl_nodes(facts, k as int, decls_view(acc@)),
        decreases n - k,
    {
        let ghost acc_in = decls_view(acc@);
        let nd = nf[k].declares.len();
        let mut y: usize = 0;
        while y < nd
            invariant
                y <= nd,
                k < n,
                n == nf@.len(),
                facts == facts_view(nf@),
                facts.len() == n,
                nd == facts[k as int].declares.len(),
                decl_names(facts, k as int, 0, acc_in) == decl_names(
                    facts,
                    k as int,
                    y as int,
                    decls_view(acc@),
                ),
            decreases nd - y,
        {
            proof {
                assert(nf@[k as int]@ == facts[k as int]);
            }
            let nm = &nf[k].declares[y];
            proof {
                assert(nm@ == facts[k as int].declares[y as int]);
            }
            // is the name already recorded?
            let mut p: usize = 0;
            while p < acc.len() && !acc[p].0.eq(nm)
                invariant
                    p <= acc@.len(),
                    forall|q: int| 0 <= q < p ==> (#[trigger] decls_view(acc@)[q]).0 != nm@,
                decreases acc@.len() - p,
            {
                proof {
                    assert((decls_view(acc@)[p as int]).0 == acc@[p as int].0@);
                }
                p += 1;
            }
            let seen = p < acc.len();
            proof {
                if seen {
                    assert((decls_view(acc@)[p as int]).0 == nm@);
                    assert(has_decl(decls_view(acc@), nm@));
                } else if has_decl(decls_view(acc@), nm@) {
                    let q = choose|q: int|
                        0 <= q < decls_view(acc@).len() && (#[trigger] decls_view(acc@)[q]).0
                            == nm@;
                    assert(false);
                }
            }
            if !seen {
                let ghost acc0 = decls_view(acc@);
                acc.push((nm.clone(), k));
                proof {
                    assert(decls_view(acc@) =~= acc0.push((nm@, k as int)));
                }
            }
            y += 1;
        }
        k += 1;
    }
    proof {
        assert(decl_nodes(facts, n as int, decls_view(acc@)) == decls_view(acc@));
    }
    acc
}

/// The view of updater entries held as parallel vectors.
pub open spec fn upds_view(names: Seq<String>, lists: Seq<Vec<usize>>) -> Seq<
    (Seq<char>, Seq<int>),
> {
    Seq::new(names.len(), |p: int| (names[p]@, lists[p]@.map_values(|u: usize| u as int)))
}

/// Datasource name to its updater nodes, in discovery order.
fn build_upd_entries(nf: &Vec<NodeFacts>) -> (r: (Vec<String>, Vec<Vec<usize>>))
    ensures
        r.0@.len() == r.1@.len(),
        upds_view(r.0@, r.1@) == spec_upds(facts_view(nf@)),
{
    let ghost facts = facts_view(nf@);
    let n = nf.len();
    let mut names: Vec<String> = Vec::new();
    let mut lists: Vec<Vec<usize>> = Vec::new();
    proof {
        assert(upds_view(names@, lists@) =~= Seq::<(Seq<char>, Seq<int>)>::empty());
    }
    let mut k: usize = 0;
    while k < n
        invariant
            k <= n,
            n == nf@.len(),
            facts == facts_view(nf@),
            facts.len() == n,
            names@.len() == lists@.len(),
            spec_upds(facts) == upd_nodes(facts, k as int, upds_view(names@, lists@)),
        decreases n - k,
    {
        let ghost acc_in = upds_view(names@, lists@);
        let nu = nf[k].updates.len();
        let mut y: usize = 0;
        while y < nu
            invariant
                y <= nu,
                k < n,
                n == nf@.len(),
                facts == facts_view(nf@),
                facts.len() == n,
                nu == facts[k as int].updates.len(),
                names@.len() == lists@.len(),
                upd_names(facts, k as int, 0, acc_in) == upd_names(
                    facts,
                    k as int,
                    y as int,
                    upds_view(names@, lists@),
                ),
            decreases nu - y,
        {
            proof {
                assert(nf@[k as int]@ == facts[k as int]);
            }
            let nm = &nf[k].updates[y];
            proof {
                assert(nm@ == facts[k as int].updates[y as int]);
            }
            let mut p: usize = 0;
            while p < names.len() && !names[p].eq(nm)
                invariant
                    p <= names@.len(),
                    names@.len() == lists@.len(),
                    upd_pos(upds_view(names@, lists@), nm@, 0) == upd_pos(
                        upds_view(names@, lists@),
                        nm@,
                        p as int,
                    ),
                decreases names@.len() - p,
            {
                proof {
                    assert((upds_view(names@, lists@)[p as int]).0 == names@[p as int]@);
                }
                p += 1;
            }
            let ghost acc0 = upds_view(names@, lists@);
            proof {
                if p < names@.len() {
                    assert(acc0[p as int].0 == nm@);
                    assert(upd_pos(acc0, nm@, p as int) == p);
                } else {
                    assert(upd_pos(acc0, nm@, p as int) == acc0.len());
                }
            }
            if p < names.len() {
                lists[p].push(k);
                proof {
                    assert(acc0[p as int].0 == nm@);
                    assert(lists@[p as int]@.map_values(|u: usize| u as int) =~= acc0[p as int].1
                        .push(k as int));
                    assert(upds_view(names@, lists@) =~= acc0.update(
                        p as int,
                        (nm@, acc0[p as int].1.push(k as int)),
                    ));
                }
            } else {
                names.push(nm.clone());
                let single: Vec<usize> = vec![k];
                proof {
                    assert(single@.map_values(|u: usize| u as int) =~= seq![k as int]);
                }
                lists.push(single);
                proof {
                    assert(upds_view(names@, lists@) =~= acc0.push((nm@, seq![k as int])));
                }
            }
            y += 1;
        }
        k += 1;
    }
    proof {
        assert(upd_nodes(facts, n as int, upds_view(names@, lists@)) == upds_view(names@, lists@));
    }
    (names, lists)
}

/// One file's entry of the result, assembled and pinned.
#[verifier::rlimit(60)]
fn build_file_node(
    files: &Vec<SourceFile>,
    parsed: &Vec<Result<ParsedFile, ParseError>>,
    succ: &Vec<Vec<usize>>,
    nodes: &Vec<usize>,
    nf: &Vec<NodeFacts>,
    rp: &Vec<Vec<bool>>,
    root_dir: &String,
    k: usize,
) -> (r: FileNode)
    requires
        k < nodes@.len(),
        files@.len() <= usize::MAX,
        parsed@.len() == files@.len(),
        succ@.len() == files@.len(),
        nf@.len() == nodes@.len(),
        forall|i: int|
            0 <= i < files@.len() ==> parse_result_matches(
                #[trigger] parsed@[i],
                spec_parse_file(files@[i].content@),
            ),
        forall|i: int| 0 <= i < files@.len() ==> (#[trigger] succ@[i])@ == node_succ(files@, i),
        forall|j: int| 0 <= j < nodes@.len() ==> (#[trigger] nodes@[j]) < files@.len(),
        facts_view(nf@) == node_facts(files@, nodes@),
        spec_parse_file(files@[nodes@[k as int] as int].content@) is Ok,
        rp@.len() == nf@.len(),
        forall|a: int| 0 <= a < rp@.len() ==> (#[trigger] rp@[a])@.len() == nf@.len(),
        forall|a: usize, b: usize|
            a < nf@.len() && b < nf@.len() ==> ((#[trigger] rp@[a as int]@[b as int])
                <==> reaches_plus(imports_adj(facts_view(nf@)), a, b)),
    ensures
        r@ == spec_file_node(files@, nodes@, facts_view(nf@), root_dir@, k as int),
{
    let ghost fsv = files@;
    let ghost facts = facts_view(nf@);
    let gi = nodes[k];
    let path = files[gi].path.clone();
    let relative_path = relative_display(&files[gi].path, root_dir);
    let mut imports: Vec<ImportInfo> = Vec::new();
    let mut datasources: Vec<DatasourceInfo> = Vec::new();
    let mut persists: Vec<PersistInfo> = Vec::new();
    let mut import_dependencies: Vec<String> = Vec::new();
    match &parsed[gi] {
        Err(_) => {
            proof {
                assert(false);
            }
        },
        Ok(pf) => {
            let ghost f = spec_parse_file(fsv[gi as int].content@)->Ok_0;
            proof {
                assert(pf@ == f);
            }
            let dir = dir_of_x(&files[gi].path);
            let ni = pf.imports.len();
            let mut x: usize = 0;
            while x < ni
                invariant
                    x <= ni,
                    gi < fsv.len(),
                    fsv == files@,
                    pf@ == f,
                    spec_parse_file(fsv[gi as int].content@) == Ok::<FileFacts, ParseError>(f),
                    ni == pf.imports@.len(),
                    ni == f.imports.len(),
                    dir@ == dir_of(fsv[gi as int].path@),
                    imports@.len() == x,
                    forall|j: int|
                        0 <= j < x ==> (#[trigger] imports@[j])@ == spec_import_infos(
                            fsv,
                            gi as int,
                        )[j],
                decreases ni - x,
            {
                proof {
                    assert(pf.imports@[x as int]@ == f.imports[x as int]);
                }
                let imp = &pf.imports[x];
                let alias = match &imp.alias {
                    Some(a) => Some(a.clone()),
                    None => None,
                };
                let resolved_path = match imp.resolve(dir.as_str()) {
                    Some(cand) => match lookup(files, &cand) {
                        Some(j) => Some(files[j].path.clone()),
                        None => None,
                    },
                    None => None,
                };
                let info = ImportInfo {
                    raw_path: imp.raw_path.clone(),
                    alias,
                    resolved_path,
                    is_stdlib: imp.is_stdlib,
                };
                proof {
                    assert(info@ == spec_import_infos(fsv, gi as int)[x as int]);
                }
                imports.push(info);
                x += 1;
            }
            let nd = pf.datasources.len();
            let mut y: usize = 0;
            while y < nd
                invariant
                    y <= nd,
                    gi < fsv.len(),
                    fsv == files@,
                    pf@ == f,
                    spec_parse_file(fsv[gi as int].content@) == Ok::<FileFacts, ParseError>(f),
                    nd == pf.datasources@.len(),
                    nd == f.datasources.len(),
                    datasources@.len() == y,
                    forall|j: int|
                        0 <= j < y ==> (#[trigger] datasources@[j])@ == decls_of(fsv, gi as int)[j],
                decreases nd - y,
            {
                proof {
                    assert(pf.datasources@[y as int]@ == f.datasources[y as int]);
                }
                datasources.push(DatasourceInfo { name: pf.datasources[y].name.clone() });
                y += 1;
            }
            let np = pf.persists.len();
            let mut y2: usize = 0;
            while y2 < np
                invariant
                    y2 <= np,
                    gi < fsv.len(),
                    fsv == files@,
                    pf@ == f,
                    spec_parse_file(fsv[gi as int].content@) == Ok::<FileFacts, ParseError>(f),
                    np == pf.persists@.len(),
                    np == f.persists.len(),
                    persists@.len() == y2,
                    forall|j: int|
                        0 <= j < y2 ==> (#[trigger] persists@[j])@ == spec_persist_infos(
                            fsv,
                            gi as int,
                        )[j],
                decreases np - y2,
            {
                proof {
                    assert(pf.persists@[y2 as int]@ == f.persists[y2 as int]);
                }
                let mode_s: String = pf.persists[y2].mode.mode_name().to_owned();
                proof {
                    assert(mode_s@ == mode_str(f.persists[y2 as int].mode));
                }
                persists.push(
                    PersistInfo {
                        mode: mode_s,
                        target_datasource: pf.persists[y2].target_datasource.clone(),
                    },
                );
                y2 += 1;
            }
            let ns = succ[gi].len();
            let mut x2: usize = 0;
            while x2 < ns
                invariant
                    x2 <= ns,
                    gi < fsv.len(),
                    fsv == files@,
                    fsv.len() <= usize::MAX,
                    succ@.len() == fsv.len(),
                    forall|i: int|
                        0 <= i < fsv.len() ==> (#[trigger] succ@[i])@ == node_succ(fsv, i),
                    ns == node_succ(fsv, gi as int).len(),
                    import_dependencies@.len() == x2,
                    forall|j: int|
                        0 <= j < x2 ==> (#[trigger] import_dependencies@[j])@ == fsv[node_succ(
                            fsv,
                            gi as int,
                        )[j] as int].path@,
                decreases ns - x2,
            {
                proof {
                    lemma_snap_succ_wf(fsv);
                    assert(snap_succ(fsv)[gi as int] == node_succ(fsv, gi as int));
                }
                let t = succ[gi][x2];
                import_dependencies.push(files[t].path.clone());
                x2 += 1;
            }
        },
    }
    let updates_datasources = clone_strs(&nf[k].updates);
    let declares_datasources = clone_strs(&nf[k].declares);
    let depends_on_datasources = build_depends(nf, rp, k);
    let r = FileNode {
        path,
        relative_path,
        imports,
        datasources,
        persists,
        import_dependencies,
        updates_datasources,
        declares_datasources,
        depends_on_datasources,
    };
    proof {
        let sv = spec_file_node(fsv, nodes@, facts, root_dir@, k as int);
        assert(nf@[k as int]@ == facts[k as int]);
        assert(r@.imports =~= sv.imports);
        assert(r@.datasources =~= sv.datasources);
        assert(r@.persists =~= sv.persists);
        assert(r@.import_dependencies =~= sv.import_dependencies);
        assert(r@.updates_datasources =~= sv.updates_datasources);
        assert(r@.declares_datasources =~= sv.declares_datasources);
        assert(r@.depends_on_datasources =~= sv.depends_on_datasources);
        assert(r@ == sv);
    }
    r
}

impl ImportResolver {
    /// A fresh resolver. It holds no state of its own: every call to
    /// [`ImportResolver::resolve`] owns its whole transient state.
    pub fn new() -> (r: Self) {
        ImportResolver {  }
    }

    /// Resolves the dependency graph of `root_path` over the snapshot
    /// `files`.
    ///
    /// The whole behaviour is pinned by [`resolve_post`]: the result is
    /// a function of the snapshot alone, so resolving an unchanged
    /// snapshot twice yields identical output. On success the order
    /// contains every discovered file once, and the source of every
    /// reconciled dependency edge comes strictly before its target.
    #[verifier::rlimit(100)]
    pub fn resolve(&mut self, root_path: &str, files: &Vec<SourceFile>) -> (r: Result<
        DependencyGraph,
        ResolveError,
    >)
        ensures
            resolve_post(root_path@, files@, r),
    {
        let ghost fsv = files@;
        let ghost root = root_path@;
        let root_string: String = root_path.to_owned();
        let n_all = files.len();
        // parse every file of the snapshot
        let mut parsed: Vec<Result<ParsedFile, ParseError>> = Vec::new();
        let mut i: usize = 0;
        while i < n_all
            invariant
                i <= n_all,
                n_all == fsv.len(),
                fsv == files@,
                parsed@.len() == i,
                forall|j: int|
                    0 <= j < i ==> parse_result_matches(
                        #[trigger] parsed@[j],
                        spec_parse_file(fsv[j].content@),
                    ),
            decreases n_all - i,
        {
            parsed.push(parse_file(files[i].content.as_str()));
            i += 1;
        }
        // the import graph of the snapshot
        let succ = build_succ(files, &parsed);
        proof {
            assert(adj_view(succ@) =~= snap_succ(fsv));
            lemma_snap_succ_wf(fsv);
        }
        // the root must be in the snapshot
        let ri = match lookup(files, &root_string) {
            Some(ri) => ri,
            None => {
                return Err(ResolveError::IoError { path: root_string });
            },
        };
        proof {
            lemma_lookup_from(fsv, root, 0);
        }
        // which files the root reaches
        let reach = reachable_from(&succ, ri);
        // every reachable file must parse
        let mut b: usize = 0;
        while b < n_all
            invariant
                b <= n_all,
                n_all == fsv.len(),
                fsv == files@,
                root == root_path@,
                ri < fsv.len(),
                lookup_path(fsv, root) == Some(ri as int),
                parsed@.len() == n_all,
                reach@.len() == n_all,
                forall|j: int|
                    0 <= j < n_all ==> parse_result_matches(
                        #[trigger] parsed@[j],
                        spec_parse_file(fsv[j].content@),
                    ),
                forall|j: usize|
                    j < n_all ==> ((#[trigger] reach@[j as int]) <==> reaches(
                        snap_succ(fsv),
                        ri,
                        j,
                    )),
                first_bad_from(fsv, ri, 0) == first_bad_from(fsv, ri, b as int),
            decreases n_all - b,
        {
            if reach[b] {
                match &parsed[b] {
                    Err(e) => {
                        proof {
                            assert(first_bad_from(fsv, ri, b as int) == Some(b as int));
                        }
                        return Err(
                            ResolveError::ParseError { path: files[b].path.clone(), source: *e },
                        );
                    },
                    Ok(_) => {},
                }
            }
            b += 1;
        }
        proof {
            assert(first_bad_from(fsv, ri, 0) is None);
        }
        // the discovered nodes, ascending
        let mut nodes: Vec<usize> = Vec::new();
        let mut c: usize = 0;
        while c < n_all
            invariant
                c <= n_all,
                n_all == fsv.len(),
                fsv == files@,
                ri < fsv.len(),
                reach@.len() == n_all,
                forall|j: usize|
                    j < n_all ==> ((#[trigger] reach@[j as int]) <==> reaches(
                        snap_succ(fsv),
                        ri,
                        j,
                    )),
                spec_nodes(fsv, ri) == nodes@ + spec_nodes_from(fsv, ri, c as int),
            decreases n_all - c,
        {
            let ghost nodes0 = nodes@;
            if reach[c] {
                nodes.push(c);
                proof {
                    assert((nodes0 + seq![c]) + spec_nodes_from(fsv, ri, c as int + 1) =~= nodes0
                        + (seq![c] + spec_nodes_from(fsv, ri, c as int + 1)));
                }
            }
            c += 1;
        }
        proof {
            assert(spec_nodes_from(fsv, ri, n_all as int) =~= Seq::<usize>::empty());
            assert(nodes@ + Seq::<usize>::empty() =~= nodes@);
            assert(nodes@ == spec_nodes(fsv, ri));
            lemma_nodes_bounds(fsv, ri);
        }
        // facts, reachability among nodes, reconciled edges
        let nf = build_facts(files, &parsed, &succ, &nodes);
        let ghost facts = node_facts(fsv, nodes@);
        proof {
            lemma_facts_wf(fsv, ri);
        }
        let n = nodes.len();
        let mut succ_local: Vec<Vec<usize>> = Vec::new();
        let mut sl: usize = 0;
        while sl < n
            invariant
                sl <= n,
                n == nf@.len(),
                facts_view(nf@) == facts,
                facts.len() == n,
                succ_local@.len() == sl,
                forall|j: int| 0 <= j < sl ==> (#[trigger] succ_local@[j])@ == facts[j].imports,
            decreases n - sl,
        {
            let mut row: Vec<usize> = Vec::new();
            let ilen = nf[sl].imports.len();
            let mut ix: usize = 0;
            while ix < ilen
                invariant
                    ix <= ilen,
                    sl < n,
                    n == nf@.len(),
                    facts_view(nf@) == facts,
                    facts.len() == n,
                    ilen == facts[sl as int].imports.len(),
                    row@.len() == ix,
                    forall|j: int| 0 <= j < ix ==> (#[trigger] row@[j]) == facts[sl as int].imports[j],
                decreases ilen - ix,
            {
                proof {
                    assert(nf@[sl as int]@ == facts[sl as int]);
                }
                row.push(nf[sl].imports[ix]);
                ix += 1;
            }
            proof {
                assert(row@ =~= facts[sl as int].imports);
            }
            succ_local.push(row);
            sl += 1;
        }
        proof {
            assert(adj_view(succ_local@) =~= imports_adj(facts));
            assert(succ_wf(adj_view(succ_local@)));
        }
        let rp = reach_plus_table(&succ_local);
        let edge_list = build_edge_list(&nf, &rp);
        proof {
            crate::edges::lemma_edge_rows_members(facts, 0);
            assert(edges_wf(n as int, edge_list@));
        }
        // the sort
        match kahn_sort(n, &edge_list) {
            Ok(o) => {
                let ghost ord = spec_kahn(n as int, spec_edges(facts));
                proof {
                    assert(o@ == ord);
                }
                // order as paths
                let mut order: Vec<String> = Vec::new();
                let mut q: usize = 0;
                while q < o.len()
                    invariant
                        q <= o@.len(),
                        o@ == ord,
                        fsv == files@,
                        n == nodes@.len(),
                        forall|p: int| 0 <= p < o@.len() ==> (#[trigger] o@[p]) < n,
                        forall|j: int| 0 <= j < nodes@.len() ==> (#[trigger] nodes@[j]) < fsv.len(),
                        order@.len() == q,
                        forall|p: int|
                            0 <= p < q ==> (#[trigger] order@[p])@ == fsv[nodes@[ord[p] as int] as int].path@,
                    decreases o@.len() - q,
                {
                    let node_idx = o[q];
                    let gi = nodes[node_idx];
                    order.push(files[gi].path.clone());
                    q += 1;
                }
                // per-file entries
                let root_dir = dir_of_x(&root_string);
                let mut fnodes: Vec<FileNode> = Vec::new();
                let mut k: usize = 0;
                while k < n
                    invariant
                        k <= n,
                        n == nodes@.len(),
                        fsv == files@,
                        fsv.len() <= usize::MAX,
                        root == root_path@,
                        root_dir@ == dir_of(root),
                        nodes@ == spec_nodes(fsv, ri),
                        ri < fsv.len(),
                        lookup_path(fsv, root) == Some(ri as int),
                        first_bad_from(fsv, ri, 0) is None,
                        parsed@.len() == fsv.len(),
                        succ@.len() == fsv.len(),
                        nf@.len() == n,
                        facts_view(nf@) == facts,
                        facts == node_facts(fsv, nodes@),
                        forall|j: int|
                            0 <= j < fsv.len() ==> parse_result_matches(
                                #[trigger] parsed@[j],
                                spec_parse_file(fsv[j].content@),
                            ),
                        forall|j: int|
                            0 <= j < fsv.len() ==> (#[trigger] succ@[j])@ == node_succ(fsv, j),
                        forall|j: int| 0 <= j < nodes@.len() ==> (#[trigger] nodes@[j]) < fsv.len(),
                        rp@.len() == n,
                        forall|a: int| 0 <= a < rp@.len() ==> (#[trigger] rp@[a])@.len() == n,
                        forall|a: usize, bb: usize|
                            a < n && bb < n ==> ((#[trigger] rp@[a as int]@[bb as int])
                                <==> reaches_plus(imports_adj(facts), a, bb)),
                        fnodes@.len() == k,
                        forall|j: int|
                            0 <= j < k ==> (#[trigger] fnodes@[j])@ == spec_file_node(
                                fsv,
                                nodes@,
                                facts,
                                dir_of(root),
                                j,
                            ),
                    decreases n - k,
                {
                    proof {
                        lemma_nodes_member(fsv, ri, 0);
                        assert(nodes@.contains(nodes@[k as int]));
                        lemma_first_bad_from(fsv, ri, 0);
                        assert(spec_parse_file(fsv[nodes@[k as int] as int].content@) is Ok);
                    }
                    let fnode = build_file_node(files, &parsed, &succ, &nodes, &nf, &rp, &root_dir, k);
                    fnodes.push(fnode);
                    k += 1;
                }
                // the datasource indices
                let decl_idx = build_decl_entries(&nf);
                let mut datasource_declarations: Vec<(String, String)> = Vec::new();
                let mut d: usize = 0;
                proof {
                    lemma_decls_bounds(facts, 0, Seq::empty());
                }
                while d < decl_idx.len()
                    invariant
                        d <= decl_idx@.len(),
                        fsv == files@,
                        n == nodes@.len(),
                        decls_view(decl_idx@) == spec_decls(facts),
                        forall|p: int|
                            0 <= p < spec_decls(facts).len() ==> 0 <= (#[trigger] spec_decls(
                                facts,
                            )[p]).1 < facts.len(),
                        facts.len() == n,
                        forall|j: int| 0 <= j < nodes@.len() ==> (#[trigger] nodes@[j]) < fsv.len(),
                        datasource_declarations@.len() == d,
                        forall|p: int|
                            0 <= p < d ==> ((#[trigger] datasource_declarations@[p]).0@
                                == spec_decls(facts)[p].0 && datasource_declarations@[p].1@
                                == fsv[nodes@[spec_decls(facts)[p].1] as int].path@),
                    decreases decl_idx@.len() - d,
                {
                    proof {
                        assert(decls_view(decl_idx@)[d as int] == spec_decls(facts)[d as int]);
                    }
                    let node_k = decl_idx[d].1;
                    let gi = nodes[node_k];
                    datasource_declarations.push((decl_idx[d].0.clone(), files[gi].path.clone()));
                    d += 1;
                }
                let (upd_names_v, upd_lists) = build_upd_entries(&nf);
                let mut datasource_updaters: Vec<(String, Vec<String>)> = Vec::new();
                let mut d2: usize = 0;
                proof {
                    lemma_upds_bounds(facts, 0, Seq::empty());
                }
                while d2 < upd_names_v.len()
                    invariant
                        d2 <= upd_names_v@.len(),
                        fsv == files@,
                        n == nodes@.len(),
                        upd_names_v@.len() == upd_lists@.len(),
                        upds_view(upd_names_v@, upd_lists@) == spec_upds(facts),
                        forall|p: int, q2: int|
                            0 <= p < spec_upds(facts).len() && 0 <= q2 < spec_upds(facts)[p].1.len()
                                ==> 0 <= (#[trigger] spec_upds(facts)[p].1[q2]) < facts.len(),
                        facts.len() == n,
                        forall|j: int| 0 <= j < nodes@.len() ==> (#[trigger] nodes@[j]) < fsv.len(),
                        datasource_updaters@.len() == d2,
                        forall|p: int|
                            0 <= p < d2 ==> ((#[trigger] datasource_updaters@[p]).0@ == spec_upds(
                                facts,
                            )[p].0 && strs_view(datasource_updaters@[p].1@) == Seq::new(
                                spec_upds(facts)[p].1.len(),
                                |q2: int| fsv[nodes@[spec_upds(facts)[p].1[q2]] as int].path@,
                            )),
                    decreases upd_names_v@.len() - d2,
                {
                    proof {
                        assert(upds_view(upd_names_v@, upd_lists@)[d2 as int] == spec_upds(
                            facts,
                        )[d2 as int]);
                    }
                    let mut paths: Vec<String> = Vec::new();
                    let llen = upd_lists[d2].len();
                    let mut q2: usize = 0;
                    while q2 < llen
                        invariant
                            q2 <= llen,
                            d2 < upd_names_v@.len(),
                            upd_names_v@.len() == upd_lists@.len(),
                            fsv == files@,
                            n == nodes@.len(),
                            upds_view(upd_names_v@, upd_lists@) == spec_upds(facts),
                            forall|p: int, q3: int|
                                0 <= p < spec_upds(facts).len() && 0 <= q3 < spec_upds(
                                    facts,
                                )[p].1.len() ==> 0 <= (#[trigger] spec_upds(facts)[p].1[q3])
                                    < facts.len(),
                            facts.len() == n,
                            forall|j: int|
                                0 <= j < nodes@.len() ==> (#[trigger] nodes@[j]) < fsv.len(),
                            llen == spec_upds(facts)[d2 as int].1.len(),
                            llen == upd_lists@[d2 as int]@.len(),
                            paths@.len() == q2,
                            forall|q3: int|
                                0 <= q3 < q2 ==> (#[trigger] paths@[q3])@ == fsv[nodes@[spec_upds(
                                    facts,
                                )[d2 as int].1[q3]] as int].path@,
                        decreases llen - q2,
                    {
                        proof {
                            assert(spec_upds(facts)[d2 as int].1[q2 as int] == upd_lists@[d2 as int]@[q2 as int] as int);
                        }
                        let node_k = upd_lists[d2][q2];
                        let gi = nodes[node_k];
                        paths.push(files[gi].path.clone());
                        q2 += 1;
                    }
                    proof {
                        assert(strs_view(paths@) =~= Seq::new(
                            spec_upds(facts)[d2 as int].1.len(),
                            |q3: int| fsv[nodes@[spec_upds(facts)[d2 as int].1[q3]] as int].path@,
                        ));
                    }
                    datasource_updaters.push((upd_names_v[d2].clone(), paths));
                    d2 += 1;
                }
                // non-fatal observations
                let warnings = build_warnings(files, &parsed, &nodes, &nf);
                let g = DependencyGraph {
                    root: root_string,
                    order,
                    files: fnodes,
                    datasource_declarations,
                    datasource_updaters,
                    warnings,
                };
                proof {
                    assert(strs_view(g.order@) =~= spec_order(fsv, nodes@, facts));
                    assert(Seq::new(
                        g.datasource_declarations@.len(),
                        |p: int| (g.datasource_declarations@[p].0@, g.datasource_declarations@[p].1@),
                    ) =~= Seq::new(
                        spec_decls(facts).len(),
                        |p: int| (spec_decls(facts)[p].0, fsv[nodes@[spec_decls(facts)[p].1] as int].path@),
                    ));
                    assert(Seq::new(
                        g.datasource_updaters@.len(),
                        |p: int| (g.datasource_updaters@[p].0@, strs_view(g.datasource_updaters@[p].1@)),
                    ) =~= Seq::new(
                        spec_upds(facts).len(),
                        |p: int| (spec_upds(facts)[p].0, Seq::new(
                            spec_upds(facts)[p].1.len(),
                            |q3: int| fsv[nodes@[spec_upds(facts)[p].1[q3]] as int].path@,
                        )),
                    ));
                    assert(graph_ok(root, fsv, ri, g));
                }
                Ok(g)
            },
            Err(rem) => {
                let ghost ord = spec_kahn(n as int, spec_edges(facts));
                let mut cycle: Vec<String> = Vec::new();
                let mut p: usize = 0;
                proof {
                    assert forall|j: int| 0 <= j < rem@.len() implies (#[trigger] rem@[j]) < n by {
                        assert(rem@.contains(rem@[j]));
                    }
                }
                while p < rem.len()
                    invariant
                        p <= rem@.len(),
                        fsv == files@,
                        n == nodes@.len(),
                        forall|j: int| 0 <= j < rem@.len() ==> (#[trigger] rem@[j]) < n,
                        forall|j: int| 0 <= j < nodes@.len() ==> (#[trigger] nodes@[j]) < fsv.len(),
                        cycle@.len() == p,
                        forall|j: int|
                            0 <= j < p ==> (#[trigger] cycle@[j])@ == fsv[nodes@[rem@[j] as int] as int].path@,
                    decreases rem@.len() - p,
                {
                    let node_k = rem[p];
                    let gi = nodes[node_k];
                    cycle.push(files[gi].path.clone());
                    p += 1;
                }
                proof {
                    assert(strs_view(cycle@) =~= Seq::new(
                        remaining_nodes(n as int, ord, 0).len(),
                        |j: int| fsv[nodes@[remaining_nodes(n as int, ord, 0)[j] as int] as int].path@,
                    ));
                }
                Err(ResolveError::CircularDependency { cycle })
            },
        }
    }
}

impl Default for ImportResolver {
    fn default() -> (r: Self) {
        ImportResolver::new()
    }
}

/// Resolution is deterministic: two results that both satisfy the
/// contract of [`ImportResolver::resolve`] for one root and one
/// snapshot agree — they succeed or fail together, and on success they
/// produce the identical execution order.
pub proof fn lemma_resolve_deterministic(
    root: Seq<char>,
    fs: Seq<SourceFile>,
    r1: Result<DependencyGraph, ResolveError>,
    r2: Result<DependencyGraph, ResolveError>,
)
    requires
        resolve_post(root, fs, r1),
        resolve_post(root, fs, r2),
    ensures
        r1 is Ok <==> r2 is Ok,
        r1 is Ok ==> strs_view(r1->Ok_0.order@) == strs_view(r2->Ok_0.order@),
{
}

/// A reserved-namespace import resolves to no file at all, so it can
/// contribute no dependency edge: every edge kind derives from resolved
/// import targets and from declared or written datasource names alone.
pub proof fn lemma_reserved_import_resolves_nowhere(f: crate::parser::ImportFacts, dir: Seq<char>)
    requires
        f.is_stdlib,
    ensures
        spec_resolve_import(f, dir) is None,
{
}

/// A reserved-namespace import never carries a resolved path in the
/// result.
pub proof fn lemma_reserved_import_unresolved(fs: Seq<SourceFile>, gi: int, x: int)
    requires
        0 <= gi < fs.len(),
        spec_parse_file(fs[gi].content@) is Ok,
        0 <= x < spec_parse_file(fs[gi].content@)->Ok_0.imports.len(),
        spec_parse_file(fs[gi].content@)->Ok_0.imports[x].is_stdlib,
    ensures
        spec_import_infos(fs, gi)[x].resolved_path is None,
{
    lemma_reserved_import_resolves_nowhere(
        spec_parse_file(fs[gi].content@)->Ok_0.imports[x],
        dir_of(fs[gi].path@),
    );
}

/// Every declaration entry names a node.
pub proof fn lemma_decls_bounds(facts: Seq<NodeFactsV>, k: int, acc: Seq<(Seq<char>, int)>)
    requires
        0 <= k <= facts.len(),
        forall|p: int| 0 <= p < acc.len() ==> 0 <= (#[trigger] acc[p]).1 < facts.len(),
    ensures
        forall|p: int|
            0 <= p < decl_nodes(facts, k, acc).len() ==> 0 <= (#[trigger] decl_nodes(
                facts,
                k,
                acc,
            )[p]).1 < facts.len(),
    decreases facts.len() - k,
{
    if k < facts.len() {
        lemma_decl_names_bounds(facts, k, 0, acc);
        lemma_decls_bounds(facts, k + 1, decl_names(facts, k, 0, acc));
        assert(decl_nodes(facts, k, acc) == decl_nodes(facts, k + 1, decl_names(facts, k, 0, acc)));
    } else {
        assert(decl_nodes(facts, k, acc) == acc);
    }
}

proof fn lemma_decl_names_bounds(facts: Seq<NodeFactsV>, k: int, y: int, acc: Seq<(Seq<char>, int)>)
    requires
        0 <= k < facts.len(),
        0 <= y <= facts[k].declares.len(),
        forall|p: int| 0 <= p < acc.len() ==> 0 <= (#[trigger] acc[p]).1 < facts.len(),
    ensures
        forall|p: int|
            0 <= p < decl_names(facts, k, y, acc).len() ==> 0 <= (#[trigger] decl_names(
                facts,
                k,
                y,
                acc,
            )[p]).1 < facts.len(),
    decreases facts[k].declares.len() - y,
{
    if y < facts[k].declares.len() {
        let nm = facts[k].declares[y];
        if has_decl(acc, nm) {
            lemma_decl_names_bounds(facts, k, y + 1, acc);
            assert(decl_names(facts, k, y, acc) == decl_names(facts, k, y + 1, acc));
        } else {
            let acc2 = acc.push((nm, k));
            assert forall|p: int| 0 <= p < acc2.len() implies 0 <= (#[trigger] acc2[p]).1
                < facts.len() by {
                if p < acc.len() {
                    assert(acc2[p] == acc[p]);
                } else {
                    assert(acc2[p] == (nm, k));
                }
            }
            lemma_decl_names_bounds(facts, k, y + 1, acc2);
            assert(decl_names(facts, k, y, acc) == decl_names(facts, k, y + 1, acc2));
        }
    } else {
        assert(decl_names(facts, k, y, acc) == acc);
    }
}

/// Every updater entry names nodes.
pub proof fn lemma_upds_bounds(facts: Seq<NodeFactsV>, k: int, acc: Seq<(Seq<char>, Seq<int>)>)
    requires
        0 <= k <= facts.len(),
        forall|p: int, q: int|
            0 <= p < acc.len() && 0 <= q < acc[p].1.len() ==> 0 <= (#[trigger] acc[p].1[q])
                < facts.len(),
    ensures
        forall|p: int, q: int|
            0 <= p < upd_nodes(facts, k, acc).len() && 0 <= q < upd_nodes(facts, k, acc)[p].1.len()
                ==> 0 <= (#[trigger] upd_nodes(facts, k, acc)[p].1[q]) < facts.len(),
    decreases facts.len() - k,
{
    if k < facts.len() {
        lemma_upd_names_bounds(facts, k, 0, acc);
        lemma_upds_bounds(facts, k + 1, upd_names(facts, k, 0, acc));
        assert(upd_nodes(facts, k, acc) == upd_nodes(facts, k + 1, upd_names(facts, k, 0, acc)));
    } else {
        assert(upd_nodes(facts, k, acc) == acc);
    }
}

proof fn lemma_upd_names_bounds(
    facts: Seq<NodeFactsV>,
    k: int,
    y: int,
    acc: Seq<(Seq<char>, Seq<int>)>,
)
    requires
        0 <= k < facts.len(),
        0 <= y <= facts[k].updates.len(),
        forall|p: int, q: int|
            0 <= p < acc.len() && 0 <= q < acc[p].1.len() ==> 0 <= (#[trigger] acc[p].1[q])
                < facts.len(),
    ensures
        forall|p: int, q: int|
            0 <= p < upd_names(facts, k, y, acc).len() && 0 <= q < upd_names(
                facts,
                k,
                y,
                acc,
            )[p].1.len() ==> 0 <= (#[trigger] upd_names(facts, k, y, acc)[p].1[q]) < facts.len(),
    decreases facts[k].updates.len() - y,
{
    if y < facts[k].updates.len() {
        let nm = facts[k].updates[y];
        let p = upd_pos(acc, nm, 0);
        lemma_upd_pos(acc, nm, 0);
        if p < acc.len() {
            let acc2 = acc.update(p, (nm, acc[p].1.push(k)));
            assert forall|p2: int, q: int|
                0 <= p2 < acc2.len() && 0 <= q < acc2[p2].1.len() implies 0 <= (
            #[trigger] acc2[p2].1[q]) < facts.len() by {
                if p2 != p {
                    assert(acc2[p2] == acc[p2]);
                } else {
                    if q < acc[p].1.len() {
                        assert(acc2[p2].1[q] == acc[p].1[q]);
                    } else {
                        assert(acc2[p2].1[q] == k);
                    }
                }
            }
            lemma_upd_names_bounds(facts, k, y + 1, acc2);
            assert(upd_names(facts, k, y, acc) == upd_names(facts, k, y + 1, acc2));
        } else {
            let acc2 = acc.push((nm, seq![k]));
            assert forall|p2: int, q: int|
                0 <= p2 < acc2.len() && 0 <= q < acc2[p2].1.len() implies 0 <= (
            #[trigger] acc2[p2].1[q]) < facts.len() by {
                if p2 < acc.len() {
                    assert(acc2[p2] == acc[p2]);
                } else {
                    assert(acc2[p2] == (nm, seq![k]));
                    assert(acc2[p2].1[q] == k);
                }
            }
            lemma_upd_names_bounds(facts, k, y + 1, acc2);
            assert(upd_names(facts, k, y, acc) == upd_names(facts, k, y + 1, acc2));
        }
    } else {
        assert(upd_names(facts, k, y, acc) == acc);
    }
}

pub proof fn lemma_upd_pos(acc: Seq<(Seq<char>, Seq<int>)>, nm: Seq<char>, i: int)
    requires
        0 <= i <= acc.len(),
    ensures
        i <= upd_pos(acc, nm, i) <= acc.len(),
    decreases acc.len() - i,
{
    if i < acc.len() && acc[i].0 != nm {
        lemma_upd_pos(acc, nm, i + 1);
    }
}

/// The non-fatal observations of a resolution: duplicate declarations
/// and imports that lead outside the snapshot.
fn build_warnings(
    files: &Vec<SourceFile>,
    parsed: &Vec<Result<ParsedFile, ParseError>>,
    nodes: &Vec<usize>,
    nf: &Vec<NodeFacts>,
) -> (r: Vec<Warning>)
    requires
        parsed@.len() == files@.len(),
        nf@.len() == nodes@.len(),
        forall|j: int| 0 <= j < nodes@.len() ==> (#[trigger] nodes@[j]) < files@.len(),
{
    let mut warnings: Vec<Warning> = Vec::new();
    let n = nodes.len();
    let mut k: usize = 0;
    while k < n
        invariant
            k <= n,
            n == nodes@.len(),
            nf@.len() == n,
            parsed@.len() == files@.len(),
            forall|j: int| 0 <= j < nodes@.len() ==> (#[trigger] nodes@[j]) < files@.len(),
        decreases n - k,
    {
        // duplicate declarations: a later declarer is not authoritative
        let nd = nf[k].declares.len();
        let mut y: usize = 0;
        while y < nd
            invariant
                y <= nd,
                k < n,
                n == nodes@.len(),
                nf@.len() == n,
                nd == nf@[k as int].declares@.len(),
                forall|j: int| 0 <= j < nodes@.len() ==> (#[trigger] nodes@[j]) < files@.len(),
            decreases nd - y,
        {
            let nm = &nf[k].declares[y];
            match first_declarer(nf, nm) {
                Some(d) => {
                    if d != k {
                        proof {
                            crate::edges::lemma_declarer_from(facts_view(nf@), nm@, 0);
                        }
                        warnings.push(
                            Warning::DuplicateDeclaration {
                                datasource: nm.clone(),
                                first_file: files[nodes[d]].path.clone(),
                                other_file: files[nodes[k]].path.clone(),
                            },
                        );
                    }
                },
                None => {},
            }
            y += 1;
        }
        // imports that resolve to no known file
        let gi = nodes[k];
        match &parsed[gi] {
            Err(_) => {},
            Ok(pf) => {
                let dir = dir_of_x(&files[gi].path);
                let ni = pf.imports.len();
                let mut x: usize = 0;
                while x < ni
                    invariant
                        x <= ni,
                        gi < files@.len(),
                        ni == pf.imports@.len(),
                        dir@ == dir_of(files@[gi as int].path@),
                    decreases ni - x,
                {
                    match pf.imports[x].resolve(dir.as_str()) {
                        Some(cand) => {
                            match lookup(files, &cand) {
                                Some(_) => {},
                                None => {
                                    warnings.push(
                                        Warning::UnresolvedImport {
                                            file: files[gi].path.clone(),
                                            raw_path: pf.imports[x].raw_path.clone(),
                                            resolved_path: cand,
                                        },
                                    );
                                },
                            }
                        },
                        None => {},
                    }
                    x += 1;
                }
            },
        }
        k += 1;
    }
    warnings
}

} // verus!
