//! Batch analysis of a pre-enumerated file set.
//!
//! Unlike [`crate::resolver::ImportResolver::resolve`], which orders the
//! files reachable from one root, this entry point takes a whole set of
//! candidate files, discovers what they transitively import within the
//! snapshot, and hands back the facts and the reconciled dependency
//! edges without sorting them — for callers that run their own
//! scheduler or inspect the graph. Files that are missing from the
//! snapshot or fail to parse are skipped with a warning, so one bad
//! file does not abort a whole scan.

use vstd::prelude::*;

use crate::edges::{
    contains_idx, dbu_edge, dbu_edge_named, dbu_find, facts_view, import_edge, imports_adj,
    pbd_check, pbd_edge, pbd_edge_named, pbd_find, tpo_edge, tpo_edge_named, tpo_find, NodeFacts,
    NodeFactsV, strs_view,
};
use crate::graph::{adj_view, reach_plus_table, reachable_from, reaches, reaches_plus, succ_wf};
use crate::parser::{parse_file, parse_result_matches, spec_parse_file, ParseError, ParsedFile};
use crate::resolver::{
    build_succ, decls_of, lemma_snap_succ_wf, lookup_path, node_succ, snap_succ, upds_of,
    SourceFile, Warning,
};

verus! {

/// The dependency-relevant facts of one file of a batch.
#[derive(Debug, Clone)]
pub struct FileInfo {
    pub path: String,
    pub datasources: Vec<String>,
    pub persists: Vec<String>,
}

pub ghost struct FileInfoV {
    pub path: Seq<char>,
    pub datasources: Seq<Seq<char>>,
    pub persists: Seq<Seq<char>>,
}

impl View for FileInfo {
    type V = FileInfoV;

    open spec fn view(&self) -> FileInfoV {
        FileInfoV {
            path: self.path@,
            datasources: strs_view(self.datasources@),
            persists: strs_view(self.persists@),
        }
    }
}

/// A batch of files with their facts and resolved import targets:
/// `imports[k]` belongs to `files[k]` and lists the paths its imports
/// lead to within the batch's snapshot.
#[derive(Debug, Clone)]
pub struct DirectoryGraph {
    pub files: Vec<FileInfo>,
    pub imports: Vec<(String, Vec<String>)>,
    pub warnings: Vec<Warning>,
}

/// Why one file must run before another.
#[derive(Debug, Clone, PartialEq, Eq)]
pub enum EdgeReason {
    /// The source is imported by the target.
    Import,
    /// The source writes the named datasource; the target declares it.
    PersistBeforeDeclare { datasource: String },
    /// The source declares the named datasource; the target reaches it
    /// through imports.
    DeclareBeforeUse { datasource: String },
    /// The source writes a datasource that the target's written
    /// datasource structurally depends on.
    TransitivePersistOrder { upstream_datasource: String, downstream_datasource: String },
}

/// An ordering constraint: `from` must run before `to`.
#[derive(Debug, Clone, PartialEq, Eq)]
pub struct Edge {
    pub from: String,
    pub to: String,
    pub reason: EdgeReason,
}

// ---------------------------------------------------------------------------
// Batch discovery, in specification.
// ---------------------------------------------------------------------------

/// Whether snapshot file `i` is reachable from one of the first `t`
/// initial files (an initial file reaches itself).
pub open spec fn dir_reachable_upto(
    fs: Seq<SourceFile>,
    roots: Seq<String>,
    t: int,
    i: usize,
) -> bool {
    exists|t2: int|
        0 <= t2 < t && (match lookup_path(fs, (#[trigger] roots[t2])@) {
            Some(r) => reaches(snap_succ(fs), r as usize, i),
            None => false,
        })
}

pub open spec fn dir_reachable(fs: Seq<SourceFile>, roots: Seq<String>, i: usize) -> bool {
    dir_reachable_upto(fs, roots, roots.len() as int, i)
}

/// Whether file `i` belongs to the batch graph: reachable and parsable.
pub open spec fn dir_keep(fs: Seq<SourceFile>, roots: Seq<String>, i: usize) -> bool {
    dir_reachable(fs, roots, i) && spec_parse_file(fs[i as int].content@) is Ok
}

/// The batch's nodes: the kept snapshot indices, ascending.
pub open spec fn dir_nodes_from(fs: Seq<SourceFile>, roots: Seq<String>, i: int) -> Seq<usize>
    decreases fs.len() - i when 0 <= i <= fs.len()
{
    if i >= fs.len() {
        Seq::empty()
    } else if dir_keep(fs, roots, i as usize) {
        seq![i as usize] + dir_nodes_from(fs, roots, i + 1)
    } else {
        dir_nodes_from(fs, roots, i + 1)
    }
}

pub open spec fn dir_nodes(fs: Seq<SourceFile>, roots: Seq<String>) -> Seq<usize> {
    dir_nodes_from(fs, roots, 0)
}

/// Discovers, within the snapshot, every file reachable from the given
/// initial files, and extracts each one's facts and resolved imports.
///
/// Initial files missing from the snapshot, and reachable files that do
/// not parse, are skipped with a warning. The call itself always
/// succeeds.
pub fn process_directory_with_imports(
    initial_files: Vec<String>,
    files: &Vec<SourceFile>,
) -> (r: Result<DirectoryGraph, String>)
    ensures
        r matches Ok(g) && ({
            let nodes = dir_nodes(files@, initial_files@);
            &&& g.files@.len() == nodes.len()
            &&& g.imports@.len() == nodes.len()
            &&& forall|k: int|
                0 <= k < nodes.len() ==> (#[trigger] g.files@[k])@ == (FileInfoV {
                    path: files@[nodes[k] as int].path@,
                    datasources: decls_of(files@, nodes[k] as int),
                    persists: upds_of(files@, nodes[k] as int),
                })
            &&& forall|k: int|
                0 <= k < nodes.len() ==> (#[trigger] g.imports@[k]).0@ == files@[nodes[k] as int].path@
                    && strs_view(g.imports@[k].1@) == Seq::new(
                    node_succ(files@, nodes[k] as int).len(),
                    |x: int| files@[node_succ(files@, nodes[k] as int)[x] as int].path@,
                )
        }),
{
    let ghost fsv = files@;
    let ghost roots = initial_files@;
    let n_all = files.len();
    let mut warnings: Vec<Warning> = Vec::new();
    // parse everything
    let mut parsed: Vec<Result<ParsedFile, ParseError>> = Vec::new();
    let mut i: usize = 0;
    while i < n_all
        invariant
            i <= n_all,
            n_all == fsv.len(),
            fsv == files@,
            parsed@.len() == i,
            forall|j: int|
                0 <= j < i ==> parse_result_matches(
                    #[trigger] parsed@[j],
                    spec_parse_file(fsv[j].content@),
                ),
        decreases n_all - i,
    {
        parsed.push(parse_file(files[i].content.as_str()));
        i += 1;
    }
    let succ = build_succ(files, &parsed);
    proof {
        assert(adj_view(succ@) =~= snap_succ(fsv));
        lemma_snap_succ_wf(fsv);
    }
    // which files some initial file reaches
    let mut reach_any: Vec<bool> = Vec::new();
    let mut z: usize = 0;
    while z < n_all
        invariant
            z <= n_all,
            reach_any@.len() == z,
            forall|j: int| 0 <= j < z ==> !(#[trigger] reach_any@[j]),
        decreases n_all - z,
    {
        reach_any.push(false);
        z += 1;
    }
    let nt = initial_files.len();
    let mut t: usize = 0;
    proof {
        assert forall|j: usize| j < n_all implies ((#[trigger] reach_any@[j as int])
            <==> dir_reachable_upto(fsv, roots, 0, j)) by {}
    }
    while t < nt
        invariant
            t <= nt,
            nt == roots.len(),
            roots == initial_files@,
            fsv == files@,
            n_all == fsv.len(),
            succ@.len() == n_all,
            adj_view(succ@) == snap_succ(fsv),
            succ_wf(adj_view(succ@)),
            reach_any@.len() == n_all,
            forall|j: usize|
                j < n_all ==> ((#[trigger] reach_any@[j as int]) <==> dir_reachable_upto(
                    fsv,
                    roots,
                    t as int,
                    j,
                )),
        decreases nt - t,
    {
        let ghost r0 = reach_any@;
        match crate::resolver::lookup(files, &initial_files[t]) {
            Some(ri) => {
                let rr = reachable_from(&succ, ri);
                let mut j: usize = 0;
                while j < n_all
                    invariant
                        j <= n_all,
                        ri < n_all,
                        fsv == files@,
                        n_all == fsv.len(),
                        succ@.len() == n_all,
                        adj_view(succ@) == snap_succ(fsv),
                        rr@.len() == n_all,
                        forall|b: usize|
                            b < n_all ==> ((#[trigger] rr@[b as int]) <==> reaches(
                                snap_succ(fsv),
                                ri,
                                b,
                            )),
                        reach_any@.len() == n_all,
                        r0.len() == n_all,
                        forall|b: int| j <= b < n_all ==> (#[trigger] reach_any@[b]) == r0[b],
                        forall|b: usize|
                            b < j ==> ((#[trigger] reach_any@[b as int]) <==> (r0[b as int]
                                || reaches(snap_succ(fsv), ri, b))),
                    decreases n_all - j,
                {
                    if rr[j] && !reach_any[j] {
                        reach_any.set(j, true);
                    }
                    j += 1;
                }
                proof {
                    assert(lookup_path(fsv, roots[t as int]@) == Some(ri as int));
                    assert forall|b: usize| b < n_all implies ((#[trigger] reach_any@[b as int])
                        <==> dir_reachable_upto(fsv, roots, t as int + 1, b)) by {
                        if reach_any@[b as int] {
                            if r0[b as int] {
                                let t2 = choose|t2: int|
                                    0 <= t2 < t && (match lookup_path(
                                        fsv,
                                        (#[trigger] roots[t2])@,
                                    ) {
                                        Some(r) => reaches(snap_succ(fsv), r as usize, b),
                                        None => false,
                                    });
                                assert(dir_reachable_upto(fsv, roots, t as int + 1, b));
                            } else {
                                assert(reaches(snap_succ(fsv), ri, b));
                                assert(match lookup_path(fsv, roots[t as int]@) {
                                    Some(r) => reaches(snap_succ(fsv), r as usize, b),
                                    None => false,
                                });
                                assert(dir_reachable_upto(fsv, roots, t as int + 1, b));
                            }
                        } else {
                            if dir_reachable_upto(fsv, roots, t as int + 1, b) {
                                let t2 = choose|t2: int|
                                    0 <= t2 < t + 1 && (match lookup_path(
                                        fsv,
                                        (#[trigger] roots[t2])@,
                                    ) {
                                        Some(r) => reaches(snap_succ(fsv), r as usize, b),
                                        None => false,
                                    });
                                if t2 < t {
                                    assert(dir_reachable_upto(fsv, roots, t as int, b));
                                }
                                assert(false);
                            }
                        }
                    }
                }
            },
            None => {
                warnings.push(Warning::UnreadableFile { file: initial_files[t].clone() });
                proof {
                    assert forall|b: usize| b < n_all implies ((#[trigger] reach_any@[b as int])
                        <==> dir_reachable_upto(fsv, roots, t as int + 1, b)) by {
                        if reach_any@[b as int] {
                            let t2 = choose|t2: int|
                                0 <= t2 < t && (match lookup_path(fsv, (#[trigger] roots[t2])@) {
                                    Some(r) => reaches(snap_succ(fsv), r as usize, b),
                                    None => false,
                                });
                            assert(dir_reachable_upto(fsv, roots, t as int + 1, b));
                        } else {
                            if dir_reachable_upto(fsv, roots, t as int + 1, b) {
                                let t2 = choose|t2: int|
                                    0 <= t2 < t + 1 && (match lookup_path(
                                        fsv,
                                        (#[trigger] roots[t2])@,
                                    ) {
                                        Some(r) => reaches(snap_succ(fsv), r as usize, b),
                                        None => false,
                                    });
                                if t2 < t {
                                    assert(dir_reachable_upto(fsv, roots, t as int, b));
                                }
                                assert(false);
                            }
                        }
                    }
                }
            },
        }
        t += 1;
    }
    // the kept nodes, ascending; unparsable reachable files are noted
    let mut fi: Vec<FileInfo> = Vec::new();
    let mut imps: Vec<(String, Vec<String>)> = Vec::new();
    let ghost nodes = dir_nodes(fsv, roots);
    let mut c: usize = 0;
    while c < n_all
        invariant
            c <= n_all,
            fsv == files@,
            roots == initial_files@,
            n_all == fsv.len(),
            parsed@.len() == n_all,
            succ@.len() == n_all,
            forall|j: int|
                0 <= j < n_all ==> parse_result_matches(
                    #[trigger] parsed@[j],
                    spec_parse_file(fsv[j].content@),
                ),
            forall|j: int| 0 <= j < n_all ==> (#[trigger] succ@[j])@ == node_succ(fsv, j),
            adj_view(succ@) == snap_succ(fsv),
            succ_wf(adj_view(succ@)),
            reach_any@.len() == n_all,
            forall|j: usize|
                j < n_all ==> ((#[trigger] reach_any@[j as int]) <==> dir_reachable(fsv, roots, j)),
            fi@.len() == imps@.len(),
            fsv.len() <= usize::MAX,
            nodes == dir_nodes(fsv, roots),
            fi@.len() <= nodes.len(),
            nodes == fi_nodes_seen(fi@.len() as int, nodes) + dir_nodes_from(
                fsv,
                roots,
                c as int,
            ),
            forall|k: int|
                0 <= k < fi@.len() ==> (#[trigger] fi@[k])@ == (FileInfoV {
                    path: fsv[nodes[k] as int].path@,
                    datasources: decls_of(fsv, nodes[k] as int),
                    persists: upds_of(fsv, nodes[k] as int),
                }),
            forall|k: int|
                0 <= k < imps@.len() ==> (#[trigger] imps@[k]).0@ == fsv[nodes[k] as int].path@
                    && strs_view(imps@[k].1@) == Seq::new(
                    node_succ(fsv, nodes[k] as int).len(),
                    |x: int| fsv[node_succ(fsv, nodes[k] as int)[x] as int].path@,
                ),
        decreases n_all - c,
    {
        if reach_any[c] {
            match &parsed[c] {
                Err(e) => {
                    warnings.push(
                        Warning::UnparsableFile { file: files[c].path.clone(), error: *e },
                    );
                    proof {
                        assert(!dir_keep(fsv, roots, c as usize));
                        assert(dir_nodes_from(fsv, roots, c as int) == dir_nodes_from(
                            fsv,
                            roots,
                            c as int + 1,
                        ));
                    }
                },
                Ok(pf) => {
                    let ghost f = spec_parse_file(fsv[c as int].content@)->Ok_0;
                    proof {
                        assert(pf@ == f);
                        assert(dir_keep(fsv, roots, c as usize));
                        assert(dir_nodes_from(fsv, roots, c as int) == seq![c as usize]
                            + dir_nodes_from(fsv, roots, c as int + 1));
                        assert(nodes == fi_nodes_seen(fi@.len() as int, nodes) + (seq![c as usize]
                            + dir_nodes_from(fsv, roots, c as int + 1)));
                        assert((fi_nodes_seen(fi@.len() as int, nodes) + seq![c as usize])
                            + dir_nodes_from(fsv, roots, c as int + 1) =~= fi_nodes_seen(
                            fi@.len() as int,
                            nodes,
                        ) + (seq![c as usize] + dir_nodes_from(fsv, roots, c as int + 1)));
                        assert(nodes[fi@.len() as int] == c as usize);
                        assert(fi_nodes_seen(fi@.len() as int + 1, nodes) =~= fi_nodes_seen(
                            fi@.len() as int,
                            nodes,
                        ) + seq![c as usize]);
                    }
                    // facts of this file
                    let mut declares: Vec<String> = Vec::new();
                    let nd = pf.datasources.len();
                    let mut y: usize = 0;
                    while y < nd
                        invariant
                            y <= nd,
                            pf@ == f,
                            nd == pf.datasources@.len(),
                            nd == f.datasources.len(),
                            declares@.len() == y,
                            forall|j: int|
                                0 <= j < y ==> (#[trigger] declares@[j])@ == f.datasources[j],
                        decreases nd - y,
                    {
                        proof {
                            assert(pf.datasources@[y as int]@ == f.datasources[y as int]);
                        }
                        declares.push(pf.datasources[y].name.clone());
                        y += 1;
                    }
                    let mut persists: Vec<String> = Vec::new();
                    let np = pf.persists.len();
                    let mut y2: usize = 0;
                    while y2 < np
                        invariant
                            y2 <= np,
                            pf@ == f,
                            np == pf.persists@.len(),
                            np == f.persists.len(),
                            persists@.len() == y2,
                            forall|j: int|
                                0 <= j < y2 ==> (#[trigger] persists@[j])@ == f.persists[j].target,
                        decreases np - y2,
                    {
                        proof {
                            assert(pf.persists@[y2 as int]@ == f.persists[y2 as int]);
                        }
                        persists.push(pf.persists[y2].target_datasource.clone());
                        y2 += 1;
                    }
                    let info = FileInfo { path: files[c].path.clone(), datasources: declares, persists };
                    proof {
                        assert(info@.datasources =~= decls_of(fsv, c as int));
                        assert(info@.persists =~= upds_of(fsv, c as int));
                    }
                    // resolved import paths of this file
                    let mut ipaths: Vec<String> = Vec::new();
                    let ns = succ[c].len();
                    let mut x: usize = 0;
                    while x < ns
                        invariant
                            x <= ns,
                            c < fsv.len(),
                            fsv == files@,
                            fsv.len() <= usize::MAX,
                            succ@.len() == fsv.len(),
                            forall|j: int|
                                0 <= j < fsv.len() ==> (#[trigger] succ@[j])@ == node_succ(fsv, j),
                            ns == node_succ(fsv, c as int).len(),
                            ipaths@.len() == x,
                            forall|j: int|
                                0 <= j < x ==> (#[trigger] ipaths@[j])@ == fsv[node_succ(
                                    fsv,
                                    c as int,
                                )[j] as int].path@,
                        decreases ns - x,
                    {
                        proof {
                            lemma_snap_succ_wf(fsv);
                            assert(snap_succ(fsv)[c as int] == node_succ(fsv, c as int));
                        }
                        let tgt = succ[c][x];
                        ipaths.push(files[tgt].path.clone());
                        x += 1;
                    }
                    proof {
                        assert(strs_view(ipaths@) =~= Seq::new(
                            node_succ(fsv, c as int).len(),
                            |x2: int| fsv[node_succ(fsv, c as int)[x2] as int].path@,
                        ));
                    }
                    imps.push((files[c].path.clone(), ipaths));
                    fi.push(info);
                },
            }
        } else {
            proof {
                assert(!dir_keep(fsv, roots, c as usize));
                assert(dir_nodes_from(fsv, roots, c as int) == dir_nodes_from(
                    fsv,
                    roots,
                    c as int + 1,
                ));
            }
        }
        c += 1;
    }
    proof {
        assert(dir_nodes_from(fsv, roots, n_all as int) =~= Seq::<usize>::empty());
        assert(fi_nodes_seen(fi@.len() as int, nodes) + Seq::<usize>::empty() =~= fi_nodes_seen(
            fi@.len() as int,
            nodes,
        ));
        assert(fi_nodes_seen(fi@.len() as int, nodes) == nodes);
        lemma_fi_nodes_seen(fi@.len() as int, nodes);
    }
    Ok(DirectoryGraph { files: fi, imports: imps, warnings })
}

// ---------------------------------------------------------------------------
// Edge synthesis over a batch.
// ---------------------------------------------------------------------------

/// The first batch entry whose path is `p`.
pub open spec fn fi_lookup_from(files: Seq<FileInfo>, p: Seq<char>, i: int) -> Option<int>
    decreases files.len() - i when 0 <= i <= files.len()
{
    if i >= files.len() {
        None
    } else if files[i].path@ == p {
        Some(i)
    } else {
        fi_lookup_from(files, p, i + 1)
    }
}

pub proof fn lemma_fi_lookup_from(files: Seq<FileInfo>, p: Seq<char>, i: int)
    requires
        0 <= i <= files.len(),
    ensures
        match fi_lookup_from(files, p, i) {
            None => forall|j: int| i <= j < files.len() ==> (#[trigger] files[j].path@) != p,
            Some(j) => i <= j < files.len() && files[j].path@ == p,
        },
    decreases files.len() - i,
{
    if i < files.len() && files[i].path@ != p {
        lemma_fi_lookup_from(files, p, i + 1);
    }
}

/// The batch entries a resolved path list leads to, unknown paths
/// skipped.
pub open spec fn dir_local_from(files: Seq<FileInfo>, paths: Seq<String>, x: int) -> Seq<usize>
    decreases paths.len() - x when 0 <= x <= paths.len()
{
    if x >= paths.len() {
        Seq::empty()
    } else {
        (match fi_lookup_from(files, paths[x]@, 0) {
            Some(j) => seq![j as usize],
            None => Seq::empty(),
        }) + dir_local_from(files, paths, x + 1)
    }
}

/// The dependency facts a batch graph holds, one entry per file.
pub open spec fn dir_facts(files: Seq<FileInfo>, imports: Seq<(String, Vec<String>)>) -> Seq<
    NodeFactsV,
> {
    Seq::new(
        files.len(),
        |k: int| NodeFactsV {
            imports: if k < imports.len() {
                dir_local_from(files, imports[k].1@, 0)
            } else {
                Seq::empty()
            },
            declares: files[k]@.datasources,
            updates: files[k]@.persists,
        },
    )
}

proof fn lemma_dir_local_wf(files: Seq<FileInfo>, paths: Seq<String>, x: int)
    requires
        0 <= x <= paths.len(),
        files.len() <= usize::MAX,
    ensures
        forall|y: int|
            0 <= y < dir_local_from(files, paths, x).len() ==> (#[trigger] dir_local_from(
                files,
                paths,
                x,
            )[y]) < files.len(),
    decreases paths.len() - x,
{
    if x < paths.len() {
        lemma_dir_local_wf(files, paths, x + 1);
        match fi_lookup_from(files, paths[x]@, 0) {
            Some(j) => {
                lemma_fi_lookup_from(files, paths[x]@, 0);
                let head = seq![j as usize];
                assert forall|y: int|
                    0 <= y < dir_local_from(files, paths, x).len() implies (
                #[trigger] dir_local_from(files, paths, x)[y]) < files.len() by {
                    if y == 0 {
                        assert(dir_local_from(files, paths, x)[0] == j as usize);
                    } else {
                        assert(dir_local_from(files, paths, x)[y] == dir_local_from(
                            files,
                            paths,
                            x + 1,
                        )[y - 1]);
                    }
                }
            },
            None => {
                assert(dir_local_from(files, paths, x) =~= dir_local_from(files, paths, x + 1));
            },
        }
    }
}

/// The batch graph's facts are well-formed.
pub proof fn lemma_dir_facts_wf(files: Seq<FileInfo>, imports: Seq<(String, Vec<String>)>)
    requires
        files.len() <= usize::MAX,
    ensures
        crate::edges::facts_wf(dir_facts(files, imports)),
{
    let dfs = dir_facts(files, imports);
    assert forall|k: int, x: int|
        0 <= k < dfs.len() && 0 <= x < dfs[k].imports.len() implies (#[trigger] dfs[k].imports[x])
        < dfs.len() by {
        if k < imports.len() {
            lemma_dir_local_wf(files, imports[k].1@, 0);
        }
    }
}

/// Extracts the facts a batch graph holds.
fn derive_facts(graph: &DirectoryGraph) -> (nf: Vec<NodeFacts>)
    ensures
        nf@.len() == graph.files@.len(),
        facts_view(nf@) == dir_facts(graph.files@, graph.imports@),
{
    let ghost dfs = dir_facts(graph.files@, graph.imports@);
    let n = graph.files.len();
    let mut nf: Vec<NodeFacts> = Vec::new();
    let mut k: usize = 0;
    while k < n
        invariant
            k <= n,
            n == graph.files@.len(),
            dfs == dir_facts(graph.files@, graph.imports@),
            dfs.len() == n,
            nf@.len() == k,
            forall|j: int| 0 <= j < k ==> (#[trigger] nf@[j])@ == dfs[j],
        decreases n - k,
    {
        let mut imp: Vec<usize> = Vec::new();
        if k < graph.imports.len() {
            let np = graph.imports[k].1.len();
            let mut x: usize = 0;
            proof {
                assert(dir_local_from(graph.files@, graph.imports@[k as int].1@, 0) == imp@
                    + dir_local_from(graph.files@, graph.imports@[k as int].1@, 0));
            }
            while x < np
                invariant
                    x <= np,
                    k < graph.imports@.len(),
                    n == graph.files@.len(),
                    np == graph.imports@[k as int].1@.len(),
                    dir_local_from(graph.files@, graph.imports@[k as int].1@, 0) == imp@
                        + dir_local_from(graph.files@, graph.imports@[k as int].1@, x as int),
                decreases np - x,
            {
                let ghost imp0 = imp@;
                let p = &graph.imports[k].1[x];
                // first entry with this path
                let mut j: usize = 0;
                while j < n && !graph.files[j].path.eq(p)
                    invariant
                        j <= n,
                        n == graph.files@.len(),
                        fi_lookup_from(graph.files@, p@, 0) == fi_lookup_from(
                            graph.files@,
                            p@,
                            j as int,
                        ),
                    decreases n - j,
                {
                    j += 1;
                }
                if j < n {
                    imp.push(j);
                    proof {
                        assert(fi_lookup_from(graph.files@, p@, j as int) == Some(j as int));
                        assert((imp0 + seq![j]) + dir_local_from(
                            graph.files@,
                            graph.imports@[k as int].1@,
                            x as int + 1,
                        ) =~= imp0 + (seq![j] + dir_local_from(
                            graph.files@,
                            graph.imports@[k as int].1@,
                            x as int + 1,
                        )));
                    }
                } else {
                    proof {
                        assert(fi_lookup_from(graph.files@, p@, j as int) is None);
                        assert(Seq::<usize>::empty() + dir_local_from(
                            graph.files@,
                            graph.imports@[k as int].1@,
                            x as int + 1,
                        ) =~= dir_local_from(graph.files@, graph.imports@[k as int].1@, x as int + 1));
                    }
                }
                x += 1;
            }
            proof {
                assert(dir_local_from(graph.files@, graph.imports@[k as int].1@, np as int)
                    =~= Seq::<usize>::empty());
                assert(imp@ + Seq::<usize>::empty() =~= imp@);
            }
        }
        let declares = crate::resolver::clone_strs(&graph.files[k].datasources);
        let updates = crate::resolver::clone_strs(&graph.files[k].persists);
        let item = NodeFacts { imports: imp, declares, updates };
        proof {
            assert(item@.imports =~= dfs[k as int].imports);
            assert(item@.declares =~= dfs[k as int].declares);
            assert(item@.updates =~= dfs[k as int].updates);
            assert(item@ == dfs[k as int]);
        }
        nf.push(item);
        k += 1;
    }
    proof {
        assert(facts_view(nf@) =~= dfs);
    }
    nf
}

/// One edge is justified by the facts.
pub open spec fn edge_sound(dfs: Seq<NodeFactsV>, files: Seq<FileInfo>, e: Edge) -> bool {
    exists|u: int, v: int|
        #![trigger files[u], files[v]]
        0 <= u < dfs.len() && 0 <= v < dfs.len() && e.from@ == files[u].path@ && e.to@
            == files[v].path@ && (match e.reason {
            EdgeReason::Import => import_edge(dfs, u, v) && !pbd_edge(dfs, v, u),
            EdgeReason::PersistBeforeDeclare { datasource } => pbd_edge_named(
                dfs,
                u,
                v,
                datasource@,
            ),
            EdgeReason::DeclareBeforeUse { datasource } => dbu_edge_named(dfs, u, v, datasource@)
                && !pbd_edge(dfs, v, u),
            EdgeReason::TransitivePersistOrder { upstream_datasource, downstream_datasource } =>
                tpo_edge_named(dfs, u, v, upstream_datasource@, downstream_datasource@),
        })
}

/// Some edge of the given kind stands between `u` and `v`.
pub open spec fn has_edge(
    edges: Seq<Edge>,
    files: Seq<FileInfo>,
    u: int,
    v: int,
    kind: int,
) -> bool {
    exists|j: int|
        0 <= j < edges.len() && (#[trigger] edges[j]).from@ == files[u].path@ && edges[j].to@
            == files[v].path@ && (match edges[j].reason {
            EdgeReason::Import => kind == 0,
            EdgeReason::PersistBeforeDeclare { .. } => kind == 1,
            EdgeReason::DeclareBeforeUse { .. } => kind == 2,
            EdgeReason::TransitivePersistOrder { .. } => kind == 3,
        })
}

/// Extending the edge list never loses an already-present edge.
pub proof fn lemma_has_edge_extend(
    e0: Seq<Edge>,
    e1: Seq<Edge>,
    fls: Seq<FileInfo>,
    u: int,
    v: int,
    kd: int,
)
    requires
        e0.len() <= e1.len(),
        forall|j: int| 0 <= j < e0.len() ==> e1[j] == #[trigger] e0[j],
        has_edge(e0, fls, u, v, kd),
    ensures
        has_edge(e1, fls, u, v, kd),
{
    let j = choose|j: int|
        0 <= j < e0.len() && (#[trigger] e0[j]).from@ == fls[u].path@ && e0[j].to@
            == fls[v].path@ && (match e0[j].reason {
            EdgeReason::Import => kd == 0,
            EdgeReason::PersistBeforeDeclare { .. } => kd == 1,
            EdgeReason::DeclareBeforeUse { .. } => kd == 2,
            EdgeReason::TransitivePersistOrder { .. } => kd == 3,
        });
    assert(e1[j] == e0[j]);
}

/// Synthesizes and reconciles the dependency edges of a batch graph:
/// import, persist-before-declare, declare-before-use and transitive
/// persist-order edges, with an import or declare-before-use edge
/// dropped when the reversed pair carries a persist-before-declare
/// edge.
///
/// Every returned edge is justified by the batch's facts, and every
/// justified pair is returned.
#[verifier::rlimit(100)]
pub fn build_edges(graph: &DirectoryGraph) -> (edges: Vec<Edge>)
    ensures
        ({
            let dfs = dir_facts(graph.files@, graph.imports@);
            let fls = graph.files@;
            &&& forall|j: int| 0 <= j < edges@.len() ==> edge_sound(dfs, fls, #[trigger] edges@[j])
            &&& forall|u: int, v: int|
                0 <= u < dfs.len() && 0 <= v < dfs.len() && import_edge(dfs, u, v) && !pbd_edge(
                    dfs,
                    v,
                    u,
                ) ==> #[trigger] has_edge(edges@, fls, u, v, 0)
            &&& forall|u: int, v: int|
                0 <= u < dfs.len() && 0 <= v < dfs.len() && pbd_edge(dfs, u, v)
                    ==> #[trigger] has_edge(edges@, fls, u, v, 1)
            &&& forall|u: int, v: int|
                0 <= u < dfs.len() && 0 <= v < dfs.len() && dbu_edge(dfs, u, v) && !pbd_edge(
                    dfs,
                    v,
                    u,
                ) ==> #[trigger] has_edge(edges@, fls, u, v, 2)
            &&& forall|u: int, v: int|
                0 <= u < dfs.len() && 0 <= v < dfs.len() && tpo_edge(dfs, u, v)
                    ==> #[trigger] has_edge(edges@, fls, u, v, 3)
        }),
{
    let ghost dfs = dir_facts(graph.files@, graph.imports@);
    let ghost fls = graph.files@;
    let nf = derive_facts(graph);
    let n = nf.len();
    proof {
        assert(fls.len() == n);
        lemma_dir_facts_wf(fls, graph.imports@);
    }
    // local import adjacency for reachability
    let mut succ_local: Vec<Vec<usize>> = Vec::new();
    let mut sl: usize = 0;
    while sl < n
        invariant
            sl <= n,
            n == nf@.len(),
            facts_view(nf@) == dfs,
            dfs.len() == n,
            succ_local@.len() == sl,
            forall|j: int| 0 <= j < sl ==> (#[trigger] succ_local@[j])@ == dfs[j].imports,
        decreases n - sl,
    {
        let mut row: Vec<usize> = Vec::new();
        let ilen = nf[sl].imports.len();
        let mut ix: usize = 0;
        while ix < ilen
            invariant
                ix <= ilen,
                sl < n,
                n == nf@.len(),
                facts_view(nf@) == dfs,
                dfs.len() == n,
                ilen == dfs[sl as int].imports.len(),
                row@.len() == ix,
                forall|j: int| 0 <= j < ix ==> (#[trigger] row@[j]) == dfs[sl as int].imports[j],
            decreases ilen - ix,
        {
            proof {
                assert(nf@[sl as int]@ == dfs[sl as int]);
            }
            row.push(nf[sl].imports[ix]);
            ix += 1;
        }
        proof {
            assert(row@ =~= dfs[sl as int].imports);
        }
        succ_local.push(row);
        sl += 1;
    }
    proof {
        assert(adj_view(succ_local@) =~= imports_adj(dfs));
        assert(succ_wf(adj_view(succ_local@)));
    }
    let rp = reach_plus_table(&succ_local);
    let mut edges: Vec<Edge> = Vec::new();
    let mut u: usize = 0;
    while u < n
        invariant
            u <= n,
            n == nf@.len(),
            facts_view(nf@) == dfs,
            dfs.len() == n,
            fls == graph.files@,
            fls.len() == n,
            rp@.len() == n,
            forall|a: int| 0 <= a < rp@.len() ==> (#[trigger] rp@[a])@.len() == n,
            forall|a: usize, b: usize|
                a < n && b < n ==> ((#[trigger] rp@[a as int]@[b as int]) <==> reaches_plus(
                    imports_adj(dfs),
                    a,
                    b,
                )),
            forall|j: int| 0 <= j < edges@.len() ==> edge_sound(dfs, fls, #[trigger] edges@[j]),
            forall|u2: int, v2: int|
                0 <= u2 < u && 0 <= v2 < n && import_edge(dfs, u2, v2) && !pbd_edge(dfs, v2, u2)
                    ==> #[trigger] has_edge(edges@, fls, u2, v2, 0),
            forall|u2: int, v2: int|
                0 <= u2 < u && 0 <= v2 < n && pbd_edge(dfs, u2, v2) ==> #[trigger] has_edge(
                    edges@,
                    fls,
                    u2,
                    v2,
                    1,
                ),
            forall|u2: int, v2: int|
                0 <= u2 < u && 0 <= v2 < n && dbu_edge(dfs, u2, v2) && !pbd_edge(dfs, v2, u2)
                    ==> #[trigger] has_edge(edges@, fls, u2, v2, 2),
            forall|u2: int, v2: int|
                0 <= u2 < u && 0 <= v2 < n && tpo_edge(dfs, u2, v2) ==> #[trigger] has_edge(
                    edges@,
                    fls,
                    u2,
                    v2,
                    3,
                ),
        decreases n - u,
    {
        let mut v: usize = 0;
        while v < n
            invariant
                v <= n,
                u < n,
                n == nf@.len(),
                facts_view(nf@) == dfs,
                dfs.len() == n,
                fls == graph.files@,
                fls.len() == n,
                rp@.len() == n,
                forall|a: int| 0 <= a < rp@.len() ==> (#[trigger] rp@[a])@.len() == n,
                forall|a: usize, b: usize|
                    a < n && b < n ==> ((#[trigger] rp@[a as int]@[b as int]) <==> reaches_plus(
                        imports_adj(dfs),
                        a,
                        b,
                    )),
                forall|j: int| 0 <= j < edges@.len() ==> edge_sound(dfs, fls, #[trigger] edges@[j]),
                forall|u2: int, v2: int|
                    0 <= u2 < u && 0 <= v2 < n && import_edge(dfs, u2, v2) && !pbd_edge(dfs, v2, u2)
                        ==> #[trigger] has_edge(edges@, fls, u2, v2, 0),
                forall|u2: int, v2: int|
                    0 <= u2 < u && 0 <= v2 < n && pbd_edge(dfs, u2, v2) ==> #[trigger] has_edge(
                        edges@,
                        fls,
                        u2,
                        v2,
                        1,
                    ),
                forall|u2: int, v2: int|
                    0 <= u2 < u && 0 <= v2 < n && dbu_edge(dfs, u2, v2) && !pbd_edge(dfs, v2, u2)
                        ==> #[trigger] has_edge(edges@, fls, u2, v2, 2),
                forall|u2: int, v2: int|
                    0 <= u2 < u && 0 <= v2 < n && tpo_edge(dfs, u2, v2) ==> #[trigger] has_edge(
                        edges@,
                        fls,
                        u2,
                        v2,
                        3,
                    ),
                forall|v2: int|
                    0 <= v2 < v && import_edge(dfs, u as int, v2) && !pbd_edge(dfs, v2, u as int)
                        ==> #[trigger] has_edge(edges@, fls, u as int, v2, 0),
                forall|v2: int|
                    0 <= v2 < v && pbd_edge(dfs, u as int, v2) ==> #[trigger] has_edge(
                        edges@,
                        fls,
                        u as int,
                        v2,
                        1,
                    ),
                forall|v2: int|
                    0 <= v2 < v && dbu_edge(dfs, u as int, v2) && !pbd_edge(dfs, v2, u as int)
                        ==> #[trigger] has_edge(edges@, fls, u as int, v2, 2),
                forall|v2: int|
                    0 <= v2 < v && tpo_edge(dfs, u as int, v2) ==> #[trigger] has_edge(
                        edges@,
                        fls,
                        u as int,
                        v2,
                        3,
                    ),
            decreases n - v,
        {
            let ghost e0 = edges@;
            let pbd_rev = pbd_check(&nf, v, u);
            if contains_idx(&nf[v].imports, u) && !pbd_rev {
                proof {
                    assert(nf@[v as int]@ == dfs[v as int]);
                    assert(import_edge(dfs, u as int, v as int));
                }
                let ghost ep = edges@;
                edges.push(
                    Edge {
                        from: graph.files[u].path.clone(),
                        to: graph.files[v].path.clone(),
                        reason: EdgeReason::Import,
                    },
                );
                proof {
                    assert forall|u2: int, v2: int, kd: int|
                        #[trigger] has_edge(ep, fls, u2, v2, kd) implies has_edge(
                        edges@,
                        fls,
                        u2,
                        v2,
                        kd,
                    ) by {
                        lemma_has_edge_extend(ep, edges@, fls, u2, v2, kd);
                    }
                    let j = edges@.len() - 1;
                    assert(edges@[j].from@ == fls[u as int].path@);
                    assert(edges@[j].to@ == fls[v as int].path@);
                    assert(has_edge(edges@, fls, u as int, v as int, 0));
                    assert(edge_sound(dfs, fls, edges@[j]));
                }
            }
            if let Some(nm) = pbd_find(&nf, u, v) {
                let ghost ep = edges@;
                edges.push(
                    Edge {
                        from: graph.files[u].path.clone(),
                        to: graph.files[v].path.clone(),
                        reason: EdgeReason::PersistBeforeDeclare { datasource: nm },
                    },
                );
                proof {
                    assert forall|u2: int, v2: int, kd: int|
                        #[trigger] has_edge(ep, fls, u2, v2, kd) implies has_edge(
                        edges@,
                        fls,
                        u2,
                        v2,
                        kd,
                    ) by {
                        lemma_has_edge_extend(ep, edges@, fls, u2, v2, kd);
                    }
                    let j = edges@.len() - 1;
                    assert(edges@[j].from@ == fls[u as int].path@);
                    assert(edges@[j].to@ == fls[v as int].path@);
                    assert(has_edge(edges@, fls, u as int, v as int, 1));
                    assert(edge_sound(dfs, fls, edges@[j]));
                }
            }
            if !pbd_rev {
                if let Some(nm) = dbu_find(&nf, &rp, u, v) {
                    let ghost ep = edges@;
                    edges.push(
                        Edge {
                            from: graph.files[u].path.clone(),
                            to: graph.files[v].path.clone(),
                            reason: EdgeReason::DeclareBeforeUse { datasource: nm },
                        },
                    );
                    proof {
                        assert forall|u2: int, v2: int, kd: int|
                            #[trigger] has_edge(ep, fls, u2, v2, kd) implies has_edge(
                            edges@,
                            fls,
                            u2,
                            v2,
                            kd,
                        ) by {
                            lemma_has_edge_extend(ep, edges@, fls, u2, v2, kd);
                        }
                        let j = edges@.len() - 1;
                        assert(edges@[j].from@ == fls[u as int].path@);
                        assert(edges@[j].to@ == fls[v as int].path@);
                        assert(has_edge(edges@, fls, u as int, v as int, 2));
                        assert(edge_sound(dfs, fls, edges@[j]));
                    }
                }
            }
            if let Some(ns) = tpo_find(&nf, &rp, u, v) {
                let ghost ep = edges@;
                edges.push(
                    Edge {
                        from: graph.files[u].path.clone(),
                        to: graph.files[v].path.clone(),
                        reason: EdgeReason::TransitivePersistOrder {
                            upstream_datasource: ns.0,
                            downstream_datasource: ns.1,
                        },
                    },
                );
                proof {
                    assert forall|u2: int, v2: int, kd: int|
                        #[trigger] has_edge(ep, fls, u2, v2, kd) implies has_edge(
                        edges@,
                        fls,
                        u2,
                        v2,
                        kd,
                    ) by {
                        lemma_has_edge_extend(ep, edges@, fls, u2, v2, kd);
                    }
                    let j = edges@.len() - 1;
                    assert(edges@[j].from@ == fls[u as int].path@);
                    assert(edges@[j].to@ == fls[v as int].path@);
                    assert(has_edge(edges@, fls, u as int, v as int, 3));
                    assert(edge_sound(dfs, fls, edges@[j]));
                }
            }
            proof {
                // facts that held on entry carry to the extended list
                assert(e0.len() <= edges@.len());
                assert(forall|j: int| 0 <= j < e0.len() ==> edges@[j] == #[trigger] e0[j]);
                assert forall|u2: int, v2: int, kd: int|
                    #[trigger] has_edge(e0, fls, u2, v2, kd) implies has_edge(
                    edges@,
                    fls,
                    u2,
                    v2,
                    kd,
                ) by {
                    lemma_has_edge_extend(e0, edges@, fls, u2, v2, kd);
                }
                assert forall|u2: int, v2: int|
                    0 <= u2 < u && 0 <= v2 < n && import_edge(dfs, u2, v2) && !pbd_edge(
                        dfs,
                        v2,
                        u2,
                    ) implies #[trigger] has_edge(edges@, fls, u2, v2, 0) by {
                    assert(has_edge(e0, fls, u2, v2, 0));
                }
                assert forall|u2: int, v2: int|
                    0 <= u2 < u && 0 <= v2 < n && pbd_edge(dfs, u2, v2) implies #[trigger] has_edge(
                    edges@,
                    fls,
                    u2,
                    v2,
                    1,
                ) by {
                    assert(has_edge(e0, fls, u2, v2, 1));
                }
                assert forall|u2: int, v2: int|
                    0 <= u2 < u && 0 <= v2 < n && dbu_edge(dfs, u2, v2) && !pbd_edge(
                        dfs,
                        v2,
                        u2,
                    ) implies #[trigger] has_edge(edges@, fls, u2, v2, 2) by {
                    assert(has_edge(e0, fls, u2, v2, 2));
                }
                assert forall|u2: int, v2: int|
                    0 <= u2 < u && 0 <= v2 < n && tpo_edge(dfs, u2, v2) implies #[trigger] has_edge(
                    edges@,
                    fls,
                    u2,
                    v2,
                    3,
                ) by {
                    assert(has_edge(e0, fls, u2, v2, 3));
                }
                assert forall|v2: int|
                    0 <= v2 < v && import_edge(dfs, u as int, v2) && !pbd_edge(
                        dfs,
                        v2,
                        u as int,
                    ) implies #[trigger] has_edge(edges@, fls, u as int, v2, 0) by {
                    assert(has_edge(e0, fls, u as int, v2, 0));
                }
                assert forall|v2: int|
                    0 <= v2 < v && pbd_edge(dfs, u as int, v2) implies #[trigger] has_edge(
                    edges@,
                    fls,
                    u as int,
                    v2,
                    1,
                ) by {
                    assert(has_edge(e0, fls, u as int, v2, 1));
                }
                assert forall|v2: int|
                    0 <= v2 < v && dbu_edge(dfs, u as int, v2) && !pbd_edge(
                        dfs,
                        v2,
                        u as int,
                    ) implies #[trigger] has_edge(edges@, fls, u as int, v2, 2) by {
                    assert(has_edge(e0, fls, u as int, v2, 2));
                }
                assert forall|v2: int|
                    0 <= v2 < v && tpo_edge(dfs, u as int, v2) implies #[trigger] has_edge(
                    edges@,
                    fls,
                    u as int,
                    v2,
                    3,
                ) by {
                    assert(has_edge(e0, fls, u as int, v2, 3));
                }
            }
            v += 1;
        }
        u += 1;
    }
    edges
}

// ---------------------------------------------------------------------------
// Transitive imports.
// ---------------------------------------------------------------------------

/// The entries transitively imported by entry `k`, ascending, via the
/// path-keyed import lists.
pub open spec fn ti_list_from(
    entries: Seq<(String, Vec<String>)>,
    facts: Seq<NodeFactsV>,
    k: int,
    j: int,
) -> Seq<usize>
    decreases entries.len() - j when 0 <= j <= entries.len()
{
    if j >= entries.len() {
        Seq::empty()
    } else if reaches_plus(imports_adj(facts), k as usize, j as usize) {
        seq![j as usize] + ti_list_from(entries, facts, k, j + 1)
    } else {
        ti_list_from(entries, facts, k, j + 1)
    }
}

/// The first import-map entry whose path is `p`.
pub open spec fn ti_lookup_from(entries: Seq<(String, Vec<String>)>, p: Seq<char>, i: int) -> Option<
    int,
>
    decreases entries.len() - i when 0 <= i <= entries.len()
{
    if i >= entries.len() {
        None
    } else if entries[i].0@ == p {
        Some(i)
    } else {
        ti_lookup_from(entries, p, i + 1)
    }
}

/// The entries a resolved path list leads to, unknown paths skipped.
pub open spec fn ti_succ_from(
    entries: Seq<(String, Vec<String>)>,
    paths: Seq<String>,
    x: int,
) -> Seq<usize>
    decreases paths.len() - x when 0 <= x <= paths.len()
{
    if x >= paths.len() {
        Seq::empty()
    } else {
        (match ti_lookup_from(entries, paths[x]@, 0) {
            Some(j) => seq![j as usize],
            None => Seq::empty(),
        }) + ti_succ_from(entries, paths, x + 1)
    }
}

/// The facts a bare import map carries: no declarations, only edges.
pub open spec fn ti_facts(entries: Seq<(String, Vec<String>)>) -> Seq<NodeFactsV> {
    Seq::new(
        entries.len(),
        |k: int| NodeFactsV {
            imports: ti_succ_from(entries, entries[k].1@, 0),
            declares: Seq::empty(),
            updates: Seq::empty(),
        },
    )
}

proof fn lemma_ti_lookup_from(entries: Seq<(String, Vec<String>)>, p: Seq<char>, i: int)
    requires
        0 <= i <= entries.len(),
    ensures
        match ti_lookup_from(entries, p, i) {
            None => true,
            Some(j) => i <= j < entries.len(),
        },
    decreases entries.len() - i,
{
    if i < entries.len() && entries[i].0@ != p {
        lemma_ti_lookup_from(entries, p, i + 1);
    }
}

proof fn lemma_ti_succ_wf(entries: Seq<(String, Vec<String>)>, paths: Seq<String>, x: int)
    requires
        0 <= x <= paths.len(),
        entries.len() <= usize::MAX,
    ensures
        forall|y: int|
            0 <= y < ti_succ_from(entries, paths, x).len() ==> (#[trigger] ti_succ_from(
                entries,
                paths,
                x,
            )[y]) < entries.len(),
    decreases paths.len() - x,
{
    if x < paths.len() {
        lemma_ti_succ_wf(entries, paths, x + 1);
        match ti_lookup_from(entries, paths[x]@, 0) {
            Some(j) => {
                lemma_ti_lookup_from(entries, paths[x]@, 0);
                assert forall|y: int|
                    0 <= y < ti_succ_from(entries, paths, x).len() implies (
                #[trigger] ti_succ_from(entries, paths, x)[y]) < entries.len() by {
                    if y == 0 {
                        assert(ti_succ_from(entries, paths, x)[0] == j as usize);
                    } else {
                        assert(ti_succ_from(entries, paths, x)[y] == ti_succ_from(
                            entries,
                            paths,
                            x + 1,
                        )[y - 1]);
                    }
                }
            },
            None => {
                assert(ti_succ_from(entries, paths, x) =~= ti_succ_from(entries, paths, x + 1));
            },
        }
    }
}

/// For each file of a path-keyed import map, every file it transitively
/// imports (one or more steps), in the map's entry order.
pub fn compute_transitive_imports(imports: &Vec<(String, Vec<String>)>) -> (r: Vec<
    (String, Vec<String>),
>)
    ensures
        r@.len() == imports@.len(),
        forall|k: int|
            0 <= k < imports@.len() ==> (#[trigger] r@[k]).0@ == imports@[k].0@ && strs_view(
                r@[k].1@,
            ) == Seq::new(
                ti_list_from(imports@, ti_facts(imports@), k, 0).len(),
                |x: int| imports@[ti_list_from(imports@, ti_facts(imports@), k, 0)[x] as int].0@,
            ),
        forall|k: usize, j: usize|
            k < imports@.len() && j < imports@.len() ==> (ti_list_from(
                imports@,
                ti_facts(imports@),
                k as int,
                0,
            ).contains(j) <==> reaches_plus(imports_adj(ti_facts(imports@)), k, j)),
{
    let ghost entries = imports@;
    let ghost tfacts = ti_facts(entries);
    let n = imports.len();
    // the interned facts: one node per entry, import edges only
    let mut nf: Vec<NodeFacts> = Vec::new();
    let mut k0: usize = 0;
    while k0 < n
        invariant
            k0 <= n,
            n == imports@.len(),
            entries == imports@,
            tfacts == ti_facts(entries),
            tfacts.len() == n,
            nf@.len() == k0,
            forall|j: int| 0 <= j < k0 ==> (#[trigger] nf@[j])@ == tfacts[j],
        decreases n - k0,
    {
        let mut imp: Vec<usize> = Vec::new();
        let np = imports[k0].1.len();
        let mut x: usize = 0;
        proof {
            assert(ti_succ_from(entries, entries[k0 as int].1@, 0) == imp@ + ti_succ_from(
                entries,
                entries[k0 as int].1@,
                0,
            ));
        }
        while x < np
            invariant
                x <= np,
                k0 < n,
                n == imports@.len(),
                entries == imports@,
                np == entries[k0 as int].1@.len(),
                ti_succ_from(entries, entries[k0 as int].1@, 0) == imp@ + ti_succ_from(
                    entries,
                    entries[k0 as int].1@,
                    x as int,
                ),
            decreases np - x,
        {
            let ghost imp0 = imp@;
            let p = &imports[k0].1[x];
            let mut j: usize = 0;
            while j < n && !imports[j].0.eq(p)
                invariant
                    j <= n,
                    n == imports@.len(),
                    entries == imports@,
                    ti_lookup_from(entries, p@, 0) == ti_lookup_from(entries, p@, j as int),
                decreases n - j,
            {
                j += 1;
            }
            if j < n {
                imp.push(j);
                proof {
                    assert(ti_lookup_from(entries, p@, j as int) == Some(j as int));
                    assert((imp0 + seq![j]) + ti_succ_from(
                        entries,
                        entries[k0 as int].1@,
                        x as int + 1,
                    ) =~= imp0 + (seq![j] + ti_succ_from(entries, entries[k0 as int].1@, x as int + 1)));
                }
            } else {
                proof {
                    assert(ti_lookup_from(entries, p@, j as int) is None);
                    assert(Seq::<usize>::empty() + ti_succ_from(
                        entries,
                        entries[k0 as int].1@,
                        x as int + 1,
                    ) =~= ti_succ_from(entries, entries[k0 as int].1@, x as int + 1));
                }
            }
            x += 1;
        }
        proof {
            assert(ti_succ_from(entries, entries[k0 as int].1@, np as int) =~= Seq::<usize>::empty());
            assert(imp@ + Seq::<usize>::empty() =~= imp@);
        }
        let item = NodeFacts { imports: imp, declares: Vec::new(), updates: Vec::new() };
        proof {
            assert(item@.imports =~= tfacts[k0 as int].imports);
            assert(item@.declares =~= tfacts[k0 as int].declares);
            assert(item@.updates =~= tfacts[k0 as int].updates);
            assert(item@ == tfacts[k0 as int]);
        }
        nf.push(item);
        k0 += 1;
    }
    proof {
        assert(facts_view(nf@) =~= tfacts);
        assert forall|a: int, b: int|
            0 <= a < tfacts.len() && 0 <= b < tfacts[a].imports.len() implies (
        #[trigger] tfacts[a].imports[b]) < tfacts.len() by {
            lemma_ti_succ_wf(entries, entries[a].1@, 0);
        }
    }
    let mut succ_local: Vec<Vec<usize>> = Vec::new();
    let mut sl: usize = 0;
    while sl < n
        invariant
            sl <= n,
            n == nf@.len(),
            facts_view(nf@) == tfacts,
            tfacts.len() == n,
            succ_local@.len() == sl,
            forall|j: int| 0 <= j < sl ==> (#[trigger] succ_local@[j])@ == tfacts[j].imports,
        decreases n - sl,
    {
        let mut row: Vec<usize> = Vec::new();
        let ilen = nf[sl].imports.len();
        let mut ix: usize = 0;
        while ix < ilen
            invariant
                ix <= ilen,
                sl < n,
                n == nf@.len(),
                facts_view(nf@) == tfacts,
                tfacts.len() == n,
                ilen == tfacts[sl as int].imports.len(),
                row@.len() == ix,
                forall|j: int| 0 <= j < ix ==> (#[trigger] row@[j]) == tfacts[sl as int].imports[j],
            decreases ilen - ix,
        {
            proof {
                assert(nf@[sl as int]@ == tfacts[sl as int]);
            }
            row.push(nf[sl].imports[ix]);
            ix += 1;
        }
        proof {
            assert(row@ =~= tfacts[sl as int].imports);
        }
        succ_local.push(row);
        sl += 1;
    }
    proof {
        assert(adj_view(succ_local@) =~= imports_adj(tfacts));
        assert(succ_wf(adj_view(succ_local@)));
    }
    let rp = reach_plus_table(&succ_local);
    let mut r: Vec<(String, Vec<String>)> = Vec::new();
    let mut k: usize = 0;
    while k < n
        invariant
            k <= n,
            n == imports@.len(),
            entries == imports@,
            tfacts == ti_facts(entries),
            tfacts.len() == n,
            rp@.len() == n,
            forall|a: int| 0 <= a < rp@.len() ==> (#[trigger] rp@[a])@.len() == n,
            forall|a: usize, b: usize|
                a < n && b < n ==> ((#[trigger] rp@[a as int]@[b as int]) <==> reaches_plus(
                    imports_adj(tfacts),
                    a,
                    b,
                )),
            r@.len() == k,
            forall|j: int|
                0 <= j < k ==> (#[trigger] r@[j]).0@ == entries[j].0@ && strs_view(r@[j].1@)
                    == Seq::new(
                    ti_list_from(entries, tfacts, j, 0).len(),
                    |x: int| entries[ti_list_from(entries, tfacts, j, 0)[x] as int].0@,
                ),
        decreases n - k,
    {
        let mut reached: Vec<String> = Vec::new();
        let mut j: usize = 0;
        while j < n
            invariant
                j <= n,
                k < n,
                n == imports@.len(),
                entries == imports@,
                tfacts == ti_facts(entries),
                tfacts.len() == n,
                rp@.len() == n,
                forall|a: int| 0 <= a < rp@.len() ==> (#[trigger] rp@[a])@.len() == n,
                forall|a: usize, b: usize|
                    a < n && b < n ==> ((#[trigger] rp@[a as int]@[b as int]) <==> reaches_plus(
                        imports_adj(tfacts),
                        a,
                        b,
                    )),
                ti_list_from(entries, tfacts, k as int, 0).len() >= reached@.len(),
                Seq::new(
                    ti_list_from(entries, tfacts, k as int, 0).len(),
                    |x: int| entries[ti_list_from(entries, tfacts, k as int, 0)[x] as int].0@,
                ) == strs_view(reached@) + Seq::new(
                    ti_list_from(entries, tfacts, k as int, j as int).len(),
                    |x: int| entries[ti_list_from(entries, tfacts, k as int, j as int)[x] as int].0@,
                ),
            decreases n - j,
        {
            let ghost re0 = strs_view(reached@);
            let ghost tail0 = Seq::new(
                ti_list_from(entries, tfacts, k as int, j as int).len(),
                |x: int| entries[ti_list_from(entries, tfacts, k as int, j as int)[x] as int].0@,
            );
            if rp[k][j] {
                reached.push(imports[j].0.clone());
                proof {
                    assert(ti_list_from(entries, tfacts, k as int, j as int) == seq![j as usize]
                        + ti_list_from(entries, tfacts, k as int, j as int + 1));
                    let tail1 = Seq::new(
                        ti_list_from(entries, tfacts, k as int, j as int + 1).len(),
                        |x: int| entries[ti_list_from(entries, tfacts, k as int, j as int + 1)[x] as int].0@,
                    );
                    assert(tail0 =~= seq![entries[j as int].0@] + tail1);
                    assert(strs_view(reached@) =~= re0 + seq![entries[j as int].0@]);
                    assert((re0 + seq![entries[j as int].0@]) + tail1 =~= re0 + (seq![
                        entries[j as int].0@,
                    ] + tail1));
                }
            } else {
                proof {
                    assert(ti_list_from(entries, tfacts, k as int, j as int) == ti_list_from(
                        entries,
                        tfacts,
                        k as int,
                        j as int + 1,
                    ));
                }
            }
            j += 1;
        }
        proof {
            assert(ti_list_from(entries, tfacts, k as int, n as int) =~= Seq::<usize>::empty());
            assert(Seq::new(
                ti_list_from(entries, tfacts, k as int, n as int).len(),
                |x: int| entries[ti_list_from(entries, tfacts, k as int, n as int)[x] as int].0@,
            ) =~= Seq::<Seq<char>>::empty());
            assert(strs_view(reached@) + Seq::<Seq<char>>::empty() =~= strs_view(reached@));
        }
        r.push((imports[k].0.clone(), reached));
        k += 1;
    }
    proof {
        lemma_ti_list_member(entries, tfacts, 0, 0);
        assert forall|k2: usize, j2: usize|
            k2 < entries.len() && j2 < entries.len() implies (ti_list_from(
            entries,
            tfacts,
            k2 as int,
            0,
        ).contains(j2) <==> reaches_plus(imports_adj(tfacts), k2, j2)) by {
            lemma_ti_list_member(entries, tfacts, k2 as int, 0);
        }
    }
    r
}

pub proof fn lemma_ti_list_member(
    entries: Seq<(String, Vec<String>)>,
    facts: Seq<NodeFactsV>,
    k: int,
    i: int,
)
    requires
        0 <= i <= entries.len(),
        entries.len() <= usize::MAX,
    ensures
        forall|j: usize|
            #[trigger] ti_list_from(entries, facts, k, i).contains(j) <==> (i <= j < entries.len()
                && reaches_plus(imports_adj(facts), k as usize, j)),
    decreases entries.len() - i,
{
    if i < entries.len() {
        lemma_ti_list_member(entries, facts, k, i + 1);
        assert forall|j: usize|
            #[trigger] ti_list_from(entries, facts, k, i).contains(j) implies (i <= j
            < entries.len() && reaches_plus(imports_adj(facts), k as usize, j)) by {
            let p = choose|p: int|
                0 <= p < ti_list_from(entries, facts, k, i).len() && (#[trigger] ti_list_from(
                    entries,
                    facts,
                    k,
                    i,
                )[p]) == j;
            if reaches_plus(imports_adj(facts), k as usize, i as usize) {
                if p > 0 {
                    assert(ti_list_from(entries, facts, k, i + 1)[p - 1] == j);
                    assert(ti_list_from(entries, facts, k, i + 1).contains(j));
                }
            } else {
                assert(ti_list_from(entries, facts, k, i + 1)[p] == j);
                assert(ti_list_from(entries, facts, k, i + 1).contains(j));
            }
        }
        assert forall|j: usize|
            (i <= j < entries.len() && reaches_plus(imports_adj(facts), k as usize, j)) implies
            #[trigger] ti_list_from(entries, facts, k, i).contains(j) by {
            if i == j {
                assert(ti_list_from(entries, facts, k, i)[0] == j);
            } else {
                assert(ti_list_from(entries, facts, k, i + 1).contains(j));
                let p = choose|p: int|
                    0 <= p < ti_list_from(entries, facts, k, i + 1).len() && (
                    #[trigger] ti_list_from(entries, facts, k, i + 1)[p]) == j;
                if reaches_plus(imports_adj(facts), k as usize, i as usize) {
                    assert(ti_list_from(entries, facts, k, i)[p + 1] == j);
                } else {
                    assert(ti_list_from(entries, facts, k, i)[p] == j);
                }
            }
        }
    }
}

/// The first `k` entries of the node list.
pub open spec fn fi_nodes_seen(k: int, nodes: Seq<usize>) -> Seq<usize> {
    nodes.subrange(0, if 0 <= k <= nodes.len() {
        k
    } else {
        0int
    })
}

proof fn lemma_fi_nodes_seen(k: int, nodes: Seq<usize>)
    requires
        fi_nodes_seen(k, nodes) == nodes,
        0 <= k <= nodes.len(),
    ensures
        k == nodes.len(),
{
    assert(fi_nodes_seen(k, nodes).len() == k);
}

} // verus!
