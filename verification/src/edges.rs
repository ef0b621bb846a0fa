//! Dependency-edge synthesis and reconciliation.
//!
//! Nodes are files, numbered `0..n`. Four edge kinds order them (an edge
//! `(u, v)` means `u` must run before `v`):
//!
//! * **Import** — an imported file runs before its importer.
//! * **PersistBeforeDeclare** — a file writing a datasource runs before
//!   the file declaring it.
//! * **DeclareBeforeUse** — the declarer of a datasource runs before any
//!   file that can reach the name through its imports.
//! * **TransitivePersistOrder** — when declarer(B) imports declarer(A),
//!   every writer of A runs before every writer of B.
//!
//! Reconciliation: PersistBeforeDeclare dominates. An Import or
//! DeclareBeforeUse edge whose reversed pair carries a
//! PersistBeforeDeclare edge is dropped, so a file that imports a
//! declaration purely to update it still runs first.
//!
//! Where a datasource name is declared by several files, the least node
//! index (first seen in traversal order) is the authoritative declarer.

use vstd::prelude::*;

use crate::graph::{adj_view, reaches_plus, succ_wf};

verus! {

/// Per-node dependency facts.
pub struct NodeFacts {
    /// Node indices of the files this node imports (resolved and known).
    pub imports: Vec<usize>,
    /// Datasource names this node declares.
    pub declares: Vec<String>,
    /// Datasource names this node writes to.
    pub updates: Vec<String>,
}

/// Mathematical view of one node's facts.
pub ghost struct NodeFactsV {
    pub imports: Seq<usize>,
    pub declares: Seq<Seq<char>>,
    pub updates: Seq<Seq<char>>,
}

/// Name sequences as their views.
pub open spec fn strs_view(v: Seq<String>) -> Seq<Seq<char>> {
    Seq::new(v.len(), |i: int| v[i]@)
}

impl View for NodeFacts {
    type V = NodeFactsV;

    open spec fn view(&self) -> NodeFactsV {
        NodeFactsV {
            imports: self.imports@,
            declares: strs_view(self.declares@),
            updates: strs_view(self.updates@),
        }
    }
}

pub open spec fn facts_view(ns: Seq<NodeFacts>) -> Seq<NodeFactsV> {
    Seq::new(ns.len(), |i: int| ns[i]@)
}

/// Every import target is a node.
pub open spec fn facts_wf(fs: Seq<NodeFactsV>) -> bool {
    forall|k: int, x: int|
        0 <= k < fs.len() && 0 <= x < fs[k].imports.len() ==> (#[trigger] fs[k].imports[x])
            < fs.len()
}

/// The import adjacency of the facts.
pub open spec fn imports_adj(fs: Seq<NodeFactsV>) -> Seq<Seq<usize>> {
    Seq::new(fs.len(), |i: int| fs[i].imports)
}

/// The least node at or after `i` that declares `name`.
pub open spec fn declarer_from(fs: Seq<NodeFactsV>, name: Seq<char>, i: int) -> Option<int>
    decreases fs.len() - i when 0 <= i <= fs.len()
{
    if i >= fs.len() {
        None
    } else if fs[i].declares.contains(name) {
        Some(i)
    } else {
        declarer_from(fs, name, i + 1)
    }
}

/// The authoritative declarer of `name`: the least node declaring it.
pub open spec fn declarer_of(fs: Seq<NodeFactsV>, name: Seq<char>) -> Option<int> {
    declarer_from(fs, name, 0)
}

pub proof fn lemma_declarer_from(fs: Seq<NodeFactsV>, name: Seq<char>, i: int)
    requires
        0 <= i <= fs.len(),
    ensures
        match declarer_from(fs, name, i) {
            None => forall|j: int| i <= j < fs.len() ==> !(#[trigger] fs[j].declares.contains(name)),
            Some(d) => i <= d < fs.len() && fs[d].declares.contains(name) && forall|j: int|
                i <= j < d ==> !(#[trigger] fs[j].declares.contains(name)),
        },
    decreases fs.len() - i,
{
    if i < fs.len() && !fs[i].declares.contains(name) {
        lemma_declarer_from(fs, name, i + 1);
    }
}

/// `v` can reach a declaration of `name` through one or more imports.
pub open spec fn reach_name(fs: Seq<NodeFactsV>, v: int, name: Seq<char>) -> bool {
    exists|g: int|
        0 <= g < fs.len() && g != v && reaches_plus(imports_adj(fs), v as usize, g as usize)
            && (#[trigger] fs[g].declares.contains(name))
}

/// An import edge: `u` is imported by `v`.
pub open spec fn import_edge(fs: Seq<NodeFactsV>, u: int, v: int) -> bool {
    0 <= u < fs.len() && 0 <= v < fs.len() && fs[v].imports.contains(u as usize)
}

/// A persist-before-declare edge for `name`: `u` writes the datasource
/// that `v` authoritatively declares.
pub open spec fn pbd_edge_named(fs: Seq<NodeFactsV>, u: int, v: int, name: Seq<char>) -> bool {
    declarer_of(fs, name) == Some(v) && 0 <= u < fs.len() && u != v && fs[u].updates.contains(name)
}

pub open spec fn pbd_edge(fs: Seq<NodeFactsV>, u: int, v: int) -> bool {
    exists|name: Seq<char>| #[trigger] pbd_edge_named(fs, u, v, name)
}

/// A declare-before-use edge for `name`: `u` authoritatively declares a
/// datasource whose name `v` reaches through imports without declaring
/// it itself.
pub open spec fn dbu_edge_named(fs: Seq<NodeFactsV>, u: int, v: int, name: Seq<char>) -> bool {
    declarer_of(fs, name) == Some(u) && 0 <= v < fs.len() && u != v && reach_name(fs, v, name)
        && !fs[v].declares.contains(name)
}

pub open spec fn dbu_edge(fs: Seq<NodeFactsV>, u: int, v: int) -> bool {
    exists|name: Seq<char>| #[trigger] dbu_edge_named(fs, u, v, name)
}

/// A transitive persist-order edge for `(na, nb)`: `u` writes `na`, `v`
/// writes `nb`, and the declarer of `nb` transitively imports the
/// declarer of `na`.
pub open spec fn tpo_edge_named(
    fs: Seq<NodeFactsV>,
    u: int,
    v: int,
    na: Seq<char>,
    nb: Seq<char>,
) -> bool {
    match (declarer_of(fs, na), declarer_of(fs, nb)) {
        (Some(da), Some(db)) => na != nb && da != db && reaches_plus(
            imports_adj(fs),
            db as usize,
            da as usize,
        ) && 0 <= u < fs.len() && 0 <= v < fs.len() && u != v && fs[u].updates.contains(na)
            && fs[v].updates.contains(nb),
        _ => false,
    }
}

pub open spec fn tpo_edge(fs: Seq<NodeFactsV>, u: int, v: int) -> bool {
    exists|na: Seq<char>, nb: Seq<char>| #[trigger] tpo_edge_named(fs, u, v, na, nb)
}

/// An edge of the reconciled edge set: persist-before-declare dominates,
/// suppressing any reverse import or declare-before-use edge.
pub open spec fn kept_edge(fs: Seq<NodeFactsV>, u: int, v: int) -> bool {
    (import_edge(fs, u, v) && !pbd_edge(fs, v, u)) || pbd_edge(fs, u, v) || (dbu_edge(fs, u, v)
        && !pbd_edge(fs, v, u)) || tpo_edge(fs, u, v)
}

// ---------------------------------------------------------------------------
// Executable decisions, one pair at a time.
// ---------------------------------------------------------------------------

/// Whether a name list holds `name`.
pub fn contains_name(v: &Vec<String>, name: &String) -> (r: bool)
    ensures
        r == strs_view(v@).contains(name@),
{
    let mut y: usize = 0;
    while y < v.len()
        invariant
            y <= v@.len(),
            forall|j: int| 0 <= j < y ==> strs_view(v@)[j] != name@,
        decreases v@.len() - y,
    {
        if v[y].eq(name) {
            proof {
                assert(strs_view(v@)[y as int] == name@);
            }
            return true;
        }
        y += 1;
    }
    proof {
        if strs_view(v@).contains(name@) {
            let j = choose|j: int| 0 <= j < strs_view(v@).len() && strs_view(v@)[j] == name@;
            assert(false);
        }
    }
    false
}

/// Whether an index list holds `u`.
pub fn contains_idx(v: &Vec<usize>, u: usize) -> (r: bool)
    ensures
        r == v@.contains(u),
{
    let mut x: usize = 0;
    while x < v.len()
        invariant
            x <= v@.len(),
            forall|j: int| 0 <= j < x ==> v@[j] != u,
        decreases v@.len() - x,
    {
        if v[x] == u {
            return true;
        }
        x += 1;
    }
    proof {
        if v@.contains(u) {
            let j = choose|j: int| 0 <= j < v@.len() && v@[j] == u;
            assert(false);
        }
    }
    false
}

/// The authoritative declarer of `name`, by scan from the least index.
pub fn first_declarer(nodes: &Vec<NodeFacts>, name: &String) -> (r: Option<usize>)
    ensures
        match r {
            Some(d) => declarer_of(facts_view(nodes@), name@) == Some(d as int),
            None => declarer_of(facts_view(nodes@), name@) is None,
        },
{
    let ghost fs = facts_view(nodes@);
    let mut d: usize = 0;
    while d < nodes.len()
        invariant
            d <= nodes@.len(),
            fs == facts_view(nodes@),
            fs.len() == nodes@.len(),
            declarer_from(fs, name@, 0) == declarer_from(fs, name@, d as int),
        decreases nodes@.len() - d,
    {
        if contains_name(&nodes[d].declares, name) {
            proof {
                assert(fs[d as int] == nodes@[d as int]@);
                assert(fs[d as int].declares.contains(name@));
            }
            return Some(d);
        }
        proof {
            assert(fs[d as int] == nodes@[d as int]@);
            assert(!fs[d as int].declares.contains(name@));
        }
        d += 1;
    }
    None
}

/// Whether `u` writes a datasource that `v` authoritatively declares.
pub fn pbd_check(nodes: &Vec<NodeFacts>, u: usize, v: usize) -> (r: bool)
    requires
        u < nodes@.len(),
        v < nodes@.len(),
    ensures
        r == pbd_edge(facts_view(nodes@), u as int, v as int),
{
    let ghost fs = facts_view(nodes@);
    if u == v {
        proof {
            if pbd_edge(fs, u as int, v as int) {
                let name = choose|name: Seq<char>| pbd_edge_named(fs, u as int, v as int, name);
            }
        }
        return false;
    }
    let nd = nodes[v].declares.len();
    let mut y: usize = 0;
    while y < nd
        invariant
            y <= nd,
            u < nodes@.len(),
            v < nodes@.len(),
            u != v,
            fs == facts_view(nodes@),
            fs.len() == nodes@.len(),
            nd == fs[v as int].declares.len(),
            forall|j: int|
                0 <= j < y ==> !pbd_edge_named(fs, u as int, v as int, #[trigger] fs[v as int].declares[j]),
        decreases nd - y,
    {
        proof {
            assert(fs[v as int] == nodes@[v as int]@);
        }
        let name = &nodes[v].declares[y];
        proof {
            assert(name@ == fs[v as int].declares[y as int]);
        }
        let auth = match first_declarer(nodes, name) {
            Some(d) => d == v,
            None => false,
        };
        if auth && contains_name(&nodes[u].updates, name) {
            proof {
                assert(fs[u as int] == nodes@[u as int]@);
                assert(pbd_edge_named(fs, u as int, v as int, name@));
            }
            return true;
        }
        proof {
            assert(fs[u as int] == nodes@[u as int]@);
            assert(!pbd_edge_named(fs, u as int, v as int, fs[v as int].declares[y as int]));
        }
        y += 1;
    }
    proof {
        if pbd_edge(fs, u as int, v as int) {
            let name = choose|name: Seq<char>| pbd_edge_named(fs, u as int, v as int, name);
            lemma_declarer_from(fs, name, 0);
            assert(fs[v as int].declares.contains(name));
            let j = choose|j: int|
                0 <= j < fs[v as int].declares.len() && fs[v as int].declares[j] == name;
            assert(false);
        }
    }
    false
}

/// Whether `v` reaches a declaration of `name` through its imports.
fn reach_name_check(
    nodes: &Vec<NodeFacts>,
    rp: &Vec<Vec<bool>>,
    v: usize,
    name: &String,
) -> (r: bool)
    requires
        v < nodes@.len(),
        rp@.len() == nodes@.len(),
        forall|a: int| 0 <= a < rp@.len() ==> (#[trigger] rp@[a])@.len() == nodes@.len(),
        forall|a: usize, b: usize|
            a < nodes@.len() && b < nodes@.len() ==> ((#[trigger] rp@[a as int]@[b as int])
                <==> reaches_plus(imports_adj(facts_view(nodes@)), a, b)),
    ensures
        r == reach_name(facts_view(nodes@), v as int, name@),
{
    let ghost fs = facts_view(nodes@);
    let n = nodes.len();
    let mut g: usize = 0;
    while g < n
        invariant
            g <= n,
            n == nodes@.len(),
            v < n,
            fs == facts_view(nodes@),
            fs.len() == n,
            rp@.len() == n,
            forall|a: int| 0 <= a < rp@.len() ==> (#[trigger] rp@[a])@.len() == n,
            forall|a: usize, b: usize|
                a < n && b < n ==> ((#[trigger] rp@[a as int]@[b as int]) <==> reaches_plus(
                    imports_adj(fs),
                    a,
                    b,
                )),
            forall|j: int|
                0 <= j < g ==> !(j != v && reaches_plus(imports_adj(fs), v, j as usize)
                    && (#[trigger] fs[j].declares.contains(name@))),
        decreases n - g,
    {
        if g != v && rp[v][g] && contains_name(&nodes[g].declares, name) {
            proof {
                assert(fs[g as int] == nodes@[g as int]@);
                assert(reaches_plus(imports_adj(fs), v, g));
                assert((g as int) < fs.len() && (g as int) != (v as int) && reaches_plus(
                    imports_adj(fs),
                    v,
                    g,
                ) && fs[g as int].declares.contains(name@));
                assert(reach_name(fs, v as int, name@));
            }
            return true;
        }
        proof {
            assert(fs[g as int] == nodes@[g as int]@);
        }
        g += 1;
    }
    proof {
        if reach_name(fs, v as int, name@) {
            let j = choose|j: int|
                0 <= j < fs.len() && j != v && reaches_plus(imports_adj(fs), v as usize, j as usize)
                    && (#[trigger] fs[j].declares.contains(name@));
            assert(false);
        }
    }
    false
}

/// Whether `u` declares a datasource that `v` uses through imports.
pub fn dbu_check(nodes: &Vec<NodeFacts>, rp: &Vec<Vec<bool>>, u: usize, v: usize) -> (r: bool)
    requires
        u < nodes@.len(),
        v < nodes@.len(),
        rp@.len() == nodes@.len(),
        forall|a: int| 0 <= a < rp@.len() ==> (#[trigger] rp@[a])@.len() == nodes@.len(),
        forall|a: usize, b: usize|
            a < nodes@.len() && b < nodes@.len() ==> ((#[trigger] rp@[a as int]@[b as int])
                <==> reaches_plus(imports_adj(facts_view(nodes@)), a, b)),
    ensures
        r == dbu_edge(facts_view(nodes@), u as int, v as int),
{
    let ghost fs = facts_view(nodes@);
    if u == v {
        proof {
            if dbu_edge(fs, u as int, v as int) {
                let name = choose|name: Seq<char>| dbu_edge_named(fs, u as int, v as int, name);
            }
        }
        return false;
    }
    let nd = nodes[u].declares.len();
    let mut y: usize = 0;
    while y < nd
        invariant
            y <= nd,
            u < nodes@.len(),
            v < nodes@.len(),
            u != v,
            fs == facts_view(nodes@),
            fs.len() == nodes@.len(),
            nd == fs[u as int].declares.len(),
            rp@.len() == nodes@.len(),
            forall|a: int| 0 <= a < rp@.len() ==> (#[trigger] rp@[a])@.len() == nodes@.len(),
            forall|a: usize, b: usize|
                a < nodes@.len() && b < nodes@.len() ==> ((#[trigger] rp@[a as int]@[b as int])
                    <==> reaches_plus(imports_adj(fs), a, b)),
            forall|j: int|
                0 <= j < y ==> !dbu_edge_named(fs, u as int, v as int, #[trigger] fs[u as int].declares[j]),
        decreases nd - y,
    {
        proof {
            assert(fs[u as int] == nodes@[u as int]@);
        }
        let name = &nodes[u].declares[y];
        proof {
            assert(name@ == fs[u as int].declares[y as int]);
        }
        let auth = match first_declarer(nodes, name) {
            Some(d) => d == u,
            None => false,
        };
        if auth && !contains_name(&nodes[v].declares, name) && reach_name_check(nodes, rp, v, name) {
            proof {
                assert(fs[v as int] == nodes@[v as int]@);
                assert(dbu_edge_named(fs, u as int, v as int, name@));
            }
            return true;
        }
        proof {
            assert(fs[v as int] == nodes@[v as int]@);
            assert(!dbu_edge_named(fs, u as int, v as int, fs[u as int].declares[y as int]));
        }
        y += 1;
    }
    proof {
        if dbu_edge(fs, u as int, v as int) {
            let name = choose|name: Seq<char>| dbu_edge_named(fs, u as int, v as int, name);
            lemma_declarer_from(fs, name, 0);
            assert(fs[u as int].declares.contains(name));
            let j = choose|j: int|
                0 <= j < fs[u as int].declares.len() && fs[u as int].declares[j] == name;
            assert(false);
        }
    }
    false
}

/// Whether writes of `u` must precede writes of `v` because `v`'s target
/// datasource structurally depends on `u`'s.
pub fn tpo_check(nodes: &Vec<NodeFacts>, rp: &Vec<Vec<bool>>, u: usize, v: usize) -> (r: bool)
    requires
        u < nodes@.len(),
        v < nodes@.len(),
        rp@.len() == nodes@.len(),
        forall|a: int| 0 <= a < rp@.len() ==> (#[trigger] rp@[a])@.len() == nodes@.len(),
        forall|a: usize, b: usize|
            a < nodes@.len() && b < nodes@.len() ==> ((#[trigger] rp@[a as int]@[b as int])
                <==> reaches_plus(imports_adj(facts_view(nodes@)), a, b)),
    ensures
        r == tpo_edge(facts_view(nodes@), u as int, v as int),
{
    let ghost fs = facts_view(nodes@);
    if u == v {
        proof {
            if tpo_edge(fs, u as int, v as int) {
                let (na, nb) = choose|na: Seq<char>, nb: Seq<char>|
                    tpo_edge_named(fs, u as int, v as int, na, nb);
            }
        }
        return false;
    }
    let na_len = nodes[u].updates.len();
    let mut ya: usize = 0;
    while ya < na_len
        invariant
            ya <= na_len,
            u < nodes@.len(),
            v < nodes@.len(),
            u != v,
            fs == facts_view(nodes@),
            fs.len() == nodes@.len(),
            na_len == fs[u as int].updates.len(),
            rp@.len() == nodes@.len(),
            forall|a: int| 0 <= a < rp@.len() ==> (#[trigger] rp@[a])@.len() == nodes@.len(),
            forall|a: usize, b: usize|
                a < nodes@.len() && b < nodes@.len() ==> ((#[trigger] rp@[a as int]@[b as int])
                    <==> reaches_plus(imports_adj(fs), a, b)),
            forall|j: int, nb: Seq<char>|
                0 <= j < ya ==> !(#[trigger] tpo_edge_named(
                    fs,
                    u as int,
                    v as int,
                    fs[u as int].updates[j],
                    nb,
                )),
        decreases na_len - ya,
    {
        proof {
            assert(fs[u as int] == nodes@[u as int]@);
        }
        let na = &nodes[u].updates[ya];
        proof {
            assert(na@ == fs[u as int].updates[ya as int]);
        }
        let da_opt = first_declarer(nodes, na);
        proof {
            lemma_declarer_from(fs, na@, 0);
        }
        if let Some(da) = da_opt {
            let nb_len = nodes[v].updates.len();
            let mut yb: usize = 0;
            while yb < nb_len
                invariant
                    yb <= nb_len,
                    u < nodes@.len(),
                    v < nodes@.len(),
                    u != v,
                    fs == facts_view(nodes@),
                    fs.len() == nodes@.len(),
                    nb_len == fs[v as int].updates.len(),
                    na@ == fs[u as int].updates[ya as int],
                    ya < fs[u as int].updates.len(),
                    declarer_of(fs, na@) == Some(da as int),
                    da < nodes@.len(),
                    rp@.len() == nodes@.len(),
                    forall|a: int| 0 <= a < rp@.len() ==> (#[trigger] rp@[a])@.len() == nodes@.len(),
                    forall|a: usize, b: usize|
                        a < nodes@.len() && b < nodes@.len() ==> ((#[trigger] rp@[a as int]@[b as int])
                            <==> reaches_plus(imports_adj(fs), a, b)),
                    forall|j: int|
                        0 <= j < yb ==> !tpo_edge_named(fs, u as int, v as int, na@, #[trigger] fs[v as int].updates[j]),
                decreases nb_len - yb,
            {
                proof {
                    assert(fs[v as int] == nodes@[v as int]@);
                }
                let nb = &nodes[v].updates[yb];
                proof {
                    assert(nb@ == fs[v as int].updates[yb as int]);
                }
                let db_opt = first_declarer(nodes, nb);
                proof {
                    lemma_declarer_from(fs, nb@, 0);
                }
                if let Some(db) = db_opt {
                    if da != db && !na.eq(nb) && rp[db][da] {
                        proof {
                            assert(fs[u as int].updates.contains(na@));
                            assert(fs[v as int].updates.contains(nb@));
                            assert(tpo_edge_named(fs, u as int, v as int, na@, nb@));
                        }
                        return true;
                    }
                }
                proof {
                    assert(!tpo_edge_named(fs, u as int, v as int, na@, fs[v as int].updates[yb as int]));
                }
                yb += 1;
            }
            proof {
                assert forall|nb: Seq<char>| !tpo_edge_named(fs, u as int, v as int, na@, nb) by {
                    if tpo_edge_named(fs, u as int, v as int, na@, nb) {
                        assert(fs[v as int].updates.contains(nb));
                        let j = choose|j: int|
                            0 <= j < fs[v as int].updates.len() && fs[v as int].updates[j] == nb;
                        assert(false);
                    }
                }
            }
        } else {
            proof {
                assert forall|nb: Seq<char>| !tpo_edge_named(fs, u as int, v as int, na@, nb) by {}
            }
        }
        proof {
            assert forall|nb: Seq<char>|
                !tpo_edge_named(fs, u as int, v as int, fs[u as int].updates[ya as int], nb) by {
                assert(!tpo_edge_named(fs, u as int, v as int, na@, nb));
            }
        }
        ya += 1;
    }
    proof {
        if tpo_edge(fs, u as int, v as int) {
            let (na, nb) = choose|na: Seq<char>, nb: Seq<char>|
                tpo_edge_named(fs, u as int, v as int, na, nb);
            assert(fs[u as int].updates.contains(na));
            let j = choose|j: int|
                0 <= j < fs[u as int].updates.len() && fs[u as int].updates[j] == na;
            assert(false);
        }
    }
    false
}

/// A datasource name witnessing a persist-before-declare edge, if any.
pub fn pbd_find(nodes: &Vec<NodeFacts>, u: usize, v: usize) -> (r: Option<String>)
    requires
        u < nodes@.len(),
        v < nodes@.len(),
    ensures
        match r {
            Some(nm) => pbd_edge_named(facts_view(nodes@), u as int, v as int, nm@),
            None => !pbd_edge(facts_view(nodes@), u as int, v as int),
        },
{
    let ghost fs = facts_view(nodes@);
    if u == v {
        proof {
            if pbd_edge(fs, u as int, v as int) {
                let name = choose|name: Seq<char>| pbd_edge_named(fs, u as int, v as int, name);
            }
        }
        return None;
    }
    let nd = nodes[v].declares.len();
    let mut y: usize = 0;
    while y < nd
        invariant
            y <= nd,
            u < nodes@.len(),
            v < nodes@.len(),
            u != v,
            fs == facts_view(nodes@),
            fs.len() == nodes@.len(),
            nd == fs[v as int].declares.len(),
            forall|j: int|
                0 <= j < y ==> !pbd_edge_named(fs, u as int, v as int, #[trigger] fs[v as int].declares[j]),
        decreases nd - y,
    {
        proof {
            assert(fs[v as int] == nodes@[v as int]@);
        }
        let name = &nodes[v].declares[y];
        proof {
            assert(name@ == fs[v as int].declares[y as int]);
        }
        let auth = match first_declarer(nodes, name) {
            Some(d) => d == v,
            None => false,
        };
        if auth && contains_name(&nodes[u].updates, name) {
            proof {
                assert(fs[u as int] == nodes@[u as int]@);
                assert(pbd_edge_named(fs, u as int, v as int, name@));
            }
            return Some(name.clone());
        }
        proof {
            assert(fs[u as int] == nodes@[u as int]@);
            assert(!pbd_edge_named(fs, u as int, v as int, fs[v as int].declares[y as int]));
        }
        y += 1;
    }
    proof {
        if pbd_edge(fs, u as int, v as int) {
            let name = choose|name: Seq<char>| pbd_edge_named(fs, u as int, v as int, name);
            lemma_declarer_from(fs, name, 0);
            assert(fs[v as int].declares.contains(name));
            let j = choose|j: int|
                0 <= j < fs[v as int].declares.len() && fs[v as int].declares[j] == name;
            assert(false);
        }
    }
    None
}

/// A datasource name witnessing a declare-before-use edge, if any.
pub fn dbu_find(nodes: &Vec<NodeFacts>, rp: &Vec<Vec<bool>>, u: usize, v: usize) -> (r: Option<
    String,
>)
    requires
        u < nodes@.len(),
        v < nodes@.len(),
        rp@.len() == nodes@.len(),
        forall|a: int| 0 <= a < rp@.len() ==> (#[trigger] rp@[a])@.len() == nodes@.len(),
        forall|a: usize, b: usize|
            a < nodes@.len() && b < nodes@.len() ==> ((#[trigger] rp@[a as int]@[b as int])
                <==> reaches_plus(imports_adj(facts_view(nodes@)), a, b)),
    ensures
        match r {
            Some(nm) => dbu_edge_named(facts_view(nodes@), u as int, v as int, nm@),
            None => !dbu_edge(facts_view(nodes@), u as int, v as int),
        },
{
    let ghost fs = facts_view(nodes@);
    if u == v {
        proof {
            if dbu_edge(fs, u as int, v as int) {
                let name = choose|name: Seq<char>| dbu_edge_named(fs, u as int, v as int, name);
            }
        }
        return None;
    }
    let nd = nodes[u].declares.len();
    let mut y: usize = 0;
    while y < nd
        invariant
            y <= nd,
            u < nodes@.len(),
            v < nodes@.len(),
            u != v,
            fs == facts_view(nodes@),
            fs.len() == nodes@.len(),
            nd == fs[u as int].declares.len(),
            rp@.len() == nodes@.len(),
            forall|a: int| 0 <= a < rp@.len() ==> (#[trigger] rp@[a])@.len() == nodes@.len(),
            forall|a: usize, b: usize|
                a < nodes@.len() && b < nodes@.len() ==> ((#[trigger] rp@[a as int]@[b as int])
                    <==> reaches_plus(imports_adj(fs), a, b)),
            forall|j: int|
                0 <= j < y ==> !dbu_edge_named(fs, u as int, v as int, #[trigger] fs[u as int].declares[j]),
        decreases nd - y,
    {
        proof {
            assert(fs[u as int] == nodes@[u as int]@);
        }
        let name = &nodes[u].declares[y];
        proof {
            assert(name@ == fs[u as int].declares[y as int]);
        }
        let auth = match first_declarer(nodes, name) {
            Some(d) => d == u,
            None => false,
        };
        if auth && !contains_name(&nodes[v].declares, name) && reach_name_check(
            nodes,
            rp,
            v,
            name,
        ) {
            proof {
                assert(fs[v as int] == nodes@[v as int]@);
                assert(dbu_edge_named(fs, u as int, v as int, name@));
            }
            return Some(name.clone());
        }
        proof {
            assert(fs[v as int] == nodes@[v as int]@);
            assert(!dbu_edge_named(fs, u as int, v as int, fs[u as int].declares[y as int]));
        }
        y += 1;
    }
    proof {
        if dbu_edge(fs, u as int, v as int) {
            let name = choose|name: Seq<char>| dbu_edge_named(fs, u as int, v as int, name);
            lemma_declarer_from(fs, name, 0);
            assert(fs[u as int].declares.contains(name));
            let j = choose|j: int|
                0 <= j < fs[u as int].declares.len() && fs[u as int].declares[j] == name;
            assert(false);
        }
    }
    None
}

/// A pair of datasource names witnessing a transitive persist-order
/// edge, if any.
pub fn tpo_find(nodes: &Vec<NodeFacts>, rp: &Vec<Vec<bool>>, u: usize, v: usize) -> (r: Option<
    (String, String),
>)
    requires
        u < nodes@.len(),
        v < nodes@.len(),
        rp@.len() == nodes@.len(),
        forall|a: int| 0 <= a < rp@.len() ==> (#[trigger] rp@[a])@.len() == nodes@.len(),
        forall|a: usize, b: usize|
            a < nodes@.len() && b < nodes@.len() ==> ((#[trigger] rp@[a as int]@[b as int])
                <==> reaches_plus(imports_adj(facts_view(nodes@)), a, b)),
    ensures
        match r {
            Some(ns) => tpo_edge_named(facts_view(nodes@), u as int, v as int, ns.0@, ns.1@),
            None => !tpo_edge(facts_view(nodes@), u as int, v as int),
        },
{
    let ghost fs = facts_view(nodes@);
    if u == v {
        proof {
            if tpo_edge(fs, u as int, v as int) {
                let (na, nb) = choose|na: Seq<char>, nb: Seq<char>|
                    tpo_edge_named(fs, u as int, v as int, na, nb);
            }
        }
        return None;
    }
    let na_len = nodes[u].updates.len();
    let mut ya: usize = 0;
    while ya < na_len
        invariant
            ya <= na_len,
            u < nodes@.len(),
            v < nodes@.len(),
            u != v,
            fs == facts_view(nodes@),
            fs.len() == nodes@.len(),
            na_len == fs[u as int].updates.len(),
            rp@.len() == nodes@.len(),
            forall|a: int| 0 <= a < rp@.len() ==> (#[trigger] rp@[a])@.len() == nodes@.len(),
            forall|a: usize, b: usize|
                a < nodes@.len() && b < nodes@.len() ==> ((#[trigger] rp@[a as int]@[b as int])
                    <==> reaches_plus(imports_adj(fs), a, b)),
            forall|j: int, nb: Seq<char>|
                0 <= j < ya ==> !(#[trigger] tpo_edge_named(
                    fs,
                    u as int,
                    v as int,
                    fs[u as int].updates[j],
                    nb,
                )),
        decreases na_len - ya,
    {
        proof {
            assert(fs[u as int] == nodes@[u as int]@);
        }
        let na = &nodes[u].updates[ya];
        proof {
            assert(na@ == fs[u as int].updates[ya as int]);
        }
        let da_opt = first_declarer(nodes, na);
        proof {
            lemma_declarer_from(fs, na@, 0);
        }
        if let Some(da) = da_opt {
            let nb_len = nodes[v].updates.len();
            let mut yb: usize = 0;
            while yb < nb_len
                invariant
                    yb <= nb_len,
                    u < nodes@.len(),
                    v < nodes@.len(),
                    u != v,
                    fs == facts_view(nodes@),
                    fs.len() == nodes@.len(),
                    nb_len == fs[v as int].updates.len(),
                    na@ == fs[u as int].updates[ya as int],
                    ya < fs[u as int].updates.len(),
                    declarer_of(fs, na@) == Some(da as int),
                    da < nodes@.len(),
                    rp@.len() == nodes@.len(),
                    forall|a: int| 0 <= a < rp@.len() ==> (#[trigger] rp@[a])@.len()
                        == nodes@.len(),
                    forall|a: usize, b: usize|
                        a < nodes@.len() && b < nodes@.len() ==> ((
                        #[trigger] rp@[a as int]@[b as int]) <==> reaches_plus(
                            imports_adj(fs),
                            a,
                            b,
                        )),
                    forall|j: int|
                        0 <= j < yb ==> !tpo_edge_named(fs, u as int, v as int, na@, #[trigger] fs[v as int].updates[j]),
                decreases nb_len - yb,
            {
                proof {
                    assert(fs[v as int] == nodes@[v as int]@);
                }
                let nb = &nodes[v].updates[yb];
                proof {
                    assert(nb@ == fs[v as int].updates[yb as int]);
                }
                let db_opt = first_declarer(nodes, nb);
                proof {
                    lemma_declarer_from(fs, nb@, 0);
                }
                if let Some(db) = db_opt {
                    if da != db && !na.eq(nb) && rp[db][da] {
                        proof {
                            assert(fs[u as int].updates.contains(na@));
                            assert(fs[v as int].updates.contains(nb@));
                            assert(tpo_edge_named(fs, u as int, v as int, na@, nb@));
                        }
                        return Some((na.clone(), nb.clone()));
                    }
                }
                proof {
                    assert(!tpo_edge_named(fs, u as int, v as int, na@, fs[v as int].updates[yb as int]));
                }
                yb += 1;
            }
            proof {
                assert forall|nb: Seq<char>| !tpo_edge_named(fs, u as int, v as int, na@, nb) by {
                    if tpo_edge_named(fs, u as int, v as int, na@, nb) {
                        assert(fs[v as int].updates.contains(nb));
                        let j = choose|j: int|
                            0 <= j < fs[v as int].updates.len() && fs[v as int].updates[j] == nb;
                        assert(false);
                    }
                }
            }
        } else {
            proof {
                assert forall|nb: Seq<char>| !tpo_edge_named(fs, u as int, v as int, na@, nb) by {}
            }
        }
        proof {
            assert forall|nb: Seq<char>|
                !tpo_edge_named(fs, u as int, v as int, fs[u as int].updates[ya as int], nb) by {
                assert(!tpo_edge_named(fs, u as int, v as int, na@, nb));
            }
        }
        ya += 1;
    }
    proof {
        if tpo_edge(fs, u as int, v as int) {
            let (na, nb) = choose|na: Seq<char>, nb: Seq<char>|
                tpo_edge_named(fs, u as int, v as int, na, nb);
            assert(fs[u as int].updates.contains(na));
            let j = choose|j: int|
                0 <= j < fs[u as int].updates.len() && fs[u as int].updates[j] == na;
            assert(false);
        }
    }
    None
}

/// Whether `(u, v)` survives synthesis and reconciliation.
pub fn kept_check(nodes: &Vec<NodeFacts>, rp: &Vec<Vec<bool>>, u: usize, v: usize) -> (r: bool)
    requires
        u < nodes@.len(),
        v < nodes@.len(),
        rp@.len() == nodes@.len(),
        forall|a: int| 0 <= a < rp@.len() ==> (#[trigger] rp@[a])@.len() == nodes@.len(),
        forall|a: usize, b: usize|
            a < nodes@.len() && b < nodes@.len() ==> ((#[trigger] rp@[a as int]@[b as int])
                <==> reaches_plus(imports_adj(facts_view(nodes@)), a, b)),
    ensures
        r == kept_edge(facts_view(nodes@), u as int, v as int),
{
    let ghost fs = facts_view(nodes@);
    let imp = contains_idx(&nodes[v].imports, u);
    proof {
        assert(fs[v as int] == nodes@[v as int]@);
    }
    if pbd_check(nodes, u, v) {
        return true;
    }
    if tpo_check(nodes, rp, u, v) {
        return true;
    }
    if (imp || dbu_check(nodes, rp, u, v)) && !pbd_check(nodes, v, u) {
        return true;
    }
    false
}

/// The reconciled edges in ascending `(from, to)` order: one row of
/// targets for `from == u`, from `v` on.
pub open spec fn edge_row(fs: Seq<NodeFactsV>, u: int, v: int) -> Seq<(usize, usize)>
    decreases fs.len() - v when 0 <= v <= fs.len()
{
    if v >= fs.len() {
        Seq::empty()
    } else {
        (if kept_edge(fs, u, v) {
            seq![(u as usize, v as usize)]
        } else {
            Seq::empty()
        }) + edge_row(fs, u, v + 1)
    }
}

/// The reconciled edges in ascending `(from, to)` order, from row `u` on.
pub open spec fn edge_rows(fs: Seq<NodeFactsV>, u: int) -> Seq<(usize, usize)>
    decreases fs.len() - u when 0 <= u <= fs.len()
{
    if u >= fs.len() {
        Seq::empty()
    } else {
        edge_row(fs, u, 0) + edge_rows(fs, u + 1)
    }
}

/// The whole reconciled edge set of the facts, as a pinned list.
pub open spec fn spec_edges(fs: Seq<NodeFactsV>) -> Seq<(usize, usize)> {
    edge_rows(fs, 0)
}

pub proof fn lemma_edge_row_members(fs: Seq<NodeFactsV>, u: int, v: int)
    requires
        0 <= v <= fs.len(),
        0 <= u < fs.len(),
        fs.len() <= usize::MAX,
    ensures
        forall|w: int|
            v <= w < fs.len() && kept_edge(fs, u, w) ==> edge_row(fs, u, v).contains(
                (u as usize, w as usize),
            ),
        forall|k: int|
            0 <= k < edge_row(fs, u, v).len() ==> {
                let e = #[trigger] edge_row(fs, u, v)[k];
                e.0 == u && v <= e.1 < fs.len() && kept_edge(fs, u, e.1 as int)
            },
    decreases fs.len() - v,
{
    if v < fs.len() {
        lemma_edge_row_members(fs, u, v + 1);
        assert forall|w: int|
            v <= w < fs.len() && kept_edge(fs, u, w) implies edge_row(fs, u, v).contains(
            (u as usize, w as usize),
        ) by {
            if w == v {
                assert(edge_row(fs, u, v)[0] == (u as usize, w as usize));
            } else {
                assert(edge_row(fs, u, v + 1).contains((u as usize, w as usize)));
                let k = choose|k: int|
                    0 <= k < edge_row(fs, u, v + 1).len() && (#[trigger] edge_row(fs, u, v + 1)[k])
                        == (u as usize, w as usize);
                let head = if kept_edge(fs, u, v) {
                    seq![(u as usize, v as usize)]
                } else {
                    Seq::<(usize, usize)>::empty()
                };
                assert(edge_row(fs, u, v)[head.len() + k] == (u as usize, w as usize));
            }
        }
    }
}

pub proof fn lemma_edge_rows_members(fs: Seq<NodeFactsV>, u: int)
    requires
        0 <= u <= fs.len(),
        fs.len() <= usize::MAX,
    ensures
        forall|a: int, b: int|
            u <= a < fs.len() && 0 <= b < fs.len() && kept_edge(fs, a, b) ==> edge_rows(
                fs,
                u,
            ).contains((a as usize, b as usize)),
        forall|k: int|
            0 <= k < edge_rows(fs, u).len() ==> {
                let e = #[trigger] edge_rows(fs, u)[k];
                u <= e.0 < fs.len() && e.1 < fs.len() && kept_edge(fs, e.0 as int, e.1 as int)
            },
    decreases fs.len() - u,
{
    if u < fs.len() {
        lemma_edge_rows_members(fs, u + 1);
        lemma_edge_row_members(fs, u, 0);
        assert forall|a: int, b: int|
            u <= a < fs.len() && 0 <= b < fs.len() && kept_edge(fs, a, b) implies edge_rows(
            fs,
            u,
        ).contains((a as usize, b as usize)) by {
            if a == u {
                assert(edge_row(fs, u, 0).contains((a as usize, b as usize)));
                let k = choose|k: int|
                    0 <= k < edge_row(fs, u, 0).len() && edge_row(fs, u, 0)[k] == (
                        a as usize,
                        b as usize,
                    );
                assert(edge_rows(fs, u)[k] == (a as usize, b as usize));
            } else {
                assert(edge_rows(fs, u + 1).contains((a as usize, b as usize)));
                let k = choose|k: int|
                    0 <= k < edge_rows(fs, u + 1).len() && (#[trigger] edge_rows(fs, u + 1)[k])
                        == (a as usize, b as usize);
                assert(edge_rows(fs, u)[edge_row(fs, u, 0).len() + k] == (a as usize, b as usize));
            }
        }
    }
}

/// The reconciled edge set holds `(u, v)` exactly when some edge kind
/// survives for that pair.
pub proof fn lemma_spec_edges_iff(fs: Seq<NodeFactsV>, u: int, v: int)
    requires
        0 <= u < fs.len(),
        0 <= v < fs.len(),
        fs.len() <= usize::MAX,
    ensures
        spec_edges(fs).contains((u as usize, v as usize)) <==> kept_edge(fs, u, v),
{
    lemma_edge_rows_members(fs, 0);
    if spec_edges(fs).contains((u as usize, v as usize)) {
        let k = choose|k: int|
            0 <= k < spec_edges(fs).len() && spec_edges(fs)[k] == (u as usize, v as usize);
        assert(kept_edge(fs, spec_edges(fs)[k].0 as int, spec_edges(fs)[k].1 as int));
    }
}

/// Builds the reconciled edge list of the facts.
pub fn build_edge_list(nodes: &Vec<NodeFacts>, rp: &Vec<Vec<bool>>) -> (r: Vec<(usize, usize)>)
    requires
        rp@.len() == nodes@.len(),
        forall|a: int| 0 <= a < rp@.len() ==> (#[trigger] rp@[a])@.len() == nodes@.len(),
        forall|a: usize, b: usize|
            a < nodes@.len() && b < nodes@.len() ==> ((#[trigger] rp@[a as int]@[b as int])
                <==> reaches_plus(imports_adj(facts_view(nodes@)), a, b)),
    ensures
        r@ == spec_edges(facts_view(nodes@)),
{
    let ghost fs = facts_view(nodes@);
    let n = nodes.len();
    let mut r: Vec<(usize, usize)> = Vec::new();
    let mut u: usize = 0;
    while u < n
        invariant
            u <= n,
            n == nodes@.len(),
            fs == facts_view(nodes@),
            fs.len() == n,
            rp@.len() == n,
            forall|a: int| 0 <= a < rp@.len() ==> (#[trigger] rp@[a])@.len() == n,
            forall|a: usize, b: usize|
                a < n && b < n ==> ((#[trigger] rp@[a as int]@[b as int]) <==> reaches_plus(
                    imports_adj(fs),
                    a,
                    b,
                )),
            spec_edges(fs) == r@ + edge_rows(fs, u as int),
        decreases n - u,
    {
        let mut v: usize = 0;
        let ghost r_row = r@;
        while v < n
            invariant
                v <= n,
                u < n,
                n == nodes@.len(),
                fs == facts_view(nodes@),
                fs.len() == n,
                rp@.len() == n,
                forall|a: int| 0 <= a < rp@.len() ==> (#[trigger] rp@[a])@.len() == n,
                forall|a: usize, b: usize|
                    a < n && b < n ==> ((#[trigger] rp@[a as int]@[b as int]) <==> reaches_plus(
                        imports_adj(fs),
                        a,
                        b,
                    )),
                r_row + edge_row(fs, u as int, 0) == r@ + edge_row(fs, u as int, v as int),
            decreases n - v,
        {
            let ghost r0 = r@;
            if kept_check(nodes, rp, u, v) {
                r.push((u, v));
                proof {
                    assert((r0 + seq![(u, v)]) + edge_row(fs, u as int, v as int + 1) =~= r0 + (
                    seq![(u, v)] + edge_row(fs, u as int, v as int + 1)));
                }
            } else {
                proof {
                    assert(Seq::<(usize, usize)>::empty() + edge_row(fs, u as int, v as int + 1)
                        =~= edge_row(fs, u as int, v as int + 1));
                }
            }
            v += 1;
        }
        proof {
            assert(edge_row(fs, u as int, n as int) =~= Seq::<(usize, usize)>::empty());
            assert(r@ + Seq::<(usize, usize)>::empty() =~= r@);
            assert(r_row + edge_row(fs, u as int, 0) == r@);
        }
        u += 1;
    }
    proof {
        assert(edge_rows(fs, n as int) =~= Seq::<(usize, usize)>::empty());
        assert(r@ + Seq::<(usize, usize)>::empty() =~= r@);
    }
    r
}

} // verus!
