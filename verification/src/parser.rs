//! Fact extraction from pipeline file text.
//!
//! A file is a sequence of statements terminated by `;`, with `//` line
//! comments. Three statement forms carry dependency facts:
//!
//! * `import [dots]a.b.c [as alias];` — an import of a dotted path. One
//!   leading dot means the current directory; each further leading dot
//!   climbs one parent directory. A path beginning `std.` is a reserved
//!   namespace import and never resolves to a file.
//! * `datasource name ( ... ) ... ;` — declares the datasource `name`.
//! * `persist|append|overwrite [source] [into target] ... ;` — writes to a
//!   datasource: the target is the identifier after `into` when present,
//!   otherwise the first identifier after the mode word. The mode word is
//!   matched without regard to ASCII case.
//!
//! Any other statement carries no dependency fact and is skipped. The
//! whole extraction is specified by [`spec_parse_file`], and `parse_file`
//! is proved to return exactly that.

use vstd::prelude::*;

use crate::text::{
    dots_end, dots_end_x, ident_end, ident_end_x, lemma_line_end, lemma_semi_end, line_end,
    line_end_x, path_end, path_end_x, seg_is, seg_is_ci, seg_string, seg_vec, semi_end,
    semi_end_x, seq_eq_ci, skip_ws, skip_ws_x, to_char_vec,
};

verus! {

/// A parsed import statement.
#[derive(Debug, Clone, PartialEq, Eq, Hash)]
pub struct ImportStatement {
    /// The dotted path as written, without leading dots (e.g. `models.customer`).
    pub raw_path: String,
    /// Number of parent directories climbed (leading dots beyond the first).
    pub parent_dirs: usize,
    /// Optional alias given with `as`.
    pub alias: Option<String>,
    /// Whether the path lies in the reserved `std.` namespace.
    pub is_stdlib: bool,
}

/// A parsed datasource declaration.
#[derive(Debug, Clone, PartialEq, Eq, Hash)]
pub struct DatasourceDeclaration {
    /// The declared datasource name.
    pub name: String,
}

/// A parsed persist statement.
#[derive(Debug, Clone, PartialEq, Eq, Hash)]
pub struct PersistStatement {
    /// How the datasource is written.
    pub mode: PersistMode,
    /// The datasource being written.
    pub target_datasource: String,
}

/// How a persist statement writes its target.
#[derive(Debug, Clone, Copy, PartialEq, Eq, Hash, Structural)]
pub enum PersistMode {
    Append,
    Overwrite,
    Persist,
}

impl PersistMode {
    /// The lower-case keyword for this mode.
    pub fn mode_name(&self) -> (r: &'static str)
        ensures
            self is Append ==> r@ == "append"@,
            self is Overwrite ==> r@ == "overwrite"@,
            self is Persist ==> r@ == "persist"@,
    {
        match self {
            PersistMode::Append => "append",
            PersistMode::Overwrite => "overwrite",
            PersistMode::Persist => "persist",
        }
    }
}

/// All dependency-relevant statements of one file.
#[derive(Debug, Clone)]
pub struct ParsedFile {
    pub imports: Vec<ImportStatement>,
    pub datasources: Vec<DatasourceDeclaration>,
    pub persists: Vec<PersistStatement>,
}

impl Default for ParsedFile {
    fn default() -> (r: Self)
        ensures
            r@ == FileFacts::empty(),
    {
        let r = ParsedFile { imports: Vec::new(), datasources: Vec::new(), persists: Vec::new() };
        proof {
            assert(r@.imports =~= Seq::<ImportFacts>::empty());
            assert(r@.datasources =~= Seq::<Seq<char>>::empty());
            assert(r@.persists =~= Seq::<PersistFacts>::empty());
        }
        r
    }
}

/// Why a statement could not be understood.
#[derive(Debug, Clone, Copy, PartialEq, Eq, Structural)]
pub enum ParseError {
    /// An `import` statement without a path, or `as` without an alias.
    InvalidImportStructure,
    /// A `datasource` statement without a name.
    InvalidDatasourceStructure,
    /// A persist statement without a target.
    InvalidPersistStructure,
}

/// Mathematical view of an import statement.
pub ghost struct ImportFacts {
    pub raw_path: Seq<char>,
    pub parent_dirs: int,
    pub alias: Option<Seq<char>>,
    pub is_stdlib: bool,
}

/// Mathematical view of a persist statement.
pub ghost struct PersistFacts {
    pub mode: PersistMode,
    pub target: Seq<char>,
}

/// Mathematical view of a parsed file.
pub ghost struct FileFacts {
    pub imports: Seq<ImportFacts>,
    pub datasources: Seq<Seq<char>>,
    pub persists: Seq<PersistFacts>,
}

impl FileFacts {
    pub open spec fn empty() -> FileFacts {
        FileFacts { imports: Seq::empty(), datasources: Seq::empty(), persists: Seq::empty() }
    }
}

impl View for ImportStatement {
    type V = ImportFacts;

    open spec fn view(&self) -> ImportFacts {
        ImportFacts {
            raw_path: self.raw_path@,
            parent_dirs: self.parent_dirs as int,
            alias: match self.alias {
                Some(ref a) => Some(a@),
                None => None,
            },
            is_stdlib: self.is_stdlib,
        }
    }
}

impl View for DatasourceDeclaration {
    type V = Seq<char>;

    open spec fn view(&self) -> Seq<char> {
        self.name@
    }
}

impl View for PersistStatement {
    type V = PersistFacts;

    open spec fn view(&self) -> PersistFacts {
        PersistFacts { mode: self.mode, target: self.target_datasource@ }
    }
}

impl View for ParsedFile {
    type V = FileFacts;

    open spec fn view(&self) -> FileFacts {
        FileFacts {
            imports: Seq::new(self.imports@.len(), |k: int| self.imports@[k]@),
            datasources: Seq::new(self.datasources@.len(), |k: int| self.datasources@[k]@),
            persists: Seq::new(self.persists@.len(), |k: int| self.persists@[k]@),
        }
    }
}

// ---------------------------------------------------------------------------
// The grammar, as specification functions.
// ---------------------------------------------------------------------------

/// The text with every `//` comment removed (up to, not including, the
/// newline that ends its line).
pub open spec fn strip_comments_from(s: Seq<char>, i: int) -> Seq<char>
    decreases s.len() - i when 0 <= i <= s.len() via strip_comments_dec
{
    if i >= s.len() {
        Seq::empty()
    } else if i + 1 < s.len() && s[i] == '/' && s[i + 1] == '/' {
        strip_comments_from(s, line_end(s, i))
    } else {
        seq![s[i]] + strip_comments_from(s, i + 1)
    }
}

#[via_fn]
proof fn strip_comments_dec(s: Seq<char>, i: int) {
    if i < s.len() && i + 1 < s.len() && s[i] == '/' && s[i + 1] == '/' {
        lemma_line_end(s, i + 1);
        assert(line_end(s, i) == line_end(s, i + 1));
    }
}

/// The statements of the text: the segments between semicolons.
pub open spec fn split_stmts_from(s: Seq<char>, i: int) -> Seq<Seq<char>>
    decreases s.len() - i when 0 <= i <= s.len() via split_stmts_dec
{
    if i >= s.len() {
        Seq::empty()
    } else {
        let j = semi_end(s, i);
        if j >= s.len() {
            seq![s.subrange(i, s.len() as int)]
        } else {
            seq![s.subrange(i, j)] + split_stmts_from(s, j + 1)
        }
    }
}

#[via_fn]
proof fn split_stmts_dec(s: Seq<char>, i: int) {
    if 0 <= i < s.len() {
        lemma_semi_end(s, i);
    }
}

/// What one statement contributes.
pub ghost enum StmtFacts {
    Import(ImportFacts),
    Datasource(Seq<char>),
    Persist(PersistFacts),
}

pub open spec fn kw_import() -> Seq<char> {
    "import"@
}

pub open spec fn kw_datasource() -> Seq<char> {
    "datasource"@
}

pub open spec fn kw_as() -> Seq<char> {
    "as"@
}

pub open spec fn kw_into() -> Seq<char> {
    "into"@
}

pub open spec fn kw_persist() -> Seq<char> {
    "persist"@
}

pub open spec fn kw_append() -> Seq<char> {
    "append"@
}

pub open spec fn kw_overwrite() -> Seq<char> {
    "overwrite"@
}

pub open spec fn kw_std_prefix() -> Seq<char> {
    "std."@
}

/// The mode named by a mode word (ASCII case-insensitive); anything that
/// is neither `append` nor `overwrite` persists.
pub open spec fn spec_persist_mode(w: Seq<char>) -> PersistMode {
    if seq_eq_ci(w, kw_append()) {
        PersistMode::Append
    } else if seq_eq_ci(w, kw_overwrite()) {
        PersistMode::Overwrite
    } else {
        PersistMode::Persist
    }
}

/// The import statement read from `s` after the `import` keyword at `i`.
pub open spec fn spec_import_stmt(s: Seq<char>, i: int) -> Result<ImportFacts, ParseError> {
    let d0 = skip_ws(s, i);
    let d1 = dots_end(s, d0);
    let p1 = path_end(s, d1);
    if p1 == d1 {
        Err(ParseError::InvalidImportStructure)
    } else {
        let raw = s.subrange(d1, p1);
        let pd: int = if d1 > d0 {
            d1 - d0 - 1
        } else {
            0
        };
        let is_std = raw.len() >= 4 && raw.subrange(0, 4) == kw_std_prefix();
        let a0 = skip_ws(s, p1);
        let a1 = ident_end(s, a0);
        if a1 > a0 && s.subrange(a0, a1) == kw_as() {
            let b0 = skip_ws(s, a1);
            let b1 = ident_end(s, b0);
            if b1 == b0 {
                Err(ParseError::InvalidImportStructure)
            } else {
                Ok(ImportFacts {
                    raw_path: raw,
                    parent_dirs: pd,
                    alias: Some(s.subrange(b0, b1)),
                    is_stdlib: is_std,
                })
            }
        } else {
            Ok(ImportFacts { raw_path: raw, parent_dirs: pd, alias: None, is_stdlib: is_std })
        }
    }
}

/// The declared name read from `s` after the `datasource` keyword at `i`.
pub open spec fn spec_datasource_stmt(s: Seq<char>, i: int) -> Result<Seq<char>, ParseError> {
    let a0 = skip_ws(s, i);
    let a1 = ident_end(s, a0);
    if a1 == a0 {
        Err(ParseError::InvalidDatasourceStructure)
    } else {
        Ok(s.subrange(a0, a1))
    }
}

/// The target read from `s` after the mode word of a persist statement at
/// `i`: the identifier after `into` when present, else the first
/// identifier.
pub open spec fn spec_persist_target(s: Seq<char>, i: int) -> Result<Seq<char>, ParseError> {
    let a0 = skip_ws(s, i);
    let a1 = ident_end(s, a0);
    if a1 == a0 {
        Err(ParseError::InvalidPersistStructure)
    } else if s.subrange(a0, a1) == kw_into() {
        let b0 = skip_ws(s, a1);
        let b1 = ident_end(s, b0);
        if b1 == b0 {
            Err(ParseError::InvalidPersistStructure)
        } else {
            Ok(s.subrange(b0, b1))
        }
    } else {
        let c0 = skip_ws(s, a1);
        let c1 = ident_end(s, c0);
        if c1 > c0 && s.subrange(c0, c1) == kw_into() {
            let b0 = skip_ws(s, c1);
            let b1 = ident_end(s, b0);
            if b1 == b0 {
                Err(ParseError::InvalidPersistStructure)
            } else {
                Ok(s.subrange(b0, b1))
            }
        } else {
            Ok(s.subrange(a0, a1))
        }
    }
}

/// What one statement contributes: nothing, a fact, or an error.
pub open spec fn spec_classify(s: Seq<char>) -> Result<Option<StmtFacts>, ParseError> {
    let t0 = skip_ws(s, 0);
    let t1 = ident_end(s, t0);
    if t1 == t0 {
        Ok(None)
    } else {
        let w = s.subrange(t0, t1);
        if w == kw_import() {
            match spec_import_stmt(s, t1) {
                Ok(f) => Ok(Some(StmtFacts::Import(f))),
                Err(e) => Err(e),
            }
        } else if w == kw_datasource() {
            match spec_datasource_stmt(s, t1) {
                Ok(n) => Ok(Some(StmtFacts::Datasource(n))),
                Err(e) => Err(e),
            }
        } else if seq_eq_ci(w, kw_persist()) || seq_eq_ci(w, kw_append()) || seq_eq_ci(
            w,
            kw_overwrite(),
        ) {
            match spec_persist_target(s, t1) {
                Ok(t) => Ok(
                    Some(StmtFacts::Persist(PersistFacts { mode: spec_persist_mode(w), target: t })),
                ),
                Err(e) => Err(e),
            }
        } else {
            Ok(None)
        }
    }
}

/// `acc` extended by one statement's contribution.
pub open spec fn facts_push(acc: FileFacts, st: StmtFacts) -> FileFacts {
    match st {
        StmtFacts::Import(f) => FileFacts { imports: acc.imports.push(f), ..acc },
        StmtFacts::Datasource(n) => FileFacts { datasources: acc.datasources.push(n), ..acc },
        StmtFacts::Persist(p) => FileFacts { persists: acc.persists.push(p), ..acc },
    }
}

/// Left-to-right collection over the statements from index `k`.
pub open spec fn spec_parse_from(ss: Seq<Seq<char>>, k: int, acc: FileFacts) -> Result<
    FileFacts,
    ParseError,
>
    decreases ss.len() - k when 0 <= k <= ss.len()
{
    if k >= ss.len() {
        Ok(acc)
    } else {
        match spec_classify(ss[k]) {
            Err(e) => Err(e),
            Ok(None) => spec_parse_from(ss, k + 1, acc),
            Ok(Some(st)) => spec_parse_from(ss, k + 1, facts_push(acc, st)),
        }
    }
}

/// The facts of a whole file, or its first error.
pub open spec fn spec_parse_file(s: Seq<char>) -> Result<FileFacts, ParseError> {
    spec_parse_from(
        split_stmts_from(strip_comments_from(s, 0), 0),
        0,
        FileFacts::empty(),
    )
}

/// How an executable parse result corresponds to the specified one.
pub open spec fn parse_result_matches(
    r: Result<ParsedFile, ParseError>,
    s: Result<FileFacts, ParseError>,
) -> bool {
    match (r, s) {
        (Ok(p), Ok(f)) => p@ == f,
        (Err(a), Err(b)) => a == b,
        _ => false,
    }
}

// ---------------------------------------------------------------------------
// The executable extractor.
// ---------------------------------------------------------------------------

fn strip_comments_x(v: &Vec<char>) -> (r: Vec<char>)
    ensures
        r@ == strip_comments_from(v@, 0),
{
    let mut r: Vec<char> = Vec::new();
    let mut i: usize = 0;
    while i < v.len()
        invariant
            i <= v@.len(),
            strip_comments_from(v@, 0) == r@ + strip_comments_from(v@, i as int),
        decreases v@.len() - i,
    {
        if i + 1 < v.len() && v[i] == '/' && v[i + 1] == '/' {
            let j = line_end_x(v, i);
            proof {
                lemma_line_end(v@, i as int + 1);
                assert(line_end(v@, i as int) == line_end(v@, i as int + 1));
            }
            i = j;
        } else {
            let ghost r0 = r@;
            r.push(v[i]);
            proof {
                assert((r0 + seq![v@[i as int]]) + strip_comments_from(v@, i as int + 1) =~= r0
                    + (seq![v@[i as int]] + strip_comments_from(v@, i as int + 1)));
            }
            i += 1;
        }
    }
    proof {
        assert(r@ + Seq::<char>::empty() =~= r@);
    }
    r
}

fn split_stmts_x(v: &Vec<char>) -> (r: Vec<Vec<char>>)
    ensures
        r@.map_values(|t: Vec<char>| t@) == split_stmts_from(v@, 0),
{
    let mut r: Vec<Vec<char>> = Vec::new();
    let mut i: usize = 0;
    while i < v.len()
        invariant
            i <= v@.len(),
            split_stmts_from(v@, 0) == r@.map_values(|t: Vec<char>| t@) + split_stmts_from(
                v@,
                i as int,
            ),
        decreases v@.len() - i,
    {
        let j = semi_end_x(v, i);
        let seg = seg_vec(v, i, j);
        let ghost r0 = r@;
        r.push(seg);
        proof {
            assert(r@.map_values(|t: Vec<char>| t@) =~= r0.map_values(|t: Vec<char>| t@)
                + seq![v@.subrange(i as int, j as int)]);
        }
        if j >= v.len() {
            proof {
                assert((r0.map_values(|t: Vec<char>| t@) + seq![
                    v@.subrange(i as int, v@.len() as int),
                ]) + split_stmts_from(v@, v@.len() as int) =~= r0.map_values(|t: Vec<char>| t@)
                    + seq![v@.subrange(i as int, v@.len() as int)]);
                assert(r@.map_values(|t: Vec<char>| t@) + split_stmts_from(v@, v@.len() as int)
                    =~= r@.map_values(|t: Vec<char>| t@));
            }
            i = v.len();
        } else {
            proof {
                assert((r0.map_values(|t: Vec<char>| t@) + seq![v@.subrange(i as int, j as int)])
                    + split_stmts_from(v@, j as int + 1) =~= r0.map_values(|t: Vec<char>| t@)
                    + (seq![v@.subrange(i as int, j as int)] + split_stmts_from(
                    v@,
                    j as int + 1,
                )));
            }
            i = j + 1;
        }
    }
    proof {
        assert(r@.map_values(|t: Vec<char>| t@) + Seq::<Seq<char>>::empty() =~= r@.map_values(
            |t: Vec<char>| t@,
        ));
    }
    r
}

/// Reads one statement and, when it carries a fact, appends it to `p`.
fn apply_stmt(p: &mut ParsedFile, seg: &Vec<char>) -> (r: Result<(), ParseError>)
    ensures
        match spec_classify(seg@) {
            Ok(opt) => r is Ok && (match opt {
                None => final(p)@ == old(p)@,
                Some(st) => final(p)@ == facts_push(old(p)@, st),
            }),
            Err(e) => r == Err::<(), ParseError>(e) && final(p)@ == old(p)@,
        },
{
    let t0 = skip_ws_x(seg, 0);
    let t1 = ident_end_x(seg, t0);
    if t1 == t0 {
        return Ok(());
    }
    if seg_is(seg, t0, t1, "import") {
        let d0 = skip_ws_x(seg, t1);
        let d1 = dots_end_x(seg, d0);
        let p1 = path_end_x(seg, d1);
        if p1 == d1 {
            return Err(ParseError::InvalidImportStructure);
        }
        let raw = seg_string(seg, d1, p1);
        let pd: usize = if d1 > d0 {
            d1 - d0 - 1
        } else {
            0
        };
        let is_std = p1 - d1 >= 4 && seg_is(seg, d1, d1 + 4, "std.");
        proof {
            if p1 - d1 >= 4 {
                assert(seg@.subrange(d1 as int, p1 as int).subrange(0, 4) =~= seg@.subrange(
                    d1 as int,
                    d1 as int + 4,
                ));
            }
        }
        let a0 = skip_ws_x(seg, p1);
        let a1 = ident_end_x(seg, a0);
        let mut alias: Option<String> = None;
        if a1 > a0 && seg_is(seg, a0, a1, "as") {
            let b0 = skip_ws_x(seg, a1);
            let b1 = ident_end_x(seg, b0);
            if b1 == b0 {
                return Err(ParseError::InvalidImportStructure);
            }
            alias = Some(seg_string(seg, b0, b1));
        }
        let st = ImportStatement { raw_path: raw, parent_dirs: pd, alias, is_stdlib: is_std };
        let ghost p0 = p@;
        proof {
            assert(spec_classify(seg@) == Ok::<Option<StmtFacts>, ParseError>(
                Some(StmtFacts::Import(st@)),
            ));
        }
        p.imports.push(st);
        proof {
            assert(p@.imports =~= p0.imports.push(st@));
            assert(p@ == facts_push(p0, StmtFacts::Import(st@)));
        }
        return Ok(());
    }
    if seg_is(seg, t0, t1, "datasource") {
        let a0 = skip_ws_x(seg, t1);
        let a1 = ident_end_x(seg, a0);
        if a1 == a0 {
            return Err(ParseError::InvalidDatasourceStructure);
        }
        let st = DatasourceDeclaration { name: seg_string(seg, a0, a1) };
        let ghost p0 = p@;
        p.datasources.push(st);
        proof {
            assert(p@.datasources =~= p0.datasources.push(st@));
            assert(p@ == facts_push(p0, StmtFacts::Datasource(st@)));
        }
        return Ok(());
    }
    if seg_is_ci(seg, t0, t1, "persist") || seg_is_ci(seg, t0, t1, "append") || seg_is_ci(
        seg,
        t0,
        t1,
        "overwrite",
    ) {
        let mode = if seg_is_ci(seg, t0, t1, "append") {
            PersistMode::Append
        } else if seg_is_ci(seg, t0, t1, "overwrite") {
            PersistMode::Overwrite
        } else {
            PersistMode::Persist
        };
        let a0 = skip_ws_x(seg, t1);
        let a1 = ident_end_x(seg, a0);
        if a1 == a0 {
            return Err(ParseError::InvalidPersistStructure);
        }
        let target: String;
        if seg_is(seg, a0, a1, "into") {
            let b0 = skip_ws_x(seg, a1);
            let b1 = ident_end_x(seg, b0);
            if b1 == b0 {
                return Err(ParseError::InvalidPersistStructure);
            }
            target = seg_string(seg, b0, b1);
        } else {
            let c0 = skip_ws_x(seg, a1);
            let c1 = ident_end_x(seg, c0);
            if c1 > c0 && seg_is(seg, c0, c1, "into") {
                let b0 = skip_ws_x(seg, c1);
                let b1 = ident_end_x(seg, b0);
                if b1 == b0 {
                    return Err(ParseError::InvalidPersistStructure);
                }
                target = seg_string(seg, b0, b1);
            } else {
                target = seg_string(seg, a0, a1);
            }
        }
        let st = PersistStatement { mode, target_datasource: target };
        let ghost p0 = p@;
        p.persists.push(st);
        proof {
            assert(p@.persists =~= p0.persists.push(st@));
            assert(p@ == facts_push(p0, StmtFacts::Persist(st@)));
        }
        return Ok(());
    }
    Ok(())
}

/// Extracts every dependency-relevant statement of a pipeline file, or
/// reports the first malformed statement.
///
/// Returns exactly what [`spec_parse_file`] says for the file's text.
pub fn parse_file(content: &str) -> (r: Result<ParsedFile, ParseError>)
    ensures
        parse_result_matches(r, spec_parse_file(content@)),
{
    let v = to_char_vec(content);
    let stripped = strip_comments_x(&v);
    let segs = split_stmts_x(&stripped);
    let ghost ss = split_stmts_from(strip_comments_from(content@, 0), 0);
    proof {
        assert(segs@.map_values(|t: Vec<char>| t@) == ss);
    }
    let mut p = ParsedFile::default();
    let mut k: usize = 0;
    while k < segs.len()
        invariant
            k <= segs@.len(),
            ss == split_stmts_from(strip_comments_from(content@, 0), 0),
            segs@.map_values(|t: Vec<char>| t@) == ss,
            spec_parse_from(ss, 0, FileFacts::empty()) == spec_parse_from(ss, k as int, p@),
        decreases segs@.len() - k,
    {
        proof {
            assert(segs@.map_values(|t: Vec<char>| t@)[k as int] == segs@[k as int]@);
        }
        match apply_stmt(&mut p, &segs[k]) {
            Ok(()) => {},
            Err(e) => {
                proof {
                    assert(spec_classify(ss[k as int]) == Err::<Option<StmtFacts>, ParseError>(e));
                    assert(spec_parse_from(ss, k as int, p@) == Err::<FileFacts, ParseError>(e));
                }
                return Err(e);
            },
        }
        k += 1;
    }
    Ok(p)
}

/// The imports of a pipeline file, or its first error.
pub fn parse_imports(content: &str) -> (r: Result<Vec<ImportStatement>, ParseError>)
    ensures
        match (r, spec_parse_file(content@)) {
            (Ok(v), Ok(f)) => Seq::new(v@.len(), |k: int| v@[k]@) == f.imports,
            (Err(a), Err(b)) => a == b,
            _ => false,
        },
{
    match parse_file(content) {
        Ok(p) => Ok(p.imports),
        Err(e) => Err(e),
    }
}

} // verus!
