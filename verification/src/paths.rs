//! A lexical model of file paths.
//!
//! Paths are plain strings; `/` separates components. The resolver is
//! handed canonical paths by its caller, so parent and join are defined
//! lexically, mirroring how the standard library treats such paths:
//! the parent of `/root/x` is `/root`, of `/root` is `/`, of `/` is
//! nothing, and of a single relative component is the empty path.

use vstd::prelude::*;

use crate::parser::{ImportFacts, ImportStatement};
use crate::text::{seg_string, seg_vec, til_dot, til_dot_x, lemma_til_dot, to_char_vec};

verus! {

/// Largest index of `c` in `s`, or `-1`.
pub open spec fn rfind(s: Seq<char>, c: char) -> int
    decreases s.len(),
{
    if s.len() == 0 {
        -1
    } else if s[s.len() - 1] == c {
        s.len() - 1
    } else {
        rfind(s.drop_last(), c)
    }
}

pub proof fn lemma_rfind(s: Seq<char>, c: char)
    ensures
        -1 <= rfind(s, c) < s.len(),
        rfind(s, c) >= 0 ==> s[rfind(s, c)] == c,
        forall|j: int| rfind(s, c) < j < s.len() ==> #[trigger] s[j] != c,
    decreases s.len(),
{
    if s.len() > 0 && s[s.len() - 1] != c {
        lemma_rfind(s.drop_last(), c);
        assert(forall|j: int| 0 <= j < s.len() - 1 ==> s.drop_last()[j] == #[trigger] s[j]);
    }
}

/// Every character is a separator (true of the empty path too).
pub open spec fn all_slashes(s: Seq<char>) -> bool {
    forall|j: int| 0 <= j < s.len() ==> #[trigger] s[j] == '/'
}

/// The path without its trailing separators.
pub open spec fn strip_trail(s: Seq<char>) -> Seq<char>
    decreases s.len(),
{
    if s.len() > 0 && s[s.len() - 1] == '/' {
        strip_trail(s.drop_last())
    } else {
        s
    }
}

pub proof fn lemma_strip_trail(s: Seq<char>)
    ensures
        strip_trail(s).len() <= s.len(),
        strip_trail(s) == s.subrange(0, strip_trail(s).len() as int),
        strip_trail(s).len() > 0 ==> s[strip_trail(s).len() - 1] != '/',
        forall|j: int| strip_trail(s).len() <= j < s.len() ==> #[trigger] s[j] == '/',
    decreases s.len(),
{
    if s.len() > 0 && s[s.len() - 1] == '/' {
        lemma_strip_trail(s.drop_last());
        assert(forall|j: int| 0 <= j < s.len() - 1 ==> s.drop_last()[j] == #[trigger] s[j]);
        assert(strip_trail(s) =~= s.subrange(0, strip_trail(s).len() as int));
    } else {
        assert(strip_trail(s) =~= s.subrange(0, strip_trail(s).len() as int));
    }
}

/// The parent directory of a path, lexically.
pub open spec fn parent_of(p: Seq<char>) -> Option<Seq<char>> {
    if all_slashes(p) {
        None
    } else {
        let t = strip_trail(p);
        let k = rfind(t, '/');
        if k < 0 {
            Some(Seq::empty())
        } else if all_slashes(t.subrange(0, k + 1)) {
            Some(seq!['/'])
        } else {
            Some(strip_trail(t.subrange(0, k)))
        }
    }
}

/// A path with one more component, as `PathBuf::push` joins them: an
/// empty component changes nothing, and a separator is added only when
/// one is needed.
pub open spec fn join_part(base: Seq<char>, part: Seq<char>) -> Seq<char> {
    if part.len() == 0 {
        base
    } else if base.len() == 0 {
        part
    } else if base[base.len() - 1] == '/' {
        base + part
    } else {
        base + seq!['/'] + part
    }
}

/// `base` extended by every dot-separated component of `raw[i..]`.
pub open spec fn resolve_parts(base: Seq<char>, raw: Seq<char>, i: int) -> Seq<char>
    decreases raw.len() - i when 0 <= i <= raw.len() via resolve_parts_dec
{
    if i >= raw.len() {
        base
    } else {
        let j = til_dot(raw, i);
        let b2 = join_part(base, raw.subrange(i, j));
        if j >= raw.len() {
            b2
        } else {
            resolve_parts(b2, raw, j + 1)
        }
    }
}

#[via_fn]
proof fn resolve_parts_dec(base: Seq<char>, raw: Seq<char>, i: int) {
    if 0 <= i < raw.len() {
        lemma_til_dot(raw, i);
    }
}

/// The pipeline file extension.
pub open spec fn preql_ext() -> Seq<char> {
    seq!['.', 'p', 'r', 'e', 'q', 'l']
}

/// `dir` taken up `k` parent directories, or nothing once the root is
/// passed.
pub open spec fn climb(dir: Seq<char>, k: int) -> Option<Seq<char>>
    decreases k,
{
    if k <= 0 {
        Some(dir)
    } else {
        match parent_of(dir) {
            None => None,
            Some(d) => climb(d, k - 1),
        }
    }
}

/// Where an import leads from a directory: no file at all for a reserved
/// namespace import, else the dotted path turned into nested components
/// with the pipeline extension appended.
pub open spec fn spec_resolve_import(f: ImportFacts, dir: Seq<char>) -> Option<Seq<char>> {
    if f.is_stdlib {
        None
    } else {
        match climb(dir, f.parent_dirs) {
            None => None,
            Some(base) => Some(resolve_parts(base, f.raw_path, 0) + preql_ext()),
        }
    }
}

/// The parent directory of the path held in `v`, lexically.
pub(crate) fn parent_x(v: &Vec<char>) -> (r: Option<Vec<char>>)
    ensures
        match (r, parent_of(v@)) {
            (Some(p), Some(q)) => p@ == q,
            (None, None) => true,
            _ => false,
        },
{
    let mut i: usize = 0;
    while i < v.len() && v[i] == '/'
        invariant
            i <= v@.len(),
            forall|j: int| 0 <= j < i ==> #[trigger] v@[j] == '/',
        decreases v@.len() - i,
    {
        i += 1;
    }
    if i == v.len() {
        return None;
    }
    assert(!all_slashes(v@));
    // strip trailing separators
    let mut end = v.len();
    proof {
        assert(v@.subrange(0, v@.len() as int) =~= v@);
    }
    while end > 0 && v[end - 1] == '/'
        invariant
            end <= v@.len(),
            strip_trail(v@) == strip_trail(v@.subrange(0, end as int)),
        decreases end,
    {
        proof {
            assert(v@.subrange(0, end as int).drop_last() =~= v@.subrange(0, end as int - 1));
        }
        end -= 1;
    }
    proof {
        assert(v@.subrange(0, v@.len() as int) =~= v@);
        if end == 0 {
            assert(strip_trail(v@) =~= Seq::<char>::empty());
            lemma_strip_trail(v@);
            assert(v@[i as int] == '/');
            assert(false);
        }
    }
    let ghost t = strip_trail(v@);
    proof {
        assert(t == v@.subrange(0, end as int));
    }
    // find the last separator of the stripped path
    let mut k = end;
    while k > 0 && v[k - 1] != '/'
        invariant
            k <= end <= v@.len(),
            forall|j: int| k <= j < end ==> #[trigger] v@[j] != '/',
        decreases k,
    {
        k -= 1;
    }
    proof {
        lemma_rfind(t, '/');
        assert(forall|j: int| 0 <= j < end ==> t[j] == #[trigger] v@[j]);
        if k == 0 {
            assert(rfind(t, '/') == -1) by {
                if rfind(t, '/') >= 0 {
                    assert(t[rfind(t, '/')] == '/');
                }
            }
        } else {
            assert(t[k - 1] == '/');
            assert(rfind(t, '/') == k - 1) by {
                if rfind(t, '/') < k - 1 {
                    assert(t[k - 1] != '/');
                }
            }
        }
    }
    if k == 0 {
        return Some(Vec::new());
    }
    // is everything before (and including) the separator a separator?
    let mut m: usize = 0;
    while m < k - 1 && v[m] == '/'
        invariant
            m <= k - 1,
            k <= end <= v@.len(),
            forall|j: int| 0 <= j < m ==> #[trigger] v@[j] == '/',
        decreases k - m,
    {
        m += 1;
    }
    proof {
        assert(t.subrange(0, k as int) =~= v@.subrange(0, k as int));
    }
    if m == k - 1 {
        proof {
            assert(all_slashes(t.subrange(0, k as int)));
        }
        let r: Vec<char> = vec!['/'];
        proof {
            assert(r@ =~= seq!['/']);
        }
        return Some(r);
    }
    proof {
        assert(v@[m as int] != '/');
        assert(t.subrange(0, k as int)[m as int] != '/');
        assert(!all_slashes(t.subrange(0, k as int)));
    }
    // strip trailing separators of the prefix before the separator
    let mut end2 = k - 1;
    proof {
        assert(v@.subrange(0, k as int - 1).subrange(0, end2 as int) =~= v@.subrange(
            0,
            end2 as int,
        ));
    }
    while end2 > 0 && v[end2 - 1] == '/'
        invariant
            end2 <= v@.len(),
            strip_trail(v@.subrange(0, k as int - 1)) == strip_trail(v@.subrange(0, end2 as int)),
        decreases end2,
    {
        proof {
            assert(v@.subrange(0, end2 as int).drop_last() =~= v@.subrange(0, end2 as int - 1));
        }
        end2 -= 1;
    }
    proof {
        if end2 > 0 {
            assert(strip_trail(v@.subrange(0, end2 as int)) =~= v@.subrange(0, end2 as int));
        } else {
            assert(strip_trail(v@.subrange(0, end2 as int)) =~= Seq::<char>::empty());
            assert(v@.subrange(0, 0) =~= Seq::<char>::empty());
        }
        assert(t.subrange(0, k as int - 1) =~= v@.subrange(0, k as int - 1));
    }
    Some(seg_vec(v, 0, end2))
}

impl ImportStatement {
    /// The file this import leads to from the given directory, or nothing
    /// for a reserved namespace import or one that climbs past the root.
    pub fn resolve(&self, working_dir: &str) -> (r: Option<String>)
        ensures
            match (r, spec_resolve_import(self@, working_dir@)) {
                (Some(p), Some(q)) => p@ == q,
                (None, None) => true,
                _ => false,
            },
    {
        if self.is_stdlib {
            return None;
        }
        let mut base = to_char_vec(working_dir);
        let mut rem = self.parent_dirs;
        while rem > 0
            invariant
                climb(working_dir@, self.parent_dirs as int) == climb(base@, rem as int),
            decreases rem,
        {
            match parent_x(&base) {
                None => {
                    return None;
                },
                Some(p) => {
                    base = p;
                },
            }
            rem -= 1;
        }
        let raw = to_char_vec(self.raw_path.as_str());
        let ghost base0 = base@;
        let mut i: usize = 0;
        while i < raw.len()
            invariant
                i <= raw@.len(),
                resolve_parts(base0, raw@, 0) == resolve_parts(base@, raw@, i as int),
            decreases raw@.len() - i,
        {
            let j = til_dot_x(&raw, i);
            let ghost bprev = base@;
            if j > i {
                if base.len() > 0 && base[base.len() - 1] != '/' {
                    base.push('/');
                }
                let ghost bsep = base@;
                let mut m = i;
                while m < j
                    invariant
                        i <= m <= j <= raw@.len(),
                        base@ == bsep + raw@.subrange(i as int, m as int),
                    decreases j - m,
                {
                    base.push(raw[m]);
                    proof {
                        assert(base@ =~= bsep + raw@.subrange(i as int, m as int + 1));
                    }
                    m += 1;
                }
                proof {
                    assert(base@ =~= join_part(bprev, raw@.subrange(i as int, j as int)));
                }
            } else {
                proof {
                    assert(base@ == join_part(bprev, raw@.subrange(i as int, j as int)));
                }
            }
            if j >= raw.len() {
                i = raw.len();
            } else {
                i = j + 1;
            }
        }
        let ghost joined = base@;
        base.push('.');
        base.push('p');
        base.push('r');
        base.push('e');
        base.push('q');
        base.push('l');
        proof {
            assert(base@ =~= joined + preql_ext());
        }
        let n = base.len();
        let s = seg_string(&base, 0, n);
        proof {
            assert(base@.subrange(0, n as int) =~= base@);
        }
        Some(s)
    }

    /// The name this import is known by: the alias when one was given,
    /// else the last dotted component of the path.
    pub fn effective_alias(&self) -> (r: &str)
        ensures
            r@ == spec_effective_alias(self@),
    {
        match &self.alias {
            Some(a) => a.as_str(),
            None => {
                let s = self.raw_path.as_str();
                let v = to_char_vec(s);
                let mut k = v.len();
                while k > 0 && v[k - 1] != '.'
                    invariant
                        k <= v@.len(),
                        forall|j: int| k <= j < v@.len() ==> #[trigger] v@[j] != '.',
                    decreases k,
                {
                    k -= 1;
                }
                proof {
                    lemma_rfind(v@, '.');
                    if k == 0 {
                        assert(rfind(v@, '.') == -1) by {
                            if rfind(v@, '.') >= 0 {
                                assert(v@[rfind(v@, '.')] == '.');
                            }
                        }
                    } else {
                        assert(v@[k - 1] == '.');
                        assert(rfind(v@, '.') == k - 1) by {
                            if rfind(v@, '.') < k - 1 {
                                assert(v@[k - 1] != '.');
                            }
                        }
                    }
                }
                let n = s.unicode_len();
                s.substring_char(k, n)
            },
        }
    }
}

/// Whether a path names a pipeline file: its last component carries the
/// pipeline extension (a bare `.preql` component is a hidden file, not
/// an extension).
pub open spec fn spec_is_preql_file(p: Seq<char>) -> bool {
    p.len() >= 7 && p.subrange(p.len() - 6, p.len() as int) == preql_ext() && p[p.len() - 7] != '/'
}

/// Whether a path names a pipeline file.
pub fn is_preql_file(path: &str) -> (r: bool)
    ensures
        r == spec_is_preql_file(path@),
{
    let v = to_char_vec(path);
    let n = v.len();
    if n < 7 {
        return false;
    }
    let r = v[n - 6] == '.' && v[n - 5] == 'p' && v[n - 4] == 'r' && v[n - 3] == 'e' && v[n - 2]
        == 'q' && v[n - 1] == 'l' && v[n - 7] != '/';
    proof {
        if r {
            assert(v@.subrange(n - 6, n as int) =~= preql_ext());
        } else {
            if v@.subrange(n - 6, n as int) == preql_ext() {
                assert(v@[n - 6] == preql_ext()[0]);
                assert(v@[n - 5] == preql_ext()[1]);
                assert(v@[n - 4] == preql_ext()[2]);
                assert(v@[n - 3] == preql_ext()[3]);
                assert(v@[n - 2] == preql_ext()[4]);
                assert(v@[n - 1] == preql_ext()[5]);
            }
        }
    }
    r
}

/// The name an import is known by, on its view: the alias when given,
/// else what follows the last dot of the path.
pub open spec fn spec_effective_alias(f: ImportFacts) -> Seq<char> {
    match f.alias {
        Some(a) => a,
        None => f.raw_path.subrange(rfind(f.raw_path, '.') + 1, f.raw_path.len() as int),
    }
}

} // verus!
