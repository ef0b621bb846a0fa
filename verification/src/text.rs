//! Character-level scanning primitives shared by the fact extractor.
//!
//! All scanning is specified over `Seq<char>` views; the executable
//! helpers are proved to compute exactly what the spec functions say.

use vstd::prelude::*;

verus! {

/// Whitespace as the pipeline language knows it.
pub open spec fn is_space_char(c: char) -> bool {
    c == ' ' || c == '\t' || c == '\r' || c == '\n'
}

/// Identifier characters: ASCII letters, digits and underscore.
pub open spec fn is_ident_char(c: char) -> bool {
    let u = c as u32;
    (97 <= u && u <= 122) || (65 <= u && u <= 90) || (48 <= u && u <= 57) || u == 95
}

/// Characters that may appear in a dotted import path.
pub open spec fn is_path_char(c: char) -> bool {
    is_ident_char(c) || c == '.'
}

pub fn space_char(c: char) -> (r: bool)
    ensures
        r == is_space_char(c),
{
    c == ' ' || c == '\t' || c == '\r' || c == '\n'
}

pub fn ident_char(c: char) -> (r: bool)
    ensures
        r == is_ident_char(c),
{
    let u = c as u32;
    (97 <= u && u <= 122) || (65 <= u && u <= 90) || (48 <= u && u <= 57) || u == 95
}

pub fn path_char(c: char) -> (r: bool)
    ensures
        r == is_path_char(c),
{
    ident_char(c) || c == '.'
}

/// Index of the first character at or after `i` that fails `p`, or the end.
pub open spec fn scan_while(s: Seq<char>, i: int, p: spec_fn(char) -> bool) -> int
    decreases s.len() - i when 0 <= i <= s.len()
{
    if i >= s.len() {
        i
    } else if p(s[i]) {
        scan_while(s, i + 1, p)
    } else {
        i
    }
}

pub open spec fn skip_ws(s: Seq<char>, i: int) -> int {
    scan_while(s, i, |c: char| is_space_char(c))
}

pub open spec fn ident_end(s: Seq<char>, i: int) -> int {
    scan_while(s, i, |c: char| is_ident_char(c))
}

pub open spec fn path_end(s: Seq<char>, i: int) -> int {
    scan_while(s, i, |c: char| is_path_char(c))
}

pub open spec fn dots_end(s: Seq<char>, i: int) -> int {
    scan_while(s, i, |c: char| c == '.')
}

/// Index of the first dot at or after `i`, or the end.
pub open spec fn til_dot(s: Seq<char>, i: int) -> int {
    scan_while(s, i, |c: char| c != '.')
}

/// Index of the first newline at or after `i`, or the end.
pub open spec fn line_end(s: Seq<char>, i: int) -> int {
    scan_while(s, i, |c: char| c != '\n')
}

/// Index of the first semicolon at or after `i`, or the end.
pub open spec fn semi_end(s: Seq<char>, i: int) -> int {
    scan_while(s, i, |c: char| c != ';')
}

pub proof fn lemma_til_dot(s: Seq<char>, i: int)
    requires
        0 <= i <= s.len(),
    ensures
        i <= til_dot(s, i) <= s.len(),
        forall|j: int| i <= j < til_dot(s, i) ==> #[trigger] s[j] != '.',
        til_dot(s, i) < s.len() ==> s[til_dot(s, i)] == '.',
    decreases s.len() - i,
{
    if i < s.len() && s[i] != '.' {
        lemma_til_dot(s, i + 1);
    }
}

pub proof fn lemma_line_end(s: Seq<char>, i: int)
    requires
        0 <= i <= s.len(),
    ensures
        i <= line_end(s, i) <= s.len(),
        forall|j: int| i <= j < line_end(s, i) ==> #[trigger] s[j] != '\n',
        line_end(s, i) < s.len() ==> s[line_end(s, i)] == '\n',
    decreases s.len() - i,
{
    if i < s.len() && s[i] != '\n' {
        lemma_line_end(s, i + 1);
    }
}

pub proof fn lemma_semi_end(s: Seq<char>, i: int)
    requires
        0 <= i <= s.len(),
    ensures
        i <= semi_end(s, i) <= s.len(),
        forall|j: int| i <= j < semi_end(s, i) ==> #[trigger] s[j] != ';',
        semi_end(s, i) < s.len() ==> s[semi_end(s, i)] == ';',
    decreases s.len() - i,
{
    if i < s.len() && s[i] != ';' {
        lemma_semi_end(s, i + 1);
    }
}

pub fn skip_ws_x(v: &Vec<char>, i: usize) -> (j: usize)
    requires
        i <= v@.len(),
    ensures
        j as int == skip_ws(v@, i as int),
        i <= j <= v@.len(),
{
    let mut j = i;
    while j < v.len() && space_char(v[j])
        invariant
            i <= j <= v@.len(),
            skip_ws(v@, i as int) == skip_ws(v@, j as int),
        decreases v@.len() - j,
    {
        j += 1;
    }
    j
}

pub fn ident_end_x(v: &Vec<char>, i: usize) -> (j: usize)
    requires
        i <= v@.len(),
    ensures
        j as int == ident_end(v@, i as int),
        i <= j <= v@.len(),
{
    let mut j = i;
    while j < v.len() && ident_char(v[j])
        invariant
            i <= j <= v@.len(),
            ident_end(v@, i as int) == ident_end(v@, j as int),
        decreases v@.len() - j,
    {
        j += 1;
    }
    j
}

pub fn path_end_x(v: &Vec<char>, i: usize) -> (j: usize)
    requires
        i <= v@.len(),
    ensures
        j as int == path_end(v@, i as int),
        i <= j <= v@.len(),
{
    let mut j = i;
    while j < v.len() && path_char(v[j])
        invariant
            i <= j <= v@.len(),
            path_end(v@, i as int) == path_end(v@, j as int),
        decreases v@.len() - j,
    {
        j += 1;
    }
    j
}

pub fn dots_end_x(v: &Vec<char>, i: usize) -> (j: usize)
    requires
        i <= v@.len(),
    ensures
        j as int == dots_end(v@, i as int),
        i <= j <= v@.len(),
{
    let mut j = i;
    while j < v.len() && v[j] == '.'
        invariant
            i <= j <= v@.len(),
            dots_end(v@, i as int) == dots_end(v@, j as int),
        decreases v@.len() - j,
    {
        j += 1;
    }
    j
}

pub fn til_dot_x(v: &Vec<char>, i: usize) -> (j: usize)
    requires
        i <= v@.len(),
    ensures
        j as int == til_dot(v@, i as int),
        i <= j <= v@.len(),
{
    let mut j = i;
    while j < v.len() && v[j] != '.'
        invariant
            i <= j <= v@.len(),
            til_dot(v@, i as int) == til_dot(v@, j as int),
        decreases v@.len() - j,
    {
        j += 1;
    }
    j
}

pub fn line_end_x(v: &Vec<char>, i: usize) -> (j: usize)
    requires
        i <= v@.len(),
    ensures
        j as int == line_end(v@, i as int),
        i <= j <= v@.len(),
{
    let mut j = i;
    while j < v.len() && v[j] != '\n'
        invariant
            i <= j <= v@.len(),
            line_end(v@, i as int) == line_end(v@, j as int),
        decreases v@.len() - j,
    {
        j += 1;
    }
    j
}

pub fn semi_end_x(v: &Vec<char>, i: usize) -> (j: usize)
    requires
        i <= v@.len(),
    ensures
        j as int == semi_end(v@, i as int),
        i <= j <= v@.len(),
{
    let mut j = i;
    while j < v.len() && v[j] != ';'
        invariant
            i <= j <= v@.len(),
            semi_end(v@, i as int) == semi_end(v@, j as int),
        decreases v@.len() - j,
    {
        j += 1;
    }
    j
}

/// The characters of a string as a vector, one entry per `char`.
pub fn to_char_vec(s: &str) -> (r: Vec<char>)
    ensures
        r@ == s@,
{
    let n = s.unicode_len();
    let mut r: Vec<char> = Vec::new();
    let mut i: usize = 0;
    while i < n
        invariant
            i <= n,
            n == s@.len(),
            r@ == s@.subrange(0, i as int),
        decreases n - i,
    {
        let c = s.get_char(i);
        r.push(c);
        proof {
            assert(r@ =~= s@.subrange(0, i as int + 1));
        }
        i += 1;
    }
    proof {
        assert(r@ =~= s@);
    }
    r
}

/// Relies on `String::push`: appends the given character to the end of the string.
#[verifier::external_body]
fn push_char(s: &mut String, c: char)
    ensures
        final(s)@ == old(s)@.push(c),
{
    s.push(c);
}

/// A `String` holding exactly the characters `v[a..b]`.
pub fn seg_string(v: &Vec<char>, a: usize, b: usize) -> (r: String)
    requires
        a <= b <= v@.len(),
    ensures
        r@ == v@.subrange(a as int, b as int),
{
    let mut r = String::new();
    let mut i = a;
    while i < b
        invariant
            a <= i <= b <= v@.len(),
            r@ == v@.subrange(a as int, i as int),
        decreases b - i,
    {
        push_char(&mut r, v[i]);
        proof {
            assert(r@ =~= v@.subrange(a as int, i as int + 1));
        }
        i += 1;
    }
    r
}

/// A fresh vector holding exactly the characters `v[a..b]`.
pub fn seg_vec(v: &Vec<char>, a: usize, b: usize) -> (r: Vec<char>)
    requires
        a <= b <= v@.len(),
    ensures
        r@ == v@.subrange(a as int, b as int),
{
    let mut r: Vec<char> = Vec::new();
    let mut i = a;
    while i < b
        invariant
            a <= i <= b <= v@.len(),
            r@ == v@.subrange(a as int, i as int),
        decreases b - i,
    {
        r.push(v[i]);
        proof {
            assert(r@ =~= v@.subrange(a as int, i as int + 1));
        }
        i += 1;
    }
    r
}

/// Exact comparison of `v[a..b]` against a string.
pub fn seg_is(v: &Vec<char>, a: usize, b: usize, w: &str) -> (r: bool)
    requires
        a <= b <= v@.len(),
    ensures
        r == (v@.subrange(a as int, b as int) == w@),
{
    let n = w.unicode_len();
    if b - a != n {
        proof {
            assert(v@.subrange(a as int, b as int).len() == b - a);
        }
        return false;
    }
    let mut i: usize = 0;
    while i < n
        invariant
            i <= n,
            n == w@.len(),
            n == b - a,
            a <= b <= v@.len(),
            forall|j: int| 0 <= j < i ==> v@.subrange(a as int, b as int)[j] == w@[j],
        decreases n - i,
    {
        if v[a + i] != w.get_char(i) {
            proof {
                assert(v@.subrange(a as int, b as int)[i as int] != w@[i as int]);
            }
            return false;
        }
        proof {
            assert(v@.subrange(a as int, b as int)[i as int] == v@[a + i]);
        }
        i += 1;
    }
    proof {
        assert(v@.subrange(a as int, b as int) =~= w@);
    }
    true
}

/// Case-insensitive (ASCII) equality of single characters, the right-hand
/// side taken as already lower-case.
pub open spec fn char_eq_ci(c: char, t: char) -> bool {
    c == t || (65 <= c as u32 <= 90 && c as u32 + 32 == t as u32)
}

/// Case-insensitive (ASCII) equality of character sequences, the right-hand
/// side taken as already lower-case.
pub open spec fn seq_eq_ci(a: Seq<char>, b: Seq<char>) -> bool {
    a.len() == b.len() && forall|j: int| 0 <= j < a.len() ==> #[trigger] char_eq_ci(a[j], b[j])
}

fn char_ci(c: char, t: char) -> (r: bool)
    ensures
        r == char_eq_ci(c, t),
{
    c == t || (65 <= c as u32 && c as u32 <= 90 && c as u32 + 32 == t as u32)
}

/// Case-insensitive comparison of `v[a..b]` against a lower-case string.
pub fn seg_is_ci(v: &Vec<char>, a: usize, b: usize, w: &str) -> (r: bool)
    requires
        a <= b <= v@.len(),
    ensures
        r == seq_eq_ci(v@.subrange(a as int, b as int), w@),
{
    let n = w.unicode_len();
    if b - a != n {
        proof {
            assert(v@.subrange(a as int, b as int).len() == b - a);
        }
        return false;
    }
    let mut i: usize = 0;
    while i < n
        invariant
            i <= n,
            n == w@.len(),
            n == b - a,
            a <= b <= v@.len(),
            forall|j: int| 0 <= j < i ==> #[trigger] char_eq_ci(
                v@.subrange(a as int, b as int)[j],
                w@[j],
            ),
        decreases n - i,
    {
        if !char_ci(v[a + i], w.get_char(i)) {
            proof {
                assert(v@.subrange(a as int, b as int)[i as int] == v@[a + i]);
            }
            return false;
        }
        proof {
            assert(v@.subrange(a as int, b as int)[i as int] == v@[a + i]);
        }
        i += 1;
    }
    true
}

} // verus!
