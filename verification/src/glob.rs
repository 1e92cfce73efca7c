//! Glob patterns for paths that are kept out of a sync: `?` stands for one
//! character of a path segment, `*` for any run of characters within a
//! segment, `**` for any run of characters, `/` included.

use vstd::prelude::*;
use vstd::string::*;

verus! {

/// Whether `pattern` matches the whole of `text`.
pub open spec fn glob_matches(pattern: Seq<char>, text: Seq<char>) -> bool
    decreases pattern.len(), text.len(),
{
    if pattern.len() == 0 {
        text.len() == 0
    } else if pattern[0] == '*' && pattern.len() >= 2 && pattern[1] == '*' {
        glob_matches(pattern.skip(2), text) || (text.len() > 0 && glob_matches(
            pattern,
            text.skip(1),
        ))
    } else if pattern[0] == '*' {
        glob_matches(pattern.skip(1), text) || (text.len() > 0 && text[0] != '/' && glob_matches(
            pattern,
            text.skip(1),
        ))
    } else if pattern[0] == '?' {
        text.len() > 0 && text[0] != '/' && glob_matches(pattern.skip(1), text.skip(1))
    } else {
        text.len() > 0 && text[0] == pattern[0] && glob_matches(pattern.skip(1), text.skip(1))
    }
}

/// The last segment of a path: what follows its last `/`.
pub open spec fn basename(path: Seq<char>) -> Seq<char>
    decreases path.len(),
{
    if path.len() == 0 {
        path
    } else if path.last() == '/' {
        Seq::empty()
    } else {
        basename(path.drop_last()).push(path.last())
    }
}

/// Whether `pattern` keeps `path` out: it matches the whole path, or it
/// names no directory and matches the last segment of the path.
pub open spec fn pattern_excludes(pattern: Seq<char>, path: Seq<char>) -> bool {
    glob_matches(pattern, path) || (!pattern.contains('/') && glob_matches(
        pattern,
        basename(path),
    ))
}

/// Whether one of `patterns` keeps `path` out.
pub open spec fn excluded(patterns: Seq<Seq<char>>, path: Seq<char>) -> bool {
    exists|i: int| 0 <= i < patterns.len() && pattern_excludes(#[trigger] patterns[i], path)
}

/// The characters of a string.
pub fn chars_of(text: &str) -> (chars: Vec<char>)
    ensures
        chars@ == text@,
{
    let n = text.unicode_len();
    let mut chars: Vec<char> = Vec::new();
    let mut i: usize = 0;
    while i < n
        invariant
            i <= n,
            n == text@.len(),
            chars@ == text@.subrange(0, i as int),
        decreases n - i,
    {
        chars.push(text.get_char(i));
        proof {
            assert(chars@ =~= text@.subrange(0, i + 1));
        }
        i = i + 1;
    }
    assert(chars@ =~= text@);
    chars
}

/// For each position `x` of the pattern, whether the pattern from `x` on
/// matches the text from `i` on; `below` says the same for the text from
/// `i + 1` on.
fn row_for(pattern: &Vec<char>, text: &Vec<char>, i: usize, below: &Vec<bool>) -> (row: Vec<bool>)
    requires
        i <= text@.len(),
        i < text@.len() ==> below@.len() == pattern@.len() + 1 && forall|x: int|
            0 <= x <= pattern@.len() ==> below@[x] == glob_matches(
                #[trigger] pattern@.skip(x),
                text@.skip(i + 1),
            ),
    ensures
        row@.len() == pattern@.len() + 1,
        forall|x: int|
            0 <= x <= pattern@.len() ==> row@[x] == glob_matches(
                #[trigger] pattern@.skip(x),
                text@.skip(i as int),
            ),
{
    let m = pattern.len();
    let n = text.len();
    let ghost rest = text@.skip(i as int);
    let ghost shorter = text@.skip(i + 1);
    proof {
        if i < n {
            assert(rest.skip(1) =~= shorter);
            assert(rest[0] == text@[i as int]);
        }
    }
    let mut row: Vec<bool> = Vec::new();
    let mut k: usize = 0;
    while k < m
        invariant
            k <= m,
            row@.len() == k,
        decreases m - k,
    {
        row.push(false);
        k = k + 1;
    }
    row.push(i == n);
    proof {
        assert(pattern@.skip(m as int).len() == 0);
    }
    let mut j: usize = m;
    while j > 0
        invariant
            j <= m,
            i <= n,
            m == pattern@.len(),
            n == text@.len(),
            row@.len() == m + 1,
            rest == text@.skip(i as int),
            shorter == text@.skip(i + 1),
            i < n ==> rest.skip(1) == shorter && rest[0] == text@[i as int] && rest.len() > 0,
            i == n ==> rest.len() == 0,
            i < n ==> below@.len() == m + 1 && forall|x: int|
                0 <= x <= m ==> below@[x] == glob_matches(#[trigger] pattern@.skip(x), shorter),
            forall|x: int|
                j <= x <= m ==> row@[x] == glob_matches(#[trigger] pattern@.skip(x), rest),
        decreases j,
    {
        j = j - 1;
        let ghost tail = pattern@.skip(j as int);
        proof {
            assert(tail.len() == m - j);
            assert(tail[0] == pattern@[j as int]);
            assert(tail.skip(1) =~= pattern@.skip(j + 1));
            if j + 2 <= m {
                assert(tail[1] == pattern@[j + 1]);
                assert(tail.skip(2) =~= pattern@.skip(j + 2));
            }
        }
        let c = pattern[j];
        let value = if c == '*' && j + 1 < m && pattern[j + 1] == '*' {
            row[j + 2] || (i < n && below[j])
        } else if c == '*' {
            row[j + 1] || (i < n && text[i] != '/' && below[j])
        } else if c == '?' {
            i < n && text[i] != '/' && below[j + 1]
        } else {
            i < n && text[i] == c && below[j + 1]
        };
        row[j] = value;
    }
    row
}

/// Whether `pattern` matches the whole of `text`. Takes time in the order of
/// the product of the two lengths.
pub fn glob_match(pattern: &Vec<char>, text: &Vec<char>) -> (matched: bool)
    ensures
        matched == glob_matches(pattern@, text@),
{
    let n = text.len();
    let none: Vec<bool> = Vec::new();
    let mut row = row_for(pattern, text, n, &none);
    let mut i: usize = n;
    while i > 0
        invariant
            i <= n,
            n == text@.len(),
            row@.len() == pattern@.len() + 1,
            forall|x: int|
                0 <= x <= pattern@.len() ==> row@[x] == glob_matches(
                    #[trigger] pattern@.skip(x),
                    text@.skip(i as int),
                ),
        decreases i,
    {
        i = i - 1;
        row = row_for(pattern, text, i, &row);
    }
    assert(text@.skip(0) =~= text@);
    assert(pattern@.skip(0) =~= pattern@);
    row[0]
}

/// The last segment of a path: what follows its last `/`.
pub fn last_segment(path: &Vec<char>) -> (name: Vec<char>)
    ensures
        name@ == basename(path@),
{
    let n = path.len();
    let mut start: usize = n;
    while start > 0 && path[start - 1] != '/'
        invariant
            start <= n,
            n == path@.len(),
            forall|x: int| start <= x < n ==> path@[x] != '/',
        decreases start,
    {
        start = start - 1;
    }
    let mut name: Vec<char> = Vec::new();
    let mut i: usize = start;
    proof {
        lemma_basename(path@, start as int);
    }
    while i < n
        invariant
            start <= i <= n,
            n == path@.len(),
            name@ == path@.subrange(start as int, i as int),
        decreases n - i,
    {
        name.push(path[i]);
        proof {
            assert(name@ =~= path@.subrange(start as int, i + 1));
        }
        i = i + 1;
    }
    name
}

proof fn lemma_basename(path: Seq<char>, start: int)
    requires
        0 <= start <= path.len(),
        forall|x: int| start <= x < path.len() ==> path[x] != '/',
        start > 0 ==> path[start - 1] == '/',
    ensures
        basename(path) == path.subrange(start, path.len() as int),
    decreases path.len(),
{
    if path.len() == 0 {
        assert(path.subrange(0, 0) =~= path);
    } else if start == path.len() {
        assert(path.subrange(start, path.len() as int) =~= Seq::<char>::empty());
    } else {
        lemma_basename(path.drop_last(), start);
        assert(path.drop_last().subrange(start, path.len() - 1).push(path.last())
            =~= path.subrange(start, path.len() as int));
    }
}

/// Whether one of `patterns` keeps `path` out.
pub fn is_excluded(patterns: &Vec<String>, path: &str) -> (out: bool)
    ensures
        out == excluded(crate::config::texts(patterns@), path@),
{
    let text = chars_of(path);
    let name = last_segment(&text);
    let ghost models = crate::config::texts(patterns@);
    let mut i: usize = 0;
    while i < patterns.len()
        invariant
            i <= patterns@.len(),
            text@ == path@,
            name@ == basename(path@),
            models == crate::config::texts(patterns@),
            forall|x: int| 0 <= x < i ==> !pattern_excludes(#[trigger] models[x], path@),
        decreases patterns@.len() - i,
    {
        let pattern = chars_of(patterns[i].as_str());
        assert(models[i as int] == pattern@);
        if glob_match(&pattern, &text) {
            return true;
        }
        if !has_slash(&pattern) && glob_match(&pattern, &name) {
            return true;
        }
        i = i + 1;
    }
    false
}

fn has_slash(text: &Vec<char>) -> (found: bool)
    ensures
        found == text@.contains('/'),
{
    let mut i: usize = 0;
    while i < text.len()
        invariant
            i <= text@.len(),
            forall|x: int| 0 <= x < i ==> text@[x] != '/',
        decreases text@.len() - i,
    {
        if text[i] == '/' {
            return true;
        }
        i = i + 1;
    }
    false
}

} // verus!
