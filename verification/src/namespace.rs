use vstd::prelude::*;

use crate::error::ExtractError;

verus! {

/// A word character: ASCII letter, digit or underscore.
pub open spec fn is_word_char(c: char) -> bool {
    ('a' as u32) <= (c as u32) <= ('z' as u32) || ('A' as u32) <= (c as u32) <= ('Z' as u32) || (
    '0' as u32) <= (c as u32) <= ('9' as u32) || c == '_'
}

/// A character the library-name segment may hold: a word character or a dot.
pub open spec fn is_word_dot(c: char) -> bool {
    is_word_char(c) || c == '.'
}

/// One of the module file extensions, `rel`, `dol` or `a`, read at position
/// `p`. Nothing is required after the extension letters.
pub open spec fn ext_at(s: Seq<char>, p: int) -> bool {
    ||| (p + 3 <= s.len() && s[p] == 'r' && s[p + 1] == 'e' && s[p + 2] == 'l')
    ||| (p + 3 <= s.len() && s[p] == 'd' && s[p + 1] == 'o' && s[p + 2] == 'l')
    ||| (p + 1 <= s.len() && s[p] == 'a')
}

/// The library path pattern matches with the slash at `i` and the extension
/// dot at `j`: a non-empty run of word/dot characters stands between them,
/// and one of the known extensions follows the dot.
pub open spec fn match_at(s: Seq<char>, i: int, j: int) -> bool {
    &&& 0 <= i
    &&& i + 1 < j < s.len()
    &&& s[i] == '/'
    &&& (forall|k: int| i < k < j ==> is_word_dot(#[trigger] s[k]))
    &&& s[j] == '.'
    &&& ext_at(s, j + 1)
}

pub open spec fn has_match_at(s: Seq<char>, i: int) -> bool {
    exists|j: int| match_at(s, i, j)
}

pub open spec fn has_match(s: Seq<char>) -> bool {
    exists|i: int| has_match_at(s, i)
}

/// `i` is the leftmost position where the pattern matches.
pub open spec fn is_match_start(s: Seq<char>, i: int) -> bool {
    has_match_at(s, i) && (forall|i2: int| 0 <= i2 < i ==> !has_match_at(s, i2))
}

/// The captured segment runs from the leftmost matching slash to the last
/// extension dot that still matches there: the name run is taken greedily.
pub open spec fn is_capture(s: Seq<char>, i: int, j: int) -> bool {
    is_match_start(s, i) && match_at(s, i, j) && (forall|j2: int| j < j2 ==> !match_at(s, i, j2))
}

/// There is at most one capture.
pub proof fn lemma_capture_unique(s: Seq<char>, i1: int, j1: int, i2: int, j2: int)
    requires
        is_capture(s, i1, j1),
        is_capture(s, i2, j2),
    ensures
        i1 == i2,
        j1 == j2,
{
    if i1 < i2 {
        assert(!has_match_at(s, i1));
        assert(false);
    }
    if i2 < i1 {
        assert(!has_match_at(s, i2));
        assert(false);
    }
    if j1 < j2 {
        assert(!match_at(s, i1, j2));
        assert(false);
    }
    if j2 < j1 {
        assert(!match_at(s, i2, j1));
        assert(false);
    }
}

/// The namespace denoted by a path-like metadata string: the word/dot segment
/// between the leftmost matching `/` and its last matching extension dot,
/// extension stripped; or nothing, when the pattern does not occur.
pub open spec fn namespace_of(s: Seq<char>) -> Option<Seq<char>> {
    if has_match(s) {
        let (i, j) = choose|i: int, j: int| is_capture(s, i, j);
        Some(s.subrange(i + 1, j))
    } else {
        None
    }
}

/// Whether one of the known extensions is read at position `p`.
fn ext_at_exec(s: &str, p: usize, n: usize) -> (r: bool)
    requires
        n == s@.len(),
        p <= n,
    ensures
        r == ext_at(s@, p as int),
{
    if n - p >= 3 {
        let c0 = s.get_char(p);
        let c1 = s.get_char(p + 1);
        let c2 = s.get_char(p + 2);
        if (c0 == 'r' && c1 == 'e' && c2 == 'l') || (c0 == 'd' && c1 == 'o' && c2 == 'l') {
            return true;
        }
        c0 == 'a'
    } else if n - p >= 1 {
        s.get_char(p) == 'a'
    } else {
        false
    }
}

/// Whether `c` may stand in the library-name segment.
fn is_word_dot_exec(c: char) -> (r: bool)
    ensures
        r == is_word_dot(c),
{
    let u = c as u32;
    (('a' as u32) <= u && u <= ('z' as u32)) || (('A' as u32) <= u && u <= ('Z' as u32)) || (('0'
        as u32) <= u && u <= ('9' as u32)) || c == '_' || c == '.'
}

/// Derives the namespace from the module's path-like metadata string: the
/// leftmost occurrence of a path segment of word/dot characters followed by
/// `.rel`, `.dol` or `.a` gives the segment, extension stripped. Fails with
/// `NamespaceUnparsable` when the pattern does not occur.
pub fn derive_namespace(fsrl: &str) -> (r: Result<String, ExtractError>)
    ensures
        r is Ok <==> namespace_of(fsrl@) is Some,
        r is Ok ==> Some(r->Ok_0@) == namespace_of(fsrl@),
        r is Err ==> r->Err_0 == ExtractError::NamespaceUnparsable,
{
    let n = fsrl.unicode_len();
    let mut i: usize = 0;
    while i < n
        invariant
            i <= n,
            n == fsrl@.len(),
            forall|i2: int| 0 <= i2 < i ==> !has_match_at(fsrl@, i2),
        decreases n - i,
    {
        if fsrl.get_char(i) == '/' {
            // the greedy run of word/dot characters after the slash
            let mut j0: usize = i + 1;
            while j0 < n && is_word_dot_exec(fsrl.get_char(j0))
                invariant
                    i + 1 <= j0 <= n,
                    n == fsrl@.len(),
                    forall|k: int| i < k < j0 ==> is_word_dot(#[trigger] fsrl@[k]),
                decreases n - j0,
            {
                j0 = j0 + 1;
            }
            proof {
                // no match at i can reach past the end of the run
                assert forall|j2: int| j0 <= j2 implies !match_at(fsrl@, i as int, j2) by {
                    if j2 < n && j0 < n && match_at(fsrl@, i as int, j2) {
                        if j2 == j0 {
                            assert(fsrl@[j2] == '.');
                            assert(!is_word_dot(fsrl@[j0 as int]));
                        } else {
                            assert(is_word_dot(fsrl@[j0 as int]));
                        }
                    }
                }
            }
            // backtrack: the last dot in the run that an extension follows
            let mut j: usize = j0;
            while j - i > 2
                invariant
                    i + 1 <= j <= j0,
                    j0 <= n,
                    n == fsrl@.len(),
                    forall|k: int| i < k < j0 ==> is_word_dot(#[trigger] fsrl@[k]),
                    forall|j2: int| j <= j2 ==> !match_at(fsrl@, i as int, j2),
                    forall|i2: int| 0 <= i2 < i ==> !has_match_at(fsrl@, i2),
                    fsrl@[i as int] == '/',
                decreases j,
            {
                j = j - 1;
                if fsrl.get_char(j) == '.' && ext_at_exec(fsrl, j + 1, n) {
                    proof {
                        assert(match_at(fsrl@, i as int, j as int));
                        assert(is_capture(fsrl@, i as int, j as int));
                        let (ci, cj) = choose|ci: int, cj: int| is_capture(fsrl@, ci, cj);
                        lemma_capture_unique(fsrl@, i as int, j as int, ci, cj);
                    }
                    let segment = fsrl.substring_char(i + 1, j);
                    return Ok(segment.to_owned());
                }
            }
        }
        proof {
            assert forall|j2: int| !match_at(fsrl@, i as int, j2) by {
                if match_at(fsrl@, i as int, j2) {
                    assert(fsrl@[i as int] == '/');
                }
            }
        }
        i = i + 1;
    }
    proof {
        assert(!has_match(fsrl@)) by {
            if has_match(fsrl@) {
                let i2 = choose|i2: int| has_match_at(fsrl@, i2);
                let j2 = choose|j2: int| match_at(fsrl@, i2, j2);
                assert(0 <= i2 < n);
            }
        }
    }
    Err(ExtractError::NamespaceUnparsable)
}

} // verus!
