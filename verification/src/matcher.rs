//! The matcher: decides whether a single line satisfies a query.
//!
//! A line matches a query when the query occurs in it as a contiguous
//! substring; the empty query is contained in every line. Case-insensitive
//! matching folds both line and query to ASCII lowercase first — a
//! locale-independent transform under which `'A'..='Z'` map to `'a'..='z'`
//! and every other character is unchanged.

use vstd::prelude::*;

verus! {

/// ASCII lowercase of one character: `'A'..='Z'` map to `'a'..='z'`,
/// every other character is unchanged.
pub open spec fn lower_char(c: char) -> char {
    if 'A' <= c && c <= 'Z' {
        ((c as int) + 32) as char
    } else {
        c
    }
}

/// ASCII lowercase applied to each character of a sequence.
pub open spec fn lower_seq(s: Seq<char>) -> Seq<char> {
    s.map_values(|c: char| lower_char(c))
}

/// The query occurs in the line starting at character position `i`.
pub open spec fn contains_at(line: Seq<char>, query: Seq<char>, i: int) -> bool {
    &&& 0 <= i
    &&& i + query.len() <= line.len()
    &&& line.subrange(i, i + query.len()) == query
}

/// The query occurs somewhere in the line as a contiguous substring.
/// A query of length zero is contained in every line.
pub open spec fn contains_query(line: Seq<char>, query: Seq<char>) -> bool {
    exists|i: int| contains_at(line, query, i)
}

/// One line satisfies the query under the chosen case mode.
pub open spec fn line_matches(line: Seq<char>, query: Seq<char>, case_insensitive: bool) -> bool {
    if case_insensitive {
        contains_query(lower_seq(line), lower_seq(query))
    } else {
        contains_query(line, query)
    }
}

/// ASCII lowercase of one character.
fn lower_char_exec(c: char) -> (r: char)
    ensures
        r == lower_char(c),
{
    if 'A' <= c && c <= 'Z' {
        (c as u8 + 32) as char
    } else {
        c
    }
}

/// The characters of a string slice, as a vector.
pub fn chars_of(s: &str) -> (v: Vec<char>)
    ensures
        v@ == s@,
{
    let n = s.unicode_len();
    let mut v: Vec<char> = Vec::new();
    let mut i: usize = 0;
    while i < n
        invariant
            i <= n,
            n == s@.len(),
            v@ == s@.subrange(0, i as int),
        decreases n - i,
    {
        v.push(s.get_char(i));
        proof {
            assert(v@ =~= s@.subrange(0, i + 1 as int));
        }
        i = i + 1;
    }
    proof {
        assert(v@ =~= s@);
    }
    v
}

/// ASCII lowercase of every character of a vector.
pub fn lower_chars(s: &Vec<char>) -> (r: Vec<char>)
    ensures
        r@ == lower_seq(s@),
{
    let n = s.len();
    let mut r: Vec<char> = Vec::new();
    let mut i: usize = 0;
    while i < n
        invariant
            i <= n,
            n == s@.len(),
            r@ == lower_seq(s@.subrange(0, i as int)),
        decreases n - i,
    {
        r.push(lower_char_exec(s[i]));
        proof {
            assert(r@ =~= lower_seq(s@.subrange(0, i + 1 as int)));
        }
        i = i + 1;
    }
    proof {
        assert(r@ =~= lower_seq(s@));
    }
    r
}

/// The query occurs in the line starting at position `i`, checked character
/// by character.
fn occurs_at(line: &Vec<char>, query: &Vec<char>, i: usize) -> (b: bool)
    requires
        i + query@.len() <= line@.len(),
    ensures
        b == contains_at(line@, query@, i as int),
{
    let n = line.len();
    let m = query.len();
    let mut j: usize = 0;
    while j < m
        invariant
            j <= m,
            m == query@.len(),
            n == line@.len(),
            i + m <= n,
            line@.subrange(i as int, i + j) == query@.subrange(0, j as int),
        decreases m - j,
    {
        if line[i + j] != query[j] {
            proof {
                assert(line@.subrange(i as int, i + m)[j as int] != query@[j as int]);
            }
            return false;
        }
        proof {
            assert(line@.subrange(i as int, i + j + 1) =~= query@.subrange(0, j + 1 as int));
        }
        j = j + 1;
    }
    proof {
        assert(line@.subrange(i as int, i + m) =~= query@);
    }
    true
}

/// The query occurs somewhere in the line as a contiguous substring.
pub fn contains_chars(line: &Vec<char>, query: &Vec<char>) -> (b: bool)
    ensures
        b == contains_query(line@, query@),
{
    let n = line.len();
    let m = query.len();
    if m > n {
        proof {
            assert(forall|i: int| !contains_at(line@, query@, i));
        }
        return false;
    }
    if m == 0 {
        proof {
            assert(line@.subrange(0, 0) =~= query@);
            assert(contains_at(line@, query@, 0));
        }
        return true;
    }
    let mut i: usize = 0;
    while i <= n - m
        invariant
            0 < m <= n,
            n == line@.len(),
            m == query@.len(),
            i <= n - m + 1,
            forall|k: int| 0 <= k < i ==> !contains_at(line@, query@, k),
        decreases n - i,
    {
        if occurs_at(line, query, i) {
            return true;
        }
        i = i + 1;
    }
    proof {
        assert(forall|k: int| !contains_at(line@, query@, k));
    }
    false
}

/// One line satisfies the query under the chosen case mode.
pub fn match_line(line: &str, query: &str, case_insensitive: bool) -> (b: bool)
    ensures
        b == line_matches(line@, query@, case_insensitive),
{
    let line_chars = chars_of(line);
    let query_chars = chars_of(query);
    if case_insensitive {
        let lowered_line = lower_chars(&line_chars);
        let lowered_query = lower_chars(&query_chars);
        contains_chars(&lowered_line, &lowered_query)
    } else {
        contains_chars(&line_chars, &query_chars)
    }
}

} // verus!
