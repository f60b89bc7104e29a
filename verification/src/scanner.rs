//! The scanner: walks a text buffer line by line and collects the lines the
//! matcher selects, with their 1-based line numbers, in document order.
//!
//! Lines are split at line feeds; one trailing carriage return is stripped
//! from each line, so inputs with LF and CRLF endings yield the same line
//! contents. A final unterminated line is kept; empty content has no lines.

use vstd::prelude::*;

use crate::matcher::line_matches;
use crate::matcher::match_line;

verus! {

/// A line with one trailing carriage return removed; other lines unchanged.
pub open spec fn strip_cr(line: Seq<char>) -> Seq<char> {
    if line.len() > 0 && line.last() == '\r' {
        line.drop_last()
    } else {
        line
    }
}

/// The segments of the content between line feeds, before carriage-return
/// stripping. A final segment without a terminating line feed is kept;
/// empty content has no segments.
pub open spec fn raw_lines(content: Seq<char>) -> Seq<Seq<char>>
    decreases content.len(),
{
    if content.len() == 0 {
        Seq::empty()
    } else if content[0] == '\n' {
        seq![Seq::<char>::empty()] + raw_lines(content.drop_first())
    } else {
        let rest = raw_lines(content.drop_first());
        if rest.len() == 0 {
            seq![seq![content[0]]]
        } else {
            seq![seq![content[0]] + rest[0]] + rest.drop_first()
        }
    }
}

/// The logical lines of the content: the raw segments, each with one
/// trailing carriage return removed.
pub open spec fn spec_lines(content: Seq<char>) -> Seq<Seq<char>> {
    raw_lines(content).map_values(|l: Seq<char>| strip_cr(l))
}

/// A line is reported: in normal mode the lines that match, in inverted
/// mode the lines that do not.
pub open spec fn line_selected(
    line: Seq<char>,
    query: Seq<char>,
    case_insensitive: bool,
    invert: bool,
) -> bool {
    line_matches(line, query, case_insensitive) != invert
}

/// The reported (line number, line content) pairs over a sequence of lines,
/// numbered from 1 in order.
pub open spec fn scan_lines(
    ls: Seq<Seq<char>>,
    query: Seq<char>,
    case_insensitive: bool,
    invert: bool,
) -> Seq<(int, Seq<char>)>
    decreases ls.len(),
{
    if ls.len() == 0 {
        Seq::empty()
    } else {
        let prefix = scan_lines(ls.drop_last(), query, case_insensitive, invert);
        if line_selected(ls.last(), query, case_insensitive, invert) {
            prefix.push((ls.len() as int, ls.last()))
        } else {
            prefix
        }
    }
}

/// The full scan of a text buffer: its lines, scanned in order.
pub open spec fn spec_scan(
    content: Seq<char>,
    query: Seq<char>,
    case_insensitive: bool,
    invert: bool,
) -> Seq<(int, Seq<char>)> {
    scan_lines(spec_lines(content), query, case_insensitive, invert)
}

/// One reported line: its content and its 1-based line number.
#[derive(Debug, PartialEq)]
pub struct SearchResult {
    pub line_content: String,
    pub line_number: usize,
}

impl View for SearchResult {
    type V = (int, Seq<char>);

    open spec fn view(&self) -> (int, Seq<char>) {
        (self.line_number as int, self.line_content@)
    }
}

/// The results as (line number, line content) pairs.
pub open spec fn results_view(rs: Seq<SearchResult>) -> Seq<(int, Seq<char>)> {
    rs.map_values(|r: SearchResult| r@)
}

impl SearchResult {
    /// A result carrying one line's content and number.
    pub fn new(line_content: &str, line_number: usize) -> (r: SearchResult)
        ensures
            r@ == (line_number as int, line_content@),
    {
        SearchResult { line_content: line_content.to_owned(), line_number }
    }
}

/// `raw_lines` of a line-feed-free, non-empty sequence is that one segment.
proof fn lemma_raw_lines_single(u: Seq<char>)
    requires
        u.len() > 0,
        forall|k: int| 0 <= k < u.len() ==> u[k] != '\n',
    ensures
        raw_lines(u) == seq![u],
    decreases u.len(),
{
    if u.len() == 1 {
        assert(raw_lines(u.drop_first()) == Seq::<Seq<char>>::empty());
        assert(seq![u[0]] =~= u);
        assert(raw_lines(u) =~= seq![u]);
    } else {
        lemma_raw_lines_single(u.drop_first());
        assert(seq![u[0]] + u.drop_first() =~= u);
        assert(raw_lines(u) =~= seq![u]);
    }
}

/// `raw_lines` of a line-feed-free segment followed by one line feed is
/// that one segment.
proof fn lemma_raw_lines_terminated(u: Seq<char>)
    requires
        forall|k: int| 0 <= k < u.len() ==> u[k] != '\n',
    ensures
        raw_lines(u + seq!['\n']) == seq![u],
    decreases u.len(),
{
    let s = u + seq!['\n'];
    if u.len() == 0 {
        assert(s =~= seq!['\n']);
        assert(s.drop_first() =~= Seq::<char>::empty());
        assert(raw_lines(Seq::<char>::empty()) =~= Seq::<Seq<char>>::empty());
        assert(raw_lines(s) =~~= seq![u]);
    } else {
        lemma_raw_lines_terminated(u.drop_first());
        assert(s.drop_first() =~= u.drop_first() + seq!['\n']);
        let rest = raw_lines(s.drop_first());
        assert(rest == seq![u.drop_first()]);
        assert(seq![s[0]] + rest[0] =~= u);
        assert(raw_lines(s) =~= seq![u]);
    }
}

/// `raw_lines` splits around a prefix that is empty or ends in a line feed.
proof fn lemma_raw_lines_split(s: Seq<char>, t: Seq<char>)
    requires
        s.len() == 0 || s.last() == '\n',
    ensures
        raw_lines(s + t) == raw_lines(s) + raw_lines(t),
    decreases s.len(),
{
    if s.len() == 0 {
        assert(s + t =~= t);
        assert(raw_lines(s) + raw_lines(t) =~= raw_lines(t));
    } else if s[0] == '\n' {
        if s.len() == 1 {
            assert(s.drop_first() =~= Seq::<char>::empty());
            assert((s + t).drop_first() =~= t);
            assert(raw_lines(Seq::<char>::empty()) =~= Seq::<Seq<char>>::empty());
            assert(raw_lines(s) =~~= seq![Seq::<char>::empty()]);
            assert(raw_lines(s + t) =~= raw_lines(s) + raw_lines(t));
        } else {
            lemma_raw_lines_split(s.drop_first(), t);
            assert((s + t).drop_first() =~= s.drop_first() + t);
            assert(raw_lines(s + t) =~= raw_lines(s) + raw_lines(t));
        }
    } else {
        // s starts with a non-line-feed character, so it has at least two
        // characters and its tail still ends in a line feed.
        lemma_raw_lines_split(s.drop_first(), t);
        assert((s + t).drop_first() =~= s.drop_first() + t);
        let rest_s = raw_lines(s.drop_first());
        let rest_st = raw_lines(s.drop_first() + t);
        assert(rest_st == rest_s + raw_lines(t));
        lemma_raw_lines_nonempty(s.drop_first());
        assert(rest_s.len() > 0);
        assert(rest_st[0] == rest_s[0]);
        assert(seq![seq![s[0]] + rest_st[0]] + rest_st.drop_first() =~= (seq![seq![s[0]]
            + rest_s[0]] + rest_s.drop_first()) + raw_lines(t));
        assert(raw_lines(s + t) =~= raw_lines(s) + raw_lines(t));
    }
}

/// Non-empty content has at least one raw segment.
pub(crate) proof fn lemma_raw_lines_nonempty(s: Seq<char>)
    requires
        s.len() > 0,
    ensures
        raw_lines(s).len() > 0,
    decreases s.len(),
{
    if s[0] != '\n' && s.len() > 1 {
        lemma_raw_lines_nonempty(s.drop_first());
    }
}

/// A string slice of a line's span, with one trailing carriage return
/// dropped, owned.
fn extract_line(content: &str, start: usize, end: usize) -> (r: String)
    requires
        start <= end <= content@.len(),
    ensures
        r@ == strip_cr(content@.subrange(start as int, end as int)),
{
    let ghost seg = content@.subrange(start as int, end as int);
    let cut = if end > start && content.get_char(end - 1) == '\r' {
        end - 1
    } else {
        end
    };
    proof {
        assert(content@.subrange(start as int, cut as int) =~= strip_cr(seg));
    }
    let piece = content.substring_char(start, cut);
    piece.to_owned()
}

/// The logical lines of a text buffer, in order, owned.
pub fn split_lines(content: &str) -> (ls: Vec<String>)
    ensures
        ls@.map_values(|s: String| s@) == spec_lines(content@),
{
    let n = content.unicode_len();
    let mut ls: Vec<String> = Vec::new();
    let mut line_start: usize = 0;
    let mut i: usize = 0;
    while i < n
        invariant
            line_start <= i <= n,
            n == content@.len(),
            line_start == 0 || content@[line_start - 1] == '\n',
            forall|k: int| line_start <= k < i ==> content@[k] != '\n',
            ls@.map_values(|s: String| s@) == spec_lines(
                content@.subrange(0, line_start as int),
            ),
        decreases n - i,
    {
        let c = content.get_char(i);
        if c == '\n' {
            let line = extract_line(content, line_start, i);
            proof {
                let done = content@.subrange(0, line_start as int);
                let u = content@.subrange(line_start as int, i as int);
                let done2 = content@.subrange(0, i + 1 as int);
                assert(done2 =~= done + (u + seq!['\n']));
                lemma_raw_lines_split(done, u + seq!['\n']);
                lemma_raw_lines_terminated(u);
                assert(spec_lines(done2) =~= spec_lines(done).push(strip_cr(u)));
                assert(ls@.push(line).map_values(|s: String| s@) =~= ls@.map_values(
                    |s: String| s@,
                ).push(line@));
            }
            ls.push(line);
            line_start = i + 1;
        }
        i = i + 1;
    }
    if line_start < n {
        let line = extract_line(content, line_start, n);
        proof {
            let done = content@.subrange(0, line_start as int);
            let u = content@.subrange(line_start as int, n as int);
            assert(content@ =~= done + u);
            lemma_raw_lines_split(done, u);
            lemma_raw_lines_single(u);
            assert(spec_lines(content@) =~= spec_lines(done).push(strip_cr(u)));
            assert(ls@.push(line).map_values(|s: String| s@) =~= ls@.map_values(
                |s: String| s@,
            ).push(line@));
        }
        ls.push(line);
    } else {
        proof {
            assert(content@.subrange(0, line_start as int) =~= content@);
        }
    }
    ls
}

/// The scan: the lines of `content` that the matcher selects under the two
/// mode flags, with 1-based line numbers, in document order.
pub fn scan(content: &str, query: &str, case_insensitive: bool, invert: bool) -> (r: Vec<
    SearchResult,
>)
    ensures
        results_view(r@) == spec_scan(content@, query@, case_insensitive, invert),
{
    let ls = split_lines(content);
    let ghost lsv = ls@.map_values(|s: String| s@);
    let mut r: Vec<SearchResult> = Vec::new();
    let mut i: usize = 0;
    while i < ls.len()
        invariant
            i <= ls@.len(),
            lsv == ls@.map_values(|s: String| s@),
            lsv == spec_lines(content@),
            results_view(r@) == scan_lines(lsv.take(i as int), query@, case_insensitive, invert),
        decreases ls@.len() - i,
    {
        proof {
            assert(lsv.take(i + 1 as int).drop_last() =~= lsv.take(i as int));
            assert(lsv.take(i + 1 as int).last() == lsv[i as int]);
        }
        let line: &String = &ls[i];
        let included = match_line(line.as_str(), query, case_insensitive) != invert;
        if included {
            let res = SearchResult::new(line.as_str(), i + 1);
            proof {
                assert(r@.push(res).map_values(|x: SearchResult| x@) =~= results_view(r@).push(
                    res@,
                ));
            }
            r.push(res);
        }
        i = i + 1;
    }
    proof {
        assert(lsv.take(ls@.len() as int) =~= lsv);
    }
    r
}

/// The lines of `content` that contain `query` as a substring,
/// case-sensitively, in document order with 1-based line numbers.
pub fn search(content: &str, query: &str) -> (r: Vec<SearchResult>)
    ensures
        results_view(r@) == spec_scan(content@, query@, false, false),
{
    scan(content, query, false, false)
}

/// The lines of `content` that contain `query` as a substring after both
/// are folded to ASCII lowercase; contents are reported in original case.
pub fn search_insensitive(content: &str, query: &str) -> (r: Vec<SearchResult>)
    ensures
        results_view(r@) == spec_scan(content@, query@, true, false),
{
    scan(content, query, true, false)
}

/// The lines of `content` that do not contain `query` as a substring,
/// case-sensitively.
pub fn search_inverted(content: &str, query: &str) -> (r: Vec<SearchResult>)
    ensures
        results_view(r@) == spec_scan(content@, query@, false, true),
{
    scan(content, query, false, true)
}

/// The lines of `content` that do not contain `query` as a substring after
/// both are folded to ASCII lowercase.
pub fn search_inverted_insensitive(content: &str, query: &str) -> (r: Vec<SearchResult>)
    ensures
        results_view(r@) == spec_scan(content@, query@, true, true),
{
    scan(content, query, true, true)
}

} // verus!
