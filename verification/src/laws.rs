//! Laws of the scanner, stated and proved over the specification model.

use vstd::prelude::*;

use crate::matcher::line_matches;
use crate::matcher::lower_char;
use crate::matcher::lower_seq;
use crate::scanner::lemma_raw_lines_nonempty;
use crate::scanner::line_selected;
use crate::scanner::raw_lines;
use crate::scanner::scan_lines;
use crate::scanner::spec_lines;
use crate::scanner::spec_scan;
use crate::scanner::strip_cr;

verus! {

/// Line number `k` appears among the reported results.
pub open spec fn has_line(res: Seq<(int, Seq<char>)>, k: int) -> bool {
    exists|j: int| 0 <= j < res.len() && res[j].0 == k
}

/// Scanning a sequence of lines reports exactly the selected ones: every
/// entry carries a selected line of the input under its own 1-based number,
/// every selected line is reported, and line numbers strictly increase.
pub proof fn lemma_scan_lines_exact(
    ls: Seq<Seq<char>>,
    query: Seq<char>,
    case_insensitive: bool,
    invert: bool,
)
    ensures
        forall|j: int|
            0 <= j < scan_lines(ls, query, case_insensitive, invert).len() ==> {
                let p = #[trigger] scan_lines(ls, query, case_insensitive, invert)[j];
                1 <= p.0 <= ls.len() && p.1 == ls[p.0 - 1] && line_selected(
                    p.1,
                    query,
                    case_insensitive,
                    invert,
                )
            },
        forall|k: int|
            1 <= k <= ls.len() && #[trigger] line_selected(
                ls[k - 1],
                query,
                case_insensitive,
                invert,
            ) ==> scan_lines(ls, query, case_insensitive, invert).contains((k, ls[k - 1])),
        forall|j1: int, j2: int|
            0 <= j1 < j2 < scan_lines(ls, query, case_insensitive, invert).len() ==> scan_lines(
                ls,
                query,
                case_insensitive,
                invert,
            )[j1].0 < scan_lines(ls, query, case_insensitive, invert)[j2].0,
    decreases ls.len(),
{
    if ls.len() > 0 {
        lemma_scan_lines_exact(ls.drop_last(), query, case_insensitive, invert);
        let prefix = scan_lines(ls.drop_last(), query, case_insensitive, invert);
        let res = scan_lines(ls, query, case_insensitive, invert);
        assert(forall|i: int| 0 <= i < ls.len() - 1 ==> ls.drop_last()[i] == ls[i]);
        assert forall|k: int|
            1 <= k <= ls.len() && #[trigger] line_selected(
                ls[k - 1],
                query,
                case_insensitive,
                invert,
            ) implies res.contains((k, ls[k - 1])) by {
            if k <= ls.len() - 1 {
                assert(prefix.contains((k, ls.drop_last()[k - 1])));
                let j = choose|j: int| 0 <= j < prefix.len() && prefix[j] == (k, ls[k - 1]);
                assert(res[j] == (k, ls[k - 1]));
            } else {
                if line_selected(ls.last(), query, case_insensitive, invert) {
                    assert(res[res.len() - 1] == (k, ls[k - 1]));
                }
            }
        }
    }
}

/// A scan reports exactly the selected lines of the content: every result
/// is a line of the content under its own 1-based number and is selected
/// under the mode flags, every selected line appears, and line numbers
/// strictly increase (so no line is duplicated or reordered).
pub proof fn lemma_scan_exact(
    content: Seq<char>,
    query: Seq<char>,
    case_insensitive: bool,
    invert: bool,
)
    ensures
        forall|j: int|
            0 <= j < spec_scan(content, query, case_insensitive, invert).len() ==> {
                let p = #[trigger] spec_scan(content, query, case_insensitive, invert)[j];
                1 <= p.0 <= spec_lines(content).len() && p.1 == spec_lines(content)[p.0 - 1]
                    && line_selected(p.1, query, case_insensitive, invert)
            },
        forall|k: int|
            1 <= k <= spec_lines(content).len() && #[trigger] line_selected(
                spec_lines(content)[k - 1],
                query,
                case_insensitive,
                invert,
            ) ==> spec_scan(content, query, case_insensitive, invert).contains(
                (k, spec_lines(content)[k - 1]),
            ),
        forall|j1: int, j2: int|
            0 <= j1 < j2 < spec_scan(content, query, case_insensitive, invert).len()
                ==> spec_scan(content, query, case_insensitive, invert)[j1].0 < spec_scan(
                content,
                query,
                case_insensitive,
                invert,
            )[j2].0,
{
    lemma_scan_lines_exact(spec_lines(content), query, case_insensitive, invert);
}

/// Together, a normal scan and an inverted scan of the same input report
/// each line exactly once.
proof fn lemma_scan_lines_partition_len(
    ls: Seq<Seq<char>>,
    query: Seq<char>,
    case_insensitive: bool,
)
    ensures
        scan_lines(ls, query, case_insensitive, false).len() + scan_lines(
            ls,
            query,
            case_insensitive,
            true,
        ).len() == ls.len(),
    decreases ls.len(),
{
    if ls.len() > 0 {
        lemma_scan_lines_partition_len(ls.drop_last(), query, case_insensitive);
    }
}

/// A scan and its inversion partition the lines of the content: their
/// lengths sum to the number of lines, and each line number is reported by
/// exactly one of the two.
pub proof fn lemma_invert_partition(content: Seq<char>, query: Seq<char>, case_insensitive: bool)
    ensures
        spec_scan(content, query, case_insensitive, false).len() + spec_scan(
            content,
            query,
            case_insensitive,
            true,
        ).len() == spec_lines(content).len(),
        forall|k: int|
            1 <= k <= spec_lines(content).len() ==> (has_line(
                spec_scan(content, query, case_insensitive, false),
                k,
            ) <==> !has_line(spec_scan(content, query, case_insensitive, true), k)),
{
    let ls = spec_lines(content);
    let normal = spec_scan(content, query, case_insensitive, false);
    let inverted = spec_scan(content, query, case_insensitive, true);
    lemma_scan_lines_partition_len(ls, query, case_insensitive);
    lemma_scan_lines_exact(ls, query, case_insensitive, false);
    lemma_scan_lines_exact(ls, query, case_insensitive, true);
    assert forall|k: int|
        1 <= k <= ls.len() implies (has_line(normal, k) <==> !has_line(inverted, k)) by {
        if line_matches(ls[k - 1], query, case_insensitive) {
            assert(line_selected(ls[k - 1], query, case_insensitive, false));
            assert(normal.contains((k, ls[k - 1])));
            let j = choose|j: int| 0 <= j < normal.len() && normal[j] == (k, ls[k - 1]);
            assert(has_line(normal, k));
            assert(!has_line(inverted, k));
        } else {
            assert(line_selected(ls[k - 1], query, case_insensitive, true));
            assert(inverted.contains((k, ls[k - 1])));
            let j = choose|j: int| 0 <= j < inverted.len() && inverted[j] == (k, ls[k - 1]);
            assert(has_line(inverted, k));
            assert(!has_line(normal, k));
        }
    }
}

/// ASCII lowercasing never introduces or removes a line feed or a carriage
/// return.
proof fn lemma_lower_char_controls(c: char)
    ensures
        (lower_char(c) == '\n') == (c == '\n'),
        (lower_char(c) == '\r') == (c == '\r'),
{
    if 'A' <= c && c <= 'Z' {
        assert(lower_char(c) != '\n' && lower_char(c) != '\r');
    }
}

/// Lowercasing commutes with splitting into raw segments.
proof fn lemma_raw_lines_lower(c: Seq<char>)
    ensures
        raw_lines(lower_seq(c)) == raw_lines(c).map_values(|l: Seq<char>| lower_seq(l)),
    decreases c.len(),
{
    let lc = lower_seq(c);
    let ml = raw_lines(c).map_values(|l: Seq<char>| lower_seq(l));
    if c.len() == 0 {
        assert(lc =~= Seq::<char>::empty());
        assert(raw_lines(lc) =~~= ml);
    } else {
        lemma_lower_char_controls(c[0]);
        assert(lc[0] == lower_char(c[0]));
        assert(lc.drop_first() =~= lower_seq(c.drop_first()));
        lemma_raw_lines_lower(c.drop_first());
        if c[0] == '\n' {
            assert(raw_lines(lc) =~~= ml);
        } else {
            let rest = raw_lines(c.drop_first());
            let lrest = raw_lines(lc.drop_first());
            assert(lrest == rest.map_values(|l: Seq<char>| lower_seq(l)));
            if rest.len() == 0 {
                assert(seq![lc[0]] =~= lower_seq(seq![c[0]]));
                assert(raw_lines(lc) =~~= ml);
            } else {
                assert(lrest[0] == lower_seq(rest[0]));
                assert(seq![lc[0]] + lrest[0] =~= lower_seq(seq![c[0]] + rest[0]));
                assert(raw_lines(lc) =~~= ml);
            }
        }
    }
}

/// Lowercasing commutes with stripping a trailing carriage return.
proof fn lemma_strip_cr_lower(l: Seq<char>)
    ensures
        strip_cr(lower_seq(l)) == lower_seq(strip_cr(l)),
{
    if l.len() > 0 {
        lemma_lower_char_controls(l.last());
        assert(lower_seq(l).last() == lower_char(l.last()));
        if l.last() == '\r' {
            assert(lower_seq(l).drop_last() =~= lower_seq(l.drop_last()));
        }
    }
}

/// Lowercasing commutes with splitting into logical lines.
proof fn lemma_spec_lines_lower(c: Seq<char>)
    ensures
        spec_lines(lower_seq(c)) == spec_lines(c).map_values(|l: Seq<char>| lower_seq(l)),
{
    lemma_raw_lines_lower(c);
    assert forall|j: int| 0 <= j < raw_lines(c).len() implies strip_cr(
        lower_seq(#[trigger] raw_lines(c)[j]),
    ) == lower_seq(strip_cr(raw_lines(c)[j])) by {
        lemma_strip_cr_lower(raw_lines(c)[j]);
    }
    assert(spec_lines(lower_seq(c)) =~~= spec_lines(c).map_values(|l: Seq<char>| lower_seq(l)));
}

/// Scanning lowercased lines case-sensitively selects the same line numbers
/// as scanning the originals case-insensitively.
proof fn lemma_scan_lines_fold(ls: Seq<Seq<char>>, query: Seq<char>, invert: bool)
    ensures
        scan_lines(
            ls.map_values(|l: Seq<char>| lower_seq(l)),
            lower_seq(query),
            false,
            invert,
        ).len() == scan_lines(ls, query, true, invert).len(),
        forall|j: int|
            0 <= j < scan_lines(ls, query, true, invert).len() ==> {
                let a = #[trigger] scan_lines(ls, query, true, invert)[j];
                let b = scan_lines(
                    ls.map_values(|l: Seq<char>| lower_seq(l)),
                    lower_seq(query),
                    false,
                    invert,
                )[j];
                b.0 == a.0 && b.1 == lower_seq(a.1)
            },
    decreases ls.len(),
{
    let mls = ls.map_values(|l: Seq<char>| lower_seq(l));
    if ls.len() > 0 {
        lemma_scan_lines_fold(ls.drop_last(), query, invert);
        assert(ls.drop_last().map_values(|l: Seq<char>| lower_seq(l)) =~~= mls.drop_last());
        assert(mls.last() == lower_seq(ls.last()));
        assert(line_selected(mls.last(), lower_seq(query), false, invert) == line_selected(
            ls.last(),
            query,
            true,
            invert,
        ));
    }
}

/// Scanning case-insensitively equals scanning the lowercased content for
/// the lowercased query case-sensitively: the same line numbers come back
/// in the same order, and the lowercased scan's line contents are exactly
/// the lowercased originals (the case-insensitive scan keeps original
/// case).
pub proof fn lemma_case_fold(content: Seq<char>, query: Seq<char>, invert: bool)
    ensures
        spec_scan(lower_seq(content), lower_seq(query), false, invert).len() == spec_scan(
            content,
            query,
            true,
            invert,
        ).len(),
        forall|j: int|
            0 <= j < spec_scan(content, query, true, invert).len() ==> {
                let a = #[trigger] spec_scan(content, query, true, invert)[j];
                let b = spec_scan(lower_seq(content), lower_seq(query), false, invert)[j];
                b.0 == a.0 && b.1 == lower_seq(a.1)
            },
{
    lemma_spec_lines_lower(content);
    lemma_scan_lines_fold(spec_lines(content), query, invert);
}

/// The content re-encoded with carriage return and line feed pairs in place
/// of bare line feeds.
pub open spec fn crlf_of(content: Seq<char>) -> Seq<char>
    decreases content.len(),
{
    if content.len() == 0 {
        Seq::empty()
    } else if content[0] == '\n' {
        seq!['\r', '\n'] + crlf_of(content.drop_first())
    } else {
        seq![content[0]] + crlf_of(content.drop_first())
    }
}

/// For carriage-return-free content, its raw segments need no stripping,
/// and the CRLF re-encoding has the same logical lines.
proof fn lemma_crlf_raw_lines(c: Seq<char>)
    requires
        forall|k: int| 0 <= k < c.len() ==> c[k] != '\r',
    ensures
        forall|j: int|
            0 <= j < raw_lines(c).len() ==> strip_cr(#[trigger] raw_lines(c)[j]) == raw_lines(
                c,
            )[j],
        raw_lines(crlf_of(c)).map_values(|l: Seq<char>| strip_cr(l)) == raw_lines(c),
    decreases c.len(),
{
    let r = raw_lines(c);
    let s = raw_lines(crlf_of(c));
    if c.len() == 0 {
        assert(s.map_values(|l: Seq<char>| strip_cr(l)) =~~= r);
    } else {
        assert(forall|k: int| 0 <= k < c.drop_first().len() ==> c.drop_first()[k] != '\r');
        lemma_crlf_raw_lines(c.drop_first());
        let rrest = raw_lines(c.drop_first());
        let srest = raw_lines(crlf_of(c.drop_first()));
        if c[0] == '\n' {
            assert(crlf_of(c).drop_first() =~= seq!['\n'] + crlf_of(c.drop_first()));
            assert((seq!['\n'] + crlf_of(c.drop_first())).drop_first() =~= crlf_of(
                c.drop_first(),
            ));
            assert(raw_lines(seq!['\n'] + crlf_of(c.drop_first())) =~~= seq![
                Seq::<char>::empty(),
            ] + srest);
            assert(s =~~= seq![seq!['\r']] + srest);
            assert(strip_cr(seq!['\r']) =~= Seq::<char>::empty());
            assert(s.map_values(|l: Seq<char>| strip_cr(l)) =~~= r);
        } else {
            assert(crlf_of(c).drop_first() =~= crlf_of(c.drop_first()));
            if c.drop_first().len() == 0 {
                assert(rrest =~~= Seq::<Seq<char>>::empty());
                assert(crlf_of(c.drop_first()) =~= Seq::<char>::empty());
                assert(srest =~~= Seq::<Seq<char>>::empty());
                assert(r =~~= seq![seq![c[0]]]);
                assert(s =~~= seq![seq![c[0]]]);
                assert(strip_cr(seq![c[0]]) =~= seq![c[0]]);
                assert(s.map_values(|l: Seq<char>| strip_cr(l)) =~~= r);
            } else {
                lemma_raw_lines_nonempty(c.drop_first());
                lemma_crlf_nonempty(c.drop_first());
                lemma_raw_lines_nonempty(crlf_of(c.drop_first()));
                assert(srest.map_values(|l: Seq<char>| strip_cr(l)) == rrest);
                assert(strip_cr(srest[0]) == rrest[0]);
                assert(r =~~= seq![seq![c[0]] + rrest[0]] + rrest.drop_first());
                assert(s =~~= seq![seq![c[0]] + srest[0]] + srest.drop_first());
                lemma_strip_cr_prepend(c[0], srest[0], rrest[0]);
                assert forall|j: int|
                    0 <= j < s.len() implies strip_cr(#[trigger] s[j]) == r[j] by {
                    if j > 0 {
                        assert(s[j] == srest[j]);
                        assert(strip_cr(srest[j]) == rrest[j]);
                        assert(r[j] == rrest[j]);
                    }
                }
                assert(s.map_values(|l: Seq<char>| strip_cr(l)) =~~= r);
                assert forall|j: int|
                    0 <= j < r.len() implies strip_cr(#[trigger] r[j]) == r[j] by {
                    if j == 0 {
                        lemma_strip_cr_id_prepend(c[0], rrest[0]);
                    } else {
                        assert(r[j] == rrest[j]);
                    }
                }
            }
        }
    }
}

/// A trailing carriage return survives a prepended character: stripping the
/// extended segment extends the stripped one.
proof fn lemma_strip_cr_prepend(x: char, s0: Seq<char>, r0: Seq<char>)
    requires
        x != '\r',
        strip_cr(s0) == r0,
    ensures
        strip_cr(seq![x] + s0) == seq![x] + r0,
{
    if s0.len() > 0 {
        assert((seq![x] + s0).last() == s0.last());
        if s0.last() == '\r' {
            assert((seq![x] + s0).drop_last() =~= seq![x] + s0.drop_last());
        }
    } else {
        assert(seq![x] + s0 =~= seq![x]);
        assert(strip_cr(seq![x]) =~= seq![x]);
        assert(seq![x] + r0 =~= seq![x]);
    }
}

/// Prepending to a segment that needs no stripping keeps it so.
proof fn lemma_strip_cr_id_prepend(x: char, r0: Seq<char>)
    requires
        x != '\r',
        strip_cr(r0) == r0,
    ensures
        strip_cr(seq![x] + r0) == seq![x] + r0,
{
    lemma_strip_cr_prepend(x, r0, r0);
}

/// The CRLF re-encoding of non-empty content is non-empty.
proof fn lemma_crlf_nonempty(c: Seq<char>)
    requires
        c.len() > 0,
    ensures
        crlf_of(c).len() > 0,
{
}

/// LF- and CRLF-terminated encodings of the same logical lines scan to the
/// very same results, under every query and mode.
pub proof fn lemma_crlf_lf_agree(
    content: Seq<char>,
    query: Seq<char>,
    case_insensitive: bool,
    invert: bool,
)
    requires
        forall|k: int| 0 <= k < content.len() ==> content[k] != '\r',
    ensures
        spec_scan(crlf_of(content), query, case_insensitive, invert) == spec_scan(
            content,
            query,
            case_insensitive,
            invert,
        ),
{
    lemma_crlf_raw_lines(content);
    assert(spec_lines(content) =~~= raw_lines(content));
    assert(spec_lines(crlf_of(content)) =~~= raw_lines(content));
}

/// Empty content yields an empty result for every query and every mode.
pub proof fn lemma_empty_content(query: Seq<char>, case_insensitive: bool, invert: bool)
    ensures
        spec_scan(Seq::<char>::empty(), query, case_insensitive, invert) == Seq::<(
            int,
            Seq<char>,
        )>::empty(),
{
    assert(raw_lines(Seq::<char>::empty()) =~= Seq::<Seq<char>>::empty());
    assert(spec_lines(Seq::<char>::empty()) =~= Seq::<Seq<char>>::empty());
    assert(spec_scan(Seq::<char>::empty(), query, case_insensitive, invert) =~= Seq::<(
        int,
        Seq<char>,
    )>::empty());
}

} // verus!
