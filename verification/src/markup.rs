//! Lesson prose as it is drawn: the two bits of inline markup it uses, the rules between
//! story and code, and how many rows a text takes once wrapped.
use vstd::prelude::*;
use crate::text::{
    append_chars, chars_of, find_char_from, is_alnum, is_ascii_alphanumeric, is_ws,
    lemma_find_char_from, lines, lines_exec, slice_of, string_of, trim, trim_exec, views, words,
    words_exec, words_from, lines_from, strip_cr, lemma_lines_append, lemma_lines_one,
    lemma_lines_run,
};

verus! {

// ───────────────────────────── inline markup ─────────────────────────────

/// How a run of text is drawn: as it is, in italics (`_italics_`) or as code (`` `code` ``).
#[derive(PartialEq, Eq, Structural, Clone, Copy, Debug)]
pub enum RunStyle {
    Plain,
    Italic,
    Code,
}

/// A run of text drawn in one style.
pub struct Run {
    pub text: String,
    pub style: RunStyle,
}

pub open spec fn is_marker(c: char) -> bool {
    c == '_' || c == '`'
}

/// The first index at or after `i` that holds a marker.
pub open spec fn marker_from(s: Seq<char>, i: int) -> Option<int>
    decreases s.len() - i,
{
    if i < 0 || i >= s.len() {
        None
    } else if is_marker(s[i]) {
        Some(i)
    } else {
        marker_from(s, i + 1)
    }
}

pub proof fn lemma_marker_from(s: Seq<char>, i: int)
    requires
        0 <= i,
    ensures
        marker_from(s, i) matches Some(k) ==> i <= k < s.len() && is_marker(s[k]) && forall|
            j: int,
        |
            i <= j < k ==> !is_marker(s[j]),
        marker_from(s, i) is None ==> forall|j: int| i <= j < s.len() ==> !is_marker(s[j]),
    decreases s.len() - i,
{
    if i < s.len() && !is_marker(s[i]) {
        lemma_marker_from(s, i + 1);
    }
}

/// A plain run, where there is any text for it.
pub open spec fn plain_run(p: Seq<char>) -> Seq<(Seq<char>, RunStyle)> {
    if p.len() > 0 {
        seq![(p, RunStyle::Plain)]
    } else {
        Seq::empty()
    }
}

/// The runs of `s` from `pos` on, where plain text has been gathering since `ps`. A marker
/// opens a run at the start of what is left or after a character that is not ASCII
/// alphanumeric (so `render_widget` stays whole), where the same marker closes it later with
/// something in between; any other marker is plain text.
pub open spec fn markup_from(s: Seq<char>, ps: int, pos: int) -> Seq<(Seq<char>, RunStyle)>
    decreases s.len() - pos,
{
    if pos < 0 || ps < 0 || ps > pos {
        Seq::empty()
    } else {
        match marker_from(s, pos) {
            None => plain_run(s.subrange(ps, s.len() as int)),
            Some(i) => {
                proof {
                    lemma_marker_from(s, pos);
                }
                let m = s[i];
                let opens = i == pos || !is_alnum(s[i - 1]);
                match find_char_from(s, m, i + 1) {
                    Some(j) if opens && j > i + 1 => {
                        proof {
                            lemma_find_char_from(s, m, i + 1);
                        }
                        plain_run(s.subrange(ps, i)) + seq![
                            (
                                s.subrange(i + 1, j),
                                if m == '_' {
                                    RunStyle::Italic
                                } else {
                                    RunStyle::Code
                                },
                            ),
                        ] + markup_from(s, j + 1, j + 1)
                    },
                    _ => markup_from(s, ps, i + 1),
                }
            },
        }
    }
}

pub open spec fn markup_spec(line: Seq<char>) -> Seq<(Seq<char>, RunStyle)> {
    markup_from(line, 0, 0)
}

/// A line with neither marker is plain text, whole.
pub proof fn lemma_no_markers_plain(line: Seq<char>)
    requires
        forall|k: int| 0 <= k < line.len() ==> !is_marker(#[trigger] line[k]),
    ensures
        markup_spec(line) == plain_run(line),
{
    lemma_marker_from(line, 0);
    if marker_from(line, 0) is Some {
        let k = marker_from(line, 0)->0;
        assert(!is_marker(line[k]));
    }
    assert(line.subrange(0, line.len() as int) =~= line);
}

/// The marker that wraps a run of `style`: none for plain text.
pub open spec fn marker_of(style: RunStyle) -> Seq<char> {
    match style {
        RunStyle::Plain => Seq::empty(),
        RunStyle::Italic => seq!['_'],
        RunStyle::Code => seq!['`'],
    }
}

/// Runs written back out: each styled run between its two markers.
pub open spec fn rewrap(runs: Seq<(Seq<char>, RunStyle)>) -> Seq<char>
    decreases runs.len(),
{
    if runs.len() == 0 {
        Seq::empty()
    } else {
        marker_of(runs[0].1) + runs[0].0 + marker_of(runs[0].1) + rewrap(runs.drop_first())
    }
}

proof fn lemma_rewrap_append(a: Seq<(Seq<char>, RunStyle)>, b: Seq<(Seq<char>, RunStyle)>)
    ensures
        rewrap(a + b) == rewrap(a) + rewrap(b),
    decreases a.len(),
{
    if a.len() == 0 {
        assert(a + b =~= b);
        assert(rewrap(a) + rewrap(b) =~= rewrap(b));
    } else {
        assert((a + b).drop_first() =~= a.drop_first() + b);
        lemma_rewrap_append(a.drop_first(), b);
        assert(rewrap(a + b) =~= rewrap(a) + rewrap(b));
    }
}

proof fn lemma_rewrap_one(r: (Seq<char>, RunStyle))
    ensures
        rewrap(seq![r]) == marker_of(r.1) + r.0 + marker_of(r.1),
{
    let one = seq![r];
    assert(one.drop_first() =~= Seq::<(Seq<char>, RunStyle)>::empty());
    assert(rewrap(one.drop_first()) == Seq::<char>::empty());
    assert(rewrap(one) =~= marker_of(r.1) + r.0 + marker_of(r.1));
}

proof fn lemma_markup_from_rewrap(s: Seq<char>, ps: int, pos: int)
    requires
        0 <= ps <= pos <= s.len(),
    ensures
        rewrap(markup_from(s, ps, pos)) == s.subrange(ps, s.len() as int),
        forall|k: int|
            0 <= k < markup_from(s, ps, pos).len() ==> (#[trigger] markup_from(s, ps, pos)[k]).0.len()
                > 0,
    decreases s.len() - pos,
{
    lemma_marker_from(s, pos);
    match marker_from(s, pos) {
        None => {
            let p = s.subrange(ps, s.len() as int);
            if p.len() > 0 {
                lemma_rewrap_one((p, RunStyle::Plain));
                assert(rewrap(plain_run(p)) =~= p);
            } else {
                assert(rewrap(plain_run(p)) =~= p);
            }
        },
        Some(i) => {
            let m = s[i];
            let opens = i == pos || !is_alnum(s[i - 1]);
            lemma_find_char_from(s, m, i + 1);
            match find_char_from(s, m, i + 1) {
                Some(j) if opens && j > i + 1 => {
                    let style = if m == '_' {
                        RunStyle::Italic
                    } else {
                        RunStyle::Code
                    };
                    let p = plain_run(s.subrange(ps, i));
                    let mid = seq![(s.subrange(i + 1, j), style)];
                    let rest = markup_from(s, j + 1, j + 1);
                    lemma_markup_from_rewrap(s, j + 1, j + 1);
                    assert(markup_from(s, ps, pos) == p + mid + rest);
                    lemma_rewrap_append(p + mid, rest);
                    lemma_rewrap_append(p, mid);
                    if s.subrange(ps, i).len() > 0 {
                        lemma_rewrap_one((s.subrange(ps, i), RunStyle::Plain));
                    }
                    assert(rewrap(p) =~= s.subrange(ps, i));
                    lemma_rewrap_one((s.subrange(i + 1, j), style));
                    assert(marker_of(style) == seq![m]);
                    assert(rewrap(mid) =~= s.subrange(i, j + 1));
                    assert(rewrap(markup_from(s, ps, pos)) =~= s.subrange(ps, s.len() as int));
                    let all = p + mid + rest;
                    assert forall|k: int| 0 <= k < all.len() implies (#[trigger] all[k]).0.len() > 0 by {
                        if k >= p.len() + 1 {
                            assert(all[k] == rest[k - p.len() - 1]);
                        }
                    }
                },
                _ => {
                    lemma_markup_from_rewrap(s, ps, i + 1);
                },
            }
        },
    }
}

/// Markup loses nothing but its markers: the runs, each styled one written back between its
/// two markers, give the line again; and no run is empty.
pub proof fn lemma_markup_round_trip(line: Seq<char>)
    ensures
        rewrap(markup_spec(line)) == line,
        forall|k: int| 0 <= k < markup_spec(line).len() ==> (#[trigger] markup_spec(line)[k]).0.len() > 0,
{
    lemma_markup_from_rewrap(line, 0, 0);
    assert(line.subrange(0, line.len() as int) =~= line);
}

/// Where run `k` begins in what its runs were read from, `base` cells in: for a styled run,
/// where its opening marker stands.
pub open spec fn run_start(runs: Seq<(Seq<char>, RunStyle)>, base: int, k: int) -> int {
    base + rewrap(runs.take(k)).len()
}

/// Run `k`, where styled, was opened by a marker standing at the start of `s` or after a
/// character that is no ASCII letter or digit, and closed by the next same marker: its text
/// holds no such marker.
pub open spec fn opened_well(s: Seq<char>, runs: Seq<(Seq<char>, RunStyle)>, base: int, k: int) -> bool {
    let o = run_start(runs, base, k);
    let t = runs[k].0;
    runs[k].1 != RunStyle::Plain ==> {
        let m = marker_of(runs[k].1)[0];
        &&& s[o] == m
        &&& s[o + 1 + t.len()] == m
        &&& (o == 0 || !is_alnum(s[o - 1]))
        &&& forall|q: int| 0 <= q < t.len() ==> t[q] != m
    }
}

proof fn lemma_markup_from_openers(s: Seq<char>, ps: int, pos: int)
    requires
        0 <= ps <= pos <= s.len(),
        pos == 0 || is_marker(s[pos - 1]),
    ensures
        forall|k: int|
            0 <= k < markup_from(s, ps, pos).len() ==> #[trigger] opened_well(
                s,
                markup_from(s, ps, pos),
                ps,
                k,
            ),
    decreases s.len() - pos,
{
    let runs = markup_from(s, ps, pos);
    lemma_marker_from(s, pos);
    match marker_from(s, pos) {
        None => {
            let p = s.subrange(ps, s.len() as int);
            assert forall|k: int| 0 <= k < runs.len() implies #[trigger] opened_well(s, runs, ps, k) by {
                assert(runs[k].1 == RunStyle::Plain);
            }
        },
        Some(i) => {
            let m = s[i];
            let opens = i == pos || !is_alnum(s[i - 1]);
            lemma_find_char_from(s, m, i + 1);
            match find_char_from(s, m, i + 1) {
                Some(j) if opens && j > i + 1 => {
                    let style = if m == '_' {
                        RunStyle::Italic
                    } else {
                        RunStyle::Code
                    };
                    let p = plain_run(s.subrange(ps, i));
                    let mid = seq![(s.subrange(i + 1, j), style)];
                    let rest = markup_from(s, j + 1, j + 1);
                    lemma_markup_from_openers(s, j + 1, j + 1);
                    assert(runs == p + mid + rest);
                    if s.subrange(ps, i).len() > 0 {
                        lemma_rewrap_one((s.subrange(ps, i), RunStyle::Plain));
                    }
                    assert(rewrap(p) =~= s.subrange(ps, i));
                    lemma_rewrap_one((s.subrange(i + 1, j), style));
                    assert(marker_of(style) == seq![m]);
                    assert(rewrap(mid).len() == j - i + 1);
                    assert forall|k: int| 0 <= k < runs.len() implies #[trigger] opened_well(s, runs, ps, k) by {
                        if k < p.len() {
                            assert(runs[k] == p[k]);
                            assert(runs[k].1 == RunStyle::Plain);
                        } else if k == p.len() {
                            assert(runs.take(k) =~= p);
                            assert(runs[k] == mid[0]);
                            assert(run_start(runs, ps, k) == i);
                            if i > 0 && i == pos {
                                assert(is_marker(s[i - 1]));
                            }
                            let t = s.subrange(i + 1, j);
                            assert forall|q: int| 0 <= q < t.len() implies t[q] != m by {
                                assert(t[q] == s[i + 1 + q]);
                            }
                        } else {
                            let k2 = k - p.len() - 1;
                            assert(runs[k] == rest[k2]);
                            assert(runs.take(k) =~= (p + mid) + rest.take(k2));
                            lemma_rewrap_append(p + mid, rest.take(k2));
                            lemma_rewrap_append(p, mid);
                            assert(run_start(runs, ps, k) == run_start(rest, j + 1, k2));
                            assert(opened_well(s, rest, j + 1, k2));
                        }
                    }
                },
                _ => {
                    lemma_markup_from_openers(s, ps, i + 1);
                    assert(runs == markup_from(s, ps, i + 1));
                },
            }
        },
    }
}

/// A marker opens a run only where it may: at the start of the line or after a character that
/// is no ASCII letter or digit (so `render_widget` stays whole), and only where the same marker
/// closes it later. Every other marker stays in the text as it is.
pub proof fn lemma_markup_openers(line: Seq<char>)
    ensures
        forall|k: int|
            0 <= k < markup_spec(line).len() ==> #[trigger] opened_well(line, markup_spec(line), 0, k),
{
    lemma_markup_from_openers(line, 0, 0);
}

/// A marker at `i` that cannot open a run: it follows an ASCII letter or digit, or the same
/// marker stands right after it, or the same marker never comes again.
pub open spec fn stays_literal(s: Seq<char>, i: int) -> bool {
    ||| i > 0 && is_alnum(s[i - 1])
    ||| i + 1 < s.len() && s[i + 1] == s[i]
    ||| forall|j: int| i < j < s.len() ==> s[j] != s[i]
}

/// Run `k`, where plain, is the text of `s` as it stands there, and every marker in it is one
/// that cannot open a run.
pub open spec fn plain_well(s: Seq<char>, runs: Seq<(Seq<char>, RunStyle)>, base: int, k: int) -> bool {
    let o = run_start(runs, base, k);
    let t = runs[k].0;
    runs[k].1 == RunStyle::Plain ==> forall|q: int|
        0 <= q < t.len() ==> #[trigger] t[q] == s[o + q] && (is_marker(t[q]) ==> stays_literal(
            s,
            o + q,
        ))
}

proof fn lemma_markup_from_literals(s: Seq<char>, ps: int, pos: int)
    requires
        0 <= ps <= pos <= s.len(),
        forall|i: int| ps <= i < pos && is_marker(#[trigger] s[i]) ==> stays_literal(s, i),
    ensures
        forall|k: int|
            0 <= k < markup_from(s, ps, pos).len() ==> #[trigger] plain_well(
                s,
                markup_from(s, ps, pos),
                ps,
                k,
            ),
    decreases s.len() - pos,
{
    let runs = markup_from(s, ps, pos);
    lemma_marker_from(s, pos);
    match marker_from(s, pos) {
        None => {
            let p = s.subrange(ps, s.len() as int);
            assert forall|k: int| 0 <= k < runs.len() implies #[trigger] plain_well(s, runs, ps, k) by {
                assert(k == 0);
                assert(runs.take(0) =~= Seq::<(Seq<char>, RunStyle)>::empty());
                assert(rewrap(runs.take(0)) =~= Seq::<char>::empty());
                assert(runs[0].0 == p);
                assert forall|q: int| 0 <= q < p.len() implies #[trigger] p[q] == s[ps + q] && (
                is_marker(p[q]) ==> stays_literal(s, ps + q)) by {
                    assert(p[q] == s[ps + q]);
                }
            }
        },
        Some(i) => {
            let m = s[i];
            let opens = i == pos || !is_alnum(s[i - 1]);
            lemma_find_char_from(s, m, i + 1);
            match find_char_from(s, m, i + 1) {
                Some(j) if opens && j > i + 1 => {
                    let style = if m == '_' {
                        RunStyle::Italic
                    } else {
                        RunStyle::Code
                    };
                    let pt = s.subrange(ps, i);
                    let p = plain_run(pt);
                    let mid = seq![(s.subrange(i + 1, j), style)];
                    let rest = markup_from(s, j + 1, j + 1);
                    lemma_markup_from_literals(s, j + 1, j + 1);
                    assert(runs == p + mid + rest);
                    if pt.len() > 0 {
                        lemma_rewrap_one((pt, RunStyle::Plain));
                    }
                    assert(rewrap(p) =~= pt);
                    lemma_rewrap_one((s.subrange(i + 1, j), style));
                    assert(marker_of(style) == seq![m]);
                    assert(rewrap(mid).len() == j - i + 1);
                    assert forall|k: int| 0 <= k < runs.len() implies #[trigger] plain_well(s, runs, ps, k) by {
                        if k < p.len() {
                            assert(k == 0);
                            assert(runs[k] == (pt, RunStyle::Plain));
                            assert(runs.take(0) =~= Seq::<(Seq<char>, RunStyle)>::empty());
                            assert(rewrap(runs.take(0)) =~= Seq::<char>::empty());
                            assert forall|q: int| 0 <= q < pt.len() implies #[trigger] pt[q] == s[ps + q]
                                && (is_marker(pt[q]) ==> stays_literal(s, ps + q)) by {
                                assert(pt[q] == s[ps + q]);
                            }
                        } else if k == p.len() {
                            assert(runs[k] == mid[0]);
                        } else {
                            let k2 = k - p.len() - 1;
                            assert(runs[k] == rest[k2]);
                            assert(runs.take(k) =~= (p + mid) + rest.take(k2));
                            lemma_rewrap_append(p + mid, rest.take(k2));
                            lemma_rewrap_append(p, mid);
                            assert(run_start(runs, ps, k) == run_start(rest, j + 1, k2));
                            assert(plain_well(s, rest, j + 1, k2));
                        }
                    }
                },
                _ => {
                    assert(stays_literal(s, i)) by {
                        if opens {
                            if let Some(j) = find_char_from(s, m, i + 1) {
                                assert(j == i + 1);
                            }
                        } else {
                            assert(i > pos);
                        }
                    }
                    lemma_markup_from_literals(s, ps, i + 1);
                    assert(runs == markup_from(s, ps, i + 1));
                },
            }
        },
    }
}

/// Every marker the runs leave as text is one that cannot open a run: it follows an ASCII
/// letter or digit, or the same marker stands right after it, or never comes again. So a
/// marker at the start of the line or after any other character, closed later by the same
/// marker with something between, always opens a styled run. And plain runs give the line's
/// text as it stands.
pub proof fn lemma_markup_literals(line: Seq<char>)
    ensures
        forall|k: int|
            0 <= k < markup_spec(line).len() ==> #[trigger] plain_well(line, markup_spec(line), 0, k),
{
    lemma_markup_from_literals(line, 0, 0);
}

pub open spec fn run_views(v: Seq<Run>) -> Seq<(Seq<char>, RunStyle)> {
    Seq::new(v.len(), |i: int| (v[i].text@, v[i].style))
}

fn push_plain(out: &mut Vec<Run>, s: &[char], ps: usize, e: usize)
    requires
        ps <= e <= s.len(),
    ensures
        run_views(final(out)@) == run_views(old(out)@) + plain_run(s@.subrange(ps as int, e as int)),
{
    if ps < e {
        let ghost before = run_views(out@);
        let p = slice_of(s, ps, e);
        out.push(Run { text: string_of(p.as_slice()), style: RunStyle::Plain });
        assert(run_views(out@) =~= before + plain_run(s@.subrange(ps as int, e as int)));
    } else {
        assert(plain_run(s@.subrange(ps as int, e as int)) =~= Seq::empty());
        assert(run_views(out@) =~= run_views(out@) + Seq::empty());
    }
}

/// The runs of one line of prose.
pub fn markup_line(line: &str) -> (runs: Vec<Run>)
    ensures
        run_views(runs@) == markup_spec(line@),
{
    let s = chars_of(line);
    let mut out: Vec<Run> = Vec::new();
    let mut ps: usize = 0;
    let mut pos: usize = 0;
    assert(run_views(out@) =~= Seq::empty());
    loop
        invariant
            ps <= pos <= s.len(),
            run_views(out@) + markup_from(s@, ps as int, pos as int) == markup_spec(s@),
            s@ == line@,
        decreases s.len() - pos,
    {
        let ghost here = markup_from(s@, ps as int, pos as int);
        proof {
            lemma_marker_from(s@, pos as int);
        }
        let mut i = pos;
        while i < s.len() && s[i] != '_' && s[i] != '`'
            invariant
                pos <= i <= s.len(),
                marker_from(s@, i as int) == marker_from(s@, pos as int),
            decreases s.len() - i,
        {
            i += 1;
        }
        if i >= s.len() {
            push_plain(&mut out, s.as_slice(), ps, s.len());
            assert(run_views(out@) =~= markup_spec(s@));
            return out;
        }
        let m = s[i];
        let opens = i == pos || !is_ascii_alphanumeric(s[i - 1]);
        proof {
            lemma_find_char_from(s@, m, i + 1);
        }
        let mut j = i + 1;
        while j < s.len() && s[j] != m
            invariant
                i < j <= s.len(),
                find_char_from(s@, m, j as int) == find_char_from(s@, m, i + 1),
            decreases s.len() - j,
        {
            j += 1;
        }
        if opens && j < s.len() && j > i + 1 {
            let ghost before = run_views(out@);
            push_plain(&mut out, s.as_slice(), ps, i);
            let inner = slice_of(s.as_slice(), i + 1, j);
            let style = if m == '_' {
                RunStyle::Italic
            } else {
                RunStyle::Code
            };
            let ghost mid = run_views(out@);
            out.push(Run { text: string_of(inner.as_slice()), style });
            assert(run_views(out@) =~= mid + seq![(inner@, style)]);
            ps = j + 1;
            pos = j + 1;
        } else {
            pos = i + 1;
        }
    }
}

/// The runs of each line of a text.
pub fn markup(text: &str) -> (lines_out: Vec<Vec<Run>>)
    ensures
        lines_out@.len() == lines(text@).len(),
        forall|i: int|
            0 <= i < lines_out@.len() ==> run_views(#[trigger] lines_out@[i]@) == markup_spec(
                lines(text@)[i],
            ),
{
    let src = chars_of(text);
    let ls = lines_exec(src.as_slice());
    let mut out: Vec<Vec<Run>> = Vec::new();
    let mut i: usize = 0;
    while i < ls.len()
        invariant
            i <= ls.len(),
            views(ls@) == lines(text@),
            out@.len() == i,
            forall|k: int|
                0 <= k < i ==> run_views(#[trigger] out@[k]@) == markup_spec(lines(text@)[k]),
        decreases ls.len() - i,
    {
        assert(views(ls@)[i as int] == ls@[i as int]@);
        let l = string_of(ls[i].as_slice());
        out.push(markup_line(l.as_str()));
        i += 1;
    }
    out
}

/// The text of a line of runs, with the markers gone.
pub fn plain_text(runs: &Vec<Run>) -> (s: String)
    ensures
        s@ == run_text(run_views(runs@)),
{
    let mut out: Vec<char> = Vec::new();
    let mut i: usize = 0;
    while i < runs.len()
        invariant
            i <= runs@.len(),
            out@ == run_text(run_views(runs@).take(i as int)),
        decreases runs.len() - i,
    {
        let t = chars_of(runs[i].text.as_str());
        append_chars(&mut out, t.as_slice());
        assert(run_views(runs@).take(i + 1).drop_last() =~= run_views(runs@).take(i as int));
        i += 1;
    }
    assert(run_views(runs@).take(runs@.len() as int) =~= run_views(runs@));
    string_of(out.as_slice())
}

/// The text of runs laid end to end.
pub open spec fn run_text(rs: Seq<(Seq<char>, RunStyle)>) -> Seq<char>
    decreases rs.len(),
{
    if rs.len() == 0 {
        Seq::empty()
    } else {
        run_text(rs.drop_last()) + rs.last().0
    }
}

// ───────────────────────────── rules ─────────────────────────────

/// Three or more `─` and nothing else, once trimmed.
pub open spec fn is_rule_spec(line: Seq<char>) -> bool {
    let t = trim(line);
    t.len() >= 3 && forall|k: int| 0 <= k < t.len() ==> #[trigger] t[k] == '─'
}

/// Three or more `─` and nothing else.
pub fn is_rule(line: &str) -> (b: bool)
    ensures
        b == is_rule_spec(line@),
{
    let s = chars_of(line);
    let t = trim_exec(s.as_slice());
    if t.len() < 3 {
        return false;
    }
    let mut k: usize = 0;
    while k < t.len()
        invariant
            k <= t@.len(),
            t@ == trim(line@),
            forall|m: int| 0 <= m < k ==> #[trigger] t@[m] == '─',
        decreases t.len() - k,
    {
        if t[k] != '─' {
            assert(t@[k as int] != '─');
            return false;
        }
        k += 1;
    }
    true
}

// ───────────────────────────── wrapping ─────────────────────────────

/// Placing one word of `w` characters on a row `width` wide, given the rows used so far and
/// the column reached: a word that does not fit after a space starts a new row, and a word
/// wider than a row is broken across as many rows as it needs.
pub open spec fn wrap_step(st: (nat, nat), w: nat, width: nat) -> (nat, nat) {
    let (rows, col) = if st.1 > 0 && st.1 + 1 + w > width {
        (st.0 + 1, 0nat)
    } else {
        st
    };
    let col = if col > 0 {
        col + 1
    } else {
        col
    };
    if w > width {
        (rows + ((w - 1) as nat) / width, ((w - 1) as nat) % width + 1)
    } else {
        (rows, col + w)
    }
}

/// The rows and the last column of one line's words, starting on one empty row.
pub open spec fn wrap_fold(ws: Seq<Seq<char>>, width: nat) -> (nat, nat)
    decreases ws.len(),
{
    if ws.len() == 0 {
        (1, 0)
    } else {
        wrap_step(wrap_fold(ws.drop_last(), width), ws.last().len(), width)
    }
}

pub open spec fn line_rows(l: Seq<char>, width: nat) -> nat {
    wrap_fold(words(l), width).0
}

pub open spec fn rows_sum(ls: Seq<Seq<char>>, width: nat) -> nat
    decreases ls.len(),
{
    if ls.len() == 0 {
        0
    } else {
        rows_sum(ls.drop_last(), width) + line_rows(ls.last(), width)
    }
}

/// Roughly how many rows `text` takes when word-wrapped to `width` (at least 1): each line
/// takes one row or more.
pub open spec fn wrapped_rows(text: Seq<char>, width: nat) -> nat {
    rows_sum(
        lines(text),
        if width < 1 {
            1
        } else {
            width
        },
    )
}

/// The characters of words, added up.
pub open spec fn sum_len(ws: Seq<Seq<char>>) -> nat
    decreases ws.len(),
{
    if ws.len() == 0 {
        0
    } else {
        sum_len(ws.drop_last()) + ws.last().len()
    }
}

/// What lines cost: their characters and one more each.
pub open spec fn cost(ls: Seq<Seq<char>>) -> nat
    decreases ls.len(),
{
    if ls.len() == 0 {
        0
    } else {
        cost(ls.drop_last()) + ls.last().len() + 1
    }
}

pub proof fn lemma_sum_len_concat(a: Seq<Seq<char>>, b: Seq<Seq<char>>)
    ensures
        sum_len(a + b) == sum_len(a) + sum_len(b),
    decreases b.len(),
{
    if b.len() == 0 {
        assert(a + b =~= a);
    } else {
        lemma_sum_len_concat(a, b.drop_last());
        assert((a + b).drop_last() =~= a + b.drop_last());
    }
}

pub proof fn lemma_cost_concat(a: Seq<Seq<char>>, b: Seq<Seq<char>>)
    ensures
        cost(a + b) == cost(a) + cost(b),
    decreases b.len(),
{
    if b.len() == 0 {
        assert(a + b =~= a);
    } else {
        lemma_cost_concat(a, b.drop_last());
        assert((a + b).drop_last() =~= a + b.drop_last());
    }
}

/// The words of a line hold no more characters than the line.
pub proof fn lemma_words_len(s: Seq<char>, start: int, i: int)
    requires
        0 <= i <= s.len(),
        start < 0 || start <= i,
    ensures
        sum_len(words_from(s, start, i)) <= s.len() - (if start >= 0 {
            start
        } else {
            i
        }),
    decreases s.len() - i,
{
    let ws = words_from(s, start, i);
    if i >= s.len() {
        if start >= 0 {
            assert(ws == seq![s.subrange(start, s.len() as int)]);
            assert(ws.drop_last() =~= Seq::<Seq<char>>::empty());
            assert(sum_len(ws) == sum_len(ws.drop_last()) + ws.last().len());
        } else {
            assert(ws.len() == 0);
        }
    } else if is_ws(s[i]) {
        lemma_words_len(s, -1, i + 1);
        let rest = words_from(s, -1, i + 1);
        if start >= 0 {
            let first = seq![s.subrange(start, i)];
            assert(ws == first + rest);
            lemma_sum_len_concat(first, rest);
            assert(first.drop_last() =~= Seq::<Seq<char>>::empty());
            assert(sum_len(first) == sum_len(first.drop_last()) + first.last().len());
        } else {
            assert(ws == rest);
        }
    } else {
        let ns = if start >= 0 {
            start
        } else {
            i
        };
        lemma_words_len(s, ns, i + 1);
        assert(ws == words_from(s, ns, i + 1));
    }
}

/// Lines cost no more than the text they come from, and one more.
pub proof fn lemma_lines_cost(s: Seq<char>, start: int, i: int)
    requires
        0 <= start <= i <= s.len(),
    ensures
        cost(lines_from(s, start, i)) <= s.len() - start + 1,
    decreases s.len() - i,
{
    let ls = lines_from(s, start, i);
    if i >= s.len() {
        if start < s.len() {
            assert(ls == seq![s.subrange(start, s.len() as int)]);
            assert(ls.drop_last() =~= Seq::<Seq<char>>::empty());
            assert(cost(ls) == cost(ls.drop_last()) + ls.last().len() + 1);
        } else {
            assert(ls.len() == 0);
        }
    } else if s[i] == '\n' {
        lemma_lines_cost(s, i + 1, i + 1);
        let first = seq![strip_cr(s.subrange(start, i))];
        let rest = lines_from(s, i + 1, i + 1);
        assert(ls == first + rest);
        lemma_cost_concat(first, rest);
        assert(first.drop_last() =~= Seq::<Seq<char>>::empty());
        assert(cost(first) == cost(first.drop_last()) + first.last().len() + 1);
    } else {
        lemma_lines_cost(s, start, i + 1);
        assert(ls == lines_from(s, start, i + 1));
    }
}

/// Placing words keeps the column within the row, and uses no more rows than the words have
/// characters, and one more.
pub proof fn lemma_wrap_bounds(ws: Seq<Seq<char>>, width: nat)
    requires
        width >= 1,
        forall|k: int| 0 <= k < ws.len() ==> #[trigger] ws[k].len() >= 1,
    ensures
        wrap_fold(ws, width).1 <= width,
        1 <= wrap_fold(ws, width).0 <= 1 + sum_len(ws),
    decreases ws.len(),
{
    if ws.len() > 0 {
        let p = ws.drop_last();
        assert forall|k: int| 0 <= k < p.len() implies #[trigger] p[k].len() >= 1 by {
            assert(p[k] == ws[k]);
        }
        lemma_wrap_bounds(p, width);
        let w = ws.last().len();
        assert(w >= 1);
        if w > width {
            assert(((w - 1) as nat) / width <= (w - 1) as nat) by (nonlinear_arith)
                requires
                    width >= 1,
            ;
            assert(((w - 1) as nat) % width < width) by (nonlinear_arith)
                requires
                    width >= 1,
            ;
        }
    }
}

pub proof fn lemma_rows_within_cost(ls: Seq<Seq<char>>, width: nat)
    requires
        width >= 1,
    ensures
        rows_sum(ls, width) <= cost(ls),
    decreases ls.len(),
{
    if ls.len() > 0 {
        lemma_rows_within_cost(ls.drop_last(), width);
        let l = ls.last();
        lemma_words_nonempty(l);
        lemma_wrap_bounds(words(l), width);
        lemma_words_len(l, -1, 0);
    }
}

/// Every word has at least one character.
pub proof fn lemma_words_nonempty(l: Seq<char>)
    ensures
        forall|k: int| 0 <= k < words(l).len() ==> #[trigger] words(l)[k].len() >= 1,
{
    lemma_words_from_nonempty(l, -1, 0);
}

pub proof fn lemma_words_from_nonempty(s: Seq<char>, start: int, i: int)
    requires
        0 <= i <= s.len(),
        start < i,
    ensures
        forall|k: int|
            0 <= k < words_from(s, start, i).len() ==> #[trigger] words_from(
                s,
                start,
                i,
            )[k].len() >= 1,
    decreases s.len() - i,
{
    let ws = words_from(s, start, i);
    if i >= s.len() {
    } else if is_ws(s[i]) {
        lemma_words_from_nonempty(s, -1, i + 1);
        if start >= 0 {
            let rest = words_from(s, -1, i + 1);
            let all = seq![s.subrange(start, i)] + rest;
            assert(ws == all);
            assert forall|k: int| 0 <= k < all.len() implies #[trigger] all[k].len() >= 1 by {
                if k > 0 {
                    assert(all[k] == rest[k - 1]);
                }
            }
        } else {
            assert(ws == words_from(s, -1, i + 1));
        }
    } else {
        let ns = if start >= 0 {
            start
        } else {
            i
        };
        lemma_words_from_nonempty(s, ns, i + 1);
        assert(ws == words_from(s, ns, i + 1));
    }
}

/// Every line takes at least one row.
pub proof fn lemma_rows_at_least_lines(ls: Seq<Seq<char>>, width: nat)
    requires
        width >= 1,
    ensures
        rows_sum(ls, width) >= ls.len(),
    decreases ls.len(),
{
    if ls.len() > 0 {
        lemma_rows_at_least_lines(ls.drop_last(), width);
        lemma_words_nonempty(ls.last());
        lemma_wrap_bounds(words(ls.last()), width);
    }
}

/// Roughly how many rows `text` takes when word-wrapped to `width`. Close enough to size a
/// panel; the widget does the real wrapping.
pub fn wrapped_lines(text: &str, width: usize) -> (n: usize)
    requires
        text@.len() < usize::MAX,
    ensures
        n == wrapped_rows(text@, width as nat),
{
    let width: usize = if width < 1 {
        1
    } else {
        width
    };
    let src = chars_of(text);
    let ls = lines_exec(src.as_slice());
    let ghost all = views(ls@);
    proof {
        lemma_lines_cost(src@, 0, 0);
        lemma_rows_within_cost(all, width as nat);
    }
    let mut total: usize = 0;
    let mut i: usize = 0;
    while i < ls.len()
        invariant
            i <= ls.len(),
            all == views(ls@),
            all == lines(src@),
            src@ == text@,
            width >= 1,
            cost(all) <= src@.len() + 1,
            src@.len() < usize::MAX,
            total == rows_sum(all.take(i as int), width as nat),
        decreases ls.len() - i,
    {
        let ghost l = all[i as int];
        assert(l == ls@[i as int]@);
        assert(all.take(i + 1).drop_last() =~= all.take(i as int));
        assert(all.take(i + 1).last() == l);
        proof {
            lemma_rows_within_cost(all.take(i as int), width as nat);
            lemma_cost_concat(all.take(i + 1), all.skip(i + 1));
            assert(all.take(i + 1) + all.skip(i + 1) =~= all);
            lemma_words_nonempty(l);
            lemma_words_len(l, -1, 0);
        }
        let ws = words_exec(ls[i].as_slice());
        let ghost wv = views(ws@);
        let mut rows: usize = 1;
        let mut col: usize = 0;
        let mut k: usize = 0;
        while k < ws.len()
            invariant
                k <= ws.len(),
                wv == views(ws@),
                wv == words(l),
                width >= 1,
                forall|m: int| 0 <= m < wv.len() ==> #[trigger] wv[m].len() >= 1,
                sum_len(wv) <= l.len(),
                total + 1 + l.len() < usize::MAX + 1,
                (rows as nat, col as nat) == wrap_fold(wv.take(k as int), width as nat),
            decreases ws.len() - k,
        {
            let w = ws[k].len();
            assert(wv[k as int].len() == w);
            assert(wv.take(k + 1).drop_last() =~= wv.take(k as int));
            assert(wv.take(k + 1).last() == wv[k as int]);
            proof {
                lemma_wrap_bounds(wv.take(k as int), width as nat);
                lemma_wrap_bounds(wv.take(k + 1), width as nat);
                lemma_sum_len_concat(wv.take(k + 1), wv.skip(k + 1));
                assert(wv.take(k + 1) + wv.skip(k + 1) =~= wv);
            }
            if col > 0 && w >= width - col {
                rows += 1;
                col = 0;
            }
            if col > 0 {
                col += 1;
            }
            if w > width {
                rows += (w - 1) / width;
                col = (w - 1) % width + 1;
            } else {
                col += w;
            }
            k += 1;
        }
        assert(wv.take(ws.len() as int) =~= wv);
        proof {
            lemma_wrap_bounds(wv, width as nat);
        }
        total = total + rows;
        i += 1;
    }
    assert(all.take(ls.len() as int) =~= all);
    total
}

proof fn lemma_rows_sum_concat(a: Seq<Seq<char>>, b: Seq<Seq<char>>, width: nat)
    ensures
        rows_sum(a + b, width) == rows_sum(a, width) + rows_sum(b, width),
    decreases b.len(),
{
    if b.len() == 0 {
        assert(a + b =~= a);
    } else {
        lemma_rows_sum_concat(a, b.drop_last(), width);
        assert((a + b).drop_last() =~= a + b.drop_last());
    }
}

/// Text without a line break is one line.
proof fn lemma_lines_single(x: Seq<char>)
    requires
        x.len() > 0,
        forall|k: int| 0 <= k < x.len() ==> x[k] != '\n',
    ensures
        lines(x) == seq![x],
{
    lemma_lines_run(x, 0, 0, x.len() as int);
    assert(x.subrange(0, x.len() as int) =~= x);
}

/// Two lines joined by a line break take the rows of the one and of the other.
pub proof fn lemma_rows_of_two_lines(a: Seq<char>, b: Seq<char>, width: nat)
    requires
        a.len() > 0,
        b.len() > 0,
        a.last() != '\r',
        forall|k: int| 0 <= k < a.len() ==> a[k] != '\n',
        forall|k: int| 0 <= k < b.len() ==> b[k] != '\n',
    ensures
        wrapped_rows(a + seq!['\n'] + b, width) == wrapped_rows(a, width) + wrapped_rows(b, width),
{
    let w: nat = if width < 1 {
        1
    } else {
        width
    };
    lemma_lines_append(a + seq!['\n'], b);
    lemma_lines_one(a);
    lemma_lines_single(a);
    lemma_lines_single(b);
    assert(strip_cr(a) == a);
    lemma_rows_sum_concat(seq![a], seq![b], w);
    assert(seq![a] + seq![b] =~= lines(a + seq!['\n'] + b));
}

/// No text takes no rows, and a width of 0 wraps as a width of 1.
pub proof fn lemma_wrapped_rows_edges(text: Seq<char>)
    ensures
        forall|w: nat| wrapped_rows(Seq::<char>::empty(), w) == 0,
        wrapped_rows(text, 0) == wrapped_rows(text, 1),
{
    assert(lines(Seq::<char>::empty()) =~= Seq::<Seq<char>>::empty());
}

} // verus!
