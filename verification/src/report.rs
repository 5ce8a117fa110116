//! What the test runner and the compiler said: the summary of a `cargo test` run and the
//! first error of a failed build.
use vstd::prelude::*;
use crate::text::{
    join_lines,
    matches_at,
    is_digit, lemma_starts_with_same_len,
    append_chars, chars_of, contains, find, find_from_exec, lemma_back_ws, lemma_find_from,
    lemma_skip_ws, lines, lines_exec, skip_ws, back_ws, slice_of, split_char, split_char_exec,
    starts_with, starts_with_exec, string_of, trim, trim_end, trim_end_exec, trim_exec, views,
    words, words_exec, string_views,
};

verus! {

// ───────────────────────────── numbers ─────────────────────────────

/// The value of a run of decimal digits.
pub open spec fn decimal_value(d: Seq<char>) -> nat
    decreases d.len(),
{
    if d.len() == 0 {
        0
    } else {
        decimal_value(d.drop_last()) * 10 + ((d.last() as u32) - 48) as nat
    }
}

pub open spec fn all_digits(d: Seq<char>) -> bool {
    forall|k: int| 0 <= k < d.len() ==> is_digit(#[trigger] d[k])
}

/// What `str::parse::<usize>` accepts: an optional `+`, then one or more decimal digits whose
/// value fits in a `usize`.
pub open spec fn parse_usize_spec(s: Seq<char>) -> Option<nat> {
    let d = if s.len() > 0 && s[0] == '+' {
        s.skip(1)
    } else {
        s
    };
    if d.len() == 0 || !all_digits(d) || decimal_value(d) > usize::MAX {
        None
    } else {
        Some(decimal_value(d))
    }
}

pub proof fn lemma_decimal_grows(d: Seq<char>, i: int)
    requires
        0 <= i <= d.len(),
        all_digits(d),
    ensures
        decimal_value(d.take(i)) <= decimal_value(d),
    decreases d.len() - i,
{
    if i < d.len() {
        lemma_decimal_grows(d, i + 1);
        assert(d.take(i + 1).drop_last() =~= d.take(i));
        assert(d.take(i + 1).last() == d[i]);
    } else {
        assert(d.take(i) =~= d);
    }
}

pub fn parse_usize(s: &[char]) -> (r: Option<usize>)
    ensures
        r matches Some(n) ==> parse_usize_spec(s@) == Some(n as nat),
        r is None ==> parse_usize_spec(s@) is None,
{
    let start: usize = if s.len() > 0 && s[0] == '+' {
        1
    } else {
        0
    };
    let ghost d = s@.skip(start as int);
    assert(d =~= (if s@.len() > 0 && s@[0] == '+' {
        s@.skip(1)
    } else {
        s@
    }));
    if start >= s.len() {
        return None;
    }
    let mut value: usize = 0;
    let mut i = start;
    while i < s.len()
        invariant
            start <= i <= s.len(),
            d == s@.skip(start as int),
            d == (if s@.len() > 0 && s@[0] == '+' {
                s@.skip(1)
            } else {
                s@
            }),
            forall|k: int| 0 <= k < i - start ==> is_digit(#[trigger] d[k]),
            value as nat == decimal_value(d.take(i - start)),
        decreases s.len() - i,
    {
        let n = s[i] as u32;
        assert(d[i - start] == s@[i as int]);
        if n < 0x30 || n > 0x39 {
            assert(!is_digit(d[i - start]));
            assert(!all_digits(d));
            assert(d.len() != 0);
            return None;
        }
        let digit = (n - 0x30) as usize;
        assert(d.take(i - start + 1).drop_last() =~= d.take(i - start));
        assert(d.take(i - start + 1).last() == d[i - start]);
        if value > (usize::MAX - digit) / 10 {
            proof {
                assert(value * 10 + digit > usize::MAX) by (nonlinear_arith)
                    requires
                        value > (usize::MAX - digit) / 10,
                        digit <= 9,
                ;
                if all_digits(d) {
                    lemma_decimal_grows(d, i - start + 1);
                }
            }
            return None;
        }
        value = value * 10 + digit;
        i += 1;
    }
    assert(d.take(i - start) =~= d);
    Some(value)
}

// ───────────────────────────── the test summary ─────────────────────────────

/// How many tests passed and how many failed, and the messages worth showing, of one run.
pub struct Report {
    pub passed: usize,
    pub failed: usize,
    pub messages: Vec<String>,
}

impl Default for Report {
    fn default() -> (r: Report)
        ensures
            r.passed == 0,
            r.failed == 0,
            r.messages@.len() == 0,
    {
        Report { passed: 0, failed: 0, messages: Vec::new() }
    }
}

impl Report {
    /// Green means something ran and nothing failed. A run that produced no results at all
    /// (the file didn't compile, say) is not a pass.
    pub fn ok(&self) -> (b: bool)
        ensures
            b == (self.failed == 0 && self.passed > 0),
    {
        self.failed == 0 && self.passed > 0
    }
}

/// One `;`-separated part of a `test result:` line: `"3 passed"` counts 3 passes, and
/// `"1 failed"` one failure. The count is the word before the last; what does not parse
/// counts as 0.
pub open spec fn part_counts(part: Seq<char>) -> (nat, nat) {
    let toks = words(part);
    if toks.len() < 2 {
        (0, 0)
    } else {
        let n = match parse_usize_spec(toks[toks.len() - 2]) {
            Some(v) => v,
            None => 0,
        };
        let kind = toks[toks.len() - 1];
        if kind == "passed"@ {
            (n, 0)
        } else if kind == "failed"@ {
            (0, n)
        } else {
            (0, 0)
        }
    }
}

pub open spec fn parts_counts(parts: Seq<Seq<char>>) -> (nat, nat)
    decreases parts.len(),
{
    if parts.len() == 0 {
        (0, 0)
    } else {
        let a = parts_counts(parts.drop_last());
        let b = part_counts(parts.last());
        (a.0 + b.0, a.1 + b.1)
    }
}

pub open spec fn result_prefix() -> Seq<char> {
    "test result: "@
}

/// The counts of one line of output: those of its parts where it is a `test result:` line.
pub open spec fn line_counts(line: Seq<char>) -> (nat, nat) {
    if starts_with(line, result_prefix()) {
        parts_counts(split_char(line.skip(result_prefix().len() as int), ';'))
    } else {
        (0, 0)
    }
}

/// The messages of one line of output: a compiler error line (but not cargo's own
/// `error: test failed`), then the text after `failed: ` (an assertion message), or else a
/// plain word on a buffer mismatch.
pub open spec fn line_messages(line: Seq<char>) -> Seq<Seq<char>> {
    let err = if starts_with(line, "error"@) && !starts_with(line, "error: test failed"@) {
        seq![trim(line)]
    } else {
        Seq::empty()
    };
    let failed = match find(line, "failed: "@) {
        Some(i) => seq![trim(line.skip(i + "failed: "@.len()))],
        None => if contains(line, "buffer contents not equal"@) {
            seq!["the rendered output isn't what the exercise expects"@]
        } else {
            Seq::empty()
        },
    };
    err + failed
}

/// The passes, failures and messages of a run's output, line by line.
pub open spec fn summary_fold(ls: Seq<Seq<char>>) -> (nat, nat, Seq<Seq<char>>)
    decreases ls.len(),
{
    if ls.len() == 0 {
        (0, 0, Seq::empty())
    } else {
        let a = summary_fold(ls.drop_last());
        let c = line_counts(ls.last());
        (a.0 + c.0, a.1 + c.1, a.2 + line_messages(ls.last()))
    }
}

pub open spec fn summary(text: Seq<char>) -> (nat, nat, Seq<Seq<char>>) {
    summary_fold(lines(text))
}

pub proof fn lemma_parts_counts_grow(parts: Seq<Seq<char>>, i: int)
    requires
        0 <= i <= parts.len(),
    ensures
        parts_counts(parts.take(i)).0 <= parts_counts(parts).0,
        parts_counts(parts.take(i)).1 <= parts_counts(parts).1,
    decreases parts.len() - i,
{
    if i < parts.len() {
        lemma_parts_counts_grow(parts, i + 1);
        assert(parts.take(i + 1).drop_last() =~= parts.take(i));
    } else {
        assert(parts.take(i) =~= parts);
    }
}

pub proof fn lemma_summary_grows(ls: Seq<Seq<char>>, i: int)
    requires
        0 <= i <= ls.len(),
    ensures
        summary_fold(ls.take(i)).0 <= summary_fold(ls).0,
        summary_fold(ls.take(i)).1 <= summary_fold(ls).1,
    decreases ls.len() - i,
{
    if i < ls.len() {
        lemma_summary_grows(ls, i + 1);
        assert(ls.take(i + 1).drop_last() =~= ls.take(i));
    } else {
        assert(ls.take(i) =~= ls);
    }
}

fn part_counts_exec(part: &[char]) -> (r: (usize, usize))
    ensures
        r.0 as nat == part_counts(part@).0,
        r.1 as nat == part_counts(part@).1,
{
    let toks = words_exec(part);
    let ghost t = views(toks@);
    if toks.len() < 2 {
        return (0, 0);
    }
    assert(t[toks.len() - 2] == toks@[toks.len() - 2]@);
    assert(t[toks.len() - 1] == toks@[toks.len() - 1]@);
    let n = match parse_usize(toks[toks.len() - 2].as_slice()) {
        Some(v) => v,
        None => 0,
    };
    let kind = &toks[toks.len() - 1];
    let passed = chars_of("passed");
    let failed = chars_of("failed");
    if kind.len() == passed.len() && starts_with_exec(kind.as_slice(), passed.as_slice()) {
        proof {
            lemma_starts_with_same_len(kind@, passed@);
        }
        (n, 0)
    } else if kind.len() == failed.len() && starts_with_exec(kind.as_slice(), failed.as_slice()) {
        proof {
            lemma_starts_with_same_len(kind@, failed@);
        }
        proof {
            if kind@ == "passed"@ {
                assert(starts_with(kind@, passed@));
            }
        }
        (0, n)
    } else {
        proof {
            if kind@ == "passed"@ {
                assert(starts_with(kind@, passed@));
            }
            if kind@ == "failed"@ {
                assert(starts_with(kind@, failed@));
            }
        }
        (0, 0)
    }
}

/// The counts of one line, or `None` where adding them to `base` overflows a `usize`.
fn line_counts_exec(line: &[char], base: (usize, usize)) -> (r: Option<(usize, usize)>)
    ensures
        r matches Some(v) ==> v.0 == base.0 + line_counts(line@).0 && v.1 == base.1
            + line_counts(line@).1,
        r is None ==> base.0 + line_counts(line@).0 > usize::MAX || base.1 + line_counts(
            line@,
        ).1 > usize::MAX,
{
    let prefix = chars_of("test result: ");
    if !starts_with_exec(line, prefix.as_slice()) {
        return Some(base);
    }
    let rest = slice_of(line, prefix.len(), line.len());
    assert(rest@ =~= line@.skip(result_prefix().len() as int));
    let parts = split_char_exec(rest.as_slice(), ';');
    let ghost ps = views(parts@);
    let mut acc = base;
    let mut i: usize = 0;
    while i < parts.len()
        invariant
            i <= parts.len(),
            ps == views(parts@),
            ps == split_char(rest@, ';'),
            line_counts(line@) == parts_counts(ps),
            acc.0 == base.0 + parts_counts(ps.take(i as int)).0,
            acc.1 == base.1 + parts_counts(ps.take(i as int)).1,
        decreases parts.len() - i,
    {
        assert(ps[i as int] == parts@[i as int]@);
        let c = part_counts_exec(parts[i].as_slice());
        assert(ps.take(i + 1).drop_last() =~= ps.take(i as int));
        assert(ps.take(i + 1).last() == ps[i as int]);
        proof {
            lemma_parts_counts_grow(ps, i + 1);
        }
        assert(parts_counts(ps.take(i + 1)).0 == parts_counts(ps.take(i as int)).0 + c.0);
        assert(parts_counts(ps.take(i + 1)).1 == parts_counts(ps.take(i as int)).1 + c.1);
        assert(line_counts(line@) == parts_counts(ps));
        if c.0 > usize::MAX - acc.0 || c.1 > usize::MAX - acc.1 {
            return None;
        }
        acc = (acc.0 + c.0, acc.1 + c.1);
        i += 1;
    }
    assert(ps.take(parts.len() as int) =~= ps);
    Some(acc)
}

fn line_messages_exec(line: &[char], out: &mut Vec<String>)
    ensures
        string_views(final(out)@) == string_views(old(out)@) + line_messages(line@),
{
    let ghost start = string_views(out@);
    let error = chars_of("error");
    let test_failed = chars_of("error: test failed");
    if starts_with_exec(line, error.as_slice()) && !starts_with_exec(line, test_failed.as_slice()) {
        let t = trim_exec(line);
        out.push(string_of(t.as_slice()));
        assert(string_views(out@) =~= start + seq![trim(line@)]);
    }
    let ghost mid = string_views(out@);
    let failed = chars_of("failed: ");
    match find_from_exec(line, failed.as_slice(), 0) {
        Some(i) => {
            proof {
                lemma_find_from(line@, failed@, 0);
                assert(matches_at(line@, failed@, i as int));
            }
            let n = line.len();
            let after = slice_of(line, i + failed.len(), n);
            assert(after@ =~= line@.skip(i + "failed: "@.len()));
            let t = trim_exec(after.as_slice());
            out.push(string_of(t.as_slice()));
            assert(string_views(out@) =~= mid + seq![trim(after@)]);
        },
        None => {
            let mismatch = chars_of("buffer contents not equal");
            if find_from_exec(line, mismatch.as_slice(), 0).is_some() {
                out.push(String::from_str("the rendered output isn't what the exercise expects"));
                assert(string_views(out@) =~= mid + seq![
                    "the rendered output isn't what the exercise expects"@,
                ]);
            }
        },
    }
    assert(string_views(out@) =~= start + line_messages(line@));
}

/// Summarises the output of `cargo test`: the passes and failures of every `test result:`
/// line, and the messages the exercise's author wrote. `None` where a count overflows a
/// `usize`.
pub fn summarise_tests(text: &str) -> (r: Option<Report>)
    ensures
        r matches Some(rep) ==> rep.passed == summary(text@).0 && rep.failed == summary(text@).1
            && string_views(rep.messages@) == summary(text@).2,
        r is None <==> summary(text@).0 > usize::MAX || summary(text@).1 > usize::MAX,
{
    let src = chars_of(text);
    let ls = lines_exec(src.as_slice());
    let ghost all = views(ls@);
    let mut report = Report::default();
    assert(string_views(report.messages@) =~= Seq::<Seq<char>>::empty());
    let mut i: usize = 0;
    while i < ls.len()
        invariant
            i <= ls.len(),
            all == views(ls@),
            all == lines(src@),
            src@ == text@,
            report.passed == summary_fold(all.take(i as int)).0,
            report.failed == summary_fold(all.take(i as int)).1,
            string_views(report.messages@) == summary_fold(all.take(i as int)).2,
        decreases ls.len() - i,
    {
        assert(all[i as int] == ls@[i as int]@);
        assert(all.take(i + 1).drop_last() =~= all.take(i as int));
        assert(all.take(i + 1).last() == all[i as int]);
        proof {
            lemma_summary_grows(all, i + 1);
        }
        match line_counts_exec(ls[i].as_slice(), (report.passed, report.failed)) {
            Some(c) => {
                report.passed = c.0;
                report.failed = c.1;
            },
            None => {
                return None;
            },
        }
        line_messages_exec(ls[i].as_slice(), &mut report.messages);
        i += 1;
    }
    assert(all.take(ls.len() as int) =~= all);
    Some(report)
}

// ───────────────────────────── the first build error ─────────────────────────────

/// The first index at or after `i` whose line starts with `error`.
pub open spec fn error_line(ls: Seq<Seq<char>>, i: int) -> int
    decreases ls.len() - i,
{
    if 0 <= i < ls.len() && !starts_with(ls[i], "error"@) {
        error_line(ls, i + 1)
    } else {
        i
    }
}

/// The first index at or after `i` whose line is blank.
pub open spec fn blank_line(ls: Seq<Seq<char>>, i: int) -> int
    decreases ls.len() - i,
{
    if 0 <= i < ls.len() && trim(ls[i]).len() != 0 {
        blank_line(ls, i + 1)
    } else {
        i
    }
}

pub proof fn lemma_error_line(ls: Seq<Seq<char>>, i: int)
    requires
        0 <= i <= ls.len(),
    ensures
        i <= error_line(ls, i) <= ls.len(),
    decreases ls.len() - i,
{
    if i < ls.len() && !starts_with(ls[i], "error"@) {
        lemma_error_line(ls, i + 1);
    }
}

pub proof fn lemma_blank_line(ls: Seq<Seq<char>>, i: int)
    requires
        0 <= i <= ls.len(),
    ensures
        i <= blank_line(ls, i) <= ls.len(),
        forall|k: int| i <= k < blank_line(ls, i) ==> trim(#[trigger] ls[k]).len() != 0,
    decreases ls.len() - i,
{
    if i < ls.len() && trim(ls[i]).len() != 0 {
        lemma_blank_line(ls, i + 1);
    }
}

/// The lines `a..b` with trailing whitespace dropped.
pub open spec fn trimmed_block(ls: Seq<Seq<char>>, a: int, b: int) -> Seq<Seq<char>> {
    Seq::new((b - a) as nat, |k: int| trim_end(ls[a + k]))
}

/// The first `error…` block of rustc's output, up to the first blank line, each line's
/// trailing whitespace dropped; a plain sentence where there is none.
pub open spec fn first_error_spec(stderr: Seq<char>) -> Seq<char> {
    let ls = lines(stderr);
    let a = error_line(ls, 0);
    let b = blank_line(ls, a);
    let out = join_lines(trimmed_block(ls, a, b));
    if out.len() == 0 {
        "the build failed"@
    } else {
        out
    }
}

/// A line that is not blank keeps something when only its trailing whitespace goes.
pub proof fn lemma_trim_end_keeps(l: Seq<char>)
    requires
        trim(l).len() != 0,
    ensures
        trim_end(l).len() != 0,
{
    lemma_skip_ws(l, 0);
    let a = skip_ws(l, 0);
    lemma_back_ws(l, a, l.len() as int);
    lemma_back_ws(l, 0, l.len() as int);
    let b = back_ws(l, a, l.len() as int);
    assert(b > a);
    assert(!crate::text::is_ws(l[b - 1]));
    if back_ws(l, 0, l.len() as int) == 0 {
        assert(crate::text::is_ws(l[b - 1]));
    }
}

pub proof fn lemma_join_nonempty(ls: Seq<Seq<char>>)
    requires
        ls.len() > 0,
        ls[0].len() > 0,
    ensures
        join_lines(ls).len() > 0,
    decreases ls.len(),
{
    if ls.len() > 1 {
        lemma_join_nonempty(ls.drop_last());
    }
}

/// The first `error…` block from rustc, up to the first blank line.
pub fn first_error(stderr: &str) -> (out: String)
    ensures
        out@ == first_error_spec(stderr@),
{
    let src = chars_of(stderr);
    let ls = lines_exec(src.as_slice());
    let ghost all = views(ls@);
    proof {
        lemma_error_line(all, 0);
    }
    let error = chars_of("error");
    let mut a: usize = 0;
    while a < ls.len() && !starts_with_exec(ls[a].as_slice(), error.as_slice())
        invariant
            a <= ls.len(),
            all == views(ls@),
            error@ == "error"@,
            error_line(all, a as int) == error_line(all, 0),
            all == lines(src@),
            src@ == stderr@,
        decreases ls.len() - a,
    {
        assert(all[a as int] == ls@[a as int]@);
        a += 1;
    }
    proof {
        if a < ls.len() {
            assert(all[a as int] == ls@[a as int]@);
        }
        lemma_blank_line(all, a as int);
    }
    let mut out: Vec<char> = Vec::new();
    let mut b = a;
    loop
        invariant
            a <= b <= ls.len(),
            all == views(ls@),
            blank_line(all, b as int) == blank_line(all, a as int),
            b <= blank_line(all, a as int),
            out@ == join_lines(trimmed_block(all, a as int, b as int)),
            all == lines(src@),
            src@ == stderr@,
            a == error_line(all, 0),
        ensures
            b == blank_line(all, a as int),
            out@ == join_lines(trimmed_block(all, a as int, b as int)),
        decreases ls.len() - b,
    {
        if b >= ls.len() {
            break;
        }
        assert(all[b as int] == ls@[b as int]@);
        let t = trim_exec(ls[b].as_slice());
        if t.len() == 0 {
            break;
        }
        proof {
            lemma_blank_line(all, b + 1);
        }
        let ghost before = trimmed_block(all, a as int, b as int);
        if out.len() > 0 {
            out.push('\n');
        }
        let te = trim_end_exec(ls[b].as_slice());
        append_chars(&mut out, te.as_slice());
        b += 1;
        proof {
            let after = trimmed_block(all, a as int, b as int);
            assert(after.drop_last() =~= before);
            assert(after.last() == te@);
            if before.len() > 0 {
                lemma_trim_end_keeps(all[a as int]);
                assert(before[0] == trim_end(all[a as int]));
                lemma_join_nonempty(before);
            }
        }
    }
    if out.len() == 0 {
        String::from_str("the build failed")
    } else {
        string_of(out.as_slice())
    }
}

} // verus!
