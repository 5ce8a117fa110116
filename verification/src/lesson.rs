//! The words around an exercise: its display name, the instructions taken from the comments
//! of its source, and its hint.
use vstd::prelude::*;
use crate::text::{
    append_chars, append_str, chars_of, contains, find, find_from_exec, is_ascii_digit, is_digit,
    lemma_find_from, lines, lines_exec, slice_of, starts_with, string_of, trim, trim_end,
    trim_end_exec, trim_exec, trim_start, trim_start_exec, views,
    string_views, is_ws, skip_ws, back_ws, lemma_skip_ws, lemma_back_ws,
};

verus! {

// ───────────────────────────── display names ─────────────────────────────

/// What `char::to_uppercase` yields for `c`.
pub uninterp spec fn char_uppercase(c: char) -> Seq<char>;

/// The uppercase mapping of one character, one or more characters long.
/// Trusted: `char::to_uppercase`, collected. Its result is named `char_uppercase`; beyond the
/// name only the mapping of the ASCII lowercase letters `a`..`z` to `A`..`Z` is stated.
#[verifier::external_body]
fn to_uppercase(c: char) -> (r: Vec<char>)
    ensures
        r@ == char_uppercase(c),
        0x61 <= (c as u32) <= 0x7a ==> r@ == seq![((c as u32) - 32) as char],
{
    c.to_uppercase().collect()
}

/// Walking back from `j`, the first end that follows no ASCII digit.
pub open spec fn digits_back(s: Seq<char>, j: int) -> int
    decreases j,
{
    if 0 < j <= s.len() && is_digit(s[j - 1]) {
        digits_back(s, j - 1)
    } else {
        j
    }
}

pub proof fn lemma_digits_back(s: Seq<char>, j: int)
    requires
        0 <= j <= s.len(),
    ensures
        0 <= digits_back(s, j) <= j,
    decreases j,
{
    if 0 < j && is_digit(s[j - 1]) {
        lemma_digits_back(s, j - 1);
    }
}

/// `lesson12` shown as `Lesson 12`: the trailing digits split off behind a space, the first
/// character of the word replaced by `upper`, its uppercase form.
pub open spec fn display_name_with(s: Seq<char>, upper: Seq<char>) -> Seq<char> {
    let k = digits_back(s, s.len() as int);
    let word = s.subrange(0, k);
    let number = s.subrange(k, s.len() as int);
    let head = if word.len() == 0 {
        Seq::<char>::empty()
    } else {
        upper + word.drop_first()
    };
    if number.len() == 0 {
        head
    } else {
        head + seq![' '] + number
    }
}

/// The uppercase form of the first character of `s`, as `char::to_uppercase` gives it.
pub open spec fn first_upper(s: Seq<char>) -> Seq<char> {
    if s.len() > 0 {
        char_uppercase(s[0])
    } else {
        Seq::empty()
    }
}

pub open spec fn display_name_spec(s: Seq<char>) -> Seq<char> {
    display_name_with(s, first_upper(s))
}

/// The uppercase of an ASCII lowercase letter: 32 code points down.
pub open spec fn ascii_upper(c: char) -> Seq<char> {
    seq![((c as u32) - 32) as char]
}

/// Shows `name` as a title, given `upper`, the uppercase form of its first character.
pub fn display_name_from(name: &str, upper: &[char]) -> (out: String)
    ensures
        out@ == display_name_with(name@, upper@),
{
    let s = chars_of(name);
    proof {
        lemma_digits_back(s@, s@.len() as int);
    }
    let mut k = s.len();
    while k > 0 && is_ascii_digit(s[k - 1])
        invariant
            k <= s.len(),
            digits_back(s@, k as int) == digits_back(s@, s@.len() as int),
        decreases k,
    {
        k -= 1;
    }
    let mut out: Vec<char> = Vec::new();
    if k > 0 {
        append_chars(&mut out, upper);
        let rest = slice_of(s.as_slice(), 1, k);
        append_chars(&mut out, rest.as_slice());
        assert(rest@ == s@.subrange(0, k as int).drop_first());
    }
    if k < s.len() {
        out.push(' ');
        let number = slice_of(s.as_slice(), k, s.len());
        append_chars(&mut out, number.as_slice());
    }
    assert(out@ =~= display_name_with(s@, upper@));
    string_of(out.as_slice())
}

/// `lesson1` is a fine binary name and a poor title: shows it as `Lesson 1`.
pub fn display_name(name: &str) -> (out: String)
    ensures
        out@ == display_name_spec(name@),
        name@.len() > 0 && 'a' <= name@[0] <= 'z' ==> out@ == display_name_with(
            name@,
            ascii_upper(name@[0]),
        ),
{
    let s = chars_of(name);
    let upper = if s.len() > 0 {
        to_uppercase(s[0])
    } else {
        Vec::new()
    };
    assert(upper@ == first_upper(name@));
    display_name_from(name, upper.as_slice())
}

// ───────────────────────────── paragraphs ─────────────────────────────

/// A line that starts with a space is preformatted.
pub open spec fn is_pre(l: Seq<char>) -> bool {
    l.len() > 0 && l[0] == ' '
}

/// Joining hard-wrapped lines, one at a time: the text so far, and whether the last line
/// was preformatted. A blank line becomes a paragraph break; other lines join the text
/// after a space, or after a line break where either side is preformatted, with their
/// trailing whitespace dropped.
pub open spec fn unwrap_fold(ls: Seq<Seq<char>>) -> (Seq<char>, bool)
    decreases ls.len(),
{
    if ls.len() == 0 {
        (Seq::<char>::empty(), false)
    } else {
        let prev = unwrap_fold(ls.drop_last());
        let out = prev.0;
        let l = ls.last();
        let pre = is_pre(l);
        let next = if trim(l).len() == 0 {
            out + seq!['\n', '\n']
        } else {
            let sep = if out.len() > 0 && out.last() != '\n' {
                seq![
                    if pre || prev.1 {
                        '\n'
                    } else {
                        ' '
                    },
                ]
            } else {
                Seq::<char>::empty()
            };
            out + sep + trim_end(l)
        };
        (next, pre)
    }
}

pub open spec fn unwrap_spec(ls: Seq<Seq<char>>) -> Seq<char> {
    unwrap_fold(ls).0
}

/// Pieces joined with one space between each two.
pub open spec fn spaced(xs: Seq<Seq<char>>) -> Seq<char>
    decreases xs.len(),
{
    if xs.len() == 0 {
        Seq::empty()
    } else if xs.len() == 1 {
        xs[0]
    } else {
        spaced(xs.drop_last()) + seq![' '] + xs.last()
    }
}

/// A line with text in it keeps some after its trailing whitespace goes, ending in no
/// whitespace.
proof fn lemma_trim_end_kept(l: Seq<char>)
    requires
        trim(l).len() > 0,
    ensures
        trim_end(l).len() > 0,
        !is_ws(trim_end(l).last()),
{
    lemma_skip_ws(l, 0);
    let a = skip_ws(l, 0);
    lemma_back_ws(l, a, l.len() as int);
    lemma_back_ws(l, 0, l.len() as int);
    let b = back_ws(l, 0, l.len() as int);
    assert(a < l.len() && !is_ws(l[a]));
    if b == 0 {
        assert(is_ws(l[a]));
    }
    assert(trim_end(l).last() == l[b - 1]);
}

/// Hard-wrapped prose joins up into one paragraph: where no line is blank or indented, the
/// lines, their trailing whitespace dropped, joined by single spaces; no lines at all give no
/// text.
pub proof fn lemma_unwrap_prose(ls: Seq<Seq<char>>)
    requires
        forall|i: int| 0 <= i < ls.len() ==> trim(#[trigger] ls[i]).len() > 0 && !is_pre(ls[i]),
    ensures
        unwrap_spec(ls) == spaced(Seq::new(ls.len(), |i: int| trim_end(ls[i]))),
        unwrap_fold(ls).1 == false,
    decreases ls.len(),
{
    let xs = Seq::new(ls.len(), |i: int| trim_end(ls[i]));
    if ls.len() == 0 {
        assert(unwrap_spec(ls) =~= spaced(xs));
    } else {
        let init = ls.drop_last();
        assert forall|i: int| 0 <= i < init.len() implies trim(#[trigger] init[i]).len() > 0
            && !is_pre(init[i]) by {
            assert(init[i] == ls[i]);
        }
        lemma_unwrap_prose(init);
        let ys = Seq::new(init.len(), |i: int| trim_end(init[i]));
        assert(xs.drop_last() =~= ys);
        assert(trim(ls.last()).len() > 0);
        lemma_trim_end_kept(ls.last());
        if ls.len() == 1 {
            assert(unwrap_fold(init).0 =~= Seq::<char>::empty());
            assert(unwrap_spec(ls) =~= spaced(xs));
        } else {
            let prev = ls[ls.len() - 2];
            assert(prev == init.last());
            assert(trim(prev).len() > 0);
            lemma_trim_end_kept(prev);
            assert(ys.last() == trim_end(prev));
            if ys.len() == 1 {
                assert(spaced(ys) == ys[0]);
            } else {
                assert(spaced(ys) == spaced(ys.drop_last()) + seq![' '] + ys.last());
            }
            let out = unwrap_fold(init).0;
            assert(out.len() > 0 && out.last() == trim_end(prev).last());
            assert(is_ws('\n'));
            assert(unwrap_spec(ls) =~= spaced(xs));
        }
    }
}

/// A blank line adds exactly a paragraph break, `"\n\n"`, and nothing else.
pub proof fn lemma_unwrap_blank(ls: Seq<Seq<char>>, l: Seq<char>)
    requires
        trim(l).len() == 0,
    ensures
        unwrap_spec(ls.push(l)) == unwrap_spec(ls) + seq!['\n', '\n'],
{
    assert(ls.push(l).drop_last() =~= ls);
}

pub fn unwrap_chars(ls: &Vec<Vec<char>>) -> (out: Vec<char>)
    ensures
        out@ == unwrap_spec(views(ls@)),
{
    let ghost all = views(ls@);
    let mut out: Vec<char> = Vec::new();
    let mut prev_pre = false;
    let mut i: usize = 0;
    while i < ls.len()
        invariant
            i <= ls.len(),
            all == views(ls@),
            (out@, prev_pre) == unwrap_fold(all.take(i as int)),
        decreases ls.len() - i,
    {
        let l = &ls[i];
        let pre = l.len() > 0 && l[0] == ' ';
        assert(all.take(i + 1).drop_last() =~= all.take(i as int));
        assert(all.take(i + 1).last() == l@);
        let t = trim_exec(l.as_slice());
        if t.len() == 0 {
            out.push('\n');
            out.push('\n');
        } else {
            if out.len() > 0 && out[out.len() - 1] != '\n' {
                out.push(if pre || prev_pre { '\n' } else { ' ' });
            }
            let te = trim_end_exec(l.as_slice());
            append_chars(&mut out, te.as_slice());
        }
        prev_pre = pre;
        i += 1;
        assert((out@, prev_pre) =~= unwrap_fold(all.take(i as int)));
    }
    assert(all.take(ls.len() as int) =~= all);
    out
}

pub fn char_vecs_of(v: &[String]) -> (r: Vec<Vec<char>>)
    ensures
        views(r@) == string_views(v@),
{
    let mut r: Vec<Vec<char>> = Vec::new();
    let mut i: usize = 0;
    while i < v.len()
        invariant
            i <= v.len(),
            views(r@) == string_views(v@).take(i as int),
        decreases v.len() - i,
    {
        let c = chars_of(v[i].as_str());
        assert(c@ == string_views(v@)[i as int]);
        let ghost before = views(r@);
        r.push(c);
        assert(views(r@) =~= before + seq![c@]);
        i += 1;
        assert(views(r@) =~= string_views(v@).take(i as int));
    }
    assert(string_views(v@).take(v.len() as int) =~= string_views(v@));
    r
}

/// Joins hard-wrapped comment lines so that a paragraph can re-wrap to its panel.
/// Indented lines are preformatted (a key table, say) and keep their row.
pub fn unwrap_paragraphs(lines: &[String]) -> (out: String)
    ensures
        out@ == unwrap_spec(string_views(lines@)),
{
    let ls = char_vecs_of(lines);
    let out = unwrap_chars(&ls);
    string_of(out.as_slice())
}

// ───────────────────────────── instructions ─────────────────────────────

/// The text of a `//` comment line: after leading whitespace and the `//`, with one space
/// after the slashes dropped.
pub open spec fn comment_of(l: Seq<char>) -> Option<Seq<char>> {
    let t = trim_start(l);
    if starts_with(t, seq!['/', '/']) {
        let r = t.skip(2);
        Some(
            if r.len() > 0 && r[0] == ' ' {
                r.skip(1)
            } else {
                r
            },
        )
    } else {
        None
    }
}

/// The first index at or after `i` whose line is no comment.
pub open spec fn comment_run(ls: Seq<Seq<char>>, i: int) -> int
    decreases ls.len() - i,
{
    if 0 <= i < ls.len() && comment_of(ls[i]) is Some {
        comment_run(ls, i + 1)
    } else {
        i
    }
}

/// The first index at or after `i` whose line holds `// TODO`.
pub open spec fn todo_line(ls: Seq<Seq<char>>, i: int) -> int
    decreases ls.len() - i,
{
    if 0 <= i < ls.len() && !contains(ls[i], "// TODO"@) {
        todo_line(ls, i + 1)
    } else {
        i
    }
}

pub proof fn lemma_comment_run(ls: Seq<Seq<char>>, i: int)
    requires
        0 <= i <= ls.len(),
    ensures
        i <= comment_run(ls, i) <= ls.len(),
        forall|k: int| i <= k < comment_run(ls, i) ==> comment_of(#[trigger] ls[k]) is Some,
    decreases ls.len() - i,
{
    if i < ls.len() && comment_of(ls[i]) is Some {
        lemma_comment_run(ls, i + 1);
    }
}

pub proof fn lemma_todo_line(ls: Seq<Seq<char>>, i: int)
    requires
        0 <= i <= ls.len(),
    ensures
        i <= todo_line(ls, i) <= ls.len(),
    decreases ls.len() - i,
{
    if i < ls.len() && !contains(ls[i], "// TODO"@) {
        lemma_todo_line(ls, i + 1);
    }
}

/// The comment texts of the lines `a..b`.
pub open spec fn comments(ls: Seq<Seq<char>>, a: int, b: int) -> Seq<Seq<char>> {
    Seq::new((b - a) as nat, |k: int| comment_of(ls[a + k])->0)
}

/// The instructions of a source file: its leading `//` block, then the `//` block that starts
/// at the first line holding `// TODO` after it; each unwrapped into paragraphs, with a
/// paragraph break between the two.
pub open spec fn instructions_spec(source: Seq<char>) -> Seq<char> {
    let ls = lines(source);
    let s = comment_run(ls, 0);
    let t = todo_line(ls, s);
    let e = comment_run(ls, t);
    let story = unwrap_spec(comments(ls, 0, s));
    if e == t {
        story
    } else {
        story + seq!['\n', '\n'] + unwrap_spec(comments(ls, t, e))
    }
}

fn comment_exec(l: &[char]) -> (r: Option<Vec<char>>)
    ensures
        r matches Some(v) ==> comment_of(l@) == Some(v@),
        r is None ==> comment_of(l@) is None,
{
    let t = trim_start_exec(l);
    if t.len() >= 2 && t[0] == '/' && t[1] == '/' {
        let start = if t.len() > 2 && t[2] == ' ' {
            3
        } else {
            2
        };
        let r = slice_of(t.as_slice(), start, t.len());
        assert(r@ =~= comment_of(l@)->0);
        Some(r)
    } else {
        assert(!starts_with(t@, seq!['/', '/'])) by {
            if t@.len() >= 2 {
                if t@[0] != '/' {
                    assert(t@[0int + 0int] != seq!['/', '/'][0]);
                } else {
                    assert(t@[0int + 1int] != seq!['/', '/'][1]);
                }
            }
        }
        None
    }
}

/// Appends the comment texts of `ls[i..]` for as long as the lines are comments, and returns
/// where the run ended.
fn collect_comments(ls: &Vec<Vec<char>>, i: usize, out: &mut Vec<Vec<char>>) -> (e: usize)
    requires
        i <= ls.len(),
        old(out)@.len() == 0,
    ensures
        e as int == comment_run(views(ls@), i as int),
        views(final(out)@) == comments(views(ls@), i as int, e as int),
{
    let ghost all = views(ls@);
    proof {
        lemma_comment_run(all, i as int);
    }
    let mut k = i;
    loop
        invariant
            i <= k <= ls.len(),
            all == views(ls@),
            comment_run(all, k as int) == comment_run(all, i as int),
            views(out@) == comments(all, i as int, k as int),
        decreases ls.len() - k,
    {
        if k >= ls.len() {
            return k;
        }
        assert(all[k as int] == ls@[k as int]@);
        match comment_exec(ls[k].as_slice()) {
            Some(c) => {
                let ghost before = views(out@);
                out.push(c);
                assert(views(out@) =~= before + seq![c@]);
                k += 1;
                assert(views(out@) =~= comments(all, i as int, k as int));
            },
            None => {
                return k;
            },
        }
    }
}

/// The leading `//` block of the file, then the first `// TODO` block. Blank comment lines
/// become paragraph breaks.
pub fn instructions(source: &str) -> (out: String)
    ensures
        out@ == instructions_spec(source@),
{
    let src = chars_of(source);
    let ls = lines_exec(src.as_slice());
    let ghost all = views(ls@);
    let mut story: Vec<Vec<char>> = Vec::new();
    let s = collect_comments(&ls, 0, &mut story);
    proof {
        lemma_comment_run(all, 0);
        lemma_todo_line(all, s as int);
    }
    let todo_pat = chars_of("// TODO");
    let mut t = s;
    while t < ls.len() && find_from_exec(ls[t].as_slice(), todo_pat.as_slice(), 0).is_none()
        invariant
            s <= t <= ls.len(),
            all == views(ls@),
            todo_pat@ == "// TODO"@,
            todo_line(all, t as int) == todo_line(all, s as int),
        decreases ls.len() - t,
    {
        t += 1;
    }
    let mut todo: Vec<Vec<char>> = Vec::new();
    let e = collect_comments(&ls, t, &mut todo);
    let mut out = unwrap_chars(&story);
    if e != t {
        out.push('\n');
        out.push('\n');
        let rest = unwrap_chars(&todo);
        append_chars(&mut out, rest.as_slice());
    }
    assert(out@ =~= instructions_spec(src@));
    string_of(out.as_slice())
}

// ───────────────────────────── hints ─────────────────────────────

/// The hint for `name` in the text of `info.toml`: after the first `name = "<name>"`, the body
/// of the first `hint = """…"""` that follows, unwrapped into paragraphs and trimmed; `None`
/// where the name, the opening or the closing quotes are missing.
pub open spec fn hint_spec(info: Seq<char>, name: Seq<char>) -> Option<Seq<char>> {
    let key = "name = \""@ + name + "\""@;
    match find(info, key) {
        None => None,
        Some(start) => {
            let after = info.skip(start);
            match find(after, "hint = \"\"\""@) {
                None => None,
                Some(h) => {
                    let body = after.skip(h + "hint = \"\"\""@.len());
                    match find(body, "\"\"\""@) {
                        None => None,
                        Some(q) => Some(trim(unwrap_spec(lines(body.take(q))))),
                    }
                },
            }
        },
    }
}

/// The body of the hint for `name` in the text of `info.toml`: what stands between the first
/// `hint = """` after the first `name = "<name>"` and the next `"""`.
pub open spec fn hint_body(info: Seq<char>, name: Seq<char>) -> Option<Seq<char>> {
    match find(info, "name = \""@ + name + "\""@) {
        None => None,
        Some(a) => {
            let after = info.skip(a);
            match find(after, "hint = \"\"\""@) {
                None => None,
                Some(h) => {
                    let rest = after.skip(h + 10);
                    match find(rest, "\"\"\""@) {
                        None => None,
                        Some(q) => Some(rest.take(q)),
                    }
                },
            }
        },
    }
}

proof fn lemma_spaced_ends(xs: Seq<Seq<char>>)
    requires
        xs.len() > 0,
        forall|i: int| 0 <= i < xs.len() ==> (#[trigger] xs[i]).len() > 0,
    ensures
        spaced(xs).len() > 0,
        spaced(xs)[0] == xs[0][0],
        spaced(xs).last() == xs.last().last(),
    decreases xs.len(),
{
    if xs.len() > 1 {
        let init = xs.drop_last();
        assert forall|i: int| 0 <= i < init.len() implies (#[trigger] init[i]).len() > 0 by {
            assert(init[i] == xs[i]);
        }
        lemma_spaced_ends(init);
        assert(init[0] == xs[0]);
    }
}

/// A text that starts and ends with something other than whitespace is its own trim.
proof fn lemma_trim_unchanged(s: Seq<char>)
    requires
        s.len() > 0,
        !is_ws(s[0]),
        !is_ws(s.last()),
    ensures
        trim(s) == s,
{
    assert(skip_ws(s, 0) == 0);
    assert(back_ws(s, 0, s.len() as int) == s.len());
    assert(s.subrange(0, s.len() as int) =~= s);
}

/// Prose lines after a paragraph break (or at the very start) join the text so far with
/// single spaces between them.
proof fn lemma_unwrap_prose_after(pre: Seq<Seq<char>>, ls: Seq<Seq<char>>)
    requires
        unwrap_fold(pre).0.len() == 0 || unwrap_fold(pre).0.last() == '\n',
        forall|i: int| 0 <= i < ls.len() ==> trim(#[trigger] ls[i]).len() > 0 && !is_pre(ls[i]),
    ensures
        unwrap_fold(pre + ls).0 == unwrap_fold(pre).0 + spaced(
            Seq::new(ls.len(), |i: int| trim_end(ls[i])),
        ),
        ls.len() > 0 ==> unwrap_fold(pre + ls).1 == false,
    decreases ls.len(),
{
    let o = unwrap_fold(pre).0;
    let xs = Seq::new(ls.len(), |i: int| trim_end(ls[i]));
    if ls.len() == 0 {
        assert(pre + ls =~= pre);
        assert(o + spaced(xs) =~= o);
    } else {
        let init = ls.drop_last();
        assert forall|i: int| 0 <= i < init.len() implies trim(#[trigger] init[i]).len() > 0
            && !is_pre(init[i]) by {
            assert(init[i] == ls[i]);
        }
        lemma_unwrap_prose_after(pre, init);
        assert((pre + ls).drop_last() =~= pre + init);
        assert((pre + ls).last() == ls.last());
        let ys = Seq::new(init.len(), |i: int| trim_end(init[i]));
        assert(xs.drop_last() =~= ys);
        lemma_trim_end_kept(ls.last());
        if ls.len() == 1 {
            assert(spaced(ys) =~= Seq::<char>::empty());
            assert(unwrap_fold(pre + ls).0 =~= o + spaced(xs));
        } else {
            let prev = ls[ls.len() - 2];
            assert(prev == init.last());
            lemma_trim_end_kept(prev);
            assert(ys.last() == trim_end(prev));
            if ys.len() == 1 {
                assert(spaced(ys) == ys[0]);
            } else {
                assert(spaced(ys) == spaced(ys.drop_last()) + seq![' '] + ys.last());
            }
            let out = unwrap_fold(pre + init).0;
            assert(out.len() > 0 && out.last() == trim_end(prev).last());
            assert(is_ws('\n'));
            assert(unwrap_fold(pre + ls).0 =~= o + spaced(xs));
        }
    }
}

/// Whitespace before a text that starts and ends with something else is what trimming drops.
proof fn lemma_trim_after_ws(w: Seq<char>, s: Seq<char>)
    requires
        forall|k: int| 0 <= k < w.len() ==> is_ws(#[trigger] w[k]),
        s.len() > 0,
        !is_ws(s[0]),
        !is_ws(s.last()),
    ensures
        trim(w + s) == s,
{
    let t = w + s;
    lemma_skip_ws(t, 0);
    let a = skip_ws(t, 0);
    if a < w.len() {
        assert(t[a] == w[a]);
    }
    if a > w.len() {
        assert(t[w.len() as int] == s[0]);
    }
    assert(a == w.len());
    assert(t[t.len() - 1] == s.last());
    assert(back_ws(t, a, t.len() as int) == t.len());
    assert(t.subrange(a, t.len() as int) =~= s);
}

/// A hint whose body opens with a blank line, as `info.toml` writes them, is every line after
/// it: where those are prose (none blank, indented or starting with whitespace), all of them,
/// their trailing whitespace dropped, joined by single spaces.
pub proof fn lemma_hint_after_break(info: Seq<char>, name: Seq<char>)
    ensures
        hint_body(info, name) matches Some(body) ==> ({
            let ls = lines(body);
            ls.len() >= 2 && trim(ls[0]).len() == 0 && (forall|i: int|
                1 <= i < ls.len() ==> trim(#[trigger] ls[i]).len() > 0 && !is_ws(ls[i][0]))
                ==> hint_spec(info, name) == Some(
                spaced(Seq::new((ls.len() - 1) as nat, |i: int| trim_end(ls[i + 1]))),
            )
        }),
{
    reveal_strlit("hint = \"\"\"");
    assert("hint = \"\"\""@.len() == 10);
    if let Some(body) = hint_body(info, name) {
        let ls = lines(body);
        if ls.len() >= 2 && trim(ls[0]).len() == 0 && (forall|i: int|
            1 <= i < ls.len() ==> trim(#[trigger] ls[i]).len() > 0 && !is_ws(ls[i][0])) {
            let pre = ls.take(1);
            let rest = ls.skip(1);
            assert(pre + rest =~= ls);
            assert forall|i: int| 0 <= i < rest.len() implies trim(#[trigger] rest[i]).len() > 0
                && !is_pre(rest[i]) by {
                assert(rest[i] == ls[i + 1]);
                assert(!is_ws(ls[i + 1][0]));
                assert(is_ws(' '));
            }
            assert(pre.drop_last() =~= Seq::<Seq<char>>::empty());
            assert(pre.last() == ls[0]);
            assert(unwrap_fold(Seq::<Seq<char>>::empty()).0 =~= Seq::<char>::empty());
            assert(unwrap_fold(pre).0 =~= seq!['\n', '\n']);
            lemma_unwrap_prose_after(pre, rest);
            let xs = Seq::new(rest.len(), |i: int| trim_end(rest[i]));
            assert(xs =~= Seq::new((ls.len() - 1) as nat, |i: int| trim_end(ls[i + 1])));
            assert(hint_spec(info, name) == Some(trim(unwrap_spec(ls))));
            assert forall|i: int| 0 <= i < xs.len() implies (#[trigger] xs[i]).len() > 0 by {
                lemma_trim_end_kept(rest[i]);
            }
            lemma_spaced_ends(xs);
            lemma_trim_end_kept(rest[0]);
            lemma_trim_end_kept(rest.last());
            lemma_back_ws(rest[0], 0, rest[0].len() as int);
            assert(xs[0] == trim_end(rest[0]));
            assert(trim_end(rest[0])[0] == rest[0][0]);
            assert(!is_ws(rest[0][0]));
            assert(xs.last() == trim_end(rest.last()));
            assert(is_ws('\n'));
            lemma_trim_after_ws(seq!['\n', '\n'], spaced(xs));
        }
    }
}

/// A hint is every line of its body: where the body's lines are prose (none blank, indented
/// or starting with whitespace), the hint is all of them, their trailing whitespace dropped,
/// joined by single spaces. A hint is there exactly where its body is.
pub proof fn lemma_hint_is_every_line(info: Seq<char>, name: Seq<char>)
    ensures
        hint_spec(info, name) is Some <==> hint_body(info, name) is Some,
        hint_body(info, name) matches Some(body) ==> ((forall|i: int|
            0 <= i < lines(body).len() ==> trim(#[trigger] lines(body)[i]).len() > 0 && !is_ws(
                lines(body)[i][0],
            )) ==> hint_spec(info, name) == Some(
            spaced(Seq::new(lines(body).len(), |i: int| trim_end(lines(body)[i]))),
        )),
{
    reveal_strlit("hint = \"\"\"");
    assert("hint = \"\"\""@.len() == 10);
    if let Some(body) = hint_body(info, name) {
        let ls = lines(body);
        if forall|i: int| 0 <= i < ls.len() ==> trim(#[trigger] ls[i]).len() > 0 && !is_ws(ls[i][0]) {
            assert forall|i: int| 0 <= i < ls.len() implies trim(#[trigger] ls[i]).len() > 0
                && !is_pre(ls[i]) by {
                assert(!is_ws(ls[i][0]));
                assert(is_ws(' '));
            }
            lemma_unwrap_prose(ls);
            let xs = Seq::new(ls.len(), |i: int| trim_end(ls[i]));
            assert(hint_spec(info, name) == Some(trim(unwrap_spec(ls))));
            if ls.len() > 0 {
                assert forall|i: int| 0 <= i < xs.len() implies (#[trigger] xs[i]).len() > 0 by {
                    lemma_trim_end_kept(ls[i]);
                }
                lemma_spaced_ends(xs);
                lemma_trim_end_kept(ls[0]);
                lemma_trim_end_kept(ls.last());
                assert(xs[0] == trim_end(ls[0]));
                lemma_back_ws(ls[0], 0, ls[0].len() as int);
                assert(trim_end(ls[0])[0] == ls[0][0]);
                assert(xs[0][0] == ls[0][0]);
                assert(xs.last() == trim_end(ls.last()));
                lemma_trim_unchanged(spaced(xs));
            } else {
                assert(spaced(xs) =~= Seq::<char>::empty());
                assert(trim(spaced(xs)) =~= spaced(xs));
            }
        }
    }
}

/// Pulls `hint = """…"""` for `name` out of the text of `info.toml`. The file's shape is fixed,
/// so a scan is enough.
pub fn hint(info: &str, name: &str) -> (r: Option<String>)
    ensures
        r matches Some(h) ==> hint_spec(info@, name@) == Some(h@),
        r is None ==> hint_spec(info@, name@) is None,
{
    let inf = chars_of(info);
    let mut key = chars_of("name = \"");
    append_str(&mut key, name);
    append_str(&mut key, "\"");
    let start = match find_from_exec(inf.as_slice(), key.as_slice(), 0) {
        None => {
            return None;
        },
        Some(i) => i,
    };
    proof {
        lemma_find_from(inf@, key@, 0);
    }
    let after = slice_of(inf.as_slice(), start, inf.len());
    assert(after@ =~= inf@.skip(start as int));
    let open = chars_of("hint = \"\"\"");
    let h = match find_from_exec(after.as_slice(), open.as_slice(), 0) {
        None => {
            return None;
        },
        Some(i) => i,
    };
    proof {
        lemma_find_from(after@, open@, 0);
    }
    let body = slice_of(after.as_slice(), h + open.len(), after.len());
    assert(body@ =~= after@.skip(h + "hint = \"\"\""@.len()));
    let close = chars_of("\"\"\"");
    let q = match find_from_exec(body.as_slice(), close.as_slice(), 0) {
        None => {
            return None;
        },
        Some(i) => i,
    };
    proof {
        lemma_find_from(body@, close@, 0);
    }
    let inner = slice_of(body.as_slice(), 0, q);
    assert(inner@ =~= body@.take(q as int));
    let ls = lines_exec(inner.as_slice());
    let joined = unwrap_chars(&ls);
    let t = trim_exec(joined.as_slice());
    Some(string_of(t.as_slice()))
}

/// What a lesson shows where `info.toml` has no hint for it.
pub open spec fn no_hint() -> Seq<char> {
    "No hint for this one — you've got this."@
}

/// The words around an exercise: the story at the top of the file, the TODO inside `render`,
/// and the hint from `info.toml`.
pub struct Lesson {
    pub instructions: String,
    pub hint: String,
}

impl Lesson {
    pub fn for_exercise(name: &str, source: &str, info: &str) -> (l: Lesson)
        ensures
            l.instructions@ == instructions_spec(source@),
            l.hint@ == (match hint_spec(info@, name@) {
                Some(h) => h,
                None => no_hint(),
            }),
    {
        let instructions = instructions(source);
        let hint = match hint(info, name) {
            Some(h) => h,
            None => String::from_str("No hint for this one — you've got this."),
        };
        Lesson { instructions, hint }
    }
}

} // verus!
