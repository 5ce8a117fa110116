//! What the student has tried so far. Lesson 0 shows this as a checklist that ticks off
//! live; every other lesson ignores it.
use vstd::prelude::*;
use crate::text::{append_str, chars_of, join_lines, lemma_lines_join, lines, string_of, strip_cr};

verus! {

pub struct Tour {
    pub closed_pane: bool,
    pub to_canvas: bool,
    pub back_to_ratlings: bool,
    pub hint: bool,
    pub ran_tests: bool,
    pub passed: bool,
}

impl Default for Tour {
    fn default() -> (t: Tour)
        ensures
            t == Tour::fresh(),
    {
        Tour {
            closed_pane: false,
            to_canvas: false,
            back_to_ratlings: false,
            hint: false,
            ran_tests: false,
            passed: false,
        }
    }
}

pub open spec fn bit(b: bool) -> char {
    if b {
        '1'
    } else {
        '0'
    }
}

/// The flag at `i` of an encoded tour: set where the character there is `'1'`.
pub open spec fn flag_at(s: Seq<char>, i: int) -> bool {
    0 <= i < s.len() && s[i] == '1'
}

pub open spec fn mark(done: bool) -> Seq<char> {
    if done {
        "✓"@
    } else {
        "○"@
    }
}

/// What follows the tick or the circle on a checklist row: the key in backticks padded to
/// four columns, and what it does.
pub open spec fn item_label(key: Seq<char>, what: Seq<char>) -> Seq<char> {
    let shown = if key.len() == 0 {
        Seq::<char>::empty()
    } else {
        seq!['`'] + key + seq!['`']
    };
    let pad = Seq::new(if key.len() < 4 {
        (4 - key.len()) as nat
    } else {
        0
    }, |i: int| ' ');
    seq![' '] + shown + pad + seq![' '] + what
}

/// One row of the checklist: a line break, the tick or the circle, the key in backticks padded
/// to four columns, and what it does.
pub open spec fn checklist_item(done: bool, key: Seq<char>, what: Seq<char>) -> Seq<char> {
    seq!['\n', ' '] + mark(done) + item_label(key, what)
}

impl Tour {
    pub open spec fn fresh() -> Tour {
        Tour {
            closed_pane: false,
            to_canvas: false,
            back_to_ratlings: false,
            hint: false,
            ran_tests: false,
            passed: false,
        }
    }

    /// The six flags in order, each `'1'` or `'0'`.
    pub open spec fn code(&self) -> Seq<char> {
        seq![
            bit(self.closed_pane),
            bit(self.to_canvas),
            bit(self.back_to_ratlings),
            bit(self.hint),
            bit(self.ran_tests),
            bit(self.passed),
        ]
    }

    /// The tour that an encoding stands for: each flag is set where its character is `'1'`;
    /// a missing character leaves it clear.
    pub open spec fn decoded(s: Seq<char>) -> Tour {
        Tour {
            closed_pane: flag_at(s, 0),
            to_canvas: flag_at(s, 1),
            back_to_ratlings: flag_at(s, 2),
            hint: flag_at(s, 3),
            ran_tests: flag_at(s, 4),
            passed: flag_at(s, 5),
        }
    }

    pub open spec fn checklist_spec(&self) -> Seq<char> {
        "Your tour:"@ + checklist_item(
            self.closed_pane,
            "esc"@,
            "close this pane and look at the canvas"@,
        ) + checklist_item(self.to_canvas, "C-g"@, "hand the keyboard to your app"@)
            + checklist_item(self.back_to_ratlings, "C-g"@, "bring ratlings back"@)
            + checklist_item(self.hint, "h"@, "read the hint"@) + checklist_item(
            self.ran_tests,
            "?"@,
            "run the tests"@,
        ) + checklist_item(
            self.passed,
            ""@,
            "make them pass (edit the file, then `?` again)"@,
        )
    }

    pub fn encode(&self) -> (s: String)
        ensures
            s@ == self.code(),
    {
        let mut v: Vec<char> = Vec::new();
        v.push(if self.closed_pane { '1' } else { '0' });
        v.push(if self.to_canvas { '1' } else { '0' });
        v.push(if self.back_to_ratlings { '1' } else { '0' });
        v.push(if self.hint { '1' } else { '0' });
        v.push(if self.ran_tests { '1' } else { '0' });
        v.push(if self.passed { '1' } else { '0' });
        assert(v@ =~= self.code());
        string_of(v.as_slice())
    }

    pub fn decode(s: &str) -> (t: Tour)
        ensures
            t == Tour::decoded(s@),
    {
        let b = chars_of(s);
        Tour {
            closed_pane: b.len() > 0 && b[0] == '1',
            to_canvas: b.len() > 1 && b[1] == '1',
            back_to_ratlings: b.len() > 2 && b[2] == '1',
            hint: b.len() > 3 && b[3] == '1',
            ran_tests: b.len() > 4 && b[4] == '1',
            passed: b.len() > 5 && b[5] == '1',
        }
    }

    pub fn checklist(&self) -> (s: String)
        ensures
            s@ == self.checklist_spec(),
    {
        let mut out = chars_of("Your tour:");
        push_item(&mut out, self.closed_pane, "esc", "close this pane and look at the canvas");
        push_item(&mut out, self.to_canvas, "C-g", "hand the keyboard to your app");
        push_item(&mut out, self.back_to_ratlings, "C-g", "bring ratlings back");
        push_item(&mut out, self.hint, "h", "read the hint");
        push_item(&mut out, self.ran_tests, "?", "run the tests");
        push_item(&mut out, self.passed, "", "make them pass (edit the file, then `?` again)");
        string_of(out.as_slice())
    }
}

/// Decoding what `encode` wrote gives the same tour back.
pub proof fn lemma_decode_encode(t: Tour)
    ensures
        Tour::decoded(t.code()) == t,
{
}

fn push_item(out: &mut Vec<char>, done: bool, key: &str, what: &str)
    ensures
        final(out)@ == old(out)@ + checklist_item(done, key@, what@),
{
    let ghost start = out@;
    let k = chars_of(key);
    out.push('\n');
    out.push(' ');
    if done {
        append_str(out, "✓");
    } else {
        append_str(out, "○");
    }
    out.push(' ');
    if k.len() > 0 {
        out.push('`');
        append_str(out, key);
        out.push('`');
    }
    let pad: usize = if k.len() < 4 {
        4 - k.len()
    } else {
        0
    };
    let ghost before_pad = out@;
    let mut i: usize = 0;
    while i < pad
        invariant
            i <= pad,
            out@ == before_pad + Seq::new(i as nat, |j: int| ' '),
        decreases pad - i,
    {
        out.push(' ');
        i += 1;
        assert(out@ =~= before_pad + Seq::new(i as nat, |j: int| ' '));
    }
    out.push(' ');
    append_str(out, what);
    assert(out@ =~= start + checklist_item(done, key@, what@));
}

/// The tour's six flags, in the checklist's order.
pub open spec fn tour_flags(t: Tour) -> Seq<bool> {
    seq![t.closed_pane, t.to_canvas, t.back_to_ratlings, t.hint, t.ran_tests, t.passed]
}

/// What row `k` of the checklist says after its mark, the same whatever the flags.
pub open spec fn checklist_label(k: int) -> Seq<char> {
    if k == 0 {
        item_label("esc"@, "close this pane and look at the canvas"@)
    } else if k == 1 {
        item_label("C-g"@, "hand the keyboard to your app"@)
    } else if k == 2 {
        item_label("C-g"@, "bring ratlings back"@)
    } else if k == 3 {
        item_label("h"@, "read the hint"@)
    } else if k == 4 {
        item_label("?"@, "run the tests"@)
    } else {
        item_label(""@, "make them pass (edit the file, then `?` again)"@)
    }
}

/// Row `k` of the checklist, after the heading.
pub open spec fn checklist_row(t: Tour, k: int) -> Seq<char> {
    seq![' '] + mark(tour_flags(t)[k]) + checklist_label(k)
}

/// `s` holds no `c`.
pub open spec fn lacks(s: Seq<char>, c: char) -> bool {
    forall|k: int| 0 <= k < s.len() ==> s[k] != c
}

pub open spec fn no_break(s: Seq<char>) -> bool {
    lacks(s, '\n')
}

proof fn lemma_label_lacks(key: Seq<char>, what: Seq<char>, c: char)
    requires
        c != ' ',
        c != '`',
        lacks(key, c),
        lacks(what, c),
        what.len() > 0,
    ensures
        lacks(item_label(key, what), c),
        item_label(key, what).last() == what.last(),
{
    let l = item_label(key, what);
    assert forall|k: int| 0 <= k < l.len() implies l[k] != c by {
        let shown = if key.len() == 0 {
            Seq::<char>::empty()
        } else {
            seq!['`'] + key + seq!['`']
        };
        let pad = Seq::new(if key.len() < 4 {
            (4 - key.len()) as nat
        } else {
            0
        }, |i: int| ' ');
        let front = seq![' '] + shown + pad + seq![' '];
        assert(l == front + what);
        if k >= front.len() {
            assert(l[k] == what[k - front.len()]);
        } else if k >= 1 + shown.len() {
            assert(front[k] == ' ');
        } else if k >= 1 && key.len() > 0 {
            if k >= 2 && k < 2 + key.len() {
                assert(l[k] == key[k - 2]);
            }
        }
    }
}

/// Each row's text holds no line break and no tick, and ends in something other than `'\r'`.
proof fn lemma_label_plain(k: int)
    requires
        0 <= k < 6,
    ensures
        no_break(checklist_label(k)),
        lacks(checklist_label(k), '✓'),
        checklist_label(k).len() > 0,
        checklist_label(k).last() != '\r',
{
    let (key, what) = if k == 0 {
        reveal_strlit("esc");
        reveal_strlit("close this pane and look at the canvas");
        ("esc"@, "close this pane and look at the canvas"@)
    } else if k == 1 {
        reveal_strlit("C-g");
        reveal_strlit("hand the keyboard to your app");
        ("C-g"@, "hand the keyboard to your app"@)
    } else if k == 2 {
        reveal_strlit("C-g");
        reveal_strlit("bring ratlings back");
        ("C-g"@, "bring ratlings back"@)
    } else if k == 3 {
        reveal_strlit("h");
        reveal_strlit("read the hint");
        ("h"@, "read the hint"@)
    } else if k == 4 {
        reveal_strlit("?");
        reveal_strlit("run the tests");
        ("?"@, "run the tests"@)
    } else {
        reveal_strlit("");
        reveal_strlit("make them pass (edit the file, then `?` again)");
        (""@, "make them pass (edit the file, then `?` again)"@)
    };
    assert(checklist_label(k) == item_label(key, what));
    lemma_label_lacks(key, what, '\n');
    lemma_label_lacks(key, what, '✓');
}

proof fn lemma_marks()
    ensures
        mark(true) == seq!['✓'],
        mark(false) == seq!['○'],
{
    reveal_strlit("✓");
    reveal_strlit("○");
}

/// The heading and the six rows.
pub open spec fn checklist_rows(t: Tour) -> Seq<Seq<char>> {
    seq!["Your tour:"@] + Seq::new(6, |k: int| checklist_row(t, k))
}

proof fn lemma_join_push(ls: Seq<Seq<char>>, x: Seq<char>)
    requires
        ls.len() > 0,
    ensures
        join_lines(ls.push(x)) == join_lines(ls) + seq!['\n'] + x,
{
    assert(ls.push(x).drop_last() =~= ls);
}

proof fn lemma_item_row(t: Tour, k: int)
    requires
        0 <= k < 6,
    ensures
        seq!['\n'] + checklist_row(t, k) == (if k == 0 {
            checklist_item(t.closed_pane, "esc"@, "close this pane and look at the canvas"@)
        } else if k == 1 {
            checklist_item(t.to_canvas, "C-g"@, "hand the keyboard to your app"@)
        } else if k == 2 {
            checklist_item(t.back_to_ratlings, "C-g"@, "bring ratlings back"@)
        } else if k == 3 {
            checklist_item(t.hint, "h"@, "read the hint"@)
        } else if k == 4 {
            checklist_item(t.ran_tests, "?"@, "run the tests"@)
        } else {
            checklist_item(t.passed, ""@, "make them pass (edit the file, then `?` again)"@)
        }),
{
    assert(seq!['\n'] + checklist_row(t, k) =~= seq!['\n', ' '] + mark(tour_flags(t)[k])
        + checklist_label(k));
}

proof fn lemma_checklist_join(t: Tour)
    ensures
        join_lines(checklist_rows(t)) == t.checklist_spec(),
{
    let rows = checklist_rows(t);
    let h = seq!["Your tour:"@];
    let r0 = h.push(checklist_row(t, 0));
    let r1 = r0.push(checklist_row(t, 1));
    let r2 = r1.push(checklist_row(t, 2));
    let r3 = r2.push(checklist_row(t, 3));
    let r4 = r3.push(checklist_row(t, 4));
    let r5 = r4.push(checklist_row(t, 5));
    assert(r5 =~= rows);
    lemma_join_push(h, checklist_row(t, 0));
    lemma_join_push(r0, checklist_row(t, 1));
    lemma_join_push(r1, checklist_row(t, 2));
    lemma_join_push(r2, checklist_row(t, 3));
    lemma_join_push(r3, checklist_row(t, 4));
    lemma_join_push(r4, checklist_row(t, 5));
    lemma_item_row(t, 0);
    lemma_item_row(t, 1);
    lemma_item_row(t, 2);
    lemma_item_row(t, 3);
    lemma_item_row(t, 4);
    lemma_item_row(t, 5);
    assert(join_lines(h) == "Your tour:"@);
    assert(join_lines(r5) =~= t.checklist_spec());
}

/// The checklist reads row by row: seven lines, the heading `Your tour:` and then one row per
/// flag in order, each a tick (`✓`) where the flag is set and a circle (`○`) where it is not,
/// followed by a text that is the same whatever the flags.
pub proof fn lemma_checklist_rows(t: Tour)
    ensures
        lines(t.checklist_spec()).len() == 7,
        lines(t.checklist_spec())[0] == "Your tour:"@,
        forall|k: int| 0 <= k < 6 ==> lines(t.checklist_spec())[k + 1] == #[trigger] checklist_row(t, k),
        mark(true) == seq!['✓'],
        mark(false) == seq!['○'],
{
    lemma_marks();
    reveal_strlit("Your tour:");
    let rows = checklist_rows(t);
    assert forall|i: int, k: int| 0 <= i < rows.len() && 0 <= k < rows[i].len() implies #[trigger] rows[i][k]
        != '\n' by {
        if i > 0 {
            let r = checklist_row(t, i - 1);
            assert(rows[i] == r);
            lemma_label_plain(i - 1);
            if k >= 2 {
                assert(r[k] == checklist_label(i - 1)[k - 2]);
            }
        }
    }
    assert forall|i: int| 0 <= i < rows.len() implies strip_cr(#[trigger] rows[i]) == rows[i] by {
        if i > 0 {
            let r = checklist_row(t, i - 1);
            assert(rows[i] == r);
            lemma_label_plain(i - 1);
            assert(r.last() == checklist_label(i - 1).last());
        }
    }
    lemma_label_plain(5);
    assert(rows.last() == checklist_row(t, 5));
    lemma_lines_join(rows);
    lemma_checklist_join(t);
}

/// How many times `c` occurs in `s`.
pub open spec fn count_of(s: Seq<char>, c: char) -> nat
    decreases s.len(),
{
    if s.len() == 0 {
        0
    } else {
        count_of(s.drop_last(), c) + if s.last() == c {
            1nat
        } else {
            0
        }
    }
}

proof fn lemma_count_concat(a: Seq<char>, b: Seq<char>, c: char)
    ensures
        count_of(a + b, c) == count_of(a, c) + count_of(b, c),
    decreases b.len(),
{
    if b.len() == 0 {
        assert(a + b =~= a);
    } else {
        lemma_count_concat(a, b.drop_last(), c);
        assert((a + b).drop_last() =~= a + b.drop_last());
    }
}

proof fn lemma_count_lacks(s: Seq<char>, c: char)
    requires
        lacks(s, c),
    ensures
        count_of(s, c) == 0,
    decreases s.len(),
{
    if s.len() > 0 {
        lemma_count_lacks(s.drop_last(), c);
    }
}

/// How many of the tour's flags are set.
pub open spec fn ticks(t: Tour) -> nat {
    (if t.closed_pane { 1nat } else { 0 }) + (if t.to_canvas { 1nat } else { 0 }) + (if t.back_to_ratlings {
        1nat
    } else {
        0
    }) + (if t.hint { 1nat } else { 0 }) + (if t.ran_tests { 1nat } else { 0 }) + (if t.passed {
        1nat
    } else {
        0
    })
}

proof fn lemma_row_ticks(t: Tour, k: int)
    requires
        0 <= k < 6,
    ensures
        count_of(seq!['\n'] + checklist_row(t, k), '✓') == if tour_flags(t)[k] {
            1nat
        } else {
            0
        },
{
    lemma_marks();
    lemma_label_plain(k);
    lemma_count_lacks(checklist_label(k), '✓');
    let m = mark(tour_flags(t)[k]);
    assert(lacks(seq!['\n', ' '], '✓'));
    lemma_count_lacks(seq!['\n', ' '], '✓');
    assert(count_of(Seq::<char>::empty(), '✓') == 0);
    assert(seq!['\n'] + checklist_row(t, k) =~= (seq!['\n', ' '] + m) + checklist_label(k));
    lemma_count_concat(seq!['\n', ' '] + m, checklist_label(k), '✓');
    lemma_count_concat(seq!['\n', ' '], m, '✓');
    assert(m.drop_last() =~= Seq::<char>::empty());
}

proof fn lemma_push_ticks(t: Tour, k: int, prev: Seq<Seq<char>>)
    requires
        0 <= k < 6,
        prev.len() > 0,
    ensures
        count_of(join_lines(prev.push(checklist_row(t, k))), '✓') == count_of(join_lines(prev), '✓')
            + if tour_flags(t)[k] {
            1nat
        } else {
            0
        },
{
    lemma_join_push(prev, checklist_row(t, k));
    lemma_row_ticks(t, k);
    assert(join_lines(prev) + seq!['\n'] + checklist_row(t, k) =~= join_lines(prev) + (seq!['\n']
        + checklist_row(t, k)));
    lemma_count_concat(join_lines(prev), seq!['\n'] + checklist_row(t, k), '✓');
}

/// The checklist ticks exactly as many rows as the tour has flags set: its `✓`s count the set
/// flags.
pub proof fn lemma_checklist_ticks(t: Tour)
    ensures
        count_of(t.checklist_spec(), '✓') == ticks(t),
{
    reveal_strlit("Your tour:");
    let h = seq!["Your tour:"@];
    let r0 = h.push(checklist_row(t, 0));
    let r1 = r0.push(checklist_row(t, 1));
    let r2 = r1.push(checklist_row(t, 2));
    let r3 = r2.push(checklist_row(t, 3));
    let r4 = r3.push(checklist_row(t, 4));
    let r5 = r4.push(checklist_row(t, 5));
    assert(r5 =~= checklist_rows(t));
    lemma_checklist_join(t);
    assert(lacks("Your tour:"@, '✓'));
    lemma_count_lacks("Your tour:"@, '✓');
    assert(join_lines(h) == "Your tour:"@);
    lemma_push_ticks(t, 0, h);
    lemma_push_ticks(t, 1, r0);
    lemma_push_ticks(t, 2, r1);
    lemma_push_ticks(t, 3, r2);
    lemma_push_ticks(t, 4, r3);
    lemma_push_ticks(t, 5, r4);
}

} // verus!
