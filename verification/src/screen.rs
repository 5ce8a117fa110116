//! What the viewer's chrome shows over the exercise: the frame title, the key bar, the
//! reading pane (instructions or hint) and the feedback pane, each as text and an area.
use vstd::prelude::*;
use crate::exercise::{catalog, exercises, exercise_view};
use crate::layout::{
    fits_u16, inner, inner_spec, lemma_placed_fits, place, placed, within, Area, Axis, Placement,
};
use crate::lesson::{display_name, display_name_spec};
use crate::markup::{
    is_rule_spec, markup, markup_line, markup_spec, plain_text, run_text, run_views, wrapped_lines,
    wrapped_rows, Run,
};
use crate::text::{
    append_str, chars_of, contains, ends_with, join_exec, join_lines, lines, lines_exec,
    string_of, views, string_views,
};
use crate::viewer::{
    decimal, key_effect, push_decimal, Build, Focus, Key, KeyCode, Panel, Tests, Viewer,
};

verus! {

/// The colour of the feedback pane's text: green for a pass, red otherwise.
#[derive(PartialEq, Eq, Structural, Clone, Copy, Debug)]
pub enum Tint {
    Good,
    Bad,
}

/// The reading pane, as drawn: where, which lines, how far scrolled, and what its bottom edge
/// says.
pub struct ReadingPane {
    pub area: Area,
    pub lines: Vec<Vec<Run>>,
    pub scroll: u16,
    pub footer: String,
}

/// A line of `w` box-drawing dashes.
pub open spec fn rule_of(w: nat) -> Seq<char> {
    Seq::new(w, |i: int| '─')
}

/// The lines of `text`, every rule drawn exactly `w` wide whatever length the author typed.
pub open spec fn expand_rules(ls: Seq<Seq<char>>, w: nat) -> Seq<Seq<char>> {
    Seq::new(
        ls.len(),
        |i: int|
            if is_rule_spec(ls[i]) {
                rule_of(w)
            } else {
                ls[i]
            },
    )
}

/// The text as drawn once the markup is gone: each line's runs laid end to end.
pub open spec fn plain_of(text: Seq<char>) -> Seq<char> {
    let ls = lines(text);
    join_lines(Seq::new(ls.len(), |i: int| run_text(markup_spec(ls[i]))))
}

/// How wide the reading pane is drawn on `screen`: the inside of a margin of 2, at most 72
/// columns.
pub open spec fn pane_width(screen: Area) -> u16 {
    let outer = inner_spec(screen, 2, 2);
    if outer.width < 72 {
        outer.width
    } else {
        72
    }
}

/// How wide the pane's text runs: its width less the border and padding (2 + 4 columns).
pub open spec fn text_width(screen: Area) -> nat {
    if pane_width(screen) >= 6 {
        (pane_width(screen) - 6) as nat
    } else {
        0
    }
}

/// The lines of `text` as the pane draws them: every rule exactly as wide as the pane's text.
pub open spec fn drawn_lines(screen: Area, text: Seq<char>) -> Seq<Seq<char>> {
    expand_rules(lines(text), text_width(screen))
}

/// The pane for `text` on a screen: as tall as the drawn text wrapped to the pane's text width
/// (border and padding take 2 + 2 rows), but no taller than the inside of a margin of 2;
/// scrolled no further than there is text hidden below. Gives the height asked of the
/// layout, the scroll and the footer. `None` where the row count plus the border and padding
/// does not fit a `u16`, or the text is too long to count.
pub open spec fn reading_pane_spec(screen: Area, text: Seq<char>, scroll: u16) -> Option<
    (u16, u16, Seq<char>),
> {
    let outer = inner_spec(screen, 2, 2);
    let estimate = plain_of(join_lines(drawn_lines(screen, text)));
    if estimate.len() >= usize::MAX {
        None
    } else {
        let n = wrapped_rows(estimate, text_width(screen));
        let rows: nat = if n > u16::MAX {
            u16::MAX as nat
        } else {
            n
        };
        if rows + 4 > u16::MAX {
            None
        } else {
            let height: u16 = if rows + 4 < outer.height {
                (rows + 4) as u16
            } else {
                outer.height
            };
            let visible: nat = if height >= 4 {
                (height - 4) as nat
            } else {
                0
            };
            let hidden: nat = if rows >= visible {
                (rows - visible) as nat
            } else {
                0
            };
            let s: u16 = if scroll < hidden {
                scroll
            } else {
                hidden as u16
            };
            let footer = if rows > visible {
                " j/k scroll · esc close "@
            } else {
                " esc close "@
            };
            Some((height, s, footer))
        }
    }
}

/// How many rows the reading pane's text takes, as the pane estimates it: the drawn text, its
/// markup gone, wrapped to the pane's text width; at most `u16::MAX`.
pub open spec fn pane_rows(screen: Area, text: Seq<char>) -> nat {
    let n = wrapped_rows(plain_of(join_lines(drawn_lines(screen, text))), text_width(screen));
    if n > u16::MAX {
        u16::MAX as nat
    } else {
        n
    }
}

/// Scrolling the reading pane moves the text and nothing else, and never past the last row
/// hidden below it: the pane scrolls by the rows asked for where that many rows are hidden,
/// and else by as many as are; the pane's height and its footer stay as they are, the footer
/// offering `j/k` exactly where rows are hidden.
pub proof fn lemma_reading_pane_scroll(screen: Area, text: Seq<char>, scroll: u16, other: u16)
    ensures
        reading_pane_spec(screen, text, scroll) is Some <==> reading_pane_spec(screen, text, other) is Some,
        reading_pane_spec(screen, text, scroll) matches Some(p) ==> ({
            let q = reading_pane_spec(screen, text, other)->0;
            let visible: int = if p.0 >= 4 {
                p.0 - 4
            } else {
                0
            };
            let hidden: int = if pane_rows(screen, text) > visible {
                pane_rows(screen, text) - visible
            } else {
                0
            };
            &&& p.0 == q.0
            &&& p.2 == q.2
            &&& p.1 <= scroll
            &&& p.1 <= hidden
            &&& (scroll <= hidden ==> p.1 == scroll)
            &&& (scroll >= hidden ==> p.1 == hidden)
            &&& (p.2 == " j/k scroll · esc close "@ <==> hidden > 0)
            &&& (hidden == 0 ==> p.2 == " esc close "@)
        }),
{
    reveal_strlit(" j/k scroll · esc close ");
    reveal_strlit(" esc close ");
    assert(" j/k scroll · esc close "@.len() != " esc close "@.len());
}

fn expand_rules_exec(ls: &Vec<Vec<char>>, w: usize) -> (r: Vec<Vec<char>>)
    ensures
        views(r@) == expand_rules(views(ls@), w as nat),
{
    let mut rule: Vec<char> = Vec::new();
    let mut k: usize = 0;
    while k < w
        invariant
            k <= w,
            rule@ == rule_of(k as nat),
        decreases w - k,
    {
        rule.push('─');
        k += 1;
        assert(rule@ =~= rule_of(k as nat));
    }
    let mut r: Vec<Vec<char>> = Vec::new();
    let mut i: usize = 0;
    while i < ls.len()
        invariant
            i <= ls.len(),
            rule@ == rule_of(w as nat),
            views(r@) == expand_rules(views(ls@), w as nat).take(i as int),
        decreases ls.len() - i,
    {
        assert(views(ls@)[i as int] == ls@[i as int]@);
        let line = string_of(ls[i].as_slice());
        let ghost before = views(r@);
        if crate::markup::is_rule(line.as_str()) {
            r.push(rule.clone());
        } else {
            r.push(ls[i].clone());
        }
        assert(views(r@) =~= before.push(expand_rules(views(ls@), w as nat)[i as int]));
        i += 1;
        assert(views(r@) =~= expand_rules(views(ls@), w as nat).take(i as int));
    }
    assert(expand_rules(views(ls@), w as nat).take(ls.len() as int) =~= expand_rules(views(ls@), w as nat));
    r
}

fn plain_exec(text: &str) -> (r: Vec<char>)
    ensures
        r@ == plain_of(text@),
{
    let runs = markup(text);
    let ghost ls = lines(text@);
    let ghost target = Seq::new(ls.len(), |i: int| run_text(markup_spec(ls[i])));
    let mut pieces: Vec<Vec<char>> = Vec::new();
    let mut i: usize = 0;
    while i < runs.len()
        invariant
            i <= runs@.len(),
            runs@.len() == ls.len(),
            ls == lines(text@),
            target == Seq::new(ls.len(), |i: int| run_text(markup_spec(ls[i]))),
            forall|k: int| 0 <= k < runs@.len() ==> run_views(#[trigger] runs@[k]@) == markup_spec(ls[k]),
            views(pieces@) == target.take(i as int),
        decreases runs.len() - i,
    {
        assert(run_views(runs@[i as int]@) == markup_spec(ls[i as int]));
        let p = plain_text(&runs[i]);
        let ghost before = views(pieces@);
        pieces.push(chars_of(p.as_str()));
        assert(views(pieces@) =~= before.push(target[i as int]));
        i += 1;
        assert(views(pieces@) =~= target.take(i as int));
    }
    assert(target.take(runs@.len() as int) =~= target);
    join_exec(&pieces)
}

/// The markup of each line.
fn markup_lines(ls: &Vec<Vec<char>>) -> (r: Vec<Vec<Run>>)
    ensures
        r@.len() == ls@.len(),
        forall|i: int| 0 <= i < r@.len() ==> run_views(#[trigger] r@[i]@) == markup_spec(ls@[i]@),
{
    let mut r: Vec<Vec<Run>> = Vec::new();
    let mut i: usize = 0;
    while i < ls.len()
        invariant
            i <= ls.len(),
            r@.len() == i,
            forall|k: int| 0 <= k < i ==> run_views(#[trigger] r@[k]@) == markup_spec(ls@[k]@),
        decreases ls.len() - i,
    {
        let line = string_of(ls[i].as_slice());
        r.push(markup_line(line.as_str()));
        i += 1;
    }
    r
}

/// Where the reading pane goes: `pane_width` columns centred in the inside of a margin of 2,
/// then `height` rows of that centred too.
pub open spec fn reading_area(screen: Area, height: u16) -> Area {
    placed(
        placed(inner_spec(screen, 2, 2), Axis::Horizontal, Placement::Center, pane_width(screen)),
        Axis::Vertical,
        Placement::Center,
        height,
    )
}

/// Lays out the reading pane for `text` on `screen`, scrolled by `scroll` rows at most: a
/// piece `pane_width` (at most 72) columns wide centred in the margin's inside, then a piece
/// of it as high as `reading_pane_spec` asks, centred too, both placed by Ratatui's layout
/// solver; and the lines as drawn, each rule as wide as the pane's text, with their markup.
pub fn reading_pane(screen: Area, text: &str, scroll: u16) -> (r: Option<ReadingPane>)
    ensures
        r is Some <==> reading_pane_spec(screen, text@, scroll) is Some,
        r matches Some(p) ==> ({
            let laid = reading_pane_spec(screen, text@, scroll)->0;
            &&& within(inner_spec(screen, 2, 2), p.area)
            &&& (fits_u16(inner_spec(screen, 2, 2)) ==> p.area == reading_area(screen, laid.0))
            &&& p.scroll == laid.1
            &&& p.footer@ == laid.2
            &&& p.lines@.len() == drawn_lines(screen, text@).len()
            &&& forall|i: int|
                0 <= i < p.lines@.len() ==> run_views(#[trigger] p.lines@[i]@) == markup_spec(
                    drawn_lines(screen, text@)[i],
                )
        }),
{
    let outer = inner(screen, 2, 2);
    let width: u16 = if outer.width < 72 {
        outer.width
    } else {
        72
    };
    let a = place(outer, Axis::Horizontal, Placement::Center, width);
    let inner_w: usize = if width >= 6 {
        (width - 6) as usize
    } else {
        0
    };
    let src = chars_of(text);
    let ls = lines_exec(src.as_slice());
    let expanded = expand_rules_exec(&ls, inner_w);
    let joined = join_exec(&expanded);
    let joined_s = string_of(joined.as_slice());
    let estimate = plain_exec(joined_s.as_str());
    if estimate.len() >= usize::MAX {
        return None;
    }
    let estimate_s = string_of(estimate.as_slice());
    let n = wrapped_lines(estimate_s.as_str(), inner_w);
    let rows: u16 = if n > u16::MAX as usize {
        u16::MAX
    } else {
        n as u16
    };
    if rows > u16::MAX - 4 {
        return None;
    }
    let height: u16 = if rows + 4 < outer.height {
        rows + 4
    } else {
        outer.height
    };
    proof {
        if fits_u16(outer) {
            lemma_placed_fits(outer, Axis::Horizontal, Placement::Center, width);
        }
    }
    let placed = place(a, Axis::Vertical, Placement::Center, height);
    let visible: u16 = if height >= 4 {
        height - 4
    } else {
        0
    };
    let hidden: u16 = if rows >= visible {
        rows - visible
    } else {
        0
    };
    let s = if scroll < hidden {
        scroll
    } else {
        hidden
    };
    let footer = if rows > visible {
        String::from_str(" j/k scroll · esc close ")
    } else {
        String::from_str(" esc close ")
    };
    let lines_out = markup_lines(&expanded);
    Some(ReadingPane { area: placed, lines: lines_out, scroll: s, footer })
}

/// The key bar's row: the bottom row of the screen, from column 0 across its width.
pub fn status_bar_area(screen: Area) -> (r: Area)
    requires
        screen.height >= 1,
    ensures
        r == (Area { x: 0, y: (screen.height - 1) as u16, width: screen.width, height: 1 }),
{
    Area { x: 0, y: screen.height - 1, width: screen.width, height: 1 }
}

/// Where the feedback pane goes on `screen`: in the bottom-right corner of the inside of a
/// margin of 4 columns and 3 rows, 46 columns wide and 16 rows high where it shows a build
/// error, 10 otherwise (as much of either as there is, where there is less).
pub fn feedback_area(screen: Area, build_failed: bool) -> (r: Area)
    ensures
        within(inner_spec(screen, 4, 3), r),
        fits_u16(inner_spec(screen, 4, 3)) ==> r == placed(
            placed(inner_spec(screen, 4, 3), Axis::Horizontal, Placement::End, 46),
            Axis::Vertical,
            Placement::End,
            if build_failed {
                16u16
            } else {
                10u16
            },
        ),
{
    let outer = inner(screen, 4, 3);
    let a = place(outer, Axis::Horizontal, Placement::End, 46);
    proof {
        if fits_u16(outer) {
            lemma_placed_fits(outer, Axis::Horizontal, Placement::End, 46);
        }
    }
    let rows: u16 = if build_failed {
        16
    } else {
        10
    };
    place(a, Axis::Vertical, Placement::End, rows)
}

/// The first three messages of a report, each on a line of its own behind a dot.
pub open spec fn message_lines(ms: Seq<Seq<char>>) -> Seq<char>
    decreases ms.len(),
{
    if ms.len() == 0 {
        Seq::empty()
    } else {
        message_lines(ms.drop_last()) + "\n· "@ + ms.last()
    }
}

pub open spec fn first_three(ms: Seq<Seq<char>>) -> Seq<Seq<char>> {
    if ms.len() > 3 {
        ms.take(3)
    } else {
        ms
    }
}

impl Viewer {
    /// The frame's title: the lesson's display name, ticked once it has passed.
    pub open spec fn chrome_title_spec(&self) -> Seq<char> {
        let name = catalog()[self.index as int].0;
        " student canvas · "@ + display_name_spec(name) + (if self.progress.names().contains(name) {
            " ✓"@
        } else {
            ""@
        }) + " "@
    }

    pub fn chrome_title(&self) -> (s: String)
        requires
            self.index < catalog().len(),
        ensures
            s@ == self.chrome_title_spec(),
    {
        let name = crate::viewer::exercise_name(self.index);
        let mut out = chars_of(" student canvas · ");
        let shown = display_name(name.as_str());
        append_str(&mut out, shown.as_str());
        if self.progress.is_done(name.as_str()) {
            append_str(&mut out, " ✓");
        } else {
            append_str(&mut out, "");
        }
        append_str(&mut out, " ");
        string_of(out.as_slice())
    }

    /// The key bar along the bottom edge.
    pub open spec fn status_bar_spec(&self) -> Seq<char> {
        "  ratlings   i instructions   h hint   ? feedback   "@ + (if self.passed_spec()
            && self.index + 1 < catalog().len() {
            "n next lesson   "@
        } else {
            ""@
        }) + (if self.build is Running {
            "rebuilding…   "@
        } else {
            ""@
        }) + "q quit   C-g back to the exercise  "@
    }

    pub fn status_bar(&self) -> (s: String)
        ensures
            s@ == self.status_bar_spec(),
    {
        let mut out = chars_of("  ratlings   i instructions   h hint   ? feedback   ");
        if self.passed() && self.has_next() {
            append_str(&mut out, "n next lesson   ");
        } else {
            append_str(&mut out, "");
        }
        let building = match self.build {
            Build::Running => true,
            _ => false,
        };
        if building {
            append_str(&mut out, "rebuilding…   ");
        } else {
            append_str(&mut out, "");
        }
        append_str(&mut out, "q quit   C-g back to the exercise  ");
        string_of(out.as_slice())
    }

    /// The title and text of the reading pane, where one is open: the instructions (behind the
    /// tour's checklist in the tour lesson) or the hint.
    pub open spec fn reading_spec(&self) -> Option<(Seq<char>, Seq<char>)> {
        let entry = catalog()[self.index as int];
        match self.panel {
            Panel::Instructions => Some(
                (
                    " ratlings · "@ + display_name_spec(entry.0) + " · "@ + entry.1 + " "@,
                    (if contains(entry.2, "/00_intro/"@) {
                        self.tour.checklist_spec() + seq!['\n', '\n']
                    } else {
                        Seq::empty()
                    }) + self.lesson.instructions@,
                ),
            ),
            Panel::Hint => Some((" ratlings · hint "@, self.lesson.hint@)),
            _ => None,
        }
    }

    pub fn reading(&self) -> (r: Option<(String, String)>)
        requires
            self.index < catalog().len(),
        ensures
            r is Some <==> self.reading_spec() is Some,
            r matches Some(p) ==> (p.0@, p.1@) == self.reading_spec()->0,
    {
        match self.panel {
            Panel::Instructions => {
                let all = exercises();
                assert(exercise_view(all@[self.index as int]) == catalog()[self.index as int]);
                let e = &all[self.index];
                let mut title = chars_of(" ratlings · ");
                let shown = display_name(e.name.as_str());
                append_str(&mut title, shown.as_str());
                append_str(&mut title, " · ");
                append_str(&mut title, e.title.as_str());
                append_str(&mut title, " ");
                let mut text: Vec<char> = Vec::new();
                if e.is_tour() {
                    let list = self.tour.checklist();
                    append_str(&mut text, list.as_str());
                    text.push('\n');
                    text.push('\n');
                }
                append_str(&mut text, self.lesson.instructions.as_str());
                let ghost want = self.reading_spec()->0;
                assert(text@ =~= want.1);
                Some((string_of(title.as_slice()), string_of(text.as_slice())))
            },
            Panel::Hint => {
                let title = String::from_str(" ratlings · hint ");
                let text = chars_of(self.lesson.hint.as_str());
                Some((title, string_of(text.as_slice())))
            },
            _ => None,
        }
    }

    /// What the feedback pane says: the build error, a run under way, the passes (with where
    /// to go next), or the failures and the first three messages. `None` where the count of
    /// tests that ran does not fit a `usize`.
    pub open spec fn feedback_spec(&self) -> Option<Seq<char>> {
        match self.build {
            Build::Failed(e) => Some("this file doesn't compile yet:\n\n"@ + e@),
            _ => match self.tests {
                Tests::Done(r) => {
                    let ms = first_three(string_views(r.messages@));
                    if r.failed == 0 && r.passed > 0 {
                        if self.index + 1 < catalog().len() {
                            Some(
                                decimal(r.passed as nat)
                                    + " passed — this one's done ✓\n\npress `n` for the next lesson"@,
                            )
                        } else {
                            Some(decimal(r.passed as nat) + " passed — that was the last one 🎉"@)
                        }
                    } else if r.passed + r.failed > usize::MAX {
                        None
                    } else if r.passed + r.failed == 0 {
                        Some("the tests couldn't run\n"@ + message_lines(ms))
                    } else {
                        Some(
                            decimal(r.failed as nat) + " of "@ + decimal((r.passed + r.failed) as nat)
                                + " failing\n"@ + message_lines(ms),
                        )
                    }
                },
                _ => Some("running `cargo test`…"@),
            },
        }
    }

    pub fn feedback(&self) -> (r: Option<String>)
        ensures
            r is Some <==> self.feedback_spec() is Some,
            r matches Some(s) ==> s@ == self.feedback_spec()->0,
    {
        match &self.build {
            Build::Failed(e) => {
                let mut out = chars_of("this file doesn't compile yet:\n\n");
                append_str(&mut out, e.as_str());
                return Some(string_of(out.as_slice()));
            },
            _ => {},
        }
        match &self.tests {
            Tests::Done(r) => {
                let mut out: Vec<char> = Vec::new();
                if r.ok() {
                    push_decimal(&mut out, r.passed);
                    if self.has_next() {
                        append_str(&mut out, " passed — this one's done ✓\n\npress `n` for the next lesson");
                    } else {
                        append_str(&mut out, " passed — that was the last one 🎉");
                    }
                    return Some(string_of(out.as_slice()));
                }
                if r.passed > usize::MAX - r.failed {
                    return None;
                }
                let total = r.passed + r.failed;
                if total == 0 {
                    append_str(&mut out, "the tests couldn't run\n");
                } else {
                    push_decimal(&mut out, r.failed);
                    append_str(&mut out, " of ");
                    push_decimal(&mut out, total);
                    append_str(&mut out, " failing\n");
                }
                let ghost ms = first_three(string_views(r.messages@));
                let ghost head = out@;
                let n: usize = if r.messages.len() > 3 {
                    3
                } else {
                    r.messages.len()
                };
                let mut i: usize = 0;
                while i < n
                    invariant
                        i <= n,
                        n == ms.len(),
                        n <= r.messages@.len(),
                        ms == first_three(string_views(r.messages@)),
                        out@ == head + message_lines(ms.take(i as int)),
                    decreases n - i,
                {
                    assert(ms.take(i + 1).drop_last() =~= ms.take(i as int));
                    assert(ms[i as int] == r.messages@[i as int]@);
                    append_str(&mut out, "\n· ");
                    append_str(&mut out, r.messages[i].as_str());
                    i += 1;
                    assert(out@ =~= head + message_lines(ms.take(i as int)));
                }
                assert(ms.take(n as int) =~= ms);
                Some(string_of(out.as_slice()))
            },
            _ => Some(String::from_str("running `cargo test`…")),
        }
    }

    /// Green for a pass, red for everything else.
    pub fn feedback_tint(&self) -> (t: Tint)
        ensures
            t == (if !(self.build is Failed) && self.passed_spec() {
                Tint::Good
            } else {
                Tint::Bad
            }),
    {
        let failed = match self.build {
            Build::Failed(_) => true,
            _ => false,
        };
        if !failed && self.passed() {
            Tint::Good
        } else {
            Tint::Bad
        }
    }
}

/// After a passing run, the feedback pane counts the passes and points to the next lesson
/// exactly where there is one: it ends by offering `n` where pressing `n` opens the next
/// lesson, and says the lesson was the last one where there is no next.
pub proof fn lemma_feedback_after_a_pass(v: Viewer)
    requires
        !(v.build is Failed),
        v.tests matches Tests::Done(r) && r.failed == 0 && r.passed > 0,
    ensures
        ({
            let r = v.tests->Done_0;
            let t = v.feedback_spec()->0;
            &&& v.feedback_spec() is Some
            &&& v.index + 1 < catalog().len() ==> t == decimal(r.passed as nat)
                + " passed — this one's done ✓\n\npress `n` for the next lesson"@
            &&& v.index + 1 >= catalog().len() ==> t == decimal(r.passed as nat)
                + " passed — that was the last one 🎉"@
            &&& (ends_with(t, "press `n` for the next lesson"@) <==> v.index + 1 < catalog().len())
            &&& (v.focus == Focus::Ratlings ==> (ends_with(t, "press `n` for the next lesson"@)
                <==> key_effect(v, Key { code: KeyCode::Char('n'), ctrl: false }).1 is Open))
        }),
{
    let r = v.tests->Done_0;
    let t = v.feedback_spec()->0;
    let d = decimal(r.passed as nat);
    reveal_strlit(" passed — this one's done ✓\n\npress `n` for the next lesson");
    reveal_strlit(" passed — that was the last one 🎉");
    reveal_strlit("press `n` for the next lesson");
    let p = "press `n` for the next lesson"@;
    if v.index + 1 < catalog().len() {
        let lit = " passed — this one's done ✓\n\npress `n` for the next lesson"@;
        assert(t == d + lit);
        assert forall|k: int| 0 <= k < p.len() implies #[trigger] t[t.len() - p.len() + k] == p[k] by {
            assert(t[t.len() - p.len() + k] == lit[lit.len() - p.len() + k]);
        }
    } else {
        let lit = " passed — that was the last one 🎉"@;
        assert(t == d + lit);
        assert(t[t.len() - 1] == '🎉');
        if ends_with(t, p) {
            assert(t[t.len() - p.len() + (p.len() - 1)] == p[p.len() - 1]);
        }
    }
}

} // verus!
