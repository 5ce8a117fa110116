//! The viewer's decisions: which lesson is open, who has the keyboard, which overlay shows,
//! and what a key, a finished test run or a finished build changes. What to do outside
//! (run the tests, rebuild, open another lesson, write the progress file) comes back as a
//! value for the caller to carry out.
use vstd::prelude::*;
use crate::exercise::{catalog, exercise_count, exercise_view, exercises};
use crate::lesson::{hint_spec, instructions_spec, no_hint, Lesson};
use crate::progress::Progress;
use crate::report::{parse_usize, parse_usize_spec, Report};
use crate::text::{
    append_str, chars_of, split_char, split_char_exec, split_from, string_of, views, string_views,
};
use crate::tour::Tour;

verus! {

#[derive(PartialEq, Eq, Structural, Clone, Copy, Debug)]
pub enum Focus {
    Canvas,
    Ratlings,
}

/// Which overlay is open while ratlings has focus. At most one at a time.
#[derive(PartialEq, Eq, Structural, Clone, Copy, Debug)]
pub enum Panel {
    Closed,
    Instructions,
    Hint,
    Feedback,
}

/// Where the lesson's test run stands.
pub enum Tests {
    Idle,
    Running,
    Done(Report),
}

/// Where the rebuild after a save stands.
pub enum Build {
    Idle,
    Running,
    /// The build failed, usually because the student's code doesn't compile yet.
    Failed(String),
}

/// A key, as far as the viewer tells keys apart.
#[derive(PartialEq, Eq, Structural, Clone, Copy, Debug)]
pub enum KeyCode {
    Char(char),
    Up,
    Down,
    Esc,
    Other,
}

/// A key press, with whether Control was held.
#[derive(PartialEq, Eq, Structural, Clone, Copy, Debug)]
pub struct Key {
    pub code: KeyCode,
    pub ctrl: bool,
}

/// What the caller is to do after a key.
#[derive(PartialEq, Eq, Structural, Clone, Copy, Debug)]
pub enum Action {
    Nothing,
    /// Start a test run of the open lesson.
    RunTests,
    /// Open the lesson at this index.
    Open(usize),
}

pub struct Viewer {
    /// Index into the course.
    pub index: usize,
    pub lesson: Lesson,
    pub tour: Tour,
    pub focus: Focus,
    pub panel: Panel,
    /// Rows scrolled in the reading pane. Reset whenever a panel opens.
    pub scroll: u16,
    pub quit: bool,
    pub tests: Tests,
    pub build: Build,
    /// Set once a rebuild succeeds: the caller starts the new build in this one's place.
    pub restart: bool,
    pub progress: Progress,
}

/// The letter a panel is saved as.
pub open spec fn panel_letter(p: Panel) -> char {
    match p {
        Panel::Instructions => 'i',
        Panel::Hint => 'h',
        Panel::Feedback => 'f',
        Panel::Closed => '-',
    }
}

/// The panel a saved letter stands for; anything else closes the panel.
pub open spec fn panel_of(s: Seq<char>) -> Panel {
    if s.len() == 1 && s[0] == 'i' {
        Panel::Instructions
    } else if s.len() == 1 && s[0] == 'h' {
        Panel::Hint
    } else if s.len() == 1 && s[0] == 'f' {
        Panel::Feedback
    } else {
        Panel::Closed
    }
}

/// The decimal digit for `d % 10`.
pub open spec fn digit_char(d: nat) -> char {
    let r = d % 10;
    if r == 0 {
        '0'
    } else if r == 1 {
        '1'
    } else if r == 2 {
        '2'
    } else if r == 3 {
        '3'
    } else if r == 4 {
        '4'
    } else if r == 5 {
        '5'
    } else if r == 6 {
        '6'
    } else if r == 7 {
        '7'
    } else if r == 8 {
        '8'
    } else {
        '9'
    }
}

/// The decimal digits of `n`, without leading zeros.
pub open spec fn decimal(n: nat) -> Seq<char>
    decreases n,
{
    if n < 10 {
        seq![digit_char(n)]
    } else {
        decimal(n / 10).push(digit_char(n % 10))
    }
}

pub fn push_decimal(out: &mut Vec<char>, n: usize)
    ensures
        final(out)@ == old(out)@ + decimal(n as nat),
    decreases n,
{
    let ghost start = out@;
    if n >= 10 {
        push_decimal(out, n / 10);
    }
    let r = n % 10;
    let c = if r == 0 {
        '0'
    } else if r == 1 {
        '1'
    } else if r == 2 {
        '2'
    } else if r == 3 {
        '3'
    } else if r == 4 {
        '4'
    } else if r == 5 {
        '5'
    } else if r == 6 {
        '6'
    } else if r == 7 {
        '7'
    } else if r == 8 {
        '8'
    } else {
        '9'
    };
    out.push(c);
    assert(out@ =~= start + decimal(n as nat));
}

pub proof fn lemma_digit_char(d: nat)
    ensures
        digit_char(d) as u32 == 48 + d % 10,
{
}

/// The digits of a number are all decimal digits, and they are worth the number.
pub proof fn lemma_decimal(n: nat)
    ensures
        decimal(n).len() >= 1,
        crate::report::all_digits(decimal(n)),
        crate::report::decimal_value(decimal(n)) == n,
    decreases n,
{
    lemma_digit_char(n);
    if n < 10 {
        let s = decimal(n);
        assert(s.drop_last() =~= Seq::<char>::empty());
        assert(crate::report::decimal_value(s.drop_last()) == 0);
        assert(((s.last() as u32) - 48) as nat == n % 10);
    } else {
        lemma_digit_char(n % 10);
        assert((n % 10) % 10 == n % 10);
        lemma_decimal(n / 10);
        let d = decimal(n / 10);
        let s = d.push(digit_char(n % 10));
        assert(s.drop_last() =~= d);
        assert((n / 10) * 10 + n % 10 == n) by (nonlinear_arith);
        assert(decimal(n) == s);
        assert(s.last() == digit_char(n % 10));
        assert(((s.last() as u32) - 48) as nat == n % 10);
        assert(crate::report::decimal_value(s) == crate::report::decimal_value(d) * 10 + n % 10);
        assert forall|k: int| 0 <= k < s.len() implies crate::text::is_digit(#[trigger] s[k]) by {
            if k < d.len() {
                assert(s[k] == d[k]);
            }
        }
    }
}

/// Every piece of `s` between separators, from `i` on, until the next separator at `j`.
pub proof fn lemma_split_run(s: Seq<char>, c: char, start: int, i: int, j: int)
    requires
        0 <= start <= i <= j <= s.len(),
        forall|k: int| i <= k < j ==> s[k] != c,
    ensures
        split_from(s, c, start, i) == split_from(s, c, start, j),
    decreases j - i,
{
    if i < j {
        lemma_split_run(s, c, start, i + 1, j);
    }
}

/// What a saved state holds, where it names a lesson of the course: the index, then the tour
/// and the panel, separated by `;` (anything after the third part is ignored).
pub open spec fn resume_parse(state: Seq<char>) -> Option<(nat, Tour, Panel)> {
    let parts = split_char(state, ';');
    match parse_usize_spec(parts[0]) {
        None => None,
        Some(index) => if index >= catalog().len() || parts.len() < 3 {
            None
        } else {
            Some((index, Tour::decoded(parts[1]), panel_of(parts[2])))
        },
    }
}

/// The lesson `index` just opened: the instructions showing, the keyboard with ratlings, a
/// fresh tour, no build, and a test run under way where one was started.
pub open spec fn opened(
    v: Viewer,
    index: nat,
    source: Seq<char>,
    info: Seq<char>,
    progress: Progress,
    run_tests: bool,
) -> bool {
    &&& v.index == index
    &&& v.lesson.instructions@ == instructions_spec(source)
    &&& v.lesson.hint@ == (match hint_spec(info, catalog()[index as int].0) {
        Some(h) => h,
        None => no_hint(),
    })
    &&& v.tour == Tour::fresh()
    &&& v.focus == Focus::Ratlings
    &&& v.panel == Panel::Instructions
    &&& v.scroll == 0
    &&& !v.quit
    &&& (if run_tests {
        v.tests is Running
    } else {
        v.tests is Idle
    })
    &&& v.build is Idle
    &&& !v.restart
    &&& v.progress == progress
}

/// The name of lesson `index`, from the course.
pub fn exercise_name(index: usize) -> (s: String)
    requires
        index < catalog().len(),
    ensures
        s@ == catalog()[index as int].0,
{
    let all = exercises();
    let mut e = all;
    let x = e.remove(index);
    assert(exercise_view(x) == catalog()[index as int]);
    x.name
}

/// `v` after `toggle(p)`.
pub open spec fn toggled(v: Viewer, p: Panel) -> Viewer {
    Viewer {
        panel: if v.panel == p {
            Panel::Closed
        } else {
            p
        },
        tour: Tour { closed_pane: v.tour.closed_pane || v.panel == Panel::Instructions, ..v.tour },
        scroll: 0,
        ..v
    }
}

/// What a key does to the viewer, and what it asks of the caller. `Ctrl-G` passes the
/// keyboard between the exercise and ratlings; while the exercise has it, every other key is
/// the exercise's. With ratlings: `i`, `h`, `?` and `Esc` open or close the overlays (`?` also
/// starts a test run where none is under way), `n` moves on once the tests pass and there is
/// a next lesson, `j`/`k` and the arrows scroll, and `q` quits.
pub open spec fn key_effect(v: Viewer, key: Key) -> (Viewer, Action) {
    if key.code == KeyCode::Char('g') && key.ctrl {
        match v.focus {
            Focus::Canvas => (
                Viewer {
                    focus: Focus::Ratlings,
                    tour: Tour { back_to_ratlings: true, ..v.tour },
                    ..v
                },
                Action::Nothing,
            ),
            Focus::Ratlings => (
                Viewer { focus: Focus::Canvas, tour: Tour { to_canvas: true, ..v.tour }, ..v },
                Action::Nothing,
            ),
        }
    } else if v.focus == Focus::Canvas {
        (v, Action::Nothing)
    } else {
        match key.code {
            KeyCode::Char('i') => (toggled(v, Panel::Instructions), Action::Nothing),
            KeyCode::Char('h') => (
                toggled(Viewer { tour: Tour { hint: true, ..v.tour }, ..v }, Panel::Hint),
                Action::Nothing,
            ),
            KeyCode::Char('?') => {
                let w = toggled(Viewer { tour: Tour { ran_tests: true, ..v.tour }, ..v }, Panel::Feedback);
                if w.panel == Panel::Feedback && !(w.tests is Running) {
                    (Viewer { tests: Tests::Running, ..w }, Action::RunTests)
                } else {
                    (w, Action::Nothing)
                }
            },
            KeyCode::Char('n') => if v.passed_spec() && v.index + 1 < catalog().len() {
                (v, Action::Open((v.index + 1) as usize))
            } else {
                (v, Action::Nothing)
            },
            KeyCode::Char('j') | KeyCode::Down => (
                Viewer {
                    scroll: if v.scroll < u16::MAX {
                        (v.scroll + 1) as u16
                    } else {
                        v.scroll
                    },
                    ..v
                },
                Action::Nothing,
            ),
            KeyCode::Char('k') | KeyCode::Up => (
                Viewer {
                    scroll: if v.scroll > 0 {
                        (v.scroll - 1) as u16
                    } else {
                        0
                    },
                    ..v
                },
                Action::Nothing,
            ),
            KeyCode::Esc => (toggled(v, Panel::Closed), Action::Nothing),
            KeyCode::Char('q') => (Viewer { quit: true, ..v }, Action::Nothing),
            _ => (v, Action::Nothing),
        }
    }
}

/// While the exercise has the keyboard, every key but `Ctrl-G` is the exercise's: the viewer
/// stays as it was and asks for nothing.
pub proof fn lemma_canvas_keys_pass_through(v: Viewer, key: Key)
    requires
        v.focus == Focus::Canvas,
        !(key.code == KeyCode::Char('g') && key.ctrl),
    ensures
        key_effect(v, key) == (v, Action::Nothing),
{
}

/// `Ctrl-G` twice hands the keyboard back to whoever had it, with both ticks on the tour and
/// nothing else changed.
pub proof fn lemma_prefix_twice(v: Viewer, key: Key)
    requires
        key.code == KeyCode::Char('g') && key.ctrl,
    ensures
        ({
            let (w, a) = key_effect(v, key);
            let (u, b) = key_effect(w, key);
            &&& a == Action::Nothing
            &&& b == Action::Nothing
            &&& w.focus != v.focus
            &&& u == Viewer {
                tour: Tour { to_canvas: true, back_to_ratlings: true, ..v.tour },
                ..v
            }
        }),
{
}

/// A key asks for the next lesson only once the open lesson's tests have passed and there is
/// a next one, and then it is the very next one; the viewer itself is left as it was.
pub proof fn lemma_next_needs_a_pass(v: Viewer, key: Key)
    ensures
        key_effect(v, key).1 matches Action::Open(i) ==> {
            &&& v.passed_spec()
            &&& v.index + 1 < catalog().len()
            &&& i == v.index + 1
            &&& key_effect(v, key).0 == v
        },
{
}

/// With ratlings holding the keyboard, each key does what the key bar says. `i`, `h` and `?`
/// open their panel, or close it where it is the one open, and `Esc` closes whatever is open;
/// each of these brings the pane back to its top and, where it closes or replaces the
/// instructions, ticks that off the tour. `?` also starts a test run where it opens the
/// feedback and none is under way. `j`/`↓` and `k`/`↑` scroll one row down and up, stopping at
/// the ends; `q` quits. No key but `Ctrl-G` gives up the keyboard or changes the lesson.
pub proof fn lemma_keys_with_ratlings(v: Viewer, key: Key)
    requires
        v.focus == Focus::Ratlings,
        !(key.code == KeyCode::Char('g') && key.ctrl),
    ensures
        ({
            let (w, a) = key_effect(v, key);
            &&& w.focus == Focus::Ratlings
            &&& w.index == v.index
            &&& w.lesson == v.lesson
            &&& w.progress == v.progress
            &&& w.build == v.build
            &&& (key.code == KeyCode::Char('i') ==> {
                &&& w.panel == (if v.panel == Panel::Instructions {
                    Panel::Closed
                } else {
                    Panel::Instructions
                })
                &&& w.scroll == 0
                &&& w.tour.closed_pane == (v.tour.closed_pane || v.panel == Panel::Instructions)
                &&& a == Action::Nothing
            })
            &&& (key.code == KeyCode::Char('h') ==> {
                &&& w.panel == (if v.panel == Panel::Hint {
                    Panel::Closed
                } else {
                    Panel::Hint
                })
                &&& w.scroll == 0
                &&& w.tour.hint
                &&& w.tour.closed_pane == (v.tour.closed_pane || v.panel == Panel::Instructions)
                &&& a == Action::Nothing
            })
            &&& (key.code == KeyCode::Char('?') ==> {
                &&& w.panel == (if v.panel == Panel::Feedback {
                    Panel::Closed
                } else {
                    Panel::Feedback
                })
                &&& w.scroll == 0
                &&& w.tour.ran_tests
                &&& (a == Action::RunTests <==> (v.panel != Panel::Feedback && !(v.tests is Running)))
                &&& (a == Action::RunTests ==> w.tests is Running)
                &&& (a != Action::RunTests ==> a == Action::Nothing && w.tests == v.tests)
            })
            &&& (key.code == KeyCode::Esc ==> {
                &&& w.panel == Panel::Closed
                &&& w.scroll == 0
                &&& w.tour.closed_pane == (v.tour.closed_pane || v.panel == Panel::Instructions)
                &&& a == Action::Nothing
            })
            &&& (key.code == KeyCode::Char('j') || key.code == KeyCode::Down ==> {
                &&& w.scroll as int == (if v.scroll < u16::MAX {
                    v.scroll + 1
                } else {
                    v.scroll as int
                })
                &&& w.panel == v.panel
                &&& a == Action::Nothing
            })
            &&& (key.code == KeyCode::Char('k') || key.code == KeyCode::Up ==> {
                &&& w.scroll as int == (if v.scroll > 0 {
                    v.scroll - 1
                } else {
                    0
                })
                &&& w.panel == v.panel
                &&& a == Action::Nothing
            })
            &&& (key.code == KeyCode::Char('q') ==> w.quit && a == Action::Nothing)
            &&& (w.quit ==> key.code == KeyCode::Char('q') || v.quit)
        }),
{
}

/// What resuming from `state` gives: nothing where the state names no lesson of the course;
/// else that lesson opened afresh from its source, with the saved tour and panel.
pub open spec fn resumed(
    r: Option<Viewer>,
    state: Seq<char>,
    sources: Seq<Seq<char>>,
    info: Seq<char>,
    progress: Progress,
    run_tests: bool,
) -> bool {
    &&& (r is Some <==> resume_parse(state) is Some)
    &&& (r matches Some(v) ==> ({
        let (index, tour, panel) = resume_parse(state)->0;
        &&& opened(
            Viewer { tour: Tour::fresh(), panel: Panel::Instructions, ..v },
            index,
            sources[index as int],
            info,
            progress,
            run_tests,
        )
        &&& v.tour == tour
        &&& v.panel == panel
    }))
}

impl Viewer {
    /// Open on `index` with the instructions showing, never on a possibly empty canvas.
    /// `source` is the exercise's file and `info` the text of `info.toml`; `run_tests` says
    /// whether the caller starts a test run on the way in.
    pub fn open(index: usize, source: &str, info: &str, progress: Progress, run_tests: bool) -> (v:
        Viewer)
        requires
            index < catalog().len(),
        ensures
            opened(v, index as nat, source@, info@, progress, run_tests),
    {
        let name = exercise_name(index);
        Viewer {
            index,
            lesson: Lesson::for_exercise(name.as_str(), source, info),
            tour: Tour::default(),
            focus: Focus::Ratlings,
            panel: Panel::Instructions,
            scroll: 0,
            quit: false,
            tests: if run_tests {
                Tests::Running
            } else {
                Tests::Idle
            },
            build: Build::Idle,
            restart: false,
            progress,
        }
    }

    /// Picks up where a previous process left off. Format: `index;tour;panel`. `sources` are
    /// the files of the course's lessons, in order.
    pub fn resume(state: &str, sources: &Vec<String>, info: &str, progress: Progress, run_tests: bool) -> (r:
        Option<Viewer>)
        requires
            sources@.len() == catalog().len(),
        ensures
            resumed(r, state@, string_views(sources@), info@, progress, run_tests),
    {
        let s = chars_of(state);
        let parts = split_char_exec(s.as_slice(), ';');
        let ghost ps = views(parts@);
        assert(ps.len() >= 1) by {
            crate::text::lemma_split_nonempty(s@, ';', 0, 0);
        }
        assert(ps[0] == parts@[0]@);
        let index = match parse_usize(parts[0].as_slice()) {
            Some(i) => i,
            None => {
                return None;
            },
        };
        if index >= exercise_count() || parts.len() < 3 {
            return None;
        }
        assert(ps[1] == parts@[1]@);
        assert(ps[2] == parts@[2]@);
        let tour = Tour::decode(string_of(parts[1].as_slice()).as_str());
        let p = &parts[2];
        let panel = if p.len() == 1 && p[0] == 'i' {
            Panel::Instructions
        } else if p.len() == 1 && p[0] == 'h' {
            Panel::Hint
        } else if p.len() == 1 && p[0] == 'f' {
            Panel::Feedback
        } else {
            Panel::Closed
        };
        let mut v = Viewer::open(index, sources[index].as_str(), info, progress, run_tests);
        v.tour = tour;
        v.panel = panel;
        Some(v)
    }

    /// The state to carry across a restart: `index;tour;panel`.
    pub open spec fn state_spec(&self) -> Seq<char> {
        decimal(self.index as nat) + seq![';'] + self.tour.code() + seq![';', panel_letter(self.panel)]
    }

    /// Saving the state and reading it back gives the same lesson, tour and panel: what the
    /// viewer carries across a restart survives it.
    pub proof fn lemma_state_round_trip(v: Viewer)
        requires
            v.index < catalog().len(),
        ensures
            resume_parse(v.state_spec()) == Some((v.index as nat, v.tour, v.panel)),
    {
        let d = decimal(v.index as nat);
        let code = v.tour.code();
        let s = v.state_spec();
        lemma_decimal(v.index as nat);
        let n = d.len() as int;
        assert(s.len() == n + 9);
        assert forall|k: int| 0 <= k < n implies s[k] != ';' by {
            assert(s[k] == d[k]);
            assert(crate::text::is_digit(d[k]));
        }
        assert(s[n] == ';');
        assert forall|k: int| n + 1 <= k < n + 7 implies s[k] != ';' by {
            assert(s[k] == code[k - n - 1]);
        }
        assert(s[n + 7] == ';');
        assert(s[n + 8] != ';');
        lemma_split_run(s, ';', 0, 0, n);
        lemma_split_run(s, ';', n + 1, n + 1, n + 7);
        lemma_split_run(s, ';', n + 8, n + 8, n + 9);
        let parts = split_char(s, ';');
        assert(parts =~= seq![s.subrange(0, n), s.subrange(n + 1, n + 7), s.subrange(n + 8, n + 9)]);
        assert(s.subrange(0, n) =~= d);
        assert(s.subrange(n + 1, n + 7) =~= code);
        assert(s.subrange(n + 8, n + 9) =~= seq![panel_letter(v.panel)]);
        assert(d[0] != '+') by {
            assert(crate::text::is_digit(d[0]));
        }
        assert(parse_usize_spec(d) == Some(v.index as nat));
        crate::tour::lemma_decode_encode(v.tour);
        assert(Tour::decoded(parts[1]) == v.tour);
        assert(panel_of(parts[2]) == v.panel);
    }

    /// A viewer restarted from its saved state is back on the same lesson with the same tour
    /// and panel, the lesson otherwise opened afresh: the keyboard with ratlings, the pane
    /// scrolled to the top.
    pub proof fn lemma_resume_saved(
        v: Viewer,
        r: Option<Viewer>,
        sources: Seq<Seq<char>>,
        info: Seq<char>,
        progress: Progress,
        run_tests: bool,
    )
        requires
            v.index < catalog().len(),
            resumed(r, v.state_spec(), sources, info, progress, run_tests),
        ensures
            r matches Some(w) && {
                &&& w.index == v.index
                &&& w.tour == v.tour
                &&& w.panel == v.panel
                &&& w.focus == Focus::Ratlings
                &&& w.scroll == 0
                &&& w.lesson.instructions@ == instructions_spec(sources[v.index as int])
            },
    {
        Self::lemma_state_round_trip(v);
    }

    pub fn state(&self) -> (s: String)
        ensures
            s@ == self.state_spec(),
    {
        let mut out: Vec<char> = Vec::new();
        push_decimal(&mut out, self.index);
        out.push(';');
        let code = self.tour.encode();
        append_str(&mut out, code.as_str());
        out.push(';');
        out.push(
            match self.panel {
                Panel::Instructions => 'i',
                Panel::Hint => 'h',
                Panel::Feedback => 'f',
                Panel::Closed => '-',
            },
        );
        assert(out@ =~= self.state_spec());
        string_of(out.as_slice())
    }

    /// Called every tick. Starts a rebuild when the exercise's file changed and none is under
    /// way (returning `true`: the caller starts it), and takes in the result of the rebuild
    /// under way when one has finished: success asks for a restart; a failure shows its error
    /// where the tests would go.
    pub fn watch(&mut self, file_changed: bool, build_result: Option<Result<(), String>>) -> (start_build:
        bool)
        ensures
            start_build == (file_changed && !(old(self).build is Running)),
            final(self).index == old(self).index,
            final(self).lesson == old(self).lesson,
            final(self).tour == old(self).tour,
            final(self).scroll == old(self).scroll,
            final(self).quit == old(self).quit,
            final(self).progress == old(self).progress,
            final(self).tests == old(self).tests,
            final(self).restart == (old(self).restart || build_result matches Some(Ok(_))),
            (match build_result {
                Some(Err(e)) => {
                    &&& final(self).build == Build::Failed(e)
                    &&& final(self).focus == Focus::Ratlings
                    &&& final(self).panel == Panel::Feedback
                },
                _ => {
                    &&& final(self).build == (if start_build {
                        Build::Running
                    } else {
                        old(self).build
                    })
                    &&& final(self).focus == old(self).focus
                    &&& final(self).panel == old(self).panel
                },
            }),
    {
        let running = match self.build {
            Build::Running => true,
            _ => false,
        };
        let start = file_changed && !running;
        if start {
            self.build = Build::Running;
        }
        match build_result {
            Some(Ok(())) => {
                self.restart = true;
            },
            Some(Err(e)) => {
                self.build = Build::Failed(e);
                self.focus = Focus::Ratlings;
                self.panel = Panel::Feedback;
            },
            None => {},
        }
        start
    }

    pub open spec fn passed_spec(&self) -> bool {
        self.tests matches Tests::Done(r) && r.failed == 0 && r.passed > 0
    }

    pub fn passed(&self) -> (b: bool)
        ensures
            b == self.passed_spec(),
    {
        match &self.tests {
            Tests::Done(r) => r.ok(),
            _ => false,
        }
    }

    pub fn has_next(&self) -> (b: bool)
        ensures
            b == (self.index + 1 < catalog().len()),
    {
        self.index < exercise_count() && exercise_count() - self.index > 1
    }

    /// Exactly one reserved chord, `Ctrl-G`. Every other key belongs to the exercise.
    pub fn is_prefix(key: Key) -> (b: bool)
        ensures
            b == (key.code == KeyCode::Char('g') && key.ctrl),
    {
        key.code == KeyCode::Char('g') && key.ctrl
    }

    /// Handles one key press; see `key_effect`.
    pub fn on_key(&mut self, key: Key) -> (action: Action)
        ensures
            (*final(self), action) == key_effect(*old(self), key),
    {
        if Self::is_prefix(key) {
            match self.focus {
                Focus::Canvas => {
                    self.tour.back_to_ratlings = true;
                    self.focus = Focus::Ratlings;
                },
                Focus::Ratlings => {
                    self.tour.to_canvas = true;
                    self.focus = Focus::Canvas;
                },
            }
            return Action::Nothing;
        }
        if self.focus == Focus::Canvas {
            return Action::Nothing;
        }
        match key.code {
            KeyCode::Char('i') => {
                self.toggle(Panel::Instructions);
            },
            KeyCode::Char('h') => {
                self.tour.hint = true;
                self.toggle(Panel::Hint);
            },
            KeyCode::Char('?') => {
                self.tour.ran_tests = true;
                self.toggle(Panel::Feedback);
                let running = match self.tests {
                    Tests::Running => true,
                    _ => false,
                };
                if self.panel == Panel::Feedback && !running {
                    self.tests = Tests::Running;
                    return Action::RunTests;
                }
            },
            KeyCode::Char('n') => {
                if self.passed() && self.has_next() {
                    return Action::Open(self.index + 1);
                }
            },
            KeyCode::Char('j') | KeyCode::Down => {
                self.scroll = self.scroll.saturating_add(1);
            },
            KeyCode::Char('k') | KeyCode::Up => {
                self.scroll = self.scroll.saturating_sub(1);
            },
            KeyCode::Esc => {
                self.toggle(Panel::Closed);
            },
            KeyCode::Char('q') => {
                self.quit = true;
            },
            _ => {},
        }
        Action::Nothing
    }

    /// Takes in a finished test run. A pass ticks off the tour; the first pass of a lesson
    /// also records it and shows the feedback, so the student sees it. Returns the new text
    /// of the progress file where it changed, for the caller to write.
    pub fn on_report(&mut self, report: Report) -> (written: Option<String>)
        requires
            old(self).index < catalog().len(),
        ensures
            final(self).tests == Tests::Done(report),
            final(self).index == old(self).index,
            final(self).lesson == old(self).lesson,
            final(self).scroll == old(self).scroll,
            final(self).quit == old(self).quit,
            final(self).build == old(self).build,
            final(self).restart == old(self).restart,
            ({
                let name = catalog()[old(self).index as int].0;
                let pass = report.failed == 0 && report.passed > 0;
                let first = pass && !old(self).progress.names().contains(name);
                &&& final(self).tour == Tour { passed: old(self).tour.passed || pass, ..old(self).tour }
                &&& final(self).progress.set() == (if pass {
                    old(self).progress.set().insert(name)
                } else {
                    old(self).progress.set()
                })
                &&& (written is Some <==> first)
                &&& (written matches Some(t) ==> t@ == crate::progress::progress_text(
                    final(self).progress.names(),
                ))
                &&& (!first ==> final(self).progress == old(self).progress)
                &&& (crate::progress::all_clean(old(self).progress.names())
                    ==> crate::progress::all_clean(final(self).progress.names()))
                &&& final(self).focus == (if first {
                    Focus::Ratlings
                } else {
                    old(self).focus
                })
                &&& final(self).panel == (if first {
                    Panel::Feedback
                } else {
                    old(self).panel
                })
            }),
    {
        let mut written = None;
        if report.ok() {
            self.tour.passed = true;
            let name = exercise_name(self.index);
            proof {
                crate::progress::lemma_catalog_names_clean();
                assert(crate::exercise::catalog_names()[self.index as int] == name@);
            }
            if !self.progress.is_done(name.as_str()) {
                written = self.progress.mark_done(name.as_str());
                self.focus = Focus::Ratlings;
                self.panel = Panel::Feedback;
            }
        }
        self.tests = Tests::Done(report);
        written
    }

    /// Opens `panel`, or closes it where it is the one open; closing the instructions ticks
    /// that off the tour. The reading pane scrolls back to the top.
    pub fn toggle(&mut self, panel: Panel)
        ensures
            final(self).panel == (if old(self).panel == panel {
                Panel::Closed
            } else {
                panel
            }),
            final(self).tour == (Tour {
                closed_pane: old(self).tour.closed_pane || old(self).panel == Panel::Instructions,
                ..old(self).tour
            }),
            final(self).scroll == 0,
            final(self).index == old(self).index,
            final(self).focus == old(self).focus,
            final(self).quit == old(self).quit,
            final(self).lesson == old(self).lesson,
            final(self).progress == old(self).progress,
            final(self).tests == old(self).tests,
            final(self).build == old(self).build,
            final(self).restart == old(self).restart,
    {
        if self.panel == Panel::Instructions {
            self.tour.closed_pane = true;
        }
        self.panel = if self.panel == panel {
            Panel::Closed
        } else {
            panel
        };
        self.scroll = 0;
    }
}

} // verus!
