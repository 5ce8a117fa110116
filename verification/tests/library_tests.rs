use ratlings::exercise::{available_names, exercise_index, exercises};
use ratlings::exercises::sign_area;
use ratlings::layout::{inner, place, Area, Axis, Placement};
use ratlings::lesson::{display_name, display_name_from, hint, instructions, unwrap_paragraphs, Lesson};
use ratlings::markup::{markup_line, wrapped_lines, RunStyle};
use ratlings::progress::Progress;
use ratlings::report::{first_error, summarise_tests, Report};
use ratlings::screen::{feedback_area, reading_pane, status_bar_area, Tint};
use ratlings::tour::Tour;
use ratlings::viewer::{Action, Build, Focus, Key, KeyCode, Panel, Tests, Viewer};

const INFO: &str = "[[exercises]]\nname = \"lesson0\"\nhint = \"\"\"\nPut your name in.\"\"\"\n\n[[exercises]]\nname = \"lesson1\"\nhint = \"\"\"\nA bordered block.\"\"\"\n\n[[exercises]]\nname = \"lesson2\"\nhint = \"\"\"\nFill the food bag.\"\"\"\n";

fn open(index: usize) -> Viewer {
    Viewer::open(index, "// A story.\n", INFO, Progress::new(), false)
}

fn area(x: u16, y: u16, width: u16, height: u16) -> Area {
    Area { x, y, width, height }
}

fn passing(n: usize) -> Report {
    Report {
        passed: n,
        failed: 0,
        messages: vec![],
    }
}

#[test]
fn a_tour_survives_encoding() {
    let t = Tour {
        closed_pane: true,
        to_canvas: false,
        back_to_ratlings: true,
        hint: false,
        ran_tests: false,
        passed: true,
    };
    assert_eq!(t.encode(), "101001");
    let d = Tour::decode(&t.encode());
    assert_eq!(d.encode(), "101001");
    assert!(d.closed_pane && !d.to_canvas && d.back_to_ratlings && d.passed);
    assert_eq!(Tour::decode("1").encode(), "100000");
    assert_eq!(Tour::decode("x1y1").encode(), "010100");
}

#[test]
fn the_checklist_reads_row_by_row() {
    let t = Tour::default();
    let list = t.checklist();
    assert!(list.starts_with("Your tour:\n ○ `esc`  close this pane"));
    assert!(list.contains("\n ○ `h`    read the hint"));
    assert!(list.ends_with("\n ○      make them pass (edit the file, then `?` again)"));
}

#[test]
fn a_saved_state_brings_back_lesson_tour_and_panel() {
    let mut v = open(2);
    v.on_key(Key { code: KeyCode::Char('h'), ctrl: false });
    v.on_key(Key { code: KeyCode::Char('g'), ctrl: true });
    let state = v.state();
    assert_eq!(state, "2;110100;h");
    let sources = vec![String::new(), String::new(), String::new()];
    let r = Viewer::resume(&state, &sources, INFO, Progress::new(), false).unwrap();
    assert_eq!((r.index, r.panel), (2, Panel::Hint));
    assert_eq!(r.tour.encode(), "110100");
    assert_eq!(r.focus, Focus::Ratlings);
    assert!(Viewer::resume("1;0", &sources, INFO, Progress::new(), false).is_none());
    assert!(Viewer::resume("+1;1;q;extra", &sources, INFO, Progress::new(), false)
        .map(|v| v.panel == Panel::Closed && v.index == 1)
        .unwrap());
}

#[test]
fn the_exercise_keeps_every_key_but_ctrl_g() {
    let mut v = open(0);
    v.on_key(Key { code: KeyCode::Char('g'), ctrl: true });
    assert_eq!(v.focus, Focus::Canvas);
    for code in [KeyCode::Char('q'), KeyCode::Esc, KeyCode::Char('?'), KeyCode::Down] {
        assert_eq!(v.on_key(Key { code, ctrl: false }), Action::Nothing);
    }
    assert!(!v.quit && v.panel == Panel::Instructions && v.scroll == 0);
    v.on_key(Key { code: KeyCode::Char('g'), ctrl: true });
    assert_eq!(v.focus, Focus::Ratlings);
    assert!(v.tour.to_canvas && v.tour.back_to_ratlings);
}

#[test]
fn keys_move_panels_scroll_and_quit() {
    let mut v = open(1);
    v.on_key(Key { code: KeyCode::Char('j'), ctrl: false });
    v.on_key(Key { code: KeyCode::Down, ctrl: false });
    assert_eq!(v.scroll, 2);
    v.on_key(Key { code: KeyCode::Up, ctrl: false });
    assert_eq!(v.scroll, 1);
    assert_eq!(v.on_key(Key { code: KeyCode::Char('?'), ctrl: false }), Action::RunTests);
    assert_eq!(v.panel, Panel::Feedback);
    assert_eq!(v.scroll, 0);
    assert!(matches!(v.tests, Tests::Running));
    v.on_key(Key { code: KeyCode::Char('?'), ctrl: false });
    assert_eq!(v.panel, Panel::Closed);
    assert_eq!(v.on_key(Key { code: KeyCode::Char('?'), ctrl: false }), Action::Nothing);
    v.on_key(Key { code: KeyCode::Char('k'), ctrl: false });
    assert_eq!(v.scroll, 0);
    v.on_key(Key { code: KeyCode::Char('q'), ctrl: false });
    assert!(v.quit);
}

#[test]
fn the_last_lesson_has_no_next() {
    let mut v = open(2);
    v.tests = Tests::Done(passing(3));
    assert!(v.passed() && !v.has_next());
    assert_eq!(v.on_key(Key { code: KeyCode::Char('n'), ctrl: false }), Action::Nothing);
}

#[test]
fn the_first_pass_is_recorded_once() {
    let mut v = open(1);
    v.panel = Panel::Closed;
    let written = v.on_report(passing(2));
    assert_eq!(
        written.as_deref(),
        Some("# ratlings progress — one finished lesson per line\nlesson1\n")
    );
    assert_eq!((v.focus, v.panel), (Focus::Ratlings, Panel::Feedback));
    assert!(v.tour.passed && v.passed());
    assert!(v.chrome_title().contains("Lesson 1 ✓"));
    v.panel = Panel::Closed;
    assert_eq!(v.on_report(passing(2)), None);
    assert_eq!(v.panel, Panel::Closed);
}

#[test]
fn a_failing_run_records_nothing() {
    let mut v = open(0);
    let report = Report {
        passed: 1,
        failed: 2,
        messages: vec!["a".into(), "b".into(), "c".into(), "d".into()],
    };
    assert_eq!(v.on_report(report), None);
    assert!(!v.tour.passed);
    assert_eq!(v.feedback().unwrap(), "2 of 3 failing\n\n· a\n· b\n· c");
    assert_eq!(v.feedback_tint(), Tint::Bad);
}

#[test]
fn progress_written_is_progress_read() {
    let mut p = Progress::parse("# note\n  lesson2  \n\nlesson0\r\n#lesson1\n");
    assert!(p.is_done("lesson2") && p.is_done("lesson0") && !p.is_done("lesson1"));
    assert_eq!(p.next_index(), 1);
    let text = p.mark_done("lesson1").unwrap();
    assert_eq!(
        text,
        "# ratlings progress — one finished lesson per line\nlesson0\nlesson1\nlesson2\n"
    );
    assert_eq!(p.mark_done("lesson1"), None);
    let q = Progress::parse(&text);
    assert_eq!(q.done(), p.done());
    assert_eq!(q.next_index(), 2);
    assert_eq!(Progress::file("/srv/course"), "/srv/course/.ratlings-progress");
    assert_eq!(Progress::file("/srv/course/"), "/srv/course/.ratlings-progress");
}

#[test]
fn names_sort_character_by_character() {
    let mut p = Progress::new();
    for n in ["b", "ab", "a", "é", "Z", "a"] {
        p.mark_done(n);
    }
    assert_eq!(*p.done(), vec!["Z", "a", "ab", "b", "é"]);
}

#[test]
fn test_output_is_summarised() {
    let out = "running 3 tests\n\
        test a ... ok\n\
        thread 'b' panicked at src/x.rs:3:5:\n\
        assertion `left == right` failed: the stove sits under it\n\
        error: test failed, to rerun pass `--bin lesson2`\n\
        test result: FAILED. 2 passed; 1 failed; 0 ignored; 0 measured; 0 filtered out\n\
        test result: ok. +4 passed; x failed\n\
        Diff < left / right > :\nbuffer contents not equal\n\
        error[E0425]: cannot find value `NAM`  \n";
    let r = summarise_tests(out).unwrap();
    assert_eq!((r.passed, r.failed), (6, 1));
    assert_eq!(
        r.messages,
        vec![
            "the stove sits under it",
            "the rendered output isn't what the exercise expects",
            "error[E0425]: cannot find value `NAM`",
        ]
    );
    assert!(!r.ok());
    let huge = format!(
        "test result: ok. {} passed\ntest result: ok. 1 passed\n",
        usize::MAX
    );
    assert!(summarise_tests(&huge).is_none());
    assert!(!summarise_tests("").unwrap().ok());
}

#[test]
fn a_build_without_errors_says_so() {
    assert_eq!(first_error("warning: unused\n"), "the build failed");
    assert_eq!(first_error("error: one\nerror: two  \r\n   \nmore"), "error: one\nerror: two");
}

#[test]
fn lessons_without_a_hint_say_so() {
    let l = Lesson::for_exercise("lesson9", "// Hi.\n", INFO);
    assert_eq!(l.hint, "No hint for this one — you've got this.");
    assert_eq!(l.instructions, "Hi.");
    assert_eq!(hint(INFO, "lesson1").as_deref(), Some("A bordered block."));
    assert_eq!(hint("name = \"lesson1\"\nhint = \"\"\"never closed", "lesson1"), None);
}

#[test]
fn instructions_handle_crlf_and_missing_todo() {
    assert_eq!(instructions("  //  Indented.\r\n//x\r\ncode\r\n"), " Indented.\nx");
    assert_eq!(instructions("fn main() {}\n// TODO: later\n"), "\n\nTODO: later");
    assert_eq!(instructions(""), "");
}

#[test]
fn display_names_uppercase_beyond_ascii() {
    assert_eq!(display_name("élan3"), "Élan 3");
    assert_eq!(display_name("42"), " 42");
    assert_eq!(display_name(""), "");
}

#[test]
fn markers_inside_words_stay_plain() {
    let runs = markup_line("a__b_ `` x`y`");
    let got: Vec<(&str, RunStyle)> = runs.iter().map(|r| (r.text.as_str(), r.style)).collect();
    assert_eq!(
        got,
        [
            ("a_", RunStyle::Plain),
            ("b", RunStyle::Italic),
            (" `", RunStyle::Plain),
            (" x", RunStyle::Code),
            ("y`", RunStyle::Plain)
        ]
    );
    assert!(markup_line("").is_empty());
}

#[test]
fn the_course_is_three_lessons() {
    let all = exercises();
    assert_eq!(all.len(), 3);
    assert!(all[0].is_tour() && !all[1].is_tour());
    assert_eq!(all[2].file("/c"), "/c/exercises/01_packing/lesson2.rs");
    assert_eq!(exercise_index("lesson2"), Some(2));
    assert_eq!(exercise_index("lesson3"), None);
    assert_eq!(available_names(), "lesson0, lesson1, lesson2");
}

#[test]
fn margins_shrink_or_vanish() {
    assert_eq!(inner(area(1, 2, 10, 8), 2, 3), area(3, 5, 6, 2));
    assert_eq!(inner(area(1, 2, 3, 8), 2, 3), area(0, 0, 0, 0));
}

#[test]
fn panes_sit_where_they_belong() {
    assert_eq!(feedback_area(area(0, 0, 90, 30), false), area(40, 17, 46, 10));
    assert_eq!(feedback_area(area(0, 0, 90, 30), true), area(40, 11, 46, 16));
    assert_eq!(sign_area(area(0, 0, 60, 9)), area(10, 2, 40, 5));
    assert_eq!(status_bar_area(area(0, 0, 90, 30)), area(0, 29, 90, 1));
}

#[test]
fn the_reading_pane_fits_its_text() {
    let short = reading_pane(area(0, 0, 90, 30), "One line.", 5).unwrap();
    assert_eq!(short.area, area(9, 13, 72, 5));
    assert_eq!(short.scroll, 0);
    assert_eq!(short.footer, " esc close ");
    let long: String = (0..40).map(|i| format!("line {i}\n")).collect();
    let pane = reading_pane(area(0, 0, 90, 30), &long, 100).unwrap();
    assert_eq!(pane.area.height, 26);
    assert_eq!(pane.scroll, 18);
    assert_eq!(pane.footer, " j/k scroll · esc close ");
    assert_eq!(pane.lines.len(), 40);
}

#[test]
fn feedback_follows_the_run() {
    let mut v = open(0);
    assert_eq!(v.feedback().unwrap(), "running `cargo test`…");
    v.tests = Tests::Done(passing(3));
    assert_eq!(
        v.feedback().unwrap(),
        "3 passed — this one's done ✓\n\npress `n` for the next lesson"
    );
    assert_eq!(v.feedback_tint(), Tint::Good);
    assert!(v.status_bar().contains("n next lesson"));
    v.tests = Tests::Done(Report::default());
    assert_eq!(v.feedback().unwrap(), "the tests couldn't run\n");
    v.build = Build::Failed("error: x".into());
    assert_eq!(v.feedback().unwrap(), "this file doesn't compile yet:\n\nerror: x");
}

#[test]
fn saving_the_file_rebuilds_once() {
    let mut v = open(0);
    assert!(v.watch(true, None));
    assert!(v.status_bar().contains("rebuilding…"));
    assert!(!v.watch(true, None));
    v.panel = Panel::Closed;
    v.focus = Focus::Canvas;
    assert!(!v.watch(false, Some(Err("error: nope".into()))));
    assert!(matches!(v.build, Build::Failed(_)));
    assert_eq!((v.focus, v.panel), (Focus::Ratlings, Panel::Feedback));
    assert!(v.watch(true, Some(Ok(()))));
    assert!(v.restart);
}

#[test]
fn a_rule_is_drawn_as_wide_as_the_pane() {
    let pane = reading_pane(area(0, 0, 90, 30), "Story.\n───\nMore.", 0).unwrap();
    assert_eq!(pane.lines.len(), 3);
    assert_eq!(pane.lines[1].len(), 1);
    assert_eq!(pane.lines[1][0].text, "─".repeat(66));
    assert_eq!(pane.lines[1][0].style, RunStyle::Plain);
    assert_eq!(pane.lines[0][0].text, "Story.");
    let narrow = reading_pane(area(0, 0, 30, 20), "───", 0).unwrap();
    assert_eq!(narrow.lines[0][0].text, "─".repeat(20));
}

#[test]
fn prose_lines_join_with_one_space() {
    let lines: Vec<String> = vec!["Packing is a layout   ".into(), "problem.".into(), "Really.".into()];
    assert_eq!(unwrap_paragraphs(&lines), "Packing is a layout problem. Really.");
    assert_eq!(unwrap_paragraphs(&[]), "");
    let with_break: Vec<String> = vec!["One.".into(), "  ".into(), "Two.".into()];
    assert_eq!(unwrap_paragraphs(&with_break), "One.\n\nTwo.");
}

#[test]
fn every_flag_ticks_its_own_row() {
    let t = Tour {
        closed_pane: false,
        to_canvas: true,
        back_to_ratlings: false,
        hint: true,
        ran_tests: false,
        passed: true,
    };
    let flags = [false, true, false, true, false, true];
    let list = t.checklist();
    let rows: Vec<&str> = list.lines().collect();
    assert_eq!(rows.len(), 7);
    assert_eq!(rows[0], "Your tour:");
    for (k, done) in flags.iter().enumerate() {
        let mark = if *done { " ✓ " } else { " ○ " };
        assert!(rows[k + 1].starts_with(mark), "row {k}: {}", rows[k + 1]);
    }
    assert_eq!(list.matches('✓').count(), 3);
    let fresh = Tour::default().checklist();
    let fresh_rows: Vec<&str> = fresh.lines().collect();
    for k in 1..7 {
        assert_eq!(rows[k].chars().skip(2).collect::<String>(), fresh_rows[k].chars().skip(2).collect::<String>());
    }
}

#[test]
fn markup_gives_back_the_line_less_its_markers() {
    let line = "Use _Block_ and `render_widget`, not a_b or `open";
    let runs = markup_line(line);
    assert!(runs.iter().all(|r| !r.text.is_empty()));
    let mut back = String::new();
    for r in &runs {
        let m = match r.style {
            RunStyle::Plain => "",
            RunStyle::Italic => "_",
            RunStyle::Code => "`",
        };
        back.push_str(m);
        back.push_str(&r.text);
        back.push_str(m);
    }
    assert_eq!(back, line);
    assert_eq!(runs.len(), 5);
}

#[test]
fn two_lines_take_the_rows_of_each() {
    let a = "the rain shell rides on top of everything";
    let b = "food";
    let both = format!("{a}\n{b}");
    assert_eq!(wrapped_lines(&both, 10), wrapped_lines(a, 10) + wrapped_lines(b, 10));
    assert_eq!(wrapped_lines(a, 10), 5);
    assert_eq!(wrapped_lines(&both, 10), 6);
}

#[test]
fn a_placed_piece_goes_where_its_placement_says() {
    let a = area(0, 0, 10, 4);
    assert_eq!(place(a, Axis::Horizontal, Placement::Start, 3), area(0, 0, 3, 4));
    assert_eq!(place(a, Axis::Horizontal, Placement::End, 3), area(7, 0, 3, 4));
    assert_eq!(place(a, Axis::Horizontal, Placement::Center, 3), area(4, 0, 3, 4));
    assert_eq!(place(a, Axis::Horizontal, Placement::Center, 20), a);
    let b = area(2, 1, 5, 9);
    assert_eq!(place(b, Axis::Vertical, Placement::Center, 4), area(2, 4, 5, 4));
    assert_eq!(place(b, Axis::Vertical, Placement::End, 4), area(2, 6, 5, 4));
    assert_eq!(place(b, Axis::Vertical, Placement::Center, 9), b);
}

#[test]
fn a_name_takes_the_uppercase_it_is_given() {
    assert_eq!(display_name_from("ßeta2", &['S', 'S']), "SSeta 2");
    assert_eq!(display_name_from("2", &[]), " 2");
    assert_eq!(display_name_from("lesson10", &['L']), "Lesson 10");
    assert_eq!(display_name("ßeta2"), "SSeta 2");
}

#[test]
fn small_screens_shrink_the_panes() {
    assert_eq!(sign_area(area(0, 0, 30, 4)), area(0, 0, 30, 4));
    assert_eq!(feedback_area(area(0, 0, 40, 12), false), area(4, 3, 32, 6));
}
