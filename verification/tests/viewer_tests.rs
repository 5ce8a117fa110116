use ratlings::exercise::{exercises, Exercise};
use ratlings::lesson::{display_name, instructions, unwrap_paragraphs};
use ratlings::markup::{is_rule, markup, markup_line, plain_text, wrapped_lines, RunStyle};
use ratlings::progress::Progress;
use ratlings::report::{first_error, Report};
use ratlings::viewer::{Action, Key, KeyCode, Panel, Tests, Viewer};

const INFO: &str = "format_version = 1\n\n[[exercises]]\nname = \"lesson0\"\ndir = \"00_intro\"\nhint = \"\"\"\nPut your own name in `NAME`, then press `?`.\"\"\"\n\n[[exercises]]\nname = \"lesson1\"\ndir = \"01_packing\"\nhint = \"\"\"\nUse `Block::bordered()` and give it\na title.\"\"\"\n\n[[exercises]]\nname = \"lesson2\"\ndir = \"01_packing\"\nhint = \"\"\"\nThe food bag takes `Constraint::Fill(1)`.\"\"\"\n";

const LESSON0: &str = r#"// Welcome to Ratlings!
//
// Ratlings is a set of small exercises for learning Ratatui, the Rust library
// for building terminal user interfaces. Each lesson is one ordinary Rust file
// like this one. You edit it in your editor, and ratlings tells you when it is
// right.
//
// ──────────────────────────────────────────────────────────────────
//
// The screen behind this pane is the _canvas_: your app, drawn at the real size
// of your terminal. Right now it shows the little welcome sign this file
// renders. Ratlings floats on top of it and never changes a cell of it.
//
// This first lesson is just a tour of the keys. Work through the checklist
// above; it ticks off each one as you use it, and `i` brings this pane back
// whenever you close it.
//
// Reading this in your editor? Open the viewer with `cargo run -- lesson0`.

use ratatui::{
    DefaultTerminal, Frame,
    layout::{Constraint, Flex, Layout},
    widgets::{Block, Padding, Paragraph},
};
use std::io::IsTerminal;

// TODO: The sign is addressed to nobody. Put your name here, then press `?`
// to run the tests and see them go green. That edit-and-check loop is the
// whole course; everything after this is just more Ratatui.
const NAME: &str = "???";

pub fn render(frame: &mut Frame) {
    let [area] = Layout::horizontal([Constraint::Length(40)])
        .flex(Flex::Center)
        .areas(frame.area());
    let [area] = Layout::vertical([Constraint::Length(5)])
        .flex(Flex::Center)
        .areas(area);
    let sign = Paragraph::new(format!("Hello, {NAME}!\nWelcome to Ratlings."))
        .centered()
        .block(
            Block::bordered()
                .title(" ratlings ")
                .padding(Padding::vertical(1)),
        );
    frame.render_widget(sign, area);
}

// Hi Ratatui student!
// Everything below this is just scaffolding.
// It opens the terminal, draws `render` until a key is pressed,
// and checks your work. It is the same in every lesson and you never
// need to edit it. Your work is above this line.

fn app(terminal: &mut DefaultTerminal) -> std::io::Result<()> {
    loop {
        terminal.draw(render)?;
        if ratatui::crossterm::event::read()?.is_key_press() {
            break Ok(());
        }
    }
}

fn main() -> std::io::Result<()> {
    if !std::io::stdout().is_terminal() {
        return Ok(());
    }
    ratatui::run(app)
}
"#;
const LESSON1: &str = r#"// Ratatui and his fellow chef friends are going going on an adventure!
//
// After years of working away, spending long hours in the kitchen, and late nights
// coming up with the perfect recipes, they've earned some much needed rest and
// relaxation. But this hairy bunch isn't headed to a summer home, nor a nice,
// relaxing beach. No, _they're going camping_!
//
// Only... there's one problem. Ratatui has never gone camping before. It's
// time to pack, but he has no idea what he needs to bring, or how to organize
// his bag!
//
// Everything you see in a Ratatui app is a widget drawn into an area of the
// frame. `render_widget` is the call that puts one there, and `frame.area()`
// is the whole terminal. A `Block` is the simplest useful widget there is: a
// box, optionally with borders and a title.

use ratatui::{DefaultTerminal, Frame, widgets::Block};
use std::io::IsTerminal;

fn render(frame: &mut Frame) {
    // TODO: Ratatui is rendering a block, but a plain `Block::new()` draws
    // nothing at all — run it and you get an empty screen. Give him a bag he
    // can actually see: a block with borders, titled " pack ".
    // Docs: https://docs.rs/ratatui/latest/ratatui/widgets/struct.Block.html
    frame.render_widget(Block::new(), frame.area());
}

fn app(terminal: &mut DefaultTerminal) -> std::io::Result<()> {
    loop {
        terminal.draw(render)?;
        if ratatui::crossterm::event::read()?.is_key_press() {
            break Ok(());
        }
    }
}

fn main() -> std::io::Result<()> {
    // Rustlings runs this binary with no terminal attached. Only take over the
    // screen when there is a real one to take over.
    if !std::io::stdout().is_terminal() {
        return Ok(());
    }
    ratatui::run(app)
}
"#;
const LESSON2: &str = r#"// Alright, what else does Ratatui need to survive in the woods? Actually, let
// me rephrase that. We're going to go beyond survival. We're camping _with style_.
//
// After discussing with his chef friends, Ratatui has learned that there are
// some essentials he's going to need to fit into his bag.
//
// ──────────────────────────────────────────────────────────────────
//
// Packing is a layout problem. The pack is a fixed height and most of the gear
// is not negotiable: the rain shell, the stove and the sleeping bag each need
// the same room whatever pack they go in. The food bag is the one that flexes,
// and it has to keep flexing when the pack changes size.
//
// Reserving room for the fixed things and letting one thing claim the rest is
// the whole job of a layout.

use ratatui::{
    DefaultTerminal, Frame,
    layout::{Constraint, Layout, Rect},
    widgets::Block,
};
use std::io::IsTerminal;

const GEAR: [&str; 4] = ["rain shell", "stove", "food", "sleeping bag"];

/// Divide the pack interior into one compartment per item of gear, top to bottom.
fn compartments(pack: Rect) -> [Rect; 4] {
    // TODO: This pack is packed wrong. Run it and look at it — every
    // compartment is nailed to 3 rows, the food bag has nowhere to grow, and
    // the bottom of the pack is dead air. Give each item of `GEAR` the
    // constraint it actually needs, in the same order.
    //
    // Docs: https://docs.rs/ratatui/latest/ratatui/layout/enum.Constraint.html
    let constraints: [Constraint; 4] = [
        Constraint::Length(3),
        Constraint::Length(3),
        Constraint::Length(3),
        Constraint::Length(3),
    ];
    Layout::vertical(constraints).areas(pack)
}

pub fn render(frame: &mut Frame) {
    let pack = Block::bordered().title(" pack ");
    let interior = pack.inner(frame.area());
    frame.render_widget(pack, frame.area());

    for (area, label) in compartments(interior).into_iter().zip(GEAR) {
        frame.render_widget(Block::bordered().title(label), area);
    }
}

// ────────────────────────────────────────────────────────────────────
// Hi Ratatui student!
// Everything below this is just scaffolding.
// It opens the terminal, draws `render` until a key is pressed,
// and checks your work. It is the same in every lesson and you never
// need to edit it. Your work is above this line.

fn app(terminal: &mut DefaultTerminal) -> std::io::Result<()> {
    loop {
        terminal.draw(render)?;
        if ratatui::crossterm::event::read()?.is_key_press() {
            break Ok(());
        }
    }
}

fn main() -> std::io::Result<()> {
    if !std::io::stdout().is_terminal() {
        return Ok(());
    }
    ratatui::run(app)
}
"#;

/// The lessons' own files, as the course ships them, up to their tests.
fn sources() -> Vec<String> {
    vec![LESSON0.to_string(), LESSON1.to_string(), LESSON2.to_string()]
}

fn open(index: usize) -> Viewer {
    Viewer::open(index, &sources()[index], INFO, Progress::new(), false)
}

fn press(v: &mut Viewer, code: KeyCode, ctrl: bool) -> Action {
    v.on_key(Key { code, ctrl })
}

fn exercise(v: &Viewer) -> Exercise {
    exercises().remove(v.index)
}

#[test]
fn instructions_take_the_story_and_the_todo() {
    let src = "// Once upon a time.\n// A rat.\n//\n// Second paragraph.\n\nuse x;\n\nfn render() {\n    // TODO: do the thing\n    // on two lines.\n    let y = 1;\n}\n";
    assert_eq!(
        instructions(src),
        "Once upon a time. A rat.\n\nSecond paragraph.\n\nTODO: do the thing on two lines."
    );
}

#[test]
fn every_exercise_has_a_hint_in_info_toml() {
    for ex in exercises() {
        let h = ratlings::lesson::hint(INFO, &ex.name).unwrap_or_default();
        assert!(!h.is_empty(), "{} has no hint", ex.name);
    }
}

#[test]
fn the_viewer_opens_on_the_instructions() {
    let viewer = open(1);
    let (title, text) = viewer.reading().unwrap();
    assert!(title.contains("Lesson 1 · A Bag You Can See"));
    let v0 = open(0);
    let (_, text0) = v0.reading().unwrap();
    let screen0: Vec<String> = markup(&text0).iter().map(plain_text).collect();
    let screen0 = screen0.join("\n");
    assert!(screen0.contains("Your tour:"));
    assert!(screen0.contains("○ esc"));
    assert!(viewer.status_bar().contains("i instructions"));
    assert!(text.contains("TODO"));
}

#[test]
fn the_tour_ticks_off_keys_as_they_are_used() {
    let mut v = open(0);
    assert!(exercise(&v).is_tour());
    assert!(!v.tour.closed_pane);
    press(&mut v, KeyCode::Esc, false);
    press(&mut v, KeyCode::Char('g'), true);
    press(&mut v, KeyCode::Char('g'), true);
    press(&mut v, KeyCode::Char('h'), false);
    assert!(v.tour.closed_pane && v.tour.to_canvas && v.tour.back_to_ratlings && v.tour.hint);
    assert!(!v.tour.ran_tests);
    let list = v.tour.checklist();
    assert!(list.contains("✓ `esc`") && list.contains("○ `?`"));
}

#[test]
fn n_moves_on_only_once_the_tests_pass() {
    let mut v = open(0);
    let action = press(&mut v, KeyCode::Char('n'), false);
    assert_eq!(action, Action::Nothing);
    assert_eq!(v.index, 0);
    v.tests = Tests::Done(Report {
        passed: 1,
        failed: 0,
        messages: vec![],
    });
    let action = press(&mut v, KeyCode::Char('n'), false);
    assert_eq!(action, Action::Open(1));
    if let Action::Open(next) = action {
        v = open(next);
    }
    assert_eq!(v.index, 1);
    assert_eq!(v.panel, Panel::Instructions);
    assert!(v.chrome_title().contains("Lesson 1"));
}

#[test]
fn display_names_read_like_titles() {
    assert_eq!(display_name("lesson1"), "Lesson 1");
    assert_eq!(display_name("lesson12"), "Lesson 12");
    assert_eq!(display_name("intro"), "Intro");
}

#[test]
fn markup_styles_italics_and_code_but_not_snake_case() {
    let line = markup_line("No, _they're going camping_! Call `render_widget` on a_b.");
    let texts: Vec<&str> = line.iter().map(|s| s.text.as_str()).collect();
    assert_eq!(
        texts,
        [
            "No, ",
            "they're going camping",
            "! Call ",
            "render_widget",
            " on a_b."
        ]
    );
    assert_eq!(line[1].style, RunStyle::Italic);
    assert_eq!(line[3].style, RunStyle::Code);
}

#[test]
fn indented_comment_lines_stay_on_their_own_rows() {
    let lines: Vec<String> = ["Keys:", "  esc  close", "  C-g  swap", "Done."]
        .map(String::from)
        .into();
    assert_eq!(
        unwrap_paragraphs(&lines),
        "Keys:\n  esc  close\n  C-g  swap\nDone."
    );
}

#[test]
fn state_survives_a_restart() {
    let mut v = open(0);
    press(&mut v, KeyCode::Esc, false);
    press(&mut v, KeyCode::Char('h'), false);
    let state = v.state();
    assert_eq!(state, "0;100100;h");
    let r = Viewer::resume(&state, &sources(), INFO, Progress::new(), false).unwrap();
    assert_eq!(r.index, 0);
    assert_eq!(r.panel, Panel::Hint);
    assert!(r.tour.closed_pane && r.tour.hint && !r.tour.to_canvas);
    assert!(Viewer::resume("99;0;i", &sources(), INFO, Progress::new(), false).is_none());
    assert!(Viewer::resume("garbage", &sources(), INFO, Progress::new(), false).is_none());
}

#[test]
fn first_error_takes_the_first_rustc_block() {
    let err = "   Compiling x\nerror[E0425]: cannot find value `NAM`\n --> src/x.rs:3:1\n  |\n\nerror: aborting\n";
    assert_eq!(
        first_error(err),
        "error[E0425]: cannot find value `NAM`\n --> src/x.rs:3:1\n  |"
    );
}

#[test]
fn progress_picks_the_first_unfinished_lesson() {
    assert_eq!(Progress::parse("").next_index(), 0);
    assert_eq!(Progress::parse("# note\nlesson0\n").next_index(), 1);
    assert_eq!(Progress::parse("lesson1\n").next_index(), 0);
    let all: String = exercises()
        .iter()
        .map(|e| e.name.clone())
        .collect::<Vec<_>>()
        .join("\n");
    assert_eq!(Progress::parse(&all).next_index(), exercises().len() - 1);
}

#[test]
fn an_empty_run_is_not_a_pass() {
    assert!(!Report::default().ok());
    assert!(
        Report {
            passed: 2,
            failed: 0,
            messages: vec![]
        }
        .ok()
    );
    assert!(
        !Report {
            passed: 2,
            failed: 1,
            messages: vec![]
        }
        .ok()
    );
}

#[test]
fn rules_are_only_box_drawing_dashes() {
    assert!(is_rule("──────"));
    assert!(is_rule("  ─────  "));
    assert!(!is_rule("──"));
    assert!(!is_rule("── hi ──"));
}

#[test]
fn wrapping_counts_rows() {
    assert_eq!(wrapped_lines("aaa bbb ccc", 7), 2);
    assert_eq!(wrapped_lines("one\n\ntwo", 80), 3);
    assert_eq!(
        wrapped_lines("Docs: https://example.com/a/very/long/path", 20),
        3
    );
    assert_eq!(wrapped_lines("abcdefghij", 5), 2);
}
