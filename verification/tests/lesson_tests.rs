use ratatui::{
    backend::TestBackend,
    layout::Rect,
    widgets::{Block, Padding, Paragraph},
    Frame, Terminal,
};
use ratlings::exercises::{compartments, packed_boxes, sign_area, sign_text, NAME};
use ratlings::layout::{bordered_inner, Area};

fn area(x: u16, y: u16, width: u16, height: u16) -> Area {
    Area { x, y, width, height }
}

fn whole(frame: &Frame) -> Area {
    let r = frame.area();
    area(r.x, r.y, r.width, r.height)
}

fn rect(a: Area) -> Rect {
    Rect::new(a.x, a.y, a.width, a.height)
}

/// The welcome sign, drawn where and as the library says.
fn render_sign(frame: &mut Frame) {
    let at = rect(sign_area(whole(frame)));
    let sign = Paragraph::new(sign_text(NAME)).centered().block(
        Block::bordered()
            .title(" ratlings ")
            .padding(Padding::vertical(1)),
    );
    frame.render_widget(sign, at);
}

/// The packed pack, one bordered box per entry of the library's plan.
fn render_pack(frame: &mut Frame) {
    for b in packed_boxes(whole(frame)) {
        frame.render_widget(Block::bordered().title(b.title), rect(b.area));
    }
}

#[test]
fn the_sign_has_your_name_on_it() {
    assert!(
        !NAME.trim().is_empty() && NAME != "???",
        "NAME is still the placeholder — put your own name in it"
    );
}

#[test]
fn the_sign_says_hello_to_you() {
    let mut terminal = Terminal::new(TestBackend::new(60, 9)).expect("test backend");
    terminal.draw(render_sign).expect("render frame");
    let screen = terminal.backend().to_string();
    assert!(
        screen.contains(&format!("Hello, {NAME}!")),
        "the sign should greet {NAME} by name"
    );
}

#[test]
fn fixed_gear_always_takes_three_rows() {
    let [shell, stove, _food, sleeping_bag] = compartments(area(1, 1, 22, 14));

    assert_eq!(shell, area(1, 1, 22, 3), "the rain shell rides on top");
    assert_eq!(stove, area(1, 4, 22, 3), "the stove sits under it");
    assert_eq!(
        sleeping_bag,
        area(1, 12, 22, 3),
        "the sleeping bag is crushed into the bottom"
    );
}

#[test]
fn food_takes_the_space_the_other_gear_leaves() {
    let [_, _, small, _] = compartments(area(1, 1, 22, 14));
    let [_, _, large, _] = compartments(area(1, 1, 22, 20));

    assert_eq!(small, area(1, 7, 22, 5), "14 rows, 9 of them spoken for");
    assert_eq!(
        large,
        area(1, 7, 22, 11),
        "six more rows in the pack should be six more rows of food"
    );
}

#[test]
fn the_pack_renders() {
    let mut terminal = Terminal::new(TestBackend::new(24, 16)).expect("test backend");
    terminal.draw(render_pack).expect("render frame");
    terminal.backend().assert_buffer_lines([
        "┌ pack ────────────────┐",
        "│┌rain shell──────────┐│",
        "││                    ││",
        "│└────────────────────┘│",
        "│┌stove───────────────┐│",
        "││                    ││",
        "│└────────────────────┘│",
        "│┌food────────────────┐│",
        "││                    ││",
        "││                    ││",
        "││                    ││",
        "│└────────────────────┘│",
        "│┌sleeping bag────────┐│",
        "││                    ││",
        "│└────────────────────┘│",
        "└──────────────────────┘",
    ]);
}

#[test]
fn the_pack_plan_titles_each_box() {
    let boxes = packed_boxes(area(0, 0, 24, 16));
    let titles: Vec<&str> = boxes.iter().map(|b| b.title.as_str()).collect();
    assert_eq!(titles, [" pack ", "rain shell", "stove", "food", "sleeping bag"]);
    assert_eq!(boxes[0].area, area(0, 0, 24, 16));
    assert_eq!(boxes[1].area, area(1, 1, 22, 3));
    assert_eq!(boxes[3].area, area(1, 7, 22, 5));
    assert_eq!(boxes[4].area, area(1, 12, 22, 3));
}

#[test]
fn a_bordered_inside_never_goes_negative() {
    assert_eq!(bordered_inner(area(0, 0, 24, 16)), area(1, 1, 22, 14));
    assert_eq!(bordered_inner(area(3, 4, 1, 1)), area(4, 5, 0, 0));
    assert_eq!(bordered_inner(area(5, 5, 0, 0)), area(5, 5, 0, 0));
    let r = Block::bordered().inner(Rect::new(65534, 2, 1, 7));
    assert_eq!(bordered_inner(area(65534, 2, 1, 7)), area(r.x, r.y, r.width, r.height));
}

#[test]
fn a_small_pack_is_filled_by_the_fixed_gear() {
    for height in 0..9u16 {
        let pack = area(1, 1, 22, height);
        let parts = compartments(pack);
        let mut y = pack.y;
        for (i, part) in parts.iter().enumerate() {
            assert_eq!((part.x, part.width, part.y), (1, 22, y), "height {height}, part {i}");
            y += part.height;
            if i == 2 {
                assert_eq!(part.height, 0, "no room for food at height {height}");
            } else {
                assert!(part.height <= 3, "height {height}, part {i}");
            }
        }
        assert_eq!(y, pack.y + height, "the gear fills a pack of {height} rows");
    }
}
