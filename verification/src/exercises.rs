//! The lessons' own logic: the welcome sign of lesson 0 and the compartments of the pack in
//! lesson 2.
use vstd::prelude::*;
use crate::layout::{
    bordered_inner, bordered_inner_spec, extents_before, fill_count, fits_u16, lemma_placed_fits,
    lengths_total, piece_of, place, placed, split_area, squeezed, tiles, within, Area, Axis,
    Placement, Size,
};
use crate::text::{append_str, chars_of, string_of};

verus! {

/// The name on the welcome sign.
pub const NAME: &'static str = "Ratatui";

/// What the welcome sign says to `name`.
pub fn sign_text(name: &str) -> (s: String)
    ensures
        s@ == "Hello, "@ + name@ + "!\nWelcome to Ratlings."@,
{
    let mut out = chars_of("Hello, ");
    append_str(&mut out, name);
    append_str(&mut out, "!\nWelcome to Ratlings.");
    string_of(out.as_slice())
}

/// Where the sign stands on a screen: 40 columns wide and 5 rows high, centred both ways (as
/// much of either as the screen has, where it has less).
pub fn sign_area(screen: Area) -> (r: Area)
    ensures
        within(screen, r),
        fits_u16(screen) ==> r == placed(
            placed(screen, Axis::Horizontal, Placement::Center, 40),
            Axis::Vertical,
            Placement::Center,
            5,
        ),
{
    let row = place(screen, Axis::Horizontal, Placement::Center, 40);
    proof {
        if fits_u16(screen) {
            lemma_placed_fits(screen, Axis::Horizontal, Placement::Center, 40);
        }
    }
    place(row, Axis::Vertical, Placement::Center, 5)
}

/// The compartments of a pack at least 9 rows high, top to bottom: three rows each for the
/// rain shell and the stove, whatever is left for the food, and the bottom three rows for the
/// sleeping bag; each across the whole width.
pub open spec fn gear_compartments(pack: Area) -> Seq<Area> {
    seq![
        Area { height: 3, ..pack },
        Area { y: (pack.y + 3) as u16, height: 3, ..pack },
        Area { y: (pack.y + 6) as u16, height: (pack.height - 9) as u16, ..pack },
        Area { y: (pack.y + pack.height - 3) as u16, height: 3, ..pack },
    ]
}

/// What the gear asks of the layout, top to bottom: three rows each for the rain shell and
/// the stove, whatever is left for the food, three rows for the sleeping bag.
pub open spec fn gear_sizes() -> Seq<Size> {
    seq![Size::Length(3), Size::Length(3), Size::Fill(1), Size::Length(3)]
}

/// Divides the pack interior into one compartment per item of gear, top to bottom, by asking
/// Ratatui's layout solver for `gear_sizes`. Each compartment lies inside the pack and spans
/// its width. Where the pack has the 9 rows the fixed gear needs, they are
/// `gear_compartments`; in a smaller pack they fill it top to bottom with no food
/// compartment, no fixed gear over its three rows, how the shortfall is shared being the
/// solver's.
pub fn compartments(pack: Area) -> (r: [Area; 4])
    ensures
        forall|i: int| 0 <= i < 4 ==> piece_of(pack, Axis::Vertical, #[trigger] r@[i]),
        fits_u16(pack) && pack.height >= 9 ==> r@ == gear_compartments(pack),
        fits_u16(pack) && pack.height < 9 ==> tiles(pack, Axis::Vertical, r@) && squeezed(
            gear_sizes(),
            r@,
            Axis::Vertical,
        ),
{
    let mut sizes: Vec<Size> = Vec::new();
    sizes.push(Size::Length(3));
    sizes.push(Size::Length(3));
    sizes.push(Size::Fill(1));
    sizes.push(Size::Length(3));
    let pieces = split_area(pack, Axis::Vertical, Placement::Start, sizes.as_slice());
    let r = [pieces[0], pieces[1], pieces[2], pieces[3]];
    assert(forall|i: int| 0 <= i < 4 ==> r@[i] == pieces@[i]);
    proof {
        let sz = sizes@;
        assert(sz.take(0) =~= Seq::<Size>::empty());
        assert(sz.take(1).drop_last() =~= sz.take(0));
        assert(sz.take(2).drop_last() =~= sz.take(1));
        assert(sz.take(3).drop_last() =~= sz.take(2));
        assert(sz.drop_last() =~= sz.take(3));
        assert(lengths_total(sz.take(0)) == 0 && fill_count(sz.take(0)) == 0);
        assert(lengths_total(sz.take(1)) == 3 && fill_count(sz.take(1)) == 0);
        assert(lengths_total(sz.take(2)) == 6 && fill_count(sz.take(2)) == 0);
        assert(lengths_total(sz.take(3)) == 6 && fill_count(sz.take(3)) == 1);
        assert(lengths_total(sz) == 9 && fill_count(sz) == 1);
        assert(sz =~= gear_sizes());
        assert(r@ =~= pieces@);
        if fits_u16(pack) && pack.height >= 9 {
            let rest = pack.height - 9;
            assert(extents_before(sz, rest, 0) == 0);
            assert(extents_before(sz, rest, 1) == 3);
            assert(extents_before(sz, rest, 2) == 6);
            assert(extents_before(sz, rest, 3) == 6 + rest);
            assert(r@[0] == pieces@[0]);
            assert(r@[1] == pieces@[1]);
            assert(r@[2] == pieces@[2]);
            assert(r@[3] == pieces@[3]);
            assert(r@ =~= gear_compartments(pack));
        }
    }
    r
}

/// The names of the gear, top to bottom.
pub open spec fn gear_labels() -> Seq<Seq<char>> {
    seq!["rain shell"@, "stove"@, "food"@, "sleeping bag"@]
}

/// A bordered box to draw over `area`, with `title` in its top border.
pub struct TitledBox {
    pub area: Area,
    pub title: String,
}

fn titled_box(area: Area, title: &str) -> (b: TitledBox)
    ensures
        b.area == area,
        b.title@ == title@,
{
    TitledBox { area, title: string_of(chars_of(title).as_slice()) }
}

/// What lesson 2 draws on `screen`, in drawing order: the pack, titled `" pack "`, over all
/// of it, then inside its border one box per item of gear, titled with the item's name, its
/// compartment as `compartments` divides the inside of the border.
pub fn packed_boxes(screen: Area) -> (r: Vec<TitledBox>)
    ensures
        r.len() == 5,
        r[0].area == screen,
        r[0].title@ == " pack "@,
        forall|i: int|
            0 <= i < 4 ==> piece_of(bordered_inner_spec(screen), Axis::Vertical, #[trigger] r[i + 1].area)
                && r[i + 1].title@ == gear_labels()[i],
        fits_u16(screen) && screen.height >= 11 ==> forall|i: int|
            0 <= i < 4 ==> #[trigger] r[i + 1].area == gear_compartments(bordered_inner_spec(screen))[i],
        fits_u16(screen) && screen.height < 11 ==> ({
            let inside = Seq::new(4, |i: int| r[i + 1].area);
            tiles(bordered_inner_spec(screen), Axis::Vertical, inside) && squeezed(
                gear_sizes(),
                inside,
                Axis::Vertical,
            )
        }),
{
    let inside = compartments(bordered_inner(screen));
    let mut r: Vec<TitledBox> = Vec::new();
    r.push(titled_box(screen, " pack "));
    r.push(titled_box(inside[0], "rain shell"));
    r.push(titled_box(inside[1], "stove"));
    r.push(titled_box(inside[2], "food"));
    r.push(titled_box(inside[3], "sleeping bag"));
    assert(r[1].area == inside[0] && r[1].title@ == gear_labels()[0]);
    assert(r[2].area == inside[1] && r[2].title@ == gear_labels()[1]);
    assert(r[3].area == inside[2] && r[3].title@ == gear_labels()[2]);
    assert(r[4].area == inside[3] && r[4].title@ == gear_labels()[3]);
    assert(Seq::new(4, |i: int| r[i + 1].area) =~= inside@);
    r
}

} // verus!
