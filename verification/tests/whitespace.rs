use ra_fmt2::dsl::{Space, SpaceLoc, SpaceValue};
use ra_fmt2::whitespace::{
    calc_num_space, has_newline, space_gap, starts_with_newline, Gap, Whitespace,
};

fn gap(newline: bool, spaces: u32) -> Gap {
    Gap { newline, spaces }
}

#[test]
fn blanks_are_counted_without_line_breaks() {
    assert_eq!(calc_num_space(""), 0);
    assert_eq!(calc_num_space("   "), 3);
    assert_eq!(calc_num_space("\n    "), 4);
    assert_eq!(calc_num_space("\n\n  \n "), 3);
    assert_eq!(calc_num_space("\t \r"), 3);
}

#[test]
fn line_breaks_are_found() {
    assert!(!has_newline(""));
    assert!(!has_newline("   "));
    assert!(has_newline("  \n"));
    assert!(has_newline("\n"));
    assert!(starts_with_newline("\n  "));
    assert!(!starts_with_newline(" \n"));
    assert!(!starts_with_newline(""));
}

#[test]
fn record_is_read_from_the_trivia_around_a_block() {
    let ws = Whitespace::new("\n    ", " ");
    assert_eq!(ws.new_line, (true, false));
    assert_eq!(ws.text_len, (4, 1));
    assert!(ws.starts_with_lf);
    assert_eq!(ws.fixed, (false, false));
    assert_eq!(ws.leading(), gap(true, 4));
    assert_eq!(ws.trailing(), gap(false, 1));
}

#[test]
fn record_of_a_block_with_nothing_around_it_is_empty() {
    let ws = Whitespace::empty();
    assert_eq!(ws.new_line, (false, false));
    assert_eq!(ws.text_len, (0, 0));
    assert!(!ws.starts_with_lf);
    let same = Whitespace::new("", "");
    assert_eq!(same.new_line, ws.new_line);
    assert_eq!(same.text_len, ws.text_len);
    assert_eq!(same.starts_with_lf, ws.starts_with_lf);
}

#[test]
fn blanks_before_a_line_break_are_no_indent() {
    let ws = Whitespace::new("  \n", "\n  ");
    assert_eq!(ws.new_line, (true, true));
    assert_eq!(ws.text_len, (2, 2));
    assert!(!ws.starts_with_lf);
    assert_eq!(ws.leading(), gap(true, 0));
    assert_eq!(ws.trailing(), gap(true, 0));
}

#[test]
fn every_spacing_value_has_its_gap() {
    for nl in [false, true] {
        assert_eq!(space_gap(SpaceValue::NoSpace, nl), Some(gap(false, 0)));
        assert_eq!(space_gap(SpaceValue::Single, nl), Some(gap(false, 1)));
        assert_eq!(space_gap(SpaceValue::Newline, nl), Some(gap(true, 0)));
    }
    assert_eq!(space_gap(SpaceValue::SingleOrNewline, false), Some(gap(false, 1)));
    assert_eq!(space_gap(SpaceValue::SingleOptionalNewline, false), Some(gap(false, 1)));
    assert_eq!(space_gap(SpaceValue::NoneOrNewline, false), Some(gap(false, 0)));
    assert_eq!(space_gap(SpaceValue::NoneOptionalNewline, false), Some(gap(false, 0)));
    assert_eq!(space_gap(SpaceValue::SingleOrNewline, true), None);
    assert_eq!(space_gap(SpaceValue::SingleOptionalNewline, true), None);
    assert_eq!(space_gap(SpaceValue::NoneOrNewline, true), None);
    assert_eq!(space_gap(SpaceValue::NoneOptionalNewline, true), None);
}

#[test]
fn gap_is_written_as_line_break_and_blanks() {
    let mut buf = String::from("x");
    gap(true, 3).write_to(&mut buf);
    assert_eq!(buf, "x\n   ");
    gap(false, 2).write_to(&mut buf);
    assert_eq!(buf, "x\n     ");
    gap(false, 0).write_to(&mut buf);
    assert_eq!(buf, "x\n     ");
    gap(true, 0).write_to(&mut buf);
    assert_eq!(buf, "x\n     \n");
}

#[test]
fn rule_in_front_rewrites_the_leading_side_only() {
    let mut ws = Whitespace::new("   ", "  ");
    ws.fix_spacing_before(SpaceValue::Single);
    assert_eq!(ws.leading(), gap(false, 1));
    assert_eq!(ws.trailing(), gap(false, 2));
    assert_eq!(ws.fixed, (true, false));
    ws.fix_spacing_before(SpaceValue::Newline);
    assert_eq!(ws.leading(), gap(true, 0));
    assert!(ws.starts_with_lf);
    ws.fix_spacing_before(SpaceValue::NoSpace);
    assert_eq!(ws.leading(), gap(false, 0));
    assert!(!ws.starts_with_lf);
}

#[test]
fn rule_behind_rewrites_the_trailing_side_only() {
    let mut ws = Whitespace::new("\n  ", "   ");
    ws.fix_spacing_after(SpaceValue::Single, false);
    assert_eq!(ws.leading(), gap(true, 2));
    assert_eq!(ws.trailing(), gap(false, 1));
    assert_eq!(ws.fixed, (false, true));
    ws.fix_spacing_after(SpaceValue::Newline, false);
    assert_eq!(ws.trailing(), gap(true, 0));
}

#[test]
fn optional_line_break_is_kept_where_it_stands() {
    let mut ws = Whitespace::new("\n      ", "\n");
    ws.fix_spacing_before(SpaceValue::SingleOrNewline);
    assert_eq!(ws.leading(), gap(true, 6));
    assert_eq!(ws.fixed, (false, false));
    ws.fix_spacing_after(SpaceValue::NoneOrNewline, true);
    assert_eq!(ws.fixed, (false, false));
    let mut flat = Whitespace::new("      ", "   ");
    flat.fix_spacing_before(SpaceValue::SingleOrNewline);
    assert_eq!(flat.leading(), gap(false, 1));
    flat.fix_spacing_after(SpaceValue::NoneOptionalNewline, false);
    assert_eq!(flat.trailing(), gap(false, 0));
    assert_eq!(flat.fixed, (true, true));
}

#[test]
fn rule_around_rewrites_both_sides() {
    let mut ws = Whitespace::new("", "   ");
    ws.fix_spacing_around(SpaceValue::Single);
    assert_eq!(ws.leading(), gap(false, 1));
    assert_eq!(ws.trailing(), gap(false, 1));
    let mut other = Whitespace::new("", "   ");
    other.apply_space_fix(Space { loc: SpaceLoc::Around, value: SpaceValue::Single });
    assert_eq!(other.leading(), ws.leading());
    assert_eq!(other.trailing(), ws.trailing());
    let mut before = Whitespace::new("", "   ");
    before.apply_space_fix(Space { loc: SpaceLoc::Before, value: SpaceValue::Single });
    assert_eq!(before.leading(), gap(false, 1));
    assert_eq!(before.trailing(), gap(false, 3));
    let mut after = Whitespace::new("", "   ");
    after.apply_space_fix(Space { loc: SpaceLoc::After, value: SpaceValue::NoSpace });
    assert_eq!(after.leading(), gap(false, 0));
    assert_eq!(after.trailing(), gap(false, 0));
}

#[test]
fn both_gaps_are_given_as_text() {
    let ws = Whitespace::new("\n  ", "   ");
    let (before, after) = ws.to_space_text();
    assert_eq!(before, "\n  ");
    assert_eq!(after, "   ");
}

#[test]
fn gap_is_read_back_from_its_own_text() {
    for g in [gap(false, 0), gap(false, 1), gap(false, 7), gap(true, 0), gap(true, 4)] {
        let mut text = String::new();
        g.write_to(&mut text);
        assert_eq!(Whitespace::new(&text, "").leading(), g);
    }
}

#[test]
fn gap_that_suits_a_value_is_told_from_one_that_does_not() {
    let ws = Whitespace::new(" ", "\n  ");
    assert!(ws.match_space_before(SpaceValue::Single));
    assert!(ws.match_space_before(SpaceValue::SingleOrNewline));
    assert!(!ws.match_space_before(SpaceValue::NoSpace));
    assert!(!ws.match_space_before(SpaceValue::NoneOrNewline));
    assert!(!ws.match_space_before(SpaceValue::Newline));
    assert!(ws.match_space_after(SpaceValue::Newline));
    assert!(ws.match_space_after(SpaceValue::SingleOrNewline));
    assert!(ws.match_space_after(SpaceValue::NoneOptionalNewline));
    assert!(!ws.match_space_after(SpaceValue::Single));
    assert!(!ws.match_space_after(SpaceValue::NoSpace));
    assert!(!ws.match_space_around(SpaceValue::Single));
    assert!(ws.match_space_around(SpaceValue::SingleOptionalNewline));
    let bare = Whitespace::empty();
    assert!(bare.match_space_around(SpaceValue::NoSpace));
    assert!(bare.match_space_around(SpaceValue::NoneOrNewline));
    assert!(!bare.match_space_around(SpaceValue::Single));
    let indented = Whitespace::new("\n    ", "");
    assert!(!indented.match_space_before(SpaceValue::Newline));
    assert!(Whitespace::new("\n", "").match_space_before(SpaceValue::Newline));
}
