//! The whitespace record that every block carries, and the gap that it
//! stands for in the text.

use vstd::prelude::*;
use vstd::string::*;
use crate::dsl::{Space, SpaceLoc, SpaceValue};

verus! {

/// A resolved gap between two tokens: a line break followed by blanks, or
/// blanks alone.
#[derive(Clone, Copy, Debug, PartialEq, Eq, Structural)]
pub struct Gap {
    /// The gap holds a line break.
    pub newline: bool,
    /// The blanks of the gap; behind a line break they are the indent.
    pub spaces: u32,
}

/// `n` blanks.
pub open spec fn blanks(n: nat) -> Seq<char> {
    Seq::new(n, |i: int| ' ')
}

/// The number of characters of `s` other than line breaks.
pub open spec fn count_blanks(s: Seq<char>) -> nat
    decreases s.len(),
{
    if s.len() == 0 {
        0
    } else {
        count_blanks(s.drop_last()) + if s.last() != '\n' {
            1nat
        } else {
            0nat
        }
    }
}

/// `n`, or the largest `u32` where `n` is beyond it.
pub open spec fn saturate(n: nat) -> u32 {
    if n > u32::MAX {
        u32::MAX
    } else {
        n as u32
    }
}

/// `s` begins with a line break.
pub open spec fn leads_with_newline(s: Seq<char>) -> bool {
    s.len() > 0 && s[0] == '\n'
}

/// The gap that a spacing value asks for, given whether the gap holds a line
/// break as it stands. `None` leaves the gap as it is.
pub open spec fn gap_for(value: SpaceValue, has_newline: bool) -> Option<Gap> {
    match value {
        SpaceValue::NoSpace => Some(Gap { newline: false, spaces: 0 }),
        SpaceValue::Single => Some(Gap { newline: false, spaces: 1 }),
        SpaceValue::Newline => Some(Gap { newline: true, spaces: 0 }),
        SpaceValue::SingleOrNewline | SpaceValue::SingleOptionalNewline => if has_newline {
            None
        } else {
            Some(Gap { newline: false, spaces: 1 })
        },
        SpaceValue::NoneOrNewline | SpaceValue::NoneOptionalNewline => if has_newline {
            None
        } else {
            Some(Gap { newline: false, spaces: 0 })
        },
    }
}

/// The gap that a spacing value asks for, given whether the gap holds a line
/// break as it stands. `None` leaves the gap as it is.
pub fn space_gap(value: SpaceValue, has_newline: bool) -> (res: Option<Gap>)
    ensures
        res == gap_for(value, has_newline),
{
    match value {
        SpaceValue::NoSpace => Some(Gap { newline: false, spaces: 0 }),
        SpaceValue::Single => Some(Gap { newline: false, spaces: 1 }),
        SpaceValue::Newline => Some(Gap { newline: true, spaces: 0 }),
        SpaceValue::SingleOrNewline | SpaceValue::SingleOptionalNewline => {
            if has_newline {
                None
            } else {
                Some(Gap { newline: false, spaces: 1 })
            }
        },
        SpaceValue::NoneOrNewline | SpaceValue::NoneOptionalNewline => {
            if has_newline {
                None
            } else {
                Some(Gap { newline: false, spaces: 0 })
            }
        },
    }
}

impl Gap {
    /// The text of the gap.
    pub open spec fn text(self) -> Seq<char> {
        if self.newline {
            seq!['\n'] + blanks(self.spaces as nat)
        } else {
            blanks(self.spaces as nat)
        }
    }

    /// The indent that the gap gives the token behind it: its blanks where it
    /// holds a line break, nothing where it does not.
    pub open spec fn indent(self) -> u32 {
        if self.newline {
            self.spaces
        } else {
            0
        }
    }

    /// Writes the text of the gap to the end of `buf`.
    pub fn write_to(&self, buf: &mut String)
        ensures
            final(buf)@ == old(buf)@ + self.text(),
    {
        if self.newline {
            proof {
                reveal_strlit("\n");
            }
            buf.append("\n");
            assert(buf@ == old(buf)@ + seq!['\n']);
        }
        let ghost start = buf@;
        let mut i: u32 = 0;
        while i < self.spaces
            invariant
                0 <= i <= self.spaces,
                buf@ == start + blanks(i as nat),
            decreases self.spaces - i,
        {
            proof {
                reveal_strlit(" ");
            }
            buf.append(" ");
            i += 1;
            assert(buf@ == start + blanks(i as nat));
        }
        assert(buf@ == old(buf)@ + self.text());
    }
}

/// Whether `text` holds a line break.
pub fn has_newline(text: &str) -> (res: bool)
    ensures
        res == text@.contains('\n'),
{
    let n = text.unicode_len();
    let mut i: usize = 0;
    while i < n
        invariant
            0 <= i <= n,
            n == text@.len(),
            forall|k: int| 0 <= k < i ==> text@[k] != '\n',
        decreases n - i,
    {
        if text.get_char(i) == '\n' {
            return true;
        }
        i += 1;
    }
    false
}

/// Whether `text` begins with a line break.
pub fn starts_with_newline(text: &str) -> (res: bool)
    ensures
        res == leads_with_newline(text@),
{
    text.unicode_len() > 0 && text.get_char(0) == '\n'
}

/// The number of characters of `text` other than line breaks, held to what a
/// `u32` can take.
pub fn calc_num_space(text: &str) -> (res: u32)
    ensures
        res == saturate(count_blanks(text@)),
{
    let n = text.unicode_len();
    let mut count: u32 = 0;
    let mut i: usize = 0;
    while i < n
        invariant
            0 <= i <= n,
            n == text@.len(),
            count == saturate(count_blanks(text@.take(i as int))),
        decreases n - i,
    {
        proof {
            assert(text@.take(i + 1).drop_last() == text@.take(i as int));
        }
        if text.get_char(i) != '\n' && count < u32::MAX {
            count += 1;
        }
        i += 1;
    }
    proof {
        assert(text@.take(n as int) == text@);
    }
    count
}

/// What is known of the whitespace on both sides of one block.
#[derive(Clone, Copy, Debug)]
pub struct Whitespace {
    /// Whether the gap in front and the gap behind hold a line break.
    pub new_line: (bool, bool),
    /// The blanks of the gap in front and of the gap behind.
    pub text_len: (u32, u32),
    /// Whether the gap in front begins with a line break: the block then
    /// starts a line of its own, and the blanks in front are its indent.
    pub starts_with_lf: bool,
    /// Whether a rule has decided the gap in front and the gap behind. A
    /// side that no rule has decided still says what the tree was built from.
    pub fixed: (bool, bool),
}

impl Whitespace {
    /// The record of a block with the whitespace `prev` in front of it and
    /// the whitespace `next` behind it.
    pub open spec fn of_trivia(prev: Seq<char>, next: Seq<char>) -> Whitespace {
        Whitespace {
            new_line: (prev.contains('\n'), next.contains('\n')),
            text_len: (saturate(count_blanks(prev)), saturate(count_blanks(next))),
            starts_with_lf: leads_with_newline(prev),
            fixed: (false, false),
        }
    }

    /// The gap in front, as the record describes it.
    pub open spec fn lead_gap(self) -> Gap {
        Gap {
            newline: self.new_line.0,
            spaces: if self.new_line.0 && !self.starts_with_lf {
                0
            } else {
                self.text_len.0
            },
        }
    }

    /// The gap behind, as the record describes it.
    pub open spec fn trail_gap(self) -> Gap {
        Gap {
            newline: self.new_line.1,
            spaces: if self.new_line.1 {
                0
            } else {
                self.text_len.1
            },
        }
    }

    /// The record with the gap in front decided to be `gap`.
    pub open spec fn with_lead(self, gap: Gap) -> Whitespace {
        Whitespace {
            new_line: (gap.newline, self.new_line.1),
            text_len: (gap.spaces, self.text_len.1),
            starts_with_lf: gap.newline,
            fixed: (true, self.fixed.1),
        }
    }

    /// The record with `indent` blanks in front and the front side decided;
    /// its line breaks stay as they are.
    pub open spec fn with_indent(self, indent: u32) -> Whitespace {
        Whitespace {
            new_line: self.new_line,
            text_len: (indent, self.text_len.1),
            starts_with_lf: self.starts_with_lf,
            fixed: (true, self.fixed.1),
        }
    }

    /// The record with the gap behind decided to be `gap`.
    pub open spec fn with_trail(self, gap: Gap) -> Whitespace {
        Whitespace {
            new_line: (self.new_line.0, gap.newline),
            text_len: (self.text_len.0, gap.spaces),
            starts_with_lf: self.starts_with_lf,
            fixed: (self.fixed.0, true),
        }
    }

    /// The record after a spacing value was applied to the gap in front.
    pub open spec fn fixed_before(self, value: SpaceValue) -> Whitespace {
        match gap_for(value, self.new_line.0) {
            Some(gap) => self.with_lead(gap),
            None => self,
        }
    }

    /// The record after a spacing value was applied to the gap behind, where
    /// `has_newline` says whether that gap holds a line break as it stands.
    pub open spec fn fixed_after(self, value: SpaceValue, has_newline: bool) -> Whitespace {
        match gap_for(value, has_newline) {
            Some(gap) => self.with_trail(gap),
            None => self,
        }
    }

    /// The record after a rule's space was applied to it: to the gap in
    /// front, to the gap behind, or to both, each judged by the line break
    /// that it holds itself.
    pub open spec fn spaced_by(self, space: Space) -> Whitespace {
        match space.loc {
            SpaceLoc::Before => self.fixed_before(space.value),
            SpaceLoc::After => self.fixed_after(space.value, self.new_line.1),
            SpaceLoc::Around => self.fixed_before(space.value).fixed_after(
                space.value,
                self.new_line.1,
            ),
        }
    }

    /// The record of a block with nothing around it.
    pub fn empty() -> (res: Whitespace)
        ensures
            res == Whitespace::of_trivia(Seq::empty(), Seq::empty()),
    {
        Whitespace {
            new_line: (false, false),
            text_len: (0, 0),
            starts_with_lf: false,
            fixed: (false, false),
        }
    }

    /// The record of a block with the whitespace `prev` in front of it and
    /// the whitespace `next` behind it. Either is empty where the neighbour
    /// is no whitespace or where there is no neighbour.
    pub fn new(prev: &str, next: &str) -> (res: Whitespace)
        ensures
            res == Whitespace::of_trivia(prev@, next@),
    {
        Whitespace {
            new_line: (has_newline(prev), has_newline(next)),
            text_len: (calc_num_space(prev), calc_num_space(next)),
            starts_with_lf: starts_with_newline(prev),
            fixed: (false, false),
        }
    }

    /// The gap in front, as the record describes it.
    pub fn leading(&self) -> (res: Gap)
        ensures
            res == self.lead_gap(),
    {
        Gap {
            newline: self.new_line.0,
            spaces: if self.new_line.0 && !self.starts_with_lf {
                0
            } else {
                self.text_len.0
            },
        }
    }

    /// The gap behind, as the record describes it.
    pub fn trailing(&self) -> (res: Gap)
        ensures
            res == self.trail_gap(),
    {
        Gap {
            newline: self.new_line.1,
            spaces: if self.new_line.1 {
                0
            } else {
                self.text_len.1
            },
        }
    }

    /// The gap in front is what the value asks for: applying the value
    /// would leave the gap as it is.
    pub open spec fn suits_before(self, value: SpaceValue) -> bool {
        match gap_for(value, self.new_line.0) {
            Some(gap) => self.lead_gap() == gap,
            None => true,
        }
    }

    /// The gap behind is what the value asks for: applying the value would
    /// leave the gap as it is.
    pub open spec fn suits_after(self, value: SpaceValue) -> bool {
        match gap_for(value, self.new_line.1) {
            Some(gap) => self.trail_gap() == gap,
            None => true,
        }
    }

    /// Whether the gap in front is what the value asks for.
    pub fn match_space_before(&self, value: SpaceValue) -> (res: bool)
        ensures
            res == self.suits_before(value),
    {
        match space_gap(value, self.new_line.0) {
            Some(gap) => {
                let lead = self.leading();
                lead.newline == gap.newline && lead.spaces == gap.spaces
            },
            None => true,
        }
    }

    /// Whether the gap behind is what the value asks for.
    pub fn match_space_after(&self, value: SpaceValue) -> (res: bool)
        ensures
            res == self.suits_after(value),
    {
        match space_gap(value, self.new_line.1) {
            Some(gap) => {
                let trail = self.trailing();
                trail.newline == gap.newline && trail.spaces == gap.spaces
            },
            None => true,
        }
    }

    /// Whether both gaps are what the value asks for.
    pub fn match_space_around(&self, value: SpaceValue) -> (res: bool)
        ensures
            res == (self.suits_before(value) && self.suits_after(value)),
    {
        self.match_space_before(value) && self.match_space_after(value)
    }

    /// Decides the gap in front to be `gap`.
    pub fn set_leading(&mut self, gap: Gap)
        ensures
            *final(self) == old(self).with_lead(gap),
    {
        self.new_line = (gap.newline, self.new_line.1);
        self.text_len = (gap.spaces, self.text_len.1);
        self.starts_with_lf = gap.newline;
        self.fixed = (true, self.fixed.1);
    }

    /// Gives the record `indent` blanks in front and has the front side
    /// decided; its line breaks stay as they are.
    pub fn set_indent(&mut self, indent: u32)
        ensures
            *final(self) == old(self).with_indent(indent),
    {
        self.text_len = (indent, self.text_len.1);
        self.fixed = (true, self.fixed.1);
    }

    /// Decides the gap behind to be `gap`.
    pub fn set_trailing(&mut self, gap: Gap)
        ensures
            *final(self) == old(self).with_trail(gap),
    {
        self.new_line = (self.new_line.0, gap.newline);
        self.text_len = (self.text_len.0, gap.spaces);
        self.fixed = (self.fixed.0, true);
    }

    /// Applies a spacing value to the gap in front. A value that allows the
    /// line break that is already there leaves such a gap alone.
    pub fn fix_spacing_before(&mut self, value: SpaceValue)
        ensures
            *final(self) == old(self).fixed_before(value),
    {
        match space_gap(value, self.new_line.0) {
            Some(gap) => self.set_leading(gap),
            None => {},
        }
    }

    /// Applies a spacing value to the gap behind. `has_newline` says whether
    /// that gap holds a line break as it stands; a value that allows such a
    /// line break then leaves the gap alone.
    pub fn fix_spacing_after(&mut self, value: SpaceValue, has_newline: bool)
        ensures
            *final(self) == old(self).fixed_after(value, has_newline),
    {
        match space_gap(value, has_newline) {
            Some(gap) => self.set_trailing(gap),
            None => {},
        }
    }

    /// Applies a spacing value to both gaps, each judged by the line break
    /// that it holds itself.
    pub fn fix_spacing_around(&mut self, value: SpaceValue)
        ensures
            *final(self) == old(self).fixed_before(value).fixed_after(value, old(self).new_line.1),
    {
        let behind = self.new_line.1;
        self.fix_spacing_before(value);
        self.fix_spacing_after(value, behind);
    }

    /// Applies a rule's space to the record: to the gap in front, to the gap
    /// behind, or to both.
    pub fn apply_space_fix(&mut self, space: Space)
        ensures
            *final(self) == old(self).spaced_by(space),
    {
        match space.loc {
            SpaceLoc::Before => self.fix_spacing_before(space.value),
            SpaceLoc::After => {
                let behind = self.new_line.1;
                self.fix_spacing_after(space.value, behind)
            },
            SpaceLoc::Around => self.fix_spacing_around(space.value),
        }
    }

    /// The texts of the gap in front and of the gap behind.
    pub fn to_space_text(&self) -> (res: (String, String))
        ensures
            res.0@ == self.lead_gap().text(),
            res.1@ == self.trail_gap().text(),
    {
        let mut before = String::new();
        let mut after = String::new();
        self.leading().write_to(&mut before);
        self.trailing().write_to(&mut after);
        (before, after)
    }
}

} // verus!
