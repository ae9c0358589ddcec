//! The rule tables: plain, ordered records that say where blanks and line
//! breaks belong and which constructs are indented.

use vstd::prelude::*;
use crate::error::FormatError;
use crate::pattern::Pattern;

verus! {

/// The indent that one level adds where a table names no other.
pub const INDENT: u32 = 4;

/// What a spacing rule asks of a gap.
#[derive(Clone, Copy, Debug, PartialEq, Eq, Structural)]
pub enum SpaceValue {
    /// Exactly one blank.
    Single,
    /// One blank, or the line break that is already there.
    SingleOrNewline,
    /// One blank, or the line break that is already there.
    SingleOptionalNewline,
    /// One line break.
    Newline,
    /// Nothing, or the line break that is already there.
    NoneOrNewline,
    /// Nothing, or the line break that is already there.
    NoneOptionalNewline,
    /// Nothing.
    NoSpace,
}

/// On which side of the matched token a spacing rule acts.
#[derive(Clone, Copy, Debug, PartialEq, Eq, Structural)]
pub enum SpaceLoc {
    /// The gap in front of the token.
    Before,
    /// The gap behind the token.
    After,
    /// Both gaps.
    Around,
}

/// A side and what is asked of it.
#[derive(Clone, Copy, Debug, PartialEq, Eq, Structural)]
pub struct Space {
    pub loc: SpaceLoc,
    pub value: SpaceValue,
}

impl SpaceLoc {
    /// The rule acts on the gap in front of its token.
    pub open spec fn leads(self) -> bool {
        self == SpaceLoc::Before || self == SpaceLoc::Around
    }

    /// The rule acts on the gap behind its token.
    pub open spec fn trails(self) -> bool {
        self == SpaceLoc::After || self == SpaceLoc::Around
    }

    /// Whether the rule acts on the gap in front of its token.
    pub fn is_leading(self) -> (res: bool)
        ensures
            res == self.leads(),
    {
        match self {
            SpaceLoc::Before => true,
            SpaceLoc::After => false,
            SpaceLoc::Around => true,
        }
    }

    /// Whether the rule acts on the gap behind its token.
    pub fn is_trailing(self) -> (res: bool)
        ensures
            res == self.trails(),
    {
        match self {
            SpaceLoc::Before => false,
            SpaceLoc::After => true,
            SpaceLoc::Around => true,
        }
    }
}

/// One spacing rule: the tokens it is about, and what it asks of their gaps.
#[derive(Clone, Debug)]
pub struct SpacingRule {
    pub pattern: Pattern,
    pub space: Space,
}

/// The ordered spacing rules of one run.
#[derive(Clone, Debug)]
pub struct SpacingDsl {
    /// The number of kinds that the grammar has: kinds are `0..kind_count`.
    pub kind_count: u16,
    /// The rules in the order in which they were declared.
    pub rules: Vec<SpacingRule>,
}

impl SpacingDsl {
    /// Every rule names known kinds only.
    pub open spec fn wf(&self) -> bool {
        forall|i: int|
            0 <= i < self.rules.len() ==> (#[trigger] self.rules[i]).pattern.known(self.kind_count)
    }

    /// An empty table for a grammar with `kind_count` kinds.
    pub fn new(kind_count: u16) -> (res: Self)
        ensures
            res.wf(),
            res.kind_count == kind_count,
            res.rules.len() == 0,
    {
        SpacingDsl { kind_count, rules: Vec::new() }
    }

    /// Whether every rule names known kinds only.
    pub fn is_valid(&self) -> (res: bool)
        ensures
            res == self.wf(),
    {
        let mut i: usize = 0;
        while i < self.rules.len()
            invariant
                0 <= i <= self.rules.len(),
                forall|k: int|
                    0 <= k < i ==> (#[trigger] self.rules[k]).pattern.known(self.kind_count),
            decreases self.rules.len() - i,
        {
            if !self.rules[i].pattern.is_known(self.kind_count) {
                return false;
            }
            i += 1;
        }
        true
    }

    /// Declares one more rule. A pattern that names an unknown kind is
    /// refused and leaves the table as it was.
    pub fn rule(&mut self, pattern: Pattern, loc: SpaceLoc, value: SpaceValue) -> (res: Result<
        (),
        FormatError,
    >)
        requires
            old(self).wf(),
        ensures
            final(self).wf(),
            final(self).kind_count == old(self).kind_count,
            res.is_ok() <==> pattern.known(old(self).kind_count),
            res.is_ok() ==> final(self).rules@ == old(self).rules@.push(
                (SpacingRule { pattern, space: (Space { loc, value }) }),
            ),
            res.is_err() ==> res == Err::<(), FormatError>(FormatError::InvalidPattern)
                && final(self).rules@ == old(self).rules@,
    {
        if pattern.is_known(self.kind_count) {
            self.rules.push(SpacingRule { pattern, space: Space { loc, value } });
            Ok(())
        } else {
            Err(FormatError::InvalidPattern)
        }
    }
}

/// One indent rule: the constructs it indents, and the enclosing constructs
/// whose own indent is added to theirs.
#[derive(Clone, Debug)]
pub struct IndentRule {
    pub pattern: Pattern,
    pub anchors: Vec<Pattern>,
}

impl IndentRule {
    /// The rule names known kinds only.
    pub open spec fn known(&self, kind_count: u16) -> bool {
        &&& self.pattern.known(kind_count)
        &&& forall|j: int|
            0 <= j < self.anchors.len() ==> (#[trigger] self.anchors[j]).known(kind_count)
    }

    /// Whether the rule names known kinds only.
    pub fn is_known(&self, kind_count: u16) -> (res: bool)
        ensures
            res == self.known(kind_count),
    {
        if !self.pattern.is_known(kind_count) {
            return false;
        }
        let mut j: usize = 0;
        while j < self.anchors.len()
            invariant
                0 <= j <= self.anchors.len(),
                self.pattern.known(kind_count),
                forall|k: int| 0 <= k < j ==> (#[trigger] self.anchors[k]).known(kind_count),
            decreases self.anchors.len() - j,
        {
            if !self.anchors[j].is_known(kind_count) {
                return false;
            }
            j += 1;
        }
        true
    }
}

/// The ordered indent rules of one run.
#[derive(Clone, Debug)]
pub struct IndentDsl {
    /// The number of kinds that the grammar has: kinds are `0..kind_count`.
    pub kind_count: u16,
    /// The width of one level of indentation.
    pub unit: u32,
    /// The rules in the order in which they were declared.
    pub rules: Vec<IndentRule>,
}

impl IndentDsl {
    /// Every rule names known kinds only.
    pub open spec fn wf(&self) -> bool {
        forall|i: int| 0 <= i < self.rules.len() ==> (#[trigger] self.rules[i]).known(self.kind_count)
    }

    /// An empty table for a grammar with `kind_count` kinds, with the given
    /// width of one level.
    pub fn new(kind_count: u16, unit: u32) -> (res: Self)
        ensures
            res.wf(),
            res.kind_count == kind_count,
            res.unit == unit,
            res.rules.len() == 0,
    {
        IndentDsl { kind_count, unit, rules: Vec::new() }
    }

    /// Whether every rule names known kinds only.
    pub fn is_valid(&self) -> (res: bool)
        ensures
            res == self.wf(),
    {
        let mut i: usize = 0;
        while i < self.rules.len()
            invariant
                0 <= i <= self.rules.len(),
                forall|k: int| 0 <= k < i ==> (#[trigger] self.rules[k]).known(self.kind_count),
            decreases self.rules.len() - i,
        {
            if !self.rules[i].is_known(self.kind_count) {
                return false;
            }
            i += 1;
        }
        true
    }

    /// Declares one more rule. A pattern that names an unknown kind, be it
    /// the rule's own or one of its anchors, is refused and leaves the table
    /// as it was.
    pub fn rule(&mut self, pattern: Pattern, anchors: Vec<Pattern>) -> (res: Result<(), FormatError>)
        requires
            old(self).wf(),
        ensures
            final(self).wf(),
            final(self).kind_count == old(self).kind_count,
            final(self).unit == old(self).unit,
            res.is_ok() <==> (IndentRule { pattern, anchors }).known(old(self).kind_count),
            res.is_ok() ==> final(self).rules@ == old(self).rules@.push(
                (IndentRule { pattern, anchors }),
            ),
            res.is_err() ==> res == Err::<(), FormatError>(FormatError::InvalidPattern)
                && final(self).rules@ == old(self).rules@,
    {
        let rule = IndentRule { pattern, anchors };
        let ok = rule.is_known(self.kind_count);
        if ok {
            self.rules.push(rule);
            Ok(())
        } else {
            Err(FormatError::InvalidPattern)
        }
    }
}

} // verus!
