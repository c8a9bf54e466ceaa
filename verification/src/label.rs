//! Labels for the nodes of the control-flow graph, with their total order.

use vstd::prelude::*;

use core::cmp::Ordering;

verus! {

/// Identifies a node (a basic block) of the control-flow graph: the unique
/// entry point of the function, an interior block at a given offset into the
/// instruction buffer, or the unique exit node.
#[derive(Debug, Clone, Copy, PartialEq, Eq, Structural, Hash)]
pub enum Label {
    Entry,
    Point(usize),
    Exit,
}

/// The label of the block that starts at offset `i`: offset 0 is the entry
/// point of the function, every later offset is an interior point.
pub open spec fn lab_of(i: int) -> Label
    recommends
        0 <= i <= usize::MAX,
{
    if i == 0 {
        Label::Entry
    } else {
        Label::Point(i as usize)
    }
}

/// The offset a label stands for; `Exit` corresponds to no offset.
pub open spec fn lab_offset(l: Label) -> int {
    match l {
        Label::Entry => 0,
        Label::Point(i) => i as int,
        Label::Exit => -1,
    }
}

impl Label {
    /// The strict total order on labels: `Entry < Point(i) < Exit`, and
    /// `Point(i) < Point(j)` iff `i < j`.  All iteration over the graph's
    /// maps happens in this order.
    pub open spec fn before(self, other: Label) -> bool {
        match (self, other) {
            (Label::Entry, Label::Entry) => false,
            (Label::Entry, _) => true,
            (Label::Point(_), Label::Entry) => false,
            (Label::Point(i), Label::Point(j)) => i < j,
            (Label::Point(_), Label::Exit) => true,
            (Label::Exit, _) => false,
        }
    }

    /// Compares two labels in the order `Entry < Point(i) < Exit`.
    pub fn cmp_inner(&self, other: &Self) -> (r: Ordering)
        ensures
            r == Ordering::Equal <==> *self == *other,
            r == Ordering::Less <==> self.before(*other),
            r == Ordering::Greater <==> other.before(*self),
    {
        if self == other {
            return Ordering::Equal;
        }
        match self {
            // Entry is less than all others
            Label::Entry => Ordering::Less,
            // Exit is greater than all others
            Label::Exit => Ordering::Greater,
            Label::Point(x) => match other {
                // points are greater than entry
                Label::Entry => Ordering::Greater,
                // points are less than exit
                Label::Exit => Ordering::Less,
                Label::Point(y) => {
                    if x < y {
                        Ordering::Less
                    } else {
                        Ordering::Greater
                    }
                },
            },
        }
    }

    /// Constructs the label of the block starting at `index`.
    pub fn new(index: usize) -> (r: Self)
        ensures
            r == lab_of(index as int),
    {
        if index == 0 {
            Self::Entry
        } else {
            Self::Point(index)
        }
    }
}

/// Any two labels are equal or ordered one way.
pub proof fn lemma_label_order_total(a: Label, b: Label)
    ensures
        a == b || a.before(b) || b.before(a),
{
}

} // verus!
