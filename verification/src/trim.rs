//! What a measurement means for the configuration file.
//!
//! # The sign rule, which is the one thing here that is easy to get backwards
//!
//! **The interface whose copy of the click lands later is recording late, and it takes a positive
//! trim.** A device that records late has a longer path than its driver admits to; a positive trim
//! is what tells the aggregate the path is longer, and the aggregate then holds the other devices
//! back to meet it. A negative trim does the opposite and doubles the error.
//!
//! # Old plus measured
//!
//! The run happened with whatever trim was already in the file in force, so what was measured is
//! what is **left over** after it, not the whole of the error. The new trim is therefore the old
//! one plus the measured lag, and all three are reported.
use vstd::prelude::*;
use crate::rig::Direction;
use crate::text::append_str;

verus! {

/// What one device's trim was, what this run measured, and what it should become.
#[derive(Clone, Debug, PartialEq)]
pub struct TrimChange {
    /// The interface, as the file names it.
    pub device: String,
    /// Which trim this is: `input_trim` or `output_trim`.
    pub field: &'static str,
    pub direction: Direction,
    /// What was in the file while the run happened.
    pub old: i32,
    /// What this run measured, in whole samples: the lag behind the reference.
    pub measured: i32,
    /// What to write into the file: `old + measured`.
    pub new: i32,
    /// True for the interface everything else was measured against, whose trim never moves.
    pub is_reference: bool,
    /// Set when the reading was not one a trim can be made from, and why.
    pub not_applied: Option<String>,
}

/// Why the reference interface's trim is left where it is.
pub open spec fn reference_note(device: Seq<char>) -> Seq<char> {
    device
        + " is the interface the others were measured against, so its trim is what everything else moved to meet and it does not change"@
}

/// Whether a reading moves its interface's trim at all: it is not the reference, and it is one a
/// trim can be made from.
pub open spec fn moves(usable: bool, is_reference: bool) -> bool {
    !is_reference && usable
}

/// The trim a reading implies, given what the file already said. `measured` is the lag behind the
/// reference in whole samples, `usable` whether the reading is one a trim can be made from, and
/// `note` what the reading says of itself.
///
/// The sign rule lives in the one line that adds them: a lag **behind** the reference is positive,
/// and it is **added**.
pub fn implied_by(
    device: &str,
    note: &str,
    usable: bool,
    measured: i32,
    direction: Direction,
    old: i32,
    is_reference: bool,
) -> (change: TrimChange)
    requires
        moves(usable, is_reference) ==> i32::MIN <= old + measured <= i32::MAX,
    ensures
        change.device@ == device@,
        change.field@ == direction.spec_trim_field(),
        change.direction == direction,
        change.old == old,
        change.measured == if moves(usable, is_reference) {
            measured
        } else {
            0
        },
        change.new == if moves(usable, is_reference) {
            old + measured
        } else {
            old as int
        },
        change.is_reference == is_reference,
        match change.not_applied {
            Some(why) => (is_reference && why@ == reference_note(device@)) || (!is_reference && !usable && why@
                == note@),
            None => moves(usable, is_reference),
        },
{
    proof {
        reveal_strlit(
            " is the interface the others were measured against, so its trim is what everything else moved to meet and it does not change",
        );
    }
    let applies = !is_reference && usable;
    let not_applied = if is_reference {
        let mut why = String::from_str(device);
        append_str(
            &mut why,
            " is the interface the others were measured against, so its trim is what everything else moved to meet and it does not change",
        );
        Some(why)
    } else if !usable {
        Some(String::from_str(note))
    } else {
        None
    };
    TrimChange {
        device: String::from_str(device),
        field: direction.trim_field(),
        direction,
        old,
        measured: if applies {
            measured
        } else {
            0
        },
        new: if applies {
            old + measured
        } else {
            old
        },
        is_reference,
        not_applied,
    }
}

} // verus!
