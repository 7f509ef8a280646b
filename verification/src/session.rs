//! What the calibration says, and stops for, before it drives a single converter.
//!
//! A calibration plays a click out of real interfaces and records it back, so it refuses outright
//! where that must not happen: under a test that has said there is no hardware, and while another
//! program already has the interfaces open.
use vstd::prelude::*;
use crate::text::{chars_of, same_chars, trim, trim_chars};

verus! {

/// The environment variable every test and script sets. The calibration plays audio out of real
/// converters, so it refuses outright when it is set rather than looking for a safe subset.
pub const NO_HARDWARE: &'static str = "GAZELLE_NO_HARDWARE";

/// Whether a value of [`NO_HARDWARE`] forbids the hardware: anything but nothing at all, an empty
/// value, `0` or `false`, once the spaces around it are taken off.
pub open spec fn forbids_hardware(value: Option<Seq<char>>) -> bool {
    match value {
        None => false,
        Some(text) => {
            let word = trim(text);
            !(word == Seq::<char>::empty() || word == "0"@ || word == "false"@)
        },
    }
}

/// The sentence a run forbidden the hardware stops with.
pub open spec fn no_hardware_sentence() -> Seq<char> {
    "GAZELLE_NO_HARDWARE is set, and this measurement drives real converters: it plays a click out of an interface and records it back. Unset GAZELLE_NO_HARDWARE to run it deliberately."@
}

/// What to say, and stop for, when this run is forbidden hardware. `None` means carry on.
pub fn no_hardware_refusal(value: Option<&str>) -> (why: Option<String>)
    ensures
        match why {
            Some(text) => forbids_hardware(
                match value {
                    Some(v) => Some(v@),
                    None => None,
                },
            ) && text@ == no_hardware_sentence(),
            None => !forbids_hardware(
                match value {
                    Some(v) => Some(v@),
                    None => None,
                },
            ),
        },
{
    proof {
        reveal_strlit("0");
        reveal_strlit("false");
        reveal_strlit(
            "GAZELLE_NO_HARDWARE is set, and this measurement drives real converters: it plays a click out of an interface and records it back. Unset GAZELLE_NO_HARDWARE to run it deliberately.",
        );
    }
    let text = match value {
        Some(text) => text,
        None => return None,
    };
    let chars = chars_of(text);
    let word = trim_chars(&chars);
    let zero = chars_of("0");
    let no = chars_of("false");
    if word.len() == 0 || same_chars(&word, &zero) || same_chars(&word, &no) {
        assert(word@.len() == 0 ==> word@ =~= Seq::<char>::empty());
        return None;
    }
    Some(
        String::from_str(
            "GAZELLE_NO_HARDWARE is set, and this measurement drives real converters: it plays a click out of an interface and records it back. Unset GAZELLE_NO_HARDWARE to run it deliberately.",
        ),
    )
}

/// The sentence a run stops with when another program already has the interfaces.
pub open spec fn in_use_sentence() -> Seq<char> {
    "the Gazelle Aggregate driver is already open somewhere else, and these interfaces can only be opened once: close the DAW or whatever else is using them, and start this again"@
}

/// What to say when the aggregate driver is already open in another process: it is, when it has
/// its buffers made or its audio running.
pub fn in_use_refusal(open: bool, streaming: bool) -> (why: Option<String>)
    ensures
        match why {
            Some(text) => (open || streaming) && text@ == in_use_sentence(),
            None => !(open || streaming),
        },
{
    if open || streaming {
        Some(
            String::from_str(
                "the Gazelle Aggregate driver is already open somewhere else, and these interfaces can only be opened once: close the DAW or whatever else is using them, and start this again",
            ),
        )
    } else {
        None
    }
}

} // verus!
