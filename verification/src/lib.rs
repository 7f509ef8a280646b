//! **Gazelle Aggregate**: one low latency audio driver that a DAW opens, and several vendor
//! drivers underneath it, together with the calibration that measures what the aggregate has left
//! over once it has lined its interfaces up.
//!
//! Nothing here knows how many devices there are, or which ones. Everything comes from the
//! configuration file: which drivers to open, what to call their channels, which of them drives
//! the callback, and how the streams are aligned.
//!
//! - [`config`] is the configuration file, and everything that can be refused about it.
//! - [`plan`] turns the devices' own answers plus the configuration into the aggregate's channel
//!   list, its buffer size, its latencies and the padding each device needs; [`names`] is what its
//!   channels are called.
//! - [`aggregate`] is the aggregate a DAW opens and what it asks of it outside the audio path, and
//!   [`devices`] is the devices taken together: opening them, making their buffers, starting and
//!   stopping them.
//! - [`delay`] holds a device back so that every device lines up, [`ring`] carries a device's
//!   audio from its own callback to the master's, and [`stream`] is what every callback does,
//!   including deciding when a device that stopped calling back is stalled and when it is back.
//! - [`phase`] measures where each follower's capture pipeline settled when its stream started.
//! - [`watch`] is what a changed configuration does to the driver.
//! - [`status`] is what the driver says about a session: what was lost, and when to say so.
//! - [`registration`] is what registering the driver writes, behind a trait.
//! - [`rig`], [`session`] and [`trim`] are the calibration: the cabling, the refusals, and what a
//!   measurement means for the file; [`run`] is a run itself, as the decisions between the things
//!   it asks of the PC.
use vstd::prelude::*;

pub mod aggregate;
pub mod config;
pub mod daw;
pub mod delay;
pub mod devices;
pub mod guid;
pub mod names;
pub mod phase;
pub mod plan;
pub mod registration;
pub mod rig;
pub mod run;
pub mod session;
pub mod ring;
pub mod status;
pub mod stream;
pub mod text;
pub mod trim;
pub mod watch;

verus! {

/// What a DAW sees this driver called. Not the interface's name, and not a vendor's.
pub const DRIVER_NAME: &'static str = "Gazelle Aggregate";

/// The driver's own version, as the interface carries one: a plain number.
pub const DRIVER_VERSION: i32 = 1;

/// The name of the key this driver registers itself under, which is what a DAW lists.
pub const REGISTRY_KEY: &'static str = "Gazelle Aggregate";

/// **This class id must never change.** It is how a DAW, and the registry, find this driver, and
/// a session that has chosen this driver remembers it by this number. Generated once, at random.
pub open spec fn spec_class_id() -> guid::Guid {
    guid::Guid {
        data1: 0xF18C80B4u32,
        data2: 0x2DE1u16,
        data3: 0x43B8u16,
        data4: [0xACu8, 0x84u8, 0x19u8, 0xDDu8, 0xC2u8, 0x2Eu8, 0xBFu8, 0xC8u8],
    }
}

/// The class id, as a value.
pub fn class_id() -> (id: guid::Guid)
    ensures
        id == spec_class_id(),
{
    guid::Guid {
        data1: 0xF18C80B4u32,
        data2: 0x2DE1u16,
        data3: 0x43B8u16,
        data4: [0xACu8, 0x84u8, 0x19u8, 0xDDu8, 0xC2u8, 0x2Eu8, 0xBFu8, 0xC8u8],
    }
}

/// Nanoseconds, from a performance counter's ticks and how many of them make a second: seconds
/// and the remainder apart, so that a counter that has been running for months does not overflow
/// on the way. A counter with no rate reads as nothing.
pub fn nanos_of(ticks: i64, per_second: i64) -> (nanos: i64)
    requires
        ticks >= 0,
        per_second > 0 ==> (ticks / per_second) * 1_000_000_000 + (ticks % per_second) * 1_000_000_000 <= i64::MAX,
    ensures
        nanos == if per_second <= 0 {
            0
        } else {
            (ticks / per_second) * 1_000_000_000 + (ticks % per_second) * 1_000_000_000 / (per_second as int)
        },
{
    if per_second <= 0 {
        return 0;
    }
    let whole = ticks / per_second;
    let rest = ticks % per_second;
    proof {
        assert(0 <= rest < per_second);
        assert(0 <= whole * 1_000_000_000) by (nonlinear_arith)
            requires 0 <= whole;
        assert(0 <= rest * 1_000_000_000) by (nonlinear_arith)
            requires 0 <= rest;
        assert(rest * 1_000_000_000 / (per_second as int) <= rest * 1_000_000_000) by (nonlinear_arith)
            requires 0 <= rest * 1_000_000_000, per_second > 0;
    }
    whole * 1_000_000_000 + rest * 1_000_000_000 / per_second
}

} // verus!
