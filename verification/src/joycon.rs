//! Joy-Con 2 attribute handles, learned rather than discovered.
//!
//! If a firmware revision moves these, writes go to the wrong attribute and
//! notifications never arrive. [`plausible_layout`] exists so that this is checked
//! rather than assumed.
use vstd::prelude::*;

verus! {

/// The command characteristic that both halves share.
///
/// It is inert on real hardware: the controller accepts writes here and silently
/// discards them. Kept only so that a probe can keep testing it.
pub const HANDLE_CMD_WRITE_COMMON: u16 = 0x0014;

/// The command channel. Everything that must actually reach the controller goes here,
/// framed with the 17-byte rumble prefix, because rumble shares it.
pub const HANDLE_CMD_WRITE: u16 = 0x0016;

/// Input report characteristic. Notifications arrive here at the connection interval.
pub const HANDLE_INPUT_VALUE: u16 = 0x000E;

/// Common input characteristic, which stays silent until motion is enabled.
pub const HANDLE_INPUT_COMMON: u16 = 0x000A;

pub const HANDLE_INPUT_COMMON_CCCD: u16 = HANDLE_INPUT_COMMON + 1;

/// Report-rate descriptor of the common input.
pub const HANDLE_INPUT_COMMON_RATE: u16 = HANDLE_INPUT_COMMON + 2;

/// A configuration descriptor sits immediately after the value that it configures.
pub const HANDLE_INPUT_CCCD: u16 = HANDLE_INPUT_VALUE + 1;

/// Vendor report-rate descriptor on the input characteristic.
pub const HANDLE_INPUT_REPORT_RATE: u16 = HANDLE_INPUT_CCCD + 1;

/// Payload for the report-rate descriptor. Without it the controller keeps emitting
/// stub reports: counter incrementing, every field zero.
pub const REPORT_RATE_PAYLOAD: [u8; 2] = [0x85, 0x00];

/// Command-response characteristic, the same on both halves.
pub const HANDLE_CMD_RESPONSE: u16 = 0x001A;

pub const HANDLE_CMD_RESPONSE_CCCD: u16 = HANDLE_CMD_RESPONSE + 1;

/// The per-side command-response characteristic, which answers the handle that
/// commands are actually sent to.
pub const HANDLE_CMD_RESPONSE_PERSIDE: u16 = 0x001E;

pub const HANDLE_CMD_RESPONSE_PERSIDE_CCCD: u16 = HANDLE_CMD_RESPONSE_PERSIDE + 1;

/// A third stream with its own report-rate descriptor.
pub const HANDLE_INPUT_EXTRA: u16 = 0x0026;

pub const HANDLE_INPUT_EXTRA_CCCD: u16 = HANDLE_INPUT_EXTRA + 1;

pub const HANDLE_INPUT_EXTRA_RATE: u16 = HANDLE_INPUT_EXTRA + 2;

/// A fourth notifiable characteristic, without a report rate.
pub const HANDLE_NOTIFY_EXTRA2: u16 = 0x0022;

pub const HANDLE_NOTIFY_EXTRA2_CCCD: u16 = HANDLE_NOTIFY_EXTRA2 + 1;

/// ATT message size to request. Anything at or above 67 would do.
pub const DESIRED_MTU: u16 = 517;

/// Sanity-check the handle layout before relying on it: input before command before
/// response, each configuration descriptor directly after its value.
pub fn plausible_layout() -> (r: bool)
    ensures
        r == (HANDLE_INPUT_VALUE < HANDLE_CMD_WRITE < HANDLE_CMD_RESPONSE && HANDLE_INPUT_CCCD
            == HANDLE_INPUT_VALUE + 1 && HANDLE_CMD_RESPONSE_CCCD == HANDLE_CMD_RESPONSE + 1),
        r,
{
    HANDLE_INPUT_VALUE < HANDLE_CMD_WRITE && HANDLE_CMD_WRITE < HANDLE_CMD_RESPONSE
        && HANDLE_INPUT_CCCD == HANDLE_INPUT_VALUE + 1 && HANDLE_CMD_RESPONSE_CCCD
        == HANDLE_CMD_RESPONSE + 1
}

/// Is this handle one the controller actually executes commands from?
///
/// Writing to the wrong one fails completely silently.
pub fn executes_commands(handle: u16) -> (r: bool)
    ensures
        r == (handle == HANDLE_CMD_WRITE),
{
    handle == HANDLE_CMD_WRITE
}

/// Every configuration descriptor stands right behind the value that it configures, and every
/// report-rate descriptor right behind that.
pub proof fn descriptors_follow_their_values()
    ensures
        HANDLE_INPUT_COMMON_CCCD == HANDLE_INPUT_COMMON + 1,
        HANDLE_INPUT_COMMON_RATE == HANDLE_INPUT_COMMON_CCCD + 1,
        HANDLE_INPUT_CCCD == HANDLE_INPUT_VALUE + 1,
        HANDLE_INPUT_REPORT_RATE == HANDLE_INPUT_CCCD + 1,
        HANDLE_CMD_RESPONSE_CCCD == HANDLE_CMD_RESPONSE + 1,
        HANDLE_CMD_RESPONSE_PERSIDE_CCCD == HANDLE_CMD_RESPONSE_PERSIDE + 1,
        HANDLE_INPUT_EXTRA_CCCD == HANDLE_INPUT_EXTRA + 1,
        HANDLE_INPUT_EXTRA_RATE == HANDLE_INPUT_EXTRA_CCCD + 1,
        HANDLE_NOTIFY_EXTRA2_CCCD == HANDLE_NOTIFY_EXTRA2 + 1,
{
}

/// Commands go to one handle and never to the inert one that both halves share, nor to any
/// that answers or reports.
pub proof fn commands_go_to_one_handle()
    ensures
        HANDLE_CMD_WRITE == 0x0016,
        HANDLE_CMD_WRITE != HANDLE_CMD_WRITE_COMMON,
        HANDLE_INPUT_COMMON < HANDLE_INPUT_VALUE < HANDLE_CMD_WRITE_COMMON < HANDLE_CMD_WRITE
            < HANDLE_CMD_RESPONSE < HANDLE_CMD_RESPONSE_PERSIDE < HANDLE_NOTIFY_EXTRA2
            < HANDLE_INPUT_EXTRA,
        DESIRED_MTU >= 67,
{
}

} // verus!
