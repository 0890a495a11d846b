//! The layout of a Joy-Con 2.
use flexinput_btle::joycon::{
    executes_commands, plausible_layout, DESIRED_MTU, HANDLE_CMD_RESPONSE_CCCD, HANDLE_CMD_WRITE,
    HANDLE_CMD_WRITE_COMMON, HANDLE_INPUT_CCCD, HANDLE_INPUT_COMMON_CCCD,
};

#[test]
fn handle_layout_is_self_consistent() {
    assert!(plausible_layout());
}

#[test]
fn cccds_sit_directly_after_their_value_handles() {
    assert_eq!(HANDLE_INPUT_CCCD, 0x000F);
    assert_eq!(HANDLE_INPUT_COMMON_CCCD, 0x000B);
    assert_eq!(HANDLE_CMD_RESPONSE_CCCD, 0x001B);
}

#[test]
fn the_command_handle_is_the_one_hardware_executes() {
    assert_eq!(HANDLE_CMD_WRITE, 0x0016);
    assert!(executes_commands(HANDLE_CMD_WRITE));
    assert!(!executes_commands(HANDLE_CMD_WRITE_COMMON));
    assert_ne!(HANDLE_CMD_WRITE, HANDLE_CMD_WRITE_COMMON);
}

#[test]
fn requested_mtu_can_carry_a_whole_input_report() {
    assert!(DESIRED_MTU >= 66);
}
