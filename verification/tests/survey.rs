//! Surveying what a controller offers.
use flexinput_btle::acl::{
    AttUuid, AttrInfo, CharDecl, ATT_WRITE_COMMAND, ATT_WRITE_REQUEST, PROP_WRITE,
    PROP_WRITE_NO_RESPONSE,
};
use flexinput_btle::recording::StreamShape;
use flexinput_btle::survey::{
    cccds, changed_bytes, has_flag, is_alive, motion_len, plan_survey, preflight, rate_opcode,
    shape_changed, subscribe_inputs, table_is_sound, uuid_at_handle, value_after, write_opcode,
    write_report_rates, Opts, Preflight, SWEEP_OPCODES,
};

fn args(all: &[&str]) -> Vec<String> {
    all.iter().map(|s| s.to_string()).collect()
}

#[test]
fn flags_are_read() {
    let o = Opts::from_args(&args(&["x", "--dump-flash", "--force"]));
    assert!(o.cmd_per_side && o.force);
    assert!(!o.common_only && !o.detached && !o.late_subscribe && !o.led_test);
    assert!(has_flag(&args(&["--led"]), "--led") && !has_flag(&args(&["--leds"]), "--led"));
}

fn rate_uuid() -> AttUuid {
    let mut le = [
        0x67, 0x9d, 0x55, 0x10, 0x5a, 0x24, 0x4d, 0xee, 0x95, 0x57, 0x95, 0xdf, 0x80, 0x48, 0x6e,
        0xcb,
    ];
    le.reverse();
    AttUuid::Long(le)
}

fn table() -> Vec<AttrInfo> {
    let a = |handle: u16, uuid: AttUuid| AttrInfo { handle, uuid };
    vec![
        a(0x0D, AttUuid::Short(0x2803)),
        a(0x0E, AttUuid::Short(0xFE00)),
        a(0x0F, AttUuid::Short(0x2902)),
        a(0x10, rate_uuid()),
        a(0x1A, AttUuid::Short(0xFE01)),
        a(0x1B, AttUuid::Short(0x2902)),
    ]
}

#[test]
fn everything_that_notifies_is_subscribed_to() {
    assert_eq!(cccds(&table()), vec![0x0F, 0x1B]);
    assert_eq!(uuid_at_handle(&table(), 0x0E).as_deref(), Some("0xfe00"));
    assert_eq!(uuid_at_handle(&table(), 0x99), None);
    assert!(table_is_sound(&table()));
    let p = plan_survey(&table(), false);
    assert!(p.listed && p.write_rates);
    assert_eq!(p.streams, vec![0x0E], "replies are no stream");
    let subs: Vec<(u16, u16, bool)> =
        p.subscriptions.iter().map(|s| (s.cccd, s.value, s.now)).collect();
    assert_eq!(subs, vec![(0x0F, 0x0E, true), (0x1B, 0x1A, true)]);

    let late = plan_survey(&table(), true);
    assert!(!late.write_rates);
    assert!(!late.subscriptions[0].now && late.subscriptions[1].now);
    assert_eq!(subscribe_inputs(&table()), vec![0x0F]);
}

#[test]
fn a_silent_table_falls_back_on_what_is_known() {
    let p = plan_survey(&[], true);
    assert!(!p.listed && !p.write_rates);
    let subs: Vec<u16> = p.subscriptions.iter().map(|s| s.cccd).collect();
    assert_eq!(subs, vec![0x0F, 0x1B, 0x0B]);
    assert_eq!(p.streams, vec![0x0E, 0x0A]);
}

fn decl(value_handle: u16, properties: u8) -> CharDecl {
    CharDecl {
        decl_handle: value_handle - 1,
        value_handle,
        properties,
        uuid: AttUuid::Short(0xFE00),
    }
}

#[test]
fn a_write_goes_by_the_declared_properties() {
    let chars = vec![decl(0x14, PROP_WRITE_NO_RESPONSE), decl(0x0E, PROP_WRITE)];
    assert_eq!(write_opcode(&chars, 0x0E), ATT_WRITE_REQUEST);
    assert_eq!(write_opcode(&chars, 0x14), ATT_WRITE_COMMAND);
    assert_eq!(write_opcode(&chars, 0x99), ATT_WRITE_COMMAND);
    assert_eq!(rate_opcode(&chars, 0x10), ATT_WRITE_REQUEST);
    assert_eq!(rate_opcode(&chars, 0x16), ATT_WRITE_COMMAND);
    assert_eq!(rate_opcode(&[], 0x16), ATT_WRITE_REQUEST);
    assert_eq!(write_report_rates(&table(), &chars), vec![(0x10, ATT_WRITE_REQUEST)]);
}

fn shape(motion_len: u8, tail_live: usize, tail_nonzero: bool) -> StreamShape {
    StreamShape { frames: 9, width: 63, motion_len, live: 4, tail_live, tail_nonzero }
}

#[test]
fn what_woke_up_decides_whether_to_record() {
    let quiet = shape(30, 0, false);
    assert_eq!(preflight(&[(0x0E, None)], false, false), Preflight::Silent);
    assert_eq!(preflight(&[(0x0E, Some(quiet))], false, false), Preflight::NothingNew);
    assert_eq!(preflight(&[(0x0E, Some(quiet))], false, true), Preflight::Go);
    assert_eq!(preflight(&[(0x0E, Some(quiet))], true, false), Preflight::Detached);
    assert_eq!(
        preflight(&[(0x0E, Some(quiet)), (0x0A, Some(quiet))], false, false),
        Preflight::CommonStreams
    );
    assert_eq!(
        preflight(&[(0x0E, Some(shape(30, 0, true)))], false, false),
        Preflight::LayoutChanged
    );
    assert!(!Preflight::Silent.records(false) && Preflight::Silent.records(true));
    assert!(!Preflight::NothingNew.records(false) && Preflight::Go.records(false));
}

#[test]
fn a_change_of_shape_is_noticed() {
    assert_eq!(motion_len(&[shape(3, 0, false), shape(30, 0, false)]), 30);
    assert!(!shape_changed(30, &[shape(30, 0, false)]));
    assert!(shape_changed(30, &[shape(40, 0, false)]));
    assert!(shape_changed(30, &[shape(30, 1, false)]));
    assert_eq!(changed_bytes(&[1, 2, 3], &[1, 9, 3, 4]), vec![1]);
}

#[test]
fn a_sweep_does_not_touch_flash() {
    assert!(!SWEEP_OPCODES.contains(&0x02));
}

#[test]
fn a_value_stands_behind_the_first_of_its_flags() {
    let args: Vec<String> =
        ["--from", "19", "--to", "31", "--from", "7"].iter().map(|s| s.to_string()).collect();
    assert_eq!(value_after(&args, "--from").map(|s| s.as_str()), Some("19"));
    assert_eq!(value_after(&args, "--to").map(|s| s.as_str()), Some("31"));
    assert_eq!(value_after(&args, "--step"), None);
    assert_eq!(value_after(&args, "7"), None, "nothing follows it");
}

#[test]
fn a_stream_is_alive_where_reports_came() {
    let streams = [(0x0A, None), (0x0E, Some(shape(30, 0, false)))];
    assert!(is_alive(&streams, 0x0E));
    assert!(!is_alive(&streams, 0x0A) && !is_alive(&streams, 0x26) && !is_alive(&[], 0x0E));
}
