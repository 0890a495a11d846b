//! Finding a dongle.
use flexinput_btle::dongle::{
    after_reset, command_setup, find_endpoints, is_bluetooth, open_attempt, open_by_ids, opened,
    transfer_outcome, vendor_name, AfterReset, Candidate, ControlSetup, Endpoint, Endpoints,
    OpenAttempt, Registry, TransferKind, UsbClass,
};
use flexinput_btle::{discover, is_ours, DongleInfo, Error, UsbFault};

const BT: UsbClass = UsbClass { class: 0xE0, subclass: 1, protocol: 1 };
const NONE: UsbClass = UsbClass { class: 0, subclass: 0, protocol: 0 };

#[test]
fn a_dongle_is_known_by_its_class() {
    assert!(is_bluetooth(BT, &[]));
    assert!(is_bluetooth(NONE, &[NONE, BT]));
    assert!(!is_bluetooth(NONE, &[NONE]));
    assert!(!is_bluetooth(UsbClass { class: 0xE0, subclass: 1, protocol: 3 }, &[]));
}

fn info(manufacturer: Option<&str>, product: Option<&str>, vid: u16) -> DongleInfo {
    DongleInfo {
        vid,
        pid: 0xA728,
        bus: 1,
        address: 2,
        available: true,
        ours: false,
        manufacturer: manufacturer.map(|s| s.to_string()),
        product: product.map(|s| s.to_string()),
    }
}

#[test]
fn a_dongle_always_has_a_name() {
    assert_eq!(info(Some("Acme"), Some("BT 5"), 0x0BDA).describe(), "Acme BT 5");
    assert_eq!(info(Some("Acme"), None, 0x0BDA).describe(), "Acme adapter");
    assert_eq!(info(None, Some("BT 5"), 0x0BDA).describe(), "BT 5");
    assert_eq!(info(None, None, 0x0BDA).describe(), "Realtek adapter");
    assert_eq!(info(None, None, 0x1234).describe(), "Bluetooth adapter 1234:a728");
    assert_eq!(info(None, Some(""), 0x0BDA).describe(), "Realtek adapter", "a blank is no name");
    assert_eq!(info(Some(""), Some(" "), 0x1234).describe(), "Bluetooth adapter 1234:a728");
    assert_eq!(info(Some("Acme"), Some("\t"), 0x0BDA).describe(), "Acme \t");
    assert_eq!(info(Some("Foo"), Some(""), 0x0BDA).describe(), "Foo ");
    assert_eq!(info(Some(""), Some("X"), 0x0BDA).describe(), " X");
    assert_eq!(info(Some(""), None, 0x0BDA).describe(), " adapter");
    assert_eq!(info(None, None, 0x0BDA).ids(), "0bda:a728");
    assert_eq!(vendor_name(0x8087), Some("Intel"));
    assert_eq!(vendor_name(1), None);
}

#[test]
fn a_dongle_that_is_held_stays_ours_until_it_is_let_go() {
    let mut r = Registry::new();
    assert!(!is_ours(&r, 1, 2));
    r.register(1, 2);
    r.register(1, 2);
    assert!(is_ours(&r, 1, 2));
    assert!(!is_ours(&r, 1, 3));
    r.release(1, 2);
    assert!(is_ours(&r, 1, 2), "it was opened twice");
    r.release(1, 2);
    assert!(!is_ours(&r, 1, 2));
    r.release(1, 2);
}

fn candidate(pid: u16, class: UsbClass, attempt: OpenAttempt) -> Candidate {
    Candidate {
        vid: 0x0BDA,
        pid,
        bus: 1,
        address: 7,
        class,
        interfaces: vec![],
        attempt,
        manufacturer: Some("  Acme ".to_string()),
        product: Some("   ".to_string()),
    }
}

#[test]
fn discovery_lists_every_dongle_and_nothing_else() {
    let mut r = Registry::new();
    r.register(0x0BDA, 2);
    let found = discover(
        &[
            candidate(1, BT, OpenAttempt::Opened),
            candidate(2, BT, OpenAttempt::Held),
            candidate(3, NONE, OpenAttempt::Opened),
        ],
        &r,
    );
    let ids: Vec<(u16, bool, bool)> =
        found.iter().map(|d| (d.pid, d.available, d.ours)).collect();
    assert_eq!(ids, vec![(1, true, false), (2, false, true)]);
    assert_eq!(found[0].manufacturer.as_deref(), Some("Acme"), "strings are trimmed");
    assert_eq!(found[0].product, None, "and blank ones dropped");
}

#[test]
fn the_first_with_the_ids_is_opened() {
    assert_eq!(open_by_ids(&[(1, 1), (1, 2), (1, 2)], 1, 2), Ok(1));
    assert_eq!(open_by_ids(&[(1, 1)], 1, 2), Err(Error::NotFound { vid: 1, pid: 2 }));
}

#[test]
fn endpoints_are_found_by_kind_and_direction() {
    let e = |interface, kind, incoming, address| Endpoint { interface, kind, incoming, address };
    let all = vec![
        e(1, TransferKind::Isochronous, true, 0x83),
        e(0, TransferKind::Bulk, false, 0x02),
        e(0, TransferKind::Interrupt, true, 0x81),
        e(0, TransferKind::Bulk, true, 0x82),
    ];
    assert_eq!(find_endpoints(&all, 0), Ok(Endpoints { event: 0x81, acl_in: 0x82, acl_out: 0x02 }));
    assert!(matches!(find_endpoints(&all[..3], 0), Err(Error::NoEndpoint(_))));
    assert!(matches!(find_endpoints(&all, 1), Err(Error::NoEndpoint(_))));
}

#[test]
fn a_device_that_vanished_in_a_reset_is_opened_again() {
    assert_eq!(after_reset(None), AfterReset::Keep);
    assert_eq!(after_reset(Some(UsbFault::NotFound)), AfterReset::Reopen);
    assert_eq!(after_reset(Some(UsbFault::Access)), AfterReset::Keep);
}

#[test]
fn faults_are_told_apart() {
    assert_eq!(open_attempt(None), OpenAttempt::Opened);
    assert_eq!(open_attempt(Some(UsbFault::Access)), OpenAttempt::Held);
    assert_eq!(open_attempt(Some(UsbFault::Busy)), OpenAttempt::Held);
    assert_eq!(open_attempt(Some(UsbFault::NotSupported)), OpenAttempt::Refused);
    assert_eq!(transfer_outcome(Ok(7)), Ok(Some(7)));
    assert_eq!(transfer_outcome(Err(UsbFault::Timeout)), Ok(None));
    assert_eq!(transfer_outcome(Err(UsbFault::Pipe)), Err(Error::Usb(UsbFault::Pipe)));
}

#[test]
fn every_fault_has_its_words() {
    let faults = [
        (UsbFault::Io, "Input/Output Error"),
        (UsbFault::InvalidParam, "Invalid parameter"),
        (UsbFault::Access, "Access denied (insufficient permissions)"),
        (UsbFault::NoDevice, "No such device (it may have been disconnected)"),
        (UsbFault::NotFound, "Entity not found"),
        (UsbFault::Busy, "Resource busy"),
        (UsbFault::Timeout, "Operation timed out"),
        (UsbFault::Overflow, "Overflow"),
        (UsbFault::Pipe, "Pipe error"),
        (UsbFault::Interrupted, "System call interrupted (perhaps due to signal)"),
        (UsbFault::NoMem, "Insufficient memory"),
        (UsbFault::NotSupported, "Operation not supported or unimplemented on this platform"),
        (UsbFault::BadDescriptor, "Malformed descriptor"),
        (UsbFault::Other, "Other error"),
    ];
    for (f, words) in faults {
        assert_eq!(Error::Usb(f).to_text(), format!("usb error: {words}"));
    }
}

#[test]
fn a_command_is_a_class_request_to_the_interface() {
    assert_eq!(
        command_setup(3),
        ControlSetup { request_type: 0x21, request: 0, value: 0, index: 3 }
    );
}

#[test]
fn errors_say_what_happened() {
    assert_eq!(
        Error::NotFound { vid: 0x0BDA, pid: 0xA728 }.to_text(),
        "no USB device 0bda:a728 (is it bound to WinUSB via Zadig?)"
    );
    assert_eq!(Error::Usb(UsbFault::Pipe).to_text(), "usb error: Pipe error");
    assert_eq!(
        Error::NoEndpoint("bulk IN".to_string()).to_text(),
        "dongle exposes no bulk IN endpoint"
    );
    assert_eq!(Error::Protocol("odd".to_string()).to_text(), "protocol error: odd");
    assert_eq!(
        Error::Busy { vid: 1, pid: 2, source: UsbFault::Busy }.to_text(),
        "dongle 0001:0002 is present and WinUSB-bound but already in use (Resource busy) — another \
         FlexInput instance, a jc2_*/bt_classic probe, or this app's other Bluetooth transport \
         holds it"
    );
}

#[test]
fn only_a_dongle_that_was_opened_for_good_is_ours() {
    let mut r = Registry::new();
    let found = Endpoints { event: 0x81, acl_in: 0x82, acl_out: 0x02 };
    let lost = Err(Error::NoEndpoint("bulk in".to_string()));
    assert!(opened(&mut r, 1, 2, lost).is_err());
    assert!(!is_ours(&r, 1, 2));
    assert_eq!(opened(&mut r, 1, 2, Ok(found)), Ok(found));
    assert!(is_ours(&r, 1, 2));
}
