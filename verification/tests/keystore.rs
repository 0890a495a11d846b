//! The store of link keys.
use flexinput_btle::keystore::{
    count, dir, entries, forget, format_addr, get, load, pairing, parse_addr, parse_key, put, set_dir,
    write_all, KeyDir,
};

#[test]
fn an_address_round_trips_through_its_text_form() {
    let a = [0xda, 0x2d, 0x16, 0x0f, 0x01, 0x69];
    assert_eq!(format_addr(a), "da:2d:16:0f:01:69");
    assert_eq!(parse_addr("da:2d:16:0f:01:69"), Some(a));
    assert_eq!(parse_addr("DA:2D:16:0F:01:69"), Some(a), "case must not matter");
    assert_eq!(parse_addr("da:2d:16:0f:01"), None, "short address accepted");
    assert_eq!(parse_addr("nonsense"), None);
}

#[test]
fn a_key_round_trips_byte_for_byte() {
    let k: [u8; 16] = core::array::from_fn(|i| (i * 17) as u8);
    let text: String = k.iter().map(|b| format!("{b:02x}")).collect();
    assert_eq!(parse_key(&text), Some(k));
    assert_eq!(parse_key(&text[..30]), None);
    assert_eq!(parse_key("zz"), None);
}

#[test]
fn several_pairings_coexist_and_forget_removes_only_one() {
    let mut text = String::new();
    let pads: [[u8; 6]; 3] = [[0x11; 6], [0x22; 6], [0x33; 6]];
    for (i, a) in pads.iter().enumerate() {
        let mut store = load(&text);
        put(&mut store, *a, [i as u8 + 1; 16], None, None);
        text = write_all(&store);
    }
    assert_eq!(count(&load(&text)), 3, "three pairings must coexist");
    for (i, a) in pads.iter().enumerate() {
        assert_eq!(get(&load(&text), *a), Some([i as u8 + 1; 16]), "pad {i} key wrong");
    }

    let mut store = load(&text);
    assert_eq!(forget(&mut store, pads[1]), true);
    text = write_all(&store);
    let store = load(&text);
    assert_eq!(get(&store, pads[1]), None, "the removed pad is still there");
    assert_eq!(get(&store, pads[0]), Some([1; 16]), "forget disturbed another pairing");
    assert_eq!(get(&store, pads[2]), Some([3; 16]), "forget disturbed another pairing");
    assert_eq!(count(&store), 2);

    let mut store = load(&text);
    assert_eq!(forget(&mut store, [0xAB; 6]), false);
    assert_eq!(count(&load(&write_all(&store))), 2);
}

#[test]
fn the_adapter_survives_a_round_trip_and_old_files_still_load() {
    let pad = [0x11u8; 6];
    let dongle = [0x8c, 0x68, 0x8b, 0x81, 0xe3, 0xc5];
    let mut store = load("");
    put(&mut store, pad, [0x22; 16], Some("Pro Controller"), Some(dongle));
    let back = load(&write_all(&store));
    let p = pairing(&back, pad).expect("entry missing");
    assert_eq!(p.adapter, Some(dongle), "adapter lost");
    assert_eq!(p.name.as_deref(), Some("Pro Controller"), "name lost");
    assert_eq!(p.key, [0x22; 16]);

    let back = load(
        "11:11:11:11:11:11 33333333333333333333333333333333 @home pad
",
    );
    let p = pairing(&back, pad).expect("entry missing");
    assert_eq!(p.adapter, None, "'@home pad' is a name, not an address");
    assert_eq!(p.name.as_deref(), Some("@home pad"));

    let back = load(
        "11:11:11:11:11:11 44444444444444444444444444444444 Pro Controller
",
    );
    let p = pairing(&back, pad).expect("entry missing");
    assert_eq!(p.adapter, None);
    assert_eq!(p.name.as_deref(), Some("Pro Controller"));
}

#[test]
fn a_malformed_line_does_not_discard_the_good_ones() {
    let good = [0x11u8; 6];
    let mut store = load("");
    put(&mut store, good, [0x22; 16], Some("Pro Controller"), None);
    let mut text = write_all(&store);
    text.push_str("\n# a comment\n\nnot-an-address zzzz\naa:bb short\n");

    let all = load(&text);
    assert_eq!(count(&all), 1, "good entry lost among the junk: {all:?}");
    assert_eq!(get(&all, good), Some([0x22; 16]));
    assert_eq!(
        pairing(&all, good).expect("entry missing").name.as_deref(),
        Some("Pro Controller"),
        "the recorded name did not round-trip",
    );
}

#[test]
fn pairing_again_keeps_the_name_and_the_adapter() {
    let pad = [0x11u8; 6];
    let mut store = load("");
    put(&mut store, pad, [1; 16], Some("Pro Controller"), Some([9; 6]));
    put(&mut store, pad, [2; 16], None, None);
    let p = pairing(&store, pad).expect("entry missing");
    assert_eq!(p.key, [2; 16]);
    assert_eq!(p.name.as_deref(), Some("Pro Controller"));
    assert_eq!(p.adapter, Some([9; 6]));
    put(&mut store, pad, [3; 16], Some("Pad"), None);
    assert_eq!(pairing(&store, pad).unwrap().name.as_deref(), Some("Pad"));
}

#[test]
fn a_store_is_written_in_order_of_address() {
    let mut store = load("");
    put(&mut store, [0x33; 6], [1; 16], None, None);
    put(&mut store, [0x11; 6], [2; 16], Some("A pad"), Some([0xAB; 6]));
    assert_eq!(
        write_all(&store),
        "11:11:11:11:11:11 02020202020202020202020202020202 @ab:ab:ab:ab:ab:ab A pad\n\
         33:33:33:33:33:33 01010101010101010101010101010101\n"
    );
}

#[test]
fn the_directory_is_the_first_that_is_known() {
    let mut k: KeyDir<&str> = KeyDir { setting: None };
    assert_eq!(*dir(&k, Some(("/env", &"/env")), Some(&"/exe"), Some(&"/cwd"), &"."), "/env");
    assert_eq!(*dir(&k, Some((" \t", &"/env")), Some(&"/exe"), Some(&"/cwd"), &"."), "/exe");
    assert_eq!(*dir(&k, None, None, Some(&"/cwd"), &"."), "/cwd");
    assert_eq!(*dir(&k, None, None, None, &"."), ".");
    set_dir(&mut k, Some("/set"));
    assert_eq!(*dir(&k, Some(("/env", &"/env")), Some(&"/exe"), Some(&"/cwd"), &"."), "/set");
    set_dir(&mut k, None);
    assert_eq!(*dir(&k, None, Some(&"/exe"), None, &"."), "/exe");
}

#[test]
fn entries_come_in_the_order_of_their_addresses() {
    let mut store = load("");
    for a in [0x33u8, 0x11, 0x22] {
        put(&mut store, [a; 6], [a; 16], None, None);
    }
    let all: Vec<(&str, u8)> = entries(&store).iter().map(|(a, p)| (a.as_str(), p.key[0])).collect();
    assert_eq!(
        all,
        vec![
            ("11:11:11:11:11:11", 0x11),
            ("22:22:22:22:22:22", 0x22),
            ("33:33:33:33:33:33", 0x33),
        ]
    );
}

#[test]
fn no_name_is_mistaken_for_an_adapter() {
    let pad = [0x11u8; 6];
    let names = [
        "@11:22:33:44:55:66",
        "@11:22:33:44:55:66 pad",
        "@ @11:22:33:44:55:66",
        "@ @ @11:22:33:44:55:66 pad",
        "@",
        "@ home",
        "@home pad",
        "@@11:22:33:44:55:66",
    ];
    for adapter in [None, Some([9u8; 6])] {
        for name in names {
            let mut store = load("");
            put(&mut store, pad, [0x22; 16], Some(name), adapter);
            let p = pairing(&load(&write_all(&store)), pad).expect("entry missing");
            assert_eq!((p.name.as_deref(), p.adapter, p.key), (Some(name), adapter, [0x22; 16]));
        }
    }
    let mut store = load("");
    put(&mut store, pad, [0x22; 16], Some(" @11:22:33:44:55:66\n"), None);
    let p = pairing(&load(&write_all(&store)), pad).expect("entry missing");
    assert_eq!((p.name.as_deref(), p.adapter), (Some("@11:22:33:44:55:66"), None));
    put(&mut store, pad, [0x22; 16], Some(" "), None);
    assert_eq!(pairing(&load(&write_all(&store)), pad).expect("entry missing").name, None);
}

#[test]
fn lines_of_every_age_are_read() {
    let key = "33333333333333333333333333333333";
    let read = |rest: &str| {
        let all = load(&format!("11:11:11:11:11:11 {key}{rest}\n"));
        let p = pairing(&all, [0x11; 6]).expect("entry missing");
        (p.adapter, p.name)
    };
    assert_eq!(read(""), (None, None));
    assert_eq!(read(" Pro Controller"), (None, Some("Pro Controller".to_string())));
    assert_eq!(read(" @ab:ab:ab:ab:ab:ab"), (Some([0xAB; 6]), None));
    assert_eq!(read(" @ab:ab:ab:ab:ab:ab A pad"), (Some([0xAB; 6]), Some("A pad".to_string())));
    assert_eq!(read(" @ home"), (None, Some("@ home".to_string())));
    assert_eq!(
        read(" @ @11:22:33:44:55:66"),
        (None, Some("@ @11:22:33:44:55:66".to_string())),
        "only an address directly behind the sign is an adapter"
    );
}

#[test]
fn a_name_that_looks_like_an_adapter_is_marked() {
    let pad = [0x11u8; 6];
    let key = "22222222222222222222222222222222";
    let mut store = load("");
    put(&mut store, pad, [0x22; 16], Some("@11:22:33:44:55:66"), None);
    assert_eq!(write_all(&store), format!("11:11:11:11:11:11 @{key} @11:22:33:44:55:66\n"));
    put(&mut store, pad, [0x22; 16], Some("@ @11:22:33:44:55:66"), None);
    assert_eq!(write_all(&store), format!("11:11:11:11:11:11 {key} @ @11:22:33:44:55:66\n"));
    put(&mut store, pad, [0x22; 16], Some("@11:22:33:44:55:66"), Some([9; 6]));
    assert_eq!(
        write_all(&store),
        format!("11:11:11:11:11:11 {key} @09:09:09:09:09:09 @11:22:33:44:55:66\n")
    );
    for rest in ["", " Pro Controller", " @home", " @ @11:22:33:44:55:66"] {
        assert_eq!(
            count(&load(&format!("11:11:11:11:11:11 @{key}{rest}\n"))),
            0,
            "the mark stands only where it is needed"
        );
    }
    assert_eq!(count(&load(&format!("11:11:11:11:11:11 @@{key} @11:22:33:44:55:66\n"))), 0);
}

#[test]
fn a_line_without_an_address_is_no_entry() {
    let key = "33333333333333333333333333333333";
    assert_eq!(count(&load(&format!("x {key}\n11:22:33:44:55 {key}\n# {key}\n {key}\n"))), 0);
    assert_eq!(count(&load(&format!("x {key}\nAA:22:33:44:55:66 {key}\n"))), 1);
}
