//! Starting over after a failure of the renderer.
use flexinput_btle::renderer::{
    after_init_failure, auto_cascade, classify_panic, helper_request, is_init_failure,
    pick_adapter, start_attempt, Adapter, AfterFailure, Backend, Failure, HelperRequest,
    VENDOR_AMD,
};

#[test]
fn failures_are_told_apart() {
    assert_eq!(classify_panic("GPU device lost", ""), Failure::GpuLost);
    assert_eq!(
        classify_panic("Fehler", "wgpu-hal-0.20/src/gles/device.rs:1"),
        Failure::GpuLost
    );
    assert_eq!(classify_panic("Fehler", "wgpu-hal-0.20/src/vulkan.rs"), Failure::Other);
    assert_eq!(classify_panic("Invalid monitor handle", ""), Failure::MonitorLost);
    assert_eq!(classify_panic("index out of bounds", ""), Failure::Other);
    assert!(is_init_failure("Wgpu(NoSuitableAdapter)"));
    assert!(!is_init_failure("permission denied"));
}

#[test]
fn the_cascade_goes_by_the_adapter() {
    let a = |discrete: bool, vendor: u32| Adapter { discrete, vendor };
    assert_eq!(pick_adapter(&[a(false, 1), a(true, 2), a(true, 3)]), Some(a(true, 2)));
    assert_eq!(pick_adapter(&[a(false, 1), a(false, 2)]), Some(a(false, 1)));
    assert_eq!(pick_adapter(&[]), None);
    assert_eq!(
        auto_cascade(&[a(false, 1), a(true, VENDOR_AMD)]),
        vec![Backend::Dx12, Backend::Vulkan, Backend::Gl]
    );
    assert_eq!(auto_cascade(&[]), vec![Backend::Vulkan, Backend::Dx12, Backend::Gl]);
}

#[test]
fn an_attempt_that_failed_is_followed_by_the_next() {
    assert_eq!(start_attempt(false, Some(2), 3), 0);
    assert_eq!(start_attempt(true, Some(1), 3), 1);
    assert_eq!(start_attempt(true, Some(9), 3), 2);
    assert_eq!(start_attempt(true, None, 3), 0);
    assert_eq!(after_init_failure(true, 0, 3), AfterFailure::Advance(1));
    assert_eq!(after_init_failure(true, 2, 3), AfterFailure::Exhausted);
    assert_eq!(after_init_failure(false, 0, 3), AfterFailure::Unrelated);
}

#[test]
fn a_helper_is_asked_for_by_its_flag() {
    let ask = |all: &[&str]| {
        let args: Vec<String> = all.iter().map(|s| s.to_string()).collect();
        helper_request(&args, "--helper")
    };
    assert_eq!(ask(&["app"]), None);
    assert_eq!(
        ask(&["app", "--helper", "--parent-pid", "42", "--persist"]),
        Some(HelperRequest { parent_pid: Some(42), persist: true })
    );
    assert_eq!(
        ask(&["app", "--helper", "--parent-pid", "--persist"]),
        Some(HelperRequest { parent_pid: None, persist: false })
    );
    assert_eq!(
        ask(&["--helper", "--parent-pid"]),
        Some(HelperRequest { parent_pid: None, persist: false })
    );
    assert_eq!(
        ask(&["--helper", "--parent-pid", "4294967296"]),
        Some(HelperRequest { parent_pid: None, persist: false })
    );
}
