//! What to do where the graphics fail: which failures a fresh process recovers from, and
//! which renderer it tries.
use vstd::prelude::*;
use crate::survey;
use crate::survey::has_flag;
use crate::text;
use crate::text::{contains, parse_u32};

verus! {

/// Why a program is about to die.
#[derive(Debug, Clone, Copy, PartialEq, Eq, Structural)]
pub enum Failure {
    /// A display went away under the windowing layer. A fresh process enumerates the
    /// displays cleanly.
    MonitorLost,
    /// The graphics device or its context was lost. A fresh process rebuilds it.
    GpuLost,
    /// Anything else: starting over might loop on a genuine mistake.
    Other,
}

/// Whether a failure is that of a lost graphics device. Its words are matched, or, where
/// they are localised, the place that it came from.
pub open spec fn device_lost(message: Seq<char>, location: Seq<char>) -> bool {
    ||| text::holds_text(location, "wgpu-hal"@) && text::holds_text(location, "gles"@)
    ||| text::holds_text(message, "Failed to create staging buffer"@)
    ||| text::holds_text(message, "GPU device lost"@)
    ||| text::holds_text(message, "Device is lost"@)
    ||| text::holds_text(message, "device was lost"@)
    ||| text::holds_text(message, "egui_texid_Managed"@) && text::holds_text(
        message,
        "is invalid"@,
    )
}

/// Whether a failure is that of a display that went away.
pub open spec fn display_lost(message: Seq<char>) -> bool {
    ||| text::holds_text(message, "Invalid monitor handle"@)
    ||| text::holds_text(message, "monitor.rs"@) && text::holds_text(message, "1461"@)
}

/// What kind of failure a message and the place it came from tell of.
pub open spec fn failure_of(message: Seq<char>, location: Seq<char>) -> Failure {
    if device_lost(message, location) {
        Failure::GpuLost
    } else if display_lost(message) {
        Failure::MonitorLost
    } else {
        Failure::Other
    }
}

/// What kind of failure a message and the place it came from tell of.
pub fn classify_panic(message: &str, location: &str) -> (f: Failure)
    ensures
        f == failure_of(message@, location@),
{
    let gpu: bool = (contains(location, "wgpu-hal") && contains(location, "gles")) || contains(
        message,
        "Failed to create staging buffer",
    ) || contains(message, "GPU device lost") || contains(message, "Device is lost") || contains(
        message,
        "device was lost",
    ) || (contains(message, "egui_texid_Managed") && contains(message, "is invalid"));
    if gpu {
        return Failure::GpuLost;
    }
    let monitor: bool = contains(message, "Invalid monitor handle") || (contains(
        message,
        "monitor.rs",
    ) && contains(message, "1461"));
    if monitor {
        Failure::MonitorLost
    } else {
        Failure::Other
    }
}

/// Whether an error is one of setting the renderer up.
pub open spec fn of_setting_up(error: Seq<char>) -> bool {
    ||| text::holds_text(error, "Wgpu"@)
    ||| text::holds_text(error, "Surface"@)
    ||| text::holds_text(error, "Adapter"@)
    ||| text::holds_text(error, "Device"@)
    ||| text::holds_text(error, "Backend"@)
}

/// Whether the renderer could not be set up at all, by the words of its error.
pub fn is_init_failure(error: &str) -> (r: bool)
    ensures
        r == of_setting_up(error@),
{
    contains(error, "Wgpu") || contains(error, "Surface") || contains(error, "Adapter")
        || contains(error, "Device") || contains(error, "Backend")
}

/// A way to draw.
#[derive(Debug, Clone, Copy, PartialEq, Eq, Structural)]
pub enum Backend {
    Vulkan,
    Dx12,
    Gl,
}

/// A graphics adapter: whether it is a discrete one, and who made it.
#[derive(Debug, Clone, Copy, PartialEq, Eq, Structural)]
pub struct Adapter {
    pub discrete: bool,
    pub vendor: u32,
}

/// The vendor whose other surfaces are opaque, or do not survive sleep.
pub const VENDOR_AMD: u32 = 0x1002;

/// The place of the first discrete adapter, or how many there are.
pub open spec fn discrete_place(all: Seq<Adapter>) -> nat
    decreases all.len(),
{
    if all.len() == 0 || all[0].discrete {
        0
    } else {
        1 + discrete_place(all.skip(1))
    }
}

/// The adapter that will be used: the first discrete one, else the first.
pub open spec fn picked(all: Seq<Adapter>) -> Option<Adapter> {
    if discrete_place(all) < all.len() {
        Some(all[discrete_place(all) as int])
    } else if all.len() > 0 {
        Some(all[0])
    } else {
        None
    }
}

/// Pick the adapter that will be used.
pub fn pick_adapter(all: &[Adapter]) -> (r: Option<Adapter>)
    ensures
        r == picked(all@),
{
    let mut i: usize = 0;
    assert(all@.skip(0) =~= all@);
    while i < all.len()
        invariant
            i <= all@.len(),
            discrete_place(all@) == i + discrete_place(all@.skip(i as int)),
        decreases all@.len() - i,
    {
        assert(all@.skip(i as int)[0] == all@[i as int]);
        if all[i].discrete {
            return Some(all[i]);
        }
        assert(all@.skip(i as int).skip(1) =~= all@.skip(i + 1));
        i += 1;
    }
    if all.len() > 0 {
        Some(all[0])
    } else {
        None
    }
}

/// The renderers to try, in order.
pub open spec fn cascade_of(all: Seq<Adapter>) -> Seq<Backend> {
    if picked(all) matches Some(a) && a.vendor == VENDOR_AMD {
        seq![Backend::Dx12, Backend::Vulkan, Backend::Gl]
    } else {
        seq![Backend::Vulkan, Backend::Dx12, Backend::Gl]
    }
}

/// The renderers to try, in order.
pub fn auto_cascade(all: &[Adapter]) -> (v: Vec<Backend>)
    ensures
        v@ == cascade_of(all@),
        v@.len() == 3,
{
    let amd: bool = match pick_adapter(all) {
        Some(a) => a.vendor == VENDOR_AMD,
        None => false,
    };
    let mut v: Vec<Backend> = Vec::new();
    if amd {
        v.push(Backend::Dx12);
        v.push(Backend::Vulkan);
    } else {
        v.push(Backend::Vulkan);
        v.push(Backend::Dx12);
    }
    v.push(Backend::Gl);
    assert(v@ =~= cascade_of(all@));
    v
}

/// Every renderer is tried once, whoever made the adapter.
pub proof fn the_cascade_tries_everything(all: Seq<Adapter>, b: Backend)
    ensures
        cascade_of(all).len() == 3,
        cascade_of(all).contains(b),
        cascade_of(all).no_duplicates(),
{
    let c = cascade_of(all);
    assert(c[0] == b || c[1] == b || c[2] == b);
}

/// The place in a cascade of `len` to start from.
pub open spec fn start_of(recovery: bool, recorded: Option<usize>, len: usize) -> int {
    if recovery && recorded is Some {
        if recorded->0 < len {
            recorded->0 as int
        } else {
            len - 1
        }
    } else {
        0
    }
}

/// The place in the cascade to start from. Only a process that was started to recover
/// takes over where the one before stood.
pub fn start_attempt(recovery: bool, recorded: Option<usize>, len: usize) -> (i: usize)
    requires
        len > 0,
    ensures
        i < len,
        i == start_of(recovery, recorded, len),
{
    let attempt: usize = if recovery {
        match recorded {
            Some(n) => n,
            None => 0,
        }
    } else {
        0
    };
    if attempt < len {
        attempt
    } else {
        len - 1
    }
}

/// What follows where a renderer could not be set up.
#[derive(Debug, Clone, Copy, PartialEq, Eq, Structural)]
pub enum AfterFailure {
    /// Start over with this place in the cascade.
    Advance(usize),
    /// Every renderer was tried.
    Exhausted,
    /// It was not the renderer's fault.
    Unrelated,
}

/// What follows where a renderer could not be set up.
pub open spec fn following_failure(init_failure: bool, at: usize, len: usize) -> AfterFailure {
    if !init_failure {
        AfterFailure::Unrelated
    } else if at + 1 < len {
        AfterFailure::Advance((at + 1) as usize)
    } else {
        AfterFailure::Exhausted
    }
}

/// Decide what follows where a renderer could not be set up.
pub fn after_init_failure(init_failure: bool, at: usize, len: usize) -> (a: AfterFailure)
    requires
        at < len,
    ensures
        a == following_failure(init_failure, at, len),
{
    if !init_failure {
        AfterFailure::Unrelated
    } else if at + 1 < len {
        AfterFailure::Advance(at + 1)
    } else {
        AfterFailure::Exhausted
    }
}

/// How the program was asked to serve as a helper.
#[derive(Debug, Clone, Copy, PartialEq, Eq, Structural)]
pub struct HelperRequest {
    pub parent_pid: Option<u32>,
    pub persist: bool,
}

/// A helper request once the arguments before `args[i]` were read, `args[i..]` being left.
pub open spec fn requested(args: Seq<String>, i: int, so_far: HelperRequest) -> HelperRequest
    decreases args.len() + 1 - i,
{
    if i < 0 || i >= args.len() {
        so_far
    } else if args[i]@ == "--parent-pid"@ {
        requested(
            args,
            i + 2,
            HelperRequest {
                parent_pid: if i + 1 < args.len() {
                    text::number_of(args[i + 1]@)
                } else {
                    None
                },
                ..so_far
            },
        )
    } else if args[i]@ == "--persist"@ {
        requested(args, i + 1, HelperRequest { persist: true, ..so_far })
    } else {
        requested(args, i + 1, so_far)
    }
}

/// How the program was asked to serve as a helper, where it was.
pub open spec fn helper_of(args: Seq<String>, flag: Seq<char>) -> Option<HelperRequest> {
    if survey::given(args, flag) {
        Some(requested(args, 0, HelperRequest { parent_pid: None, persist: false }))
    } else {
        None
    }
}

/// Whether the program was asked to serve as a helper, and how.
pub fn helper_request(args: &[String], helper_flag: &str) -> (r: Option<HelperRequest>)
    requires
        args@.len() < usize::MAX,
    ensures
        r == helper_of(args@, helper_flag@),
{
    if !has_flag(args, helper_flag) {
        return None;
    }
    let pid_flag = "--parent-pid".to_owned();
    let persist_flag = "--persist".to_owned();
    let mut r = HelperRequest { parent_pid: None, persist: false };
    let ghost whole = requested(args@, 0, r);
    let mut i: usize = 0;
    while i < args.len()
        invariant
            args@.len() < usize::MAX,
            i <= args@.len() + 1,
            pid_flag@ == "--parent-pid"@,
            persist_flag@ == "--persist"@,
            whole == requested(args@, i as int, r),
        decreases args@.len() + 1 - i,
    {
        if args[i] == pid_flag {
            r.parent_pid = if i + 1 < args.len() {
                parse_u32(args[i + 1].as_str())
            } else {
                None
            };
            i += 2;
        } else if args[i] == persist_flag {
            r.persist = true;
            i += 1;
        } else {
            i += 1;
        }
    }
    Some(r)
}

/// A failure is that of a lost graphics device by any of its messages, wherever these stand in
/// what is said; that counts before a lost display; and a message that says neither is left
/// alone.
pub proof fn a_lost_device_is_recognised(before: Seq<char>, after: Seq<char>, location: Seq<char>, m: Seq<char>)
    ensures
        failure_of(before + "GPU device lost"@ + after, location) == Failure::GpuLost,
        failure_of(before + "Device is lost"@ + after, location) == Failure::GpuLost,
        failure_of(before + "device was lost"@ + after, location) == Failure::GpuLost,
        failure_of(before + "Failed to create staging buffer"@ + after, location)
            == Failure::GpuLost,
        failure_of(before + "Invalid monitor handle"@ + after, location) != Failure::Other,
        failure_of(m, location) == Failure::MonitorLost ==> text::holds_text(
            m,
            "Invalid monitor handle"@,
        ) || text::holds_text(m, "monitor.rs"@),
        failure_of(m, before + "wgpu-hal"@ + after) == Failure::GpuLost <== text::holds_text(
            before + "wgpu-hal"@ + after,
            "gles"@,
        ),
{
    text::a_text_is_held_between_two(before, "GPU device lost"@, after, m);
    text::a_text_is_held_between_two(before, "Device is lost"@, after, m);
    text::a_text_is_held_between_two(before, "device was lost"@, after, m);
    text::a_text_is_held_between_two(before, "Failed to create staging buffer"@, after, m);
    text::a_text_is_held_between_two(before, "Invalid monitor handle"@, after, m);
    text::a_text_is_held_between_two(before, "wgpu-hal"@, after, m);
}

/// An error is one of setting the renderer up where it names any part of it, wherever.
pub proof fn an_error_names_the_renderer(before: Seq<char>, after: Seq<char>, e: Seq<char>)
    ensures
        of_setting_up(before + "Wgpu"@ + after),
        of_setting_up(before + "Surface"@ + after),
        of_setting_up(before + "Adapter"@ + after),
        of_setting_up(before + "Device"@ + after),
        of_setting_up(before + "Backend"@ + after),
        e.len() < 4 ==> !of_setting_up(e),
{
    reveal_strlit("Wgpu");
    reveal_strlit("Surface");
    reveal_strlit("Adapter");
    reveal_strlit("Device");
    reveal_strlit("Backend");
    text::a_text_is_held_between_two(before, "Wgpu"@, after, e);
    text::a_text_is_held_between_two(before, "Surface"@, after, e);
    text::a_text_is_held_between_two(before, "Adapter"@, after, e);
    text::a_text_is_held_between_two(before, "Device"@, after, e);
    text::a_text_is_held_between_two(before, "Backend"@, after, e);
}

/// The adapter that is used is the first discrete one, wherever it stands; without one the
/// first of all; and none only where there is none.
pub proof fn a_discrete_adapter_is_preferred(all: Seq<Adapter>)
    ensures
        picked(all) is None <==> all.len() == 0,
        picked(all) matches Some(a) ==> all.contains(a),
        forall|i: int|
            0 <= i < all.len() && (#[trigger] all[i]).discrete && (forall|j: int|
                0 <= j < i ==> !(#[trigger] all[j]).discrete) ==> picked(all) == Some(all[i]),
        (forall|i: int| 0 <= i < all.len() ==> !(#[trigger] all[i]).discrete) && all.len() > 0
            ==> picked(all) == Some(all[0]),
{
    discrete_place_is_first(all);
    let at = discrete_place(all) as int;
    assert forall|i: int|
        0 <= i < all.len() && (#[trigger] all[i]).discrete && (forall|j: int|
            0 <= j < i ==> !(#[trigger] all[j]).discrete) implies picked(all) == Some(all[i]) by {
        if at < i {
            assert(!all[at].discrete);
        }
        if i < at {
            assert(!all[i].discrete);
        }
    }
}

/// The first discrete adapter.
proof fn discrete_place_is_first(all: Seq<Adapter>)
    ensures
        discrete_place(all) <= all.len(),
        discrete_place(all) < all.len() ==> all[discrete_place(all) as int].discrete,
        forall|j: int| 0 <= j < discrete_place(all) ==> !(#[trigger] all[j]).discrete,
    decreases all.len(),
{
    if all.len() > 0 && !all[0].discrete {
        let rest = all.skip(1);
        discrete_place_is_first(rest);
        assert forall|j: int| 0 <= j < discrete_place(all) implies !(#[trigger] all[j]).discrete by {
            if j > 0 {
                assert(rest[j - 1] == all[j]);
            }
        }
    }
}

/// OpenGL is always tried last, and Direct3D comes before Vulkan exactly on an adapter of AMD's.
pub proof fn the_vendor_decides_what_comes_first(all: Seq<Adapter>)
    ensures
        cascade_of(all)[2] == Backend::Gl,
        cascade_of(all)[0] == Backend::Dx12 <==> (picked(all) matches Some(a) && a.vendor == 0x1002),
        cascade_of(all)[0] == Backend::Vulkan <==> !(picked(all) matches Some(a) && a.vendor
            == 0x1002),
{
}

/// Only a process that recovers goes on from what was recorded, and never past the end; and a
/// renderer that could not be set up leads to the next one until there is none. So every one
/// is tried, and the trying ends.
pub proof fn the_cascade_is_gone_through_once(recovery: bool, recorded: usize, at: usize, len: usize)
    requires
        at < len,
    ensures
        start_of(false, Some(recorded), len) == 0,
        start_of(recovery, None, len) == 0,
        recorded < len ==> start_of(true, Some(recorded), len) == recorded,
        recorded >= len ==> start_of(true, Some(recorded), len) == len - 1,
        following_failure(false, at, len) == AfterFailure::Unrelated,
        following_failure(true, at, len) matches AfterFailure::Advance(n) ==> n == at + 1 && n < len
            && start_of(true, Some(n), len) == n,
        following_failure(true, at, len) == AfterFailure::Exhausted <==> at == len - 1,
{
}

/// What is read from some arguments on does not depend on those before.
proof fn arguments_are_read_from_here(front: Seq<String>, back: Seq<String>, i: int, r: HelperRequest)
    requires
        0 <= i,
    ensures
        requested(front + back, front.len() + i, r) == requested(back, i, r),
    decreases back.len() + 1 - i,
{
    let all = front + back;
    let n = front.len() as int;
    if i < back.len() {
        assert(all[n + i] == back[i]);
        if i + 1 < back.len() {
            assert(all[n + i + 1] == back[i + 1]);
        }
        if back[i]@ == "--parent-pid"@ {
            let pid = if i + 1 < back.len() {
                text::number_of(back[i + 1]@)
            } else {
                None
            };
            arguments_are_read_from_here(front, back, i + 2, HelperRequest { parent_pid: pid, ..r });
        } else if back[i]@ == "--persist"@ {
            arguments_are_read_from_here(front, back, i + 1, HelperRequest { persist: true, ..r });
        } else {
            arguments_are_read_from_here(front, back, i + 1, r);
        }
    }
}

/// A helper is asked for by its flag alone; the process to watch is the number behind its own
/// flag, wherever that stands, and what is behind it is read on; other arguments say nothing.
pub proof fn a_helper_is_told_whom_to_watch(
    other: String,
    flag: String,
    value: String,
    back: Seq<String>,
    r: HelperRequest,
    args: Seq<String>,
    name: Seq<char>,
)
    requires
        other@ != "--parent-pid"@,
        other@ != "--persist"@,
    ensures
        requested(seq![other] + back, 0, r) == requested(back, 0, r),
        flag@ == "--parent-pid"@ ==> requested(seq![flag, value] + back, 0, r) == requested(
            back,
            0,
            HelperRequest { parent_pid: text::number_of(value@), ..r },
        ),
        flag@ == "--persist"@ ==> requested(seq![flag] + back, 0, r) == requested(
            back,
            0,
            HelperRequest { persist: true, ..r },
        ),
        flag@ == "--parent-pid"@ ==> requested(seq![flag], 0, r).parent_pid is None,
        requested(seq![], 0, r) == r,
        helper_of(args, name) is Some <==> survey::given(args, name),
{
    reveal_strlit("--parent-pid");
    reveal_strlit("--persist");
    assert("--parent-pid"@.len() != "--persist"@.len());
    let a = seq![other] + back;
    assert(a[0] == other);
    arguments_are_read_from_here(seq![other], back, 0, r);
    let b = seq![flag, value] + back;
    assert(b[0] == flag && b[1] == value);
    arguments_are_read_from_here(
        seq![flag, value],
        back,
        0,
        HelperRequest { parent_pid: text::number_of(value@), ..r },
    );
    let c = seq![flag] + back;
    assert(c[0] == flag);
    arguments_are_read_from_here(seq![flag], back, 0, HelperRequest { persist: true, ..r });
    if flag@ == "--parent-pid"@ {
        let one = seq![flag];
        assert(one[0] == flag);
        assert(requested(one, 0, r) == requested(one, 2, HelperRequest { parent_pid: None, ..r }));
    }
}

/// Some words tell of a failure only together: the renderer's place, a texture that is
/// invalid, and a line of the display's own file. One of a pair, with nothing else that tells,
/// is some other failure.
pub proof fn half_a_sign_is_none(message: Seq<char>, location: Seq<char>)
    requires
        !text::holds_text(message, "Failed to create staging buffer"@),
        !text::holds_text(message, "GPU device lost"@),
        !text::holds_text(message, "Device is lost"@),
        !text::holds_text(message, "device was lost"@),
        !text::holds_text(message, "Invalid monitor handle"@),
    ensures
        ({
            let place = text::holds_text(location, "wgpu-hal"@);
            let gles = text::holds_text(location, "gles"@);
            let texture = text::holds_text(message, "egui_texid_Managed"@);
            let invalid = text::holds_text(message, "is invalid"@);
            let file = text::holds_text(message, "monitor.rs"@);
            let line = text::holds_text(message, "1461"@);
            let f = failure_of(message, location);
            &&& f == Failure::GpuLost <==> (place && gles) || (texture && invalid)
            &&& !(place && gles) && !(texture && invalid) ==> (f == Failure::MonitorLost <==> file
                && line)
            &&& !(place && gles) && !(texture && invalid) && !(file && line) ==> f == Failure::Other
        }),
{
}

} // verus!
