//! Learning what a controller offers and switching its streams on.
use vstd::prelude::*;
use crate::acl;
use crate::acl::{
    AttrInfo, CharDecl, ATT_WRITE_COMMAND, ATT_WRITE_REQUEST, GATT_CCCD,
};
use crate::joycon::{
    HANDLE_CMD_RESPONSE, HANDLE_CMD_RESPONSE_CCCD, HANDLE_INPUT_CCCD, HANDLE_INPUT_COMMON,
    HANDLE_INPUT_COMMON_CCCD, HANDLE_INPUT_VALUE,
};
use crate::recording::StreamShape;

verus! {

/// Type of the vendor's report-rate descriptor, one for each input characteristic.
pub const UUID_REPORT_RATE: &'static str = "679d5510-5a24-4dee-9557-95df80486ecb";

/// What a probe was asked to do differently.
#[derive(Debug, Clone, Copy, PartialEq, Eq, Structural)]
pub struct Opts {
    /// Skip the initialisation of the side's own channel.
    pub common_only: bool,
    /// Send the initialisation down the side's own channel, the one that is known to
    /// work.
    pub cmd_per_side: bool,
    /// One half only, out of the grip, so that a sweep isolates one of its own axes.
    pub detached: bool,
    /// Subscribe to the inputs only after the initialisation.
    pub late_subscribe: bool,
    /// Blink the player LEDs.
    pub led_test: bool,
    /// Record even where nothing new will come of it.
    pub force: bool,
}

/// Whether a flag was given.
pub open spec fn given(args: Seq<String>, flag: Seq<char>) -> bool {
    exists|i: int| 0 <= i < args.len() && (#[trigger] args[i])@ == flag
}

/// Look for a flag.
pub fn has_flag(args: &[String], flag: &str) -> (r: bool)
    ensures
        r == given(args@, flag@),
{
    let want = flag.to_owned();
    let mut i: usize = 0;
    while i < args.len()
        invariant
            i <= args@.len(),
            want@ == flag@,
            forall|j: int| 0 <= j < i ==> (#[trigger] args@[j])@ != flag@,
        decreases args@.len() - i,
    {
        if args[i] == want {
            assert(args@[i as int]@ == flag@);
            return true;
        }
        i += 1;
    }
    false
}

/// What follows a flag where it was first given.
pub open spec fn following(args: Seq<String>, flag: Seq<char>) -> Option<Seq<char>>
    decreases args.len(),
{
    if args.len() == 0 {
        None
    } else if args[0]@ == flag {
        if args.len() > 1 {
            Some(args[1]@)
        } else {
            None
        }
    } else {
        following(args.skip(1), flag)
    }
}

/// Look for the argument that follows a flag.
pub fn value_after<'a>(args: &'a [String], flag: &str) -> (r: Option<&'a String>)
    ensures
        match r {
            Some(v) => following(args@, flag@) == Some(v@),
            None => following(args@, flag@) is None,
        },
{
    let want = flag.to_owned();
    let mut i: usize = 0;
    assert(args@.skip(0) =~= args@);
    while i < args.len()
        invariant
            i <= args@.len(),
            want@ == flag@,
            following(args@, flag@) == following(args@.skip(i as int), flag@),
        decreases args@.len() - i,
    {
        assert(args@.skip(i as int).skip(1) =~= args@.skip(i + 1));
        if args[i] == want {
            return if args.len() - i > 1 {
                Some(&args[i + 1])
            } else {
                None
            };
        }
        i += 1;
    }
    None
}

impl Opts {
    /// What the flags ask for. The modes that read replies imply the side's own channel:
    /// nothing else answers.
    pub open spec fn asked(args: Seq<String>) -> Opts {
        Opts {
            common_only: given(args, "--common-only"@),
            cmd_per_side: given(args, "--cmd-per-side"@) || given(args, "--dump-flash"@) || given(
                args,
                "--mask-sweep"@,
            ) || given(args, "--rate-sweep"@) || given(args, "--cmd-sweep"@) || given(
                args,
                "--late-subscribe"@,
            ) || given(args, "--read-all"@) || given(args, "--encrypt"@),
            detached: given(args, "--detached"@),
            late_subscribe: given(args, "--late-subscribe"@),
            led_test: given(args, "--led"@),
            force: given(args, "--force"@),
        }
    }

    /// Read the flags.
    pub fn from_args(args: &[String]) -> (o: Opts)
        ensures
            o == Opts::asked(args@),
    {
        Opts {
            common_only: has_flag(args, "--common-only"),
            cmd_per_side: has_flag(args, "--cmd-per-side") || has_flag(args, "--dump-flash")
                || has_flag(args, "--mask-sweep") || has_flag(args, "--rate-sweep") || has_flag(
                args,
                "--cmd-sweep",
            ) || has_flag(args, "--late-subscribe") || has_flag(args, "--read-all") || has_flag(
                args,
                "--encrypt",
            ),
            detached: has_flag(args, "--detached"),
            late_subscribe: has_flag(args, "--late-subscribe"),
            led_test: has_flag(args, "--led"),
            force: has_flag(args, "--force"),
        }
    }
}

/// The handles of the configuration descriptors in an attribute table, in order. One
/// exists only on a characteristic that can notify, so its presence is the permission.
pub open spec fn cccds_in(attrs: Seq<acl::AttrInfoView>) -> Seq<u16>
    decreases attrs.len(),
{
    if attrs.len() == 0 {
        seq![]
    } else {
        let rest = cccds_in(attrs.drop_last());
        if attrs.last().uuid == acl::AttUuidView::Short(GATT_CCCD) {
            rest.push(attrs.last().handle)
        } else {
            rest
        }
    }
}

/// Find the configuration descriptors in an attribute table.
pub fn cccds(attrs: &[AttrInfo]) -> (v: Vec<u16>)
    ensures
        v@ == cccds_in(acl::attr_views(attrs@)),
{
    let ghost all = acl::attr_views(attrs@);
    let mut v: Vec<u16> = Vec::new();
    let mut i: usize = 0;
    assert(all.take(0) =~= seq![]);
    assert(v@ =~= cccds_in(all.take(0)));
    while i < attrs.len()
        invariant
            i <= attrs@.len(),
            all == acl::attr_views(attrs@),
            v@ == cccds_in(all.take(i as int)),
        decreases attrs@.len() - i,
    {
        let a = attrs[i];
        assert(all[i as int] == a@);
        assert(all.take(i + 1).drop_last() =~= all.take(i as int));
        if a.uuid.is_short(GATT_CCCD) {
            v.push(a.handle);
        }
        i += 1;
    }
    assert(all.take(i as int) =~= all);
    v
}

/// The type of the attribute at a handle as text, where the table has it.
pub open spec fn uuid_text_at(attrs: Seq<acl::AttrInfoView>, handle: u16) -> Option<Seq<char>>
    decreases attrs.len(),
{
    if attrs.len() == 0 {
        None
    } else if attrs[0].handle == handle {
        Some(acl::uuid_text(attrs[0].uuid))
    } else {
        uuid_text_at(attrs.skip(1), handle)
    }
}

/// Find the type of the attribute at a handle.
pub fn uuid_at_handle(attrs: &[AttrInfo], handle: u16) -> (r: Option<String>)
    ensures
        match r {
            Some(s) => uuid_text_at(acl::attr_views(attrs@), handle) == Some(s@),
            None => uuid_text_at(acl::attr_views(attrs@), handle) is None,
        },
{
    let ghost all = acl::attr_views(attrs@);
    let mut i: usize = 0;
    assert(all.skip(0) =~= all);
    while i < attrs.len()
        invariant
            i <= attrs@.len(),
            all == acl::attr_views(attrs@),
            uuid_text_at(all, handle) == uuid_text_at(all.skip(i as int), handle),
        decreases attrs@.len() - i,
    {
        let a = attrs[i];
        assert(all[i as int] == a@);
        assert(all.skip(i as int)[0] == a@);
        if a.handle == handle {
            return Some(a.uuid.to_text());
        }
        assert(all.skip(i as int).skip(1) =~= all.skip(i + 1));
        i += 1;
    }
    None
}

/// One subscription to make.
#[derive(Debug, Clone, PartialEq, Eq)]
pub struct Subscription {
    pub cccd: u16,
    /// The handle that the notifications will carry: the one right before.
    pub value: u16,
    /// What is there, as text; a question mark where the table does not say.
    pub uuid: String,
    /// Whether to subscribe at once, rather than after the initialisation.
    pub now: bool,
}

/// A [`Subscription`] with its text as characters.
#[verifier::ext_equal]
pub struct SubscriptionView {
    pub cccd: u16,
    pub value: u16,
    pub uuid: Seq<char>,
    pub now: bool,
}

impl View for Subscription {
    type V = SubscriptionView;

    open spec fn view(&self) -> SubscriptionView {
        SubscriptionView {
            cccd: self.cccd,
            value: self.value,
            uuid: self.uuid@,
            now: self.now,
        }
    }
}

/// The subscriptions of `all`, each by its view.
pub open spec fn subscription_views(all: Seq<Subscription>) -> Seq<SubscriptionView> {
    all.map_values(|s: Subscription| s@)
}

/// The subscription to one configuration descriptor. Where the inputs wait, only the
/// channel of the replies is switched on at once.
pub open spec fn subscription_to(
    attrs: Seq<acl::AttrInfoView>,
    cccd: u16,
    late: bool,
) -> SubscriptionView {
    let value = (cccd - 1) as u16;
    SubscriptionView {
        cccd,
        value,
        uuid: match uuid_text_at(attrs, value) {
            Some(s) => s,
            None => "?"@,
        },
        now: !late || cccd == HANDLE_CMD_RESPONSE_CCCD,
    }
}

/// The streams to record: what notifies, but for the replies to commands.
pub open spec fn streams_of(cccds: Seq<u16>) -> Seq<u16>
    decreases cccds.len(),
{
    if cccds.len() == 0 {
        seq![]
    } else {
        let rest = streams_of(cccds.drop_last());
        let value = (cccds.last() - 1) as u16;
        if value == HANDLE_CMD_RESPONSE {
            rest
        } else {
            rest.push(value)
        }
    }
}

/// What to subscribe to, what to record, and whether the report rates are to be written
/// at once.
#[derive(Debug, Clone, PartialEq, Eq)]
pub struct SurveyPlan {
    /// Whether the controller listed its attributes; else the known handles are used.
    pub listed: bool,
    pub subscriptions: Vec<Subscription>,
    pub streams: Vec<u16>,
    pub write_rates: bool,
}

/// A [`SurveyPlan`] with its lists as sequences.
#[verifier::ext_equal]
pub struct SurveyPlanView {
    pub listed: bool,
    pub subscriptions: Seq<SubscriptionView>,
    pub streams: Seq<u16>,
    pub write_rates: bool,
}

impl View for SurveyPlan {
    type V = SurveyPlanView;

    open spec fn view(&self) -> SurveyPlanView {
        SurveyPlanView {
            listed: self.listed,
            subscriptions: subscription_views(self.subscriptions@),
            streams: self.streams@,
            write_rates: self.write_rates,
        }
    }
}

/// Whether every configuration descriptor of a table has a handle before it.
pub open spec fn has_values(attrs: Seq<acl::AttrInfoView>) -> bool {
    forall|i: int| 0 <= i < cccds_in(attrs).len() ==> #[trigger] cccds_in(attrs)[i] > 0
}

/// The known handles to subscribe to where a controller lists nothing.
pub open spec fn known_cccds() -> Seq<u16> {
    seq![HANDLE_INPUT_CCCD, HANDLE_CMD_RESPONSE_CCCD, HANDLE_INPUT_COMMON_CCCD]
}

/// The known handle to subscribe to at `cccd`, at once, whatever was asked for.
pub open spec fn known_subscription(cccd: u16) -> SubscriptionView {
    SubscriptionView { cccd, value: (cccd - 1) as u16, uuid: "?"@, now: true }
}

/// A subscription to a known handle.
fn known(cccd: u16) -> (s: Subscription)
    requires
        cccd > 0,
    ensures
        s@ == known_subscription(cccd),
{
    Subscription { cccd, value: cccd - 1, uuid: "?".to_owned(), now: true }
}

/// Whether every configuration descriptor of a table has a handle before it.
pub fn table_is_sound(attrs: &[AttrInfo]) -> (r: bool)
    ensures
        r == has_values(acl::attr_views(attrs@)),
{
    let all = cccds(attrs);
    let mut i: usize = 0;
    while i < all.len()
        invariant
            i <= all@.len(),
            all@ == cccds_in(acl::attr_views(attrs@)),
            forall|j: int|
                0 <= j < i ==> #[trigger] cccds_in(acl::attr_views(attrs@))[j] > 0,
        decreases all@.len() - i,
    {
        if all[i] == 0 {
            assert(cccds_in(acl::attr_views(attrs@))[i as int] == 0);
            return false;
        }
        i += 1;
    }
    true
}

/// What to subscribe to and to record. A controller that lists nothing has the known handles.
pub open spec fn planned(t: Seq<acl::AttrInfoView>, late: bool) -> SurveyPlanView {
    if t.len() == 0 {
        SurveyPlanView {
            listed: false,
            subscriptions: known_cccds().map_values(|c: u16| known_subscription(c)),
            streams: seq![HANDLE_INPUT_VALUE, HANDLE_INPUT_COMMON],
            write_rates: false,
        }
    } else {
        SurveyPlanView {
            listed: true,
            subscriptions: cccds_in(t).map_values(|c: u16| subscription_to(t, c, late)),
            streams: streams_of(cccds_in(t)),
            write_rates: !late,
        }
    }
}

/// Decide what to subscribe to, out of the attributes that a controller listed.
///
/// Every configuration descriptor is subscribed to, not only those whose handles are
/// known: the known ones are those that a capture happened to touch.
pub fn plan_survey(attrs: &[AttrInfo], late: bool) -> (p: SurveyPlan)
    requires
        has_values(acl::attr_views(attrs@)),
    ensures
        p@ == planned(acl::attr_views(attrs@), late),
{
    let ghost t = acl::attr_views(attrs@);
    let mut subscriptions: Vec<Subscription> = Vec::new();
    let mut streams: Vec<u16> = Vec::new();
    if attrs.len() == 0 {
        subscriptions.push(known(HANDLE_INPUT_CCCD));
        subscriptions.push(known(HANDLE_CMD_RESPONSE_CCCD));
        subscriptions.push(known(HANDLE_INPUT_COMMON_CCCD));
        streams.push(HANDLE_INPUT_VALUE);
        streams.push(HANDLE_INPUT_COMMON);
        assert(subscription_views(subscriptions@) =~= known_cccds().map_values(
            |c: u16| known_subscription(c),
        ));
        assert(streams@ =~= seq![HANDLE_INPUT_VALUE, HANDLE_INPUT_COMMON]);
        return SurveyPlan { listed: false, subscriptions, streams, write_rates: false };
    }
    let all = cccds(attrs);
    let ghost f = |c: u16| subscription_to(t, c, late);
    let mut i: usize = 0;
    assert(all@.take(0) =~= seq![]);
    assert(subscription_views(subscriptions@) =~= all@.map_values(f).take(0));
    while i < all.len()
        invariant
            i <= all@.len(),
            t == acl::attr_views(attrs@),
            has_values(t),
            all@ == cccds_in(t),
            f == (|c: u16| subscription_to(t, c, late)),
            subscription_views(subscriptions@) == all@.map_values(f).take(i as int),
            streams@ == streams_of(all@.take(i as int)),
        decreases all@.len() - i,
    {
        let cccd: u16 = all[i];
        assert(cccds_in(t)[i as int] > 0);
        assert(all@.take(i + 1).drop_last() =~= all@.take(i as int));
        let value: u16 = cccd - 1;
        let uuid = match uuid_at_handle(attrs, value) {
            Some(s) => s,
            None => "?".to_owned(),
        };
        let s = Subscription {
            cccd,
            value,
            uuid,
            now: !late || cccd == HANDLE_CMD_RESPONSE_CCCD,
        };
        let ghost before = subscription_views(subscriptions@);
        let ghost sv = s@;
        assert(sv =~= f(cccd));
        subscriptions.push(s);
        assert(subscription_views(subscriptions@) =~= before.push(sv));
        if value != HANDLE_CMD_RESPONSE {
            streams.push(value);
        }
        i += 1;
        assert(subscription_views(subscriptions@) =~= all@.map_values(f).take(i as int));
    }
    assert(all@.take(i as int) =~= all@);
    assert(subscription_views(subscriptions@) =~= all@.map_values(f));
    SurveyPlan { listed: true, subscriptions, streams, write_rates: !late }
}

/// The inputs to subscribe to after the initialisation: all but the channel of the
/// replies, which was subscribed to before it on purpose.
pub open spec fn late_inputs(cccds: Seq<u16>) -> Seq<u16>
    decreases cccds.len(),
{
    if cccds.len() == 0 {
        seq![]
    } else {
        let rest = late_inputs(cccds.drop_last());
        if cccds.last() == HANDLE_CMD_RESPONSE_CCCD {
            rest
        } else {
            rest.push(cccds.last())
        }
    }
}

/// Find the inputs to subscribe to after the initialisation.
pub fn subscribe_inputs(attrs: &[AttrInfo]) -> (v: Vec<u16>)
    ensures
        v@ == late_inputs(cccds_in(acl::attr_views(attrs@))),
{
    let all = cccds(attrs);
    let mut v: Vec<u16> = Vec::new();
    let mut i: usize = 0;
    assert(all@.take(0) =~= seq![]);
    while i < all.len()
        invariant
            i <= all@.len(),
            v@ == late_inputs(all@.take(i as int)),
        decreases all@.len() - i,
    {
        assert(all@.take(i + 1).drop_last() =~= all@.take(i as int));
        if all[i] != HANDLE_CMD_RESPONSE_CCCD {
            v.push(all[i]);
        }
        i += 1;
    }
    assert(all@.take(i as int) =~= all@);
    v
}

/// Nothing that can notify is forgotten: what is not subscribed to at once is subscribed
/// to later.
pub proof fn every_input_is_subscribed_to(attrs: Seq<acl::AttrInfoView>, late: bool, i: int)
    requires
        0 <= i < cccds_in(attrs).len(),
    ensures
        subscription_to(attrs, cccds_in(attrs)[i], late).now || late_inputs(
            cccds_in(attrs),
        ).contains(cccds_in(attrs)[i]),
{
    late_inputs_has(cccds_in(attrs), i);
}

/// A descriptor that is not that of the replies is among the late inputs.
proof fn late_inputs_has(cccds: Seq<u16>, i: int)
    requires
        0 <= i < cccds.len(),
    ensures
        cccds[i] == HANDLE_CMD_RESPONSE_CCCD || late_inputs(cccds).contains(cccds[i]),
    decreases cccds.len(),
{
    let most = cccds.drop_last();
    let v = late_inputs(cccds);
    if i < most.len() {
        late_inputs_has(most, i);
        assert(most[i] == cccds[i]);
        if cccds[i] != HANDLE_CMD_RESPONSE_CCCD {
            let k = choose|k: int| 0 <= k < late_inputs(most).len() && late_inputs(most)[k]
                == cccds[i];
            assert(v[k] == cccds[i]);
        }
    } else if cccds[i] != HANDLE_CMD_RESPONSE_CCCD {
        assert(v[v.len() - 1] == cccds[i]);
    }
}

/// The opcode that a handle accepts for a write, by its declared properties; the
/// unacknowledged one where they are not known.
pub open spec fn opcode_for(chars: Seq<acl::CharDeclView>, value_handle: u16) -> u8
    decreases chars.len(),
{
    if chars.len() == 0 {
        ATT_WRITE_COMMAND
    } else if chars[0].value_handle == value_handle {
        match acl::write_opcode_of(chars[0].properties) {
            Some(o) => o,
            None => ATT_WRITE_COMMAND,
        }
    } else {
        opcode_for(chars.skip(1), value_handle)
    }
}

/// Find the opcode that a handle accepts for a write.
pub fn write_opcode(chars: &[CharDecl], value_handle: u16) -> (o: u8)
    ensures
        o == opcode_for(acl::decl_views(chars@), value_handle),
{
    let ghost all = acl::decl_views(chars@);
    let mut i: usize = 0;
    assert(all.skip(0) =~= all);
    while i < chars.len()
        invariant
            i <= chars@.len(),
            all == acl::decl_views(chars@),
            opcode_for(all, value_handle) == opcode_for(all.skip(i as int), value_handle),
        decreases chars@.len() - i,
    {
        let c = chars[i];
        assert(all[i as int] == c@);
        assert(all.skip(i as int)[0] == c@);
        if c.value_handle == value_handle {
            return match c.write_opcode() {
                Some(o) => o,
                None => ATT_WRITE_COMMAND,
            };
        }
        assert(all.skip(i as int).skip(1) =~= all.skip(i + 1));
        i += 1;
    }
    ATT_WRITE_COMMAND
}

/// The characteristic that a descriptor belongs to: the one with the nearest value handle
/// below it; of several the last.
pub open spec fn owner_of(chars: Seq<acl::CharDeclView>, handle: u16) -> Option<acl::CharDeclView>
    decreases chars.len(),
{
    if chars.len() == 0 {
        None
    } else {
        let best = owner_of(chars.drop_last(), handle);
        let c = chars.last();
        if c.value_handle < handle {
            match best {
                Some(b) if b.value_handle > c.value_handle => best,
                _ => Some(c),
            }
        } else {
            best
        }
    }
}

/// The opcode that a descriptor accepts for a write: that of the characteristic it belongs
/// to; the acknowledged one where that is not known.
pub open spec fn rate_opcode_for(chars: Seq<acl::CharDeclView>, handle: u16) -> u8 {
    match owner_of(chars, handle) {
        Some(c) => match acl::write_opcode_of(c.properties) {
            Some(o) => o,
            None => ATT_WRITE_REQUEST,
        },
        None => ATT_WRITE_REQUEST,
    }
}

/// Find the opcode that a descriptor accepts for a write.
pub fn rate_opcode(chars: &[CharDecl], handle: u16) -> (o: u8)
    ensures
        o == rate_opcode_for(acl::decl_views(chars@), handle),
{
    let ghost all = acl::decl_views(chars@);
    let mut best: Option<CharDecl> = None;
    let mut i: usize = 0;
    assert(all.take(0) =~= seq![]);
    while i < chars.len()
        invariant
            i <= chars@.len(),
            all == acl::decl_views(chars@),
            match best {
                Some(c) => owner_of(all.take(i as int), handle) == Some(c@),
                None => owner_of(all.take(i as int), handle) is None,
            },
        decreases chars@.len() - i,
    {
        let c = chars[i];
        assert(all[i as int] == c@);
        assert(all.take(i + 1).drop_last() =~= all.take(i as int));
        if c.value_handle < handle {
            best = match best {
                Some(b) => if b.value_handle > c.value_handle {
                    Some(b)
                } else {
                    Some(c)
                },
                None => Some(c),
            };
        }
        i += 1;
    }
    assert(all.take(i as int) =~= all);
    match best {
        Some(c) => match c.write_opcode() {
            Some(o) => o,
            None => ATT_WRITE_REQUEST,
        },
        None => ATT_WRITE_REQUEST,
    }
}

/// The report-rate descriptors of a table, each with the opcode to write it by. Without
/// that write a stream stays silent, or its reports stay empty.
pub open spec fn rate_writes_in(
    attrs: Seq<acl::AttrInfoView>,
    chars: Seq<acl::CharDeclView>,
) -> Seq<(u16, u8)>
    decreases attrs.len(),
{
    if attrs.len() == 0 {
        seq![]
    } else {
        let rest = rate_writes_in(attrs.drop_last(), chars);
        if acl::uuid_text(attrs.last().uuid) == UUID_REPORT_RATE@ {
            rest.push((attrs.last().handle, rate_opcode_for(chars, attrs.last().handle)))
        } else {
            rest
        }
    }
}

/// Find the report-rate descriptors of a table, and the opcode to write each by.
pub fn write_report_rates(attrs: &[AttrInfo], chars: &[CharDecl]) -> (v: Vec<(u16, u8)>)
    ensures
        v@ == rate_writes_in(acl::attr_views(attrs@), acl::decl_views(chars@)),
{
    let ghost all = acl::attr_views(attrs@);
    let want = UUID_REPORT_RATE.to_owned();
    let mut v: Vec<(u16, u8)> = Vec::new();
    let mut i: usize = 0;
    assert(all.take(0) =~= seq![]);
    assert(v@ =~= rate_writes_in(all.take(0), acl::decl_views(chars@)));
    while i < attrs.len()
        invariant
            i <= attrs@.len(),
            all == acl::attr_views(attrs@),
            want@ == UUID_REPORT_RATE@,
            v@ == rate_writes_in(all.take(i as int), acl::decl_views(chars@)),
        decreases attrs@.len() - i,
    {
        let a = attrs[i];
        assert(all[i as int] == a@);
        assert(all.take(i + 1).drop_last() =~= all.take(i as int));
        let t = a.uuid.to_text();
        if t == want {
            v.push((a.handle, rate_opcode(chars, a.handle)));
        }
        i += 1;
    }
    assert(all.take(i as int) =~= all);
    v
}

/// What is known before a recording.
#[derive(Debug, Clone, Copy, PartialEq, Eq, Structural)]
pub enum Preflight {
    /// A report has something in its tail: its layout changed.
    LayoutChanged,
    /// Nothing notifies.
    Silent,
    /// The common input streams, which is new.
    CommonStreams,
    /// The motion is what is new: one half out of the grip.
    Detached,
    /// Only the side's own input streams, of which there are recordings already.
    NothingNew,
    /// Nothing speaks against a recording.
    Go,
}

/// One stream, as it was seen before a recording: its attribute handle, and its shape
/// where it has sent anything.
pub type Seen = (u16, Option<StreamShape>);

/// Whether any stream has sent something in its tail.
pub open spec fn tail_seen(streams: Seq<Seen>) -> bool {
    exists|i: int|
        0 <= i < streams.len() && ((#[trigger] streams[i]).1 matches Some(s) && s.tail_nonzero)
}

/// Whether any stream has sent anything.
pub open spec fn any_alive(streams: Seq<Seen>) -> bool {
    exists|i: int| 0 <= i < streams.len() && (#[trigger] streams[i]).1 is Some
}

/// Whether the stream of an attribute has sent anything.
pub open spec fn alive(streams: Seq<Seen>, att: u16) -> bool {
    exists|i: int|
        0 <= i < streams.len() && (#[trigger] streams[i]).0 == att && streams[i].1 is Some
}

/// What is known before a recording.
pub open spec fn preflight_of(streams: Seq<Seen>, detached: bool, force: bool) -> Preflight {
    if tail_seen(streams) {
        Preflight::LayoutChanged
    } else if !any_alive(streams) {
        Preflight::Silent
    } else if alive(streams, HANDLE_INPUT_COMMON) {
        Preflight::CommonStreams
    } else if detached {
        Preflight::Detached
    } else if alive(streams, HANDLE_INPUT_VALUE) && !force {
        Preflight::NothingNew
    } else {
        Preflight::Go
    }
}

/// Judge what woke up, before anybody is asked to move anything.
pub fn preflight(streams: &[Seen], detached: bool, force: bool) -> (p: Preflight)
    ensures
        p == preflight_of(streams@, detached, force),
{
    let mut tail: bool = false;
    let mut any: bool = false;
    let mut common: bool = false;
    let mut per_side: bool = false;
    let mut i: usize = 0;
    while i < streams.len()
        invariant
            i <= streams@.len(),
            tail == tail_seen(streams@.take(i as int)),
            any == any_alive(streams@.take(i as int)),
            common == alive(streams@.take(i as int), HANDLE_INPUT_COMMON),
            per_side == alive(streams@.take(i as int), HANDLE_INPUT_VALUE),
        decreases streams@.len() - i,
    {
        let (att, shape) = streams[i];
        let ghost now = streams@.take(i + 1);
        let ghost was = streams@.take(i as int);
        proof {
            assert(forall|j: int| 0 <= j < i ==> now[j] == was[j]);
            assert(now[i as int] == streams@[i as int]);
            seen_grows(streams@, i as int);
        }
        if let Some(s) = shape {
            any = true;
            if s.tail_nonzero {
                tail = true;
            }
            if att == HANDLE_INPUT_COMMON {
                common = true;
            }
            if att == HANDLE_INPUT_VALUE {
                per_side = true;
            }
        }
        i += 1;
    }
    assert(streams@.take(i as int) =~= streams@);
    if tail {
        Preflight::LayoutChanged
    } else if !any {
        Preflight::Silent
    } else if common {
        Preflight::CommonStreams
    } else if detached {
        Preflight::Detached
    } else if per_side && !force {
        Preflight::NothingNew
    } else {
        Preflight::Go
    }
}

/// One more stream decides by itself what it decides.
proof fn seen_grows(streams: Seq<Seen>, i: int)
    requires
        0 <= i < streams.len(),
    ensures
        tail_seen(streams.take(i + 1)) == (tail_seen(streams.take(i)) || (
        streams[i].1 matches Some(s) && s.tail_nonzero)),
        any_alive(streams.take(i + 1)) == (any_alive(streams.take(i)) || streams[i].1 is Some),
        alive(streams.take(i + 1), HANDLE_INPUT_COMMON) == (alive(
            streams.take(i),
            HANDLE_INPUT_COMMON,
        ) || (streams[i].0 == HANDLE_INPUT_COMMON && streams[i].1 is Some)),
        alive(streams.take(i + 1), HANDLE_INPUT_VALUE) == (alive(
            streams.take(i),
            HANDLE_INPUT_VALUE,
        ) || (streams[i].0 == HANDLE_INPUT_VALUE && streams[i].1 is Some)),
{
    let was = streams.take(i);
    let now = streams.take(i + 1);
    assert(now[i] == streams[i]);
    assert(forall|j: int| 0 <= j < i ==> was[j] == #[trigger] now[j]);
    assert(forall|j: int| 0 <= j < i ==> #[trigger] was[j] == now[j]);
}

/// Look whether a stream of an attribute is alive.
pub fn is_alive(streams: &[Seen], att: u16) -> (r: bool)
    ensures
        r == alive(streams@, att),
{
    let mut i: usize = 0;
    while i < streams.len()
        invariant
            i <= streams@.len(),
            forall|j: int|
                0 <= j < i ==> !((#[trigger] streams@[j]).0 == att && streams@[j].1 is Some),
        decreases streams@.len() - i,
    {
        let (a, shape) = streams[i];
        if a == att && shape.is_some() {
            assert(streams@[i as int].0 == att && streams@[i as int].1 is Some);
            return true;
        }
        i += 1;
    }
    false
}

impl Preflight {
    /// Whether a recording is worth making.
    pub open spec fn worthwhile(self, force: bool) -> bool {
        match self {
            Preflight::Silent => force,
            Preflight::NothingNew => false,
            _ => true,
        }
    }

    /// Whether a recording is worth making.
    pub fn records(self, force: bool) -> (r: bool)
        ensures
            r == self.worthwhile(force),
    {
        match self {
            Preflight::Silent => force,
            Preflight::NothingNew => false,
            _ => true,
        }
    }
}

/// Whoever insists gets a recording, whatever woke up.
pub proof fn insisting_records(streams: Seq<Seen>, detached: bool)
    ensures
        preflight_of(streams, detached, true).worthwhile(true),
{
}

/// The most motion bytes that any of some streams says it sends.
pub open spec fn most_motion(shapes: Seq<StreamShape>) -> u8
    decreases shapes.len(),
{
    if shapes.len() == 0 {
        0
    } else {
        let rest = most_motion(shapes.drop_last());
        if shapes.last().motion_len > rest {
            shapes.last().motion_len
        } else {
            rest
        }
    }
}

/// Find the most motion bytes that any of some streams says it sends.
pub fn motion_len(shapes: &[StreamShape]) -> (m: u8)
    ensures
        m == most_motion(shapes@),
{
    let mut m: u8 = 0;
    let mut i: usize = 0;
    assert(shapes@.take(0) =~= seq![]);
    while i < shapes.len()
        invariant
            i <= shapes@.len(),
            m == most_motion(shapes@.take(i as int)),
        decreases shapes@.len() - i,
    {
        assert(shapes@.take(i + 1).drop_last() =~= shapes@.take(i as int));
        if shapes[i].motion_len > m {
            m = shapes[i].motion_len;
        }
        i += 1;
    }
    assert(shapes@.take(i as int) =~= shapes@);
    m
}

/// Whether the reports look otherwise than with `baseline` motion bytes and a still tail.
pub open spec fn differs_from(baseline: u8, shapes: Seq<StreamShape>) -> bool {
    most_motion(shapes) != baseline || exists|i: int|
        0 <= i < shapes.len() && (#[trigger] shapes[i]).tail_live > 0
}

/// Whether a command changed what the reports look like: how many motion bytes there are,
/// or whether anything varies in a tail.
pub fn shape_changed(baseline: u8, shapes: &[StreamShape]) -> (r: bool)
    ensures
        r == differs_from(baseline, shapes@),
{
    let m: u8 = motion_len(shapes);
    if m != baseline {
        return true;
    }
    let mut i: usize = 0;
    while i < shapes.len()
        invariant
            i <= shapes@.len(),
            m == most_motion(shapes@),
            forall|j: int| 0 <= j < i ==> (#[trigger] shapes@[j]).tail_live == 0,
        decreases shapes@.len() - i,
    {
        if shapes[i].tail_live > 0 {
            assert(shapes@[i as int].tail_live > 0);
            return true;
        }
        i += 1;
    }
    false
}

/// The places at which two readings of the same attribute differ, as far as both reach.
pub open spec fn differences(a: Seq<u8>, b: Seq<u8>) -> Set<int> {
    Set::new(|i: int| 0 <= i < a.len() && i < b.len() && a[i] != b[i])
}

/// Find the places at which two readings differ, in order.
pub fn changed_bytes(a: &[u8], b: &[u8]) -> (v: Vec<usize>)
    ensures
        forall|k: int| 0 <= k < v@.len() ==> differences(a@, b@).contains(#[trigger] v@[k] as int),
        forall|i: int| #[trigger] differences(a@, b@).contains(i) ==> exists|k: int|
            0 <= k < v@.len() && v@[k] == i,
        forall|j: int, k: int| 0 <= j < k < v@.len() ==> v@[j] < v@[k],
{
    let n: usize = if a.len() < b.len() {
        a.len()
    } else {
        b.len()
    };
    let mut v: Vec<usize> = Vec::new();
    let mut i: usize = 0;
    while i < n
        invariant
            i <= n,
            n <= a@.len(),
            n <= b@.len(),
            n == a@.len() || n == b@.len(),
            forall|k: int|
                0 <= k < v@.len() ==> differences(a@, b@).contains(#[trigger] v@[k] as int)
                    && v@[k] < i,
            forall|j: int| #[trigger] differences(a@, b@).contains(j) && j < i ==> exists|k: int|
                0 <= k < v@.len() && v@[k] == j,
            forall|j: int, k: int| 0 <= j < k < v@.len() ==> v@[j] < v@[k],
        decreases n - i,
    {
        let ghost before = v@;
        if a[i] != b[i] {
            v.push(i);
            assert(differences(a@, b@).contains(i as int));
            assert(v@[v@.len() - 1] == i);
            assert forall|j: int| #[trigger] differences(a@, b@).contains(j) && j < i
                + 1 implies exists|k: int| 0 <= k < v@.len() && v@[k] == j by {
                if j < i {
                    let k = choose|k: int| 0 <= k < before.len() && before[k] == j;
                    assert(v@[k] == j);
                }
            }
        }
        i += 1;
    }
    v
}

/// Masks that a sweep tries: every one that adds a bit to the known one.
pub const SWEEP_MASKS: [u8; 8] = [0x37, 0x3F, 0x77, 0xB7, 0xBF, 0xF7, 0x7F, 0xFF];

/// Commands that a sweep tries. The one that touches flash is left out: a malformed write
/// there could not be undone.
pub const SWEEP_OPCODES: [u8; 10] = [0x01, 0x03, 0x07, 0x09, 0x0A, 0x0C, 0x10, 0x11, 0x15, 0x16];

/// A sweep never writes to flash.
pub proof fn a_sweep_leaves_flash_alone()
    ensures
        !SWEEP_OPCODES@.contains(0x02u8),
{
    assert forall|i: int| 0 <= i < 10 implies SWEEP_OPCODES@[i] != 0x02 by {}
}

/// The configuration descriptors of a table are the attributes of that type, in order.
pub proof fn descriptors_are_kept_in_order(
    a: Seq<acl::AttrInfoView>,
    b: Seq<acl::AttrInfoView>,
    e: acl::AttrInfoView,
)
    ensures
        cccds_in(a + b) == cccds_in(a) + cccds_in(b),
        cccds_in(seq![e]) == if e.uuid == acl::AttUuidView::Short(0x2902) {
            seq![e.handle]
        } else {
            seq![]
        },
        cccds_in(seq![]) == Seq::<u16>::empty(),
    decreases b.len(),
{
    let none = Seq::<acl::AttrInfoView>::empty();
    assert(seq![e].drop_last() =~= none);
    assert(cccds_in(none) =~= seq![]);
    if b.len() == 0 {
        assert(a + b =~= a);
        assert(cccds_in(a) + cccds_in(b) =~= cccds_in(a));
    } else {
        descriptors_are_kept_in_order(a, b.drop_last(), e);
        assert((a + b).drop_last() =~= a + b.drop_last());
        assert((a + b).last() == b.last());
        assert(cccds_in(a + b) =~= cccds_in(a) + cccds_in(b));
    }
    assert(cccds_in(seq![e]) =~= if e.uuid == acl::AttUuidView::Short(0x2902) {
        seq![e.handle]
    } else {
        seq![]
    });
}

/// A subscription is made at the descriptor and heard at the handle right before it; at once,
/// unless the inputs are to wait, and even then for the replies.
pub proof fn a_subscription_is_heard_one_before(attrs: Seq<acl::AttrInfoView>, cccd: u16, late: bool)
    requires
        cccd > 0,
    ensures
        subscription_to(attrs, cccd, late).cccd == cccd,
        subscription_to(attrs, cccd, late).value == cccd - 1,
        subscription_to(attrs, cccd, false).now,
        subscription_to(attrs, cccd, true).now <==> cccd == 0x001B,
        known_subscription(cccd).value == cccd - 1 && known_subscription(cccd).now,
{
}

/// Where a controller lists nothing, the three known streams are subscribed to: the input of
/// the half, the replies, and the common input.
pub proof fn the_known_streams_are_subscribed_to()
    ensures
        known_cccds() == seq![0x000Fu16, 0x001Bu16, 0x000Bu16],
{
}

/// What is recorded is what is subscribed to, but for the replies; what is subscribed to late
/// is the same. Both keep the order.
pub proof fn replies_are_not_recorded(cccds: Seq<u16>, cccd: u16)
    requires
        cccd > 0,
    ensures
        streams_of(cccds.push(cccd)) == if cccd == 0x001B {
            streams_of(cccds)
        } else {
            streams_of(cccds).push((cccd - 1) as u16)
        },
        late_inputs(cccds.push(cccd)) == if cccd == 0x001B {
            late_inputs(cccds)
        } else {
            late_inputs(cccds).push(cccd)
        },
        streams_of(seq![]) == Seq::<u16>::empty() && late_inputs(seq![]) == Seq::<u16>::empty(),
{
    assert(cccds.push(cccd).drop_last() =~= cccds);
}

/// The type at a handle is that of the first attribute that stands there.
pub proof fn a_type_is_found_by_its_handle(attrs: Seq<acl::AttrInfoView>, handle: u16)
    ensures
        uuid_text_at(attrs, handle) is None <==> forall|i: int|
            0 <= i < attrs.len() ==> (#[trigger] attrs[i]).handle != handle,
        forall|i: int|
            0 <= i < attrs.len() && (#[trigger] attrs[i]).handle == handle && (forall|j: int|
                0 <= j < i ==> (#[trigger] attrs[j]).handle != handle) ==> uuid_text_at(
                attrs,
                handle,
            ) == Some(acl::uuid_text(attrs[i].uuid)),
    decreases attrs.len(),
{
    if attrs.len() > 0 && attrs[0].handle != handle {
        let rest = attrs.skip(1);
        a_type_is_found_by_its_handle(rest, handle);
        if uuid_text_at(rest, handle) is None {
            assert forall|i: int| 0 <= i < attrs.len() implies (#[trigger] attrs[i]).handle
                != handle by {
                if i > 0 {
                    assert(rest[i - 1] == attrs[i]);
                }
            }
        }
        if forall|i: int| 0 <= i < attrs.len() ==> (#[trigger] attrs[i]).handle != handle {
            assert forall|i: int| 0 <= i < rest.len() implies (#[trigger] rest[i]).handle
                != handle by {
                assert(rest[i] == attrs[i + 1]);
            }
        }
        assert forall|i: int|
            0 <= i < attrs.len() && (#[trigger] attrs[i]).handle == handle && (forall|j: int|
                0 <= j < i ==> (#[trigger] attrs[j]).handle != handle) implies uuid_text_at(
            attrs,
            handle,
        ) == Some(acl::uuid_text(attrs[i].uuid)) by {
            assert(rest[i - 1] == attrs[i]);
            assert forall|j: int| 0 <= j < i - 1 implies (#[trigger] rest[j]).handle != handle by {
                assert(rest[j] == attrs[j + 1]);
            }
        }
    }
}

/// A value is written by the opcode that its declaration allows, of the first that declares
/// it; where that says nothing, unacknowledged.
pub proof fn a_value_is_written_as_declared(chars: Seq<acl::CharDeclView>, handle: u16)
    ensures
        (forall|i: int| 0 <= i < chars.len() ==> (#[trigger] chars[i]).value_handle != handle)
            ==> opcode_for(chars, handle) == 0x52,
        forall|i: int|
            0 <= i < chars.len() && (#[trigger] chars[i]).value_handle == handle && (forall|j: int|
                0 <= j < i ==> (#[trigger] chars[j]).value_handle != handle) ==> opcode_for(
                chars,
                handle,
            ) == match acl::write_opcode_of(chars[i].properties) {
                Some(o) => o,
                None => 0x52,
            },
    decreases chars.len(),
{
    if chars.len() > 0 && chars[0].value_handle != handle {
        let rest = chars.skip(1);
        a_value_is_written_as_declared(rest, handle);
        if forall|i: int| 0 <= i < chars.len() ==> (#[trigger] chars[i]).value_handle != handle {
            assert forall|i: int| 0 <= i < rest.len() implies (#[trigger] rest[i]).value_handle
                != handle by {
                assert(rest[i] == chars[i + 1]);
            }
        }
        assert forall|i: int|
            0 <= i < chars.len() && (#[trigger] chars[i]).value_handle == handle && (forall|j: int|
                0 <= j < i ==> (#[trigger] chars[j]).value_handle != handle) implies opcode_for(
            chars,
            handle,
        ) == match acl::write_opcode_of(chars[i].properties) {
            Some(o) => o,
            None => 0x52,
        } by {
            assert(rest[i - 1] == chars[i]);
            assert forall|j: int| 0 <= j < i - 1 implies (#[trigger] rest[j]).value_handle
                != handle by {
                assert(rest[j] == chars[j + 1]);
            }
        }
    }
}

/// A descriptor belongs to the characteristic whose value stands nearest below it: to one
/// below it, and to none that another stands between.
pub proof fn a_descriptor_belongs_to_the_nearest_below(chars: Seq<acl::CharDeclView>, handle: u16)
    ensures
        owner_of(chars, handle) is None <==> forall|i: int|
            0 <= i < chars.len() ==> (#[trigger] chars[i]).value_handle >= handle,
        owner_of(chars, handle) matches Some(c) ==> {
            &&& chars.contains(c)
            &&& c.value_handle < handle
            &&& forall|i: int|
                0 <= i < chars.len() && (#[trigger] chars[i]).value_handle < handle
                    ==> chars[i].value_handle <= c.value_handle
        },
        rate_opcode_for(chars, handle) == match owner_of(chars, handle) {
            Some(c) => match acl::write_opcode_of(c.properties) {
                Some(o) => o,
                None => 0x12u8,
            },
            None => 0x12u8,
        },
    decreases chars.len(),
{
    if chars.len() > 0 {
        let most = chars.drop_last();
        let n = chars.len() - 1;
        a_descriptor_belongs_to_the_nearest_below(most, handle);
        assert(chars[n] == chars.last());
        assert(chars.contains(chars[n]));
        assert(forall|i: int| 0 <= i < n ==> most[i] == #[trigger] chars[i]);
        let best = owner_of(most, handle);
        if best is Some {
            let k = choose|k: int| 0 <= k < most.len() && most[k] == best->0;
            assert(chars[k] == best->0);
            assert(chars.contains(chars[k]));
        }
        if owner_of(chars, handle) is None {
            assert forall|i: int| 0 <= i < chars.len() implies (#[trigger] chars[i]).value_handle
                >= handle by {
                if i < n {
                    assert(most[i].value_handle >= handle);
                }
            }
        }
        if forall|i: int| 0 <= i < chars.len() ==> (#[trigger] chars[i]).value_handle >= handle {
            assert forall|i: int| 0 <= i < most.len() implies (#[trigger] most[i]).value_handle
                >= handle by {
                assert(chars[i].value_handle >= handle);
            }
        }
    }
}

/// The report rates are written at every descriptor of that type, in order, and nowhere else,
/// each by the opcode of its characteristic.
pub proof fn every_rate_is_written(
    attrs: Seq<acl::AttrInfoView>,
    e: acl::AttrInfoView,
    chars: Seq<acl::CharDeclView>,
)
    ensures
        rate_writes_in(attrs.push(e), chars) == if acl::uuid_text(e.uuid)
            == "679d5510-5a24-4dee-9557-95df80486ecb"@ {
            rate_writes_in(attrs, chars).push((e.handle, rate_opcode_for(chars, e.handle)))
        } else {
            rate_writes_in(attrs, chars)
        },
        rate_writes_in(seq![], chars) == Seq::<(u16, u8)>::empty(),
{
    assert(attrs.push(e).drop_last() =~= attrs);
}

/// What follows a flag is the argument right behind where it was first given.
pub proof fn a_value_follows_its_flag(
    before: Seq<String>,
    named: String,
    value: String,
    after: Seq<String>,
    flag: Seq<char>,
)
    requires
        !given(before, flag),
        named@ == flag,
    ensures
        following(before + seq![named, value] + after, flag) == Some(value@),
        following(before + seq![named], flag) is None,
        following(before, flag) is None,
        given(before + seq![named, value] + after, flag),
    decreases before.len(),
{
    let all = before + seq![named, value] + after;
    let short = before + seq![named];
    assert(all[before.len() as int] == named);
    if before.len() > 0 {
        let rest = before.skip(1);
        assert(before[0]@ != flag);
        assert forall|i: int| 0 <= i < rest.len() implies (#[trigger] rest[i])@ != flag by {
            assert(rest[i] == before[i + 1]);
        }
        assert(!given(rest, flag));
        a_value_follows_its_flag(rest, named, value, after, flag);
        assert(all.skip(1) =~= rest + seq![named, value] + after);
        assert(short.skip(1) =~= rest + seq![named]);
        assert(all[0] == before[0] && short[0] == before[0]);
    } else {
        assert(all[0] == named && all[1] == value && short[0] == named);
    }
}

/// A recording is worth making before everything where a tail speaks; not where nothing woke
/// up, unless someone insists; and not where only the known input streams and the motion is
/// not new either.
pub proof fn a_recording_is_made_where_something_is_new(streams: Seq<Seen>, detached: bool, force: bool)
    ensures
        preflight_of(streams, detached, force).worthwhile(force) <==> {
            ||| tail_seen(streams)
            ||| force
            ||| any_alive(streams) && (alive(streams, 0x000A) || detached || !alive(
                streams,
                0x000E,
            ))
        },
        preflight_of(streams, detached, force) == Preflight::LayoutChanged <==> tail_seen(streams),
        preflight_of(streams, detached, force) == Preflight::Silent <==> !tail_seen(streams)
            && !any_alive(streams),
{
}

/// The most motion bytes that any stream says is said by one, and none says more.
pub proof fn the_most_motion_is_said_by_one(shapes: Seq<StreamShape>)
    ensures
        forall|i: int|
            0 <= i < shapes.len() ==> (#[trigger] shapes[i]).motion_len <= most_motion(shapes),
        shapes.len() > 0 ==> exists|i: int|
            0 <= i < shapes.len() && (#[trigger] shapes[i]).motion_len == most_motion(shapes),
        shapes.len() == 0 ==> most_motion(shapes) == 0,
    decreases shapes.len(),
{
    if shapes.len() > 0 {
        let most = shapes.drop_last();
        let n = shapes.len() - 1;
        the_most_motion_is_said_by_one(most);
        assert(shapes[n] == shapes.last());
        assert forall|i: int| 0 <= i < shapes.len() implies (#[trigger] shapes[i]).motion_len
            <= most_motion(shapes) by {
            if i < n {
                assert(most[i] == shapes[i]);
            }
        }
        if most_motion(shapes) != shapes.last().motion_len {
            if most.len() > 0 {
                let k = choose|k: int|
                    0 <= k < most.len() && (#[trigger] most[k]).motion_len == most_motion(most);
                assert(shapes[k].motion_len == most_motion(shapes));
            }
        }
    }
}

/// Reports look otherwise exactly where the most motion bytes changed or something varies in a
/// tail.
pub proof fn a_change_shows(baseline: u8, shapes: Seq<StreamShape>, i: int)
    ensures
        0 <= i < shapes.len() && shapes[i].tail_live > 0 ==> differs_from(baseline, shapes),
        0 <= i < shapes.len() && shapes[i].motion_len > baseline ==> differs_from(baseline, shapes),
        (forall|k: int|
            0 <= k < shapes.len() ==> (#[trigger] shapes[k]).tail_live == 0 && shapes[k].motion_len
                == baseline) && shapes.len() > 0 ==> !differs_from(baseline, shapes),
{
    the_most_motion_is_said_by_one(shapes);
    if 0 <= i < shapes.len() {
        assert(shapes[i].motion_len <= most_motion(shapes));
    }
}

/// Every mask that a sweep tries has every bit of the known one.
pub proof fn a_sweep_only_adds_bits(i: int)
    requires
        0 <= i < 8,
    ensures
        SWEEP_MASKS@[i] & 0x37 == 0x37,
        SWEEP_MASKS@[0] == 0x37,
{
    assert(0x37u8 & 0x37 == 0x37 && 0x3Fu8 & 0x37 == 0x37 && 0x77u8 & 0x37 == 0x37 && 0xB7u8 & 0x37
        == 0x37 && 0xBFu8 & 0x37 == 0x37 && 0xF7u8 & 0x37 == 0x37 && 0x7Fu8 & 0x37 == 0x37 && 0xFFu8
        & 0x37 == 0x37) by (bit_vector);
}

/// Every configuration descriptor that a controller lists is subscribed to, in order and no
/// other, and what it configures is recorded unless it is the replies; rates are written unless
/// the inputs wait.
pub proof fn a_plan_leaves_nothing_out(t: Seq<acl::AttrInfoView>, late: bool)
    requires
        has_values(t),
    ensures
        ({
            let p = planned(t, late);
            &&& p.listed <==> t.len() > 0
            &&& p.write_rates <==> t.len() > 0 && !late
            &&& t.len() > 0 ==> {
                &&& p.subscriptions.len() == cccds_in(t).len()
                &&& forall|i: int|
                    0 <= i < p.subscriptions.len() ==> (#[trigger] p.subscriptions[i]).cccd
                        == cccds_in(t)[i] && p.subscriptions[i].value == cccds_in(t)[i] - 1
                &&& forall|h: u16|
                    p.streams.contains(h) <==> h != 0x001A && exists|i: int|
                        0 <= i < p.subscriptions.len() && #[trigger] p.subscriptions[i].value == h
            }
            &&& t.len() == 0 ==> {
                &&& p.streams == seq![0x000Eu16, 0x000Au16]
                &&& p.subscriptions.len() == 3 && p.subscriptions[0].value == 0x000E
                    && p.subscriptions[1].value == 0x001A && p.subscriptions[2].value == 0x000A
                &&& forall|i: int| 0 <= i < 3 ==> (#[trigger] p.subscriptions[i]).now
            }
        }),
{
    let p = planned(t, late);
    let all = cccds_in(t);
    if t.len() > 0 {
        assert forall|i: int| 0 <= i < p.subscriptions.len() implies (
        #[trigger] p.subscriptions[i]).cccd == all[i] && p.subscriptions[i].value == all[i] - 1 by {
            assert(all[i] > 0);
        }
        assert forall|h: u16|
            p.streams.contains(h) <==> h != 0x001A && exists|i: int|
                0 <= i < p.subscriptions.len() && #[trigger] p.subscriptions[i].value == h by {
            streams_hold(all, h);
            if p.streams.contains(h) {
                let i = choose|i: int| 0 <= i < all.len() && #[trigger] all[i] == h + 1;
                assert(p.subscriptions[i].value == h);
            }
            if h != 0x001A && exists|i: int|
                0 <= i < p.subscriptions.len() && #[trigger] p.subscriptions[i].value == h {
                let i = choose|i: int|
                    0 <= i < p.subscriptions.len() && #[trigger] p.subscriptions[i].value == h;
                assert(all[i] == h + 1);
            }
        }
    }
}

/// What is recorded is what some descriptor configures.
proof fn streams_hold(cccds: Seq<u16>, h: u16)
    requires
        forall|i: int| 0 <= i < cccds.len() ==> #[trigger] cccds[i] > 0,
    ensures
        streams_of(cccds).contains(h) <==> h != 0x001A && exists|i: int|
            0 <= i < cccds.len() && #[trigger] cccds[i] == h + 1,
    decreases cccds.len(),
{
    if cccds.len() > 0 {
        let most = cccds.drop_last();
        let n = cccds.len() - 1;
        let s = streams_of(most);
        assert forall|i: int| 0 <= i < most.len() implies #[trigger] most[i] > 0 by {
            assert(cccds[i] > 0);
        }
        streams_hold(most, h);
        assert(cccds[n] > 0);
        if cccds[n] - 1 != 0x001A {
            let v = (cccds[n] - 1) as u16;
            assert(streams_of(cccds) == s.push(v));
            assert(s.push(v)[s.len() as int] == v);
            if s.contains(h) {
                let k = choose|k: int| 0 <= k < s.len() && s[k] == h;
                assert(s.push(v)[k] == h);
            }
        }
        if streams_of(cccds).contains(h) {
            if s.contains(h) {
                let i = choose|i: int| 0 <= i < most.len() && #[trigger] most[i] == h + 1;
                assert(cccds[i] == h + 1);
            } else {
                assert(cccds[n] == h + 1);
            }
        }
        if h != 0x001A && exists|i: int| 0 <= i < cccds.len() && #[trigger] cccds[i] == h + 1 {
            let i = choose|i: int| 0 <= i < cccds.len() && #[trigger] cccds[i] == h + 1;
            if i < n {
                assert(most[i] == h + 1);
            }
        }
    }
}

/// A table is sound unless a configuration descriptor stands at its very beginning, where no
/// value can come before it.
pub proof fn a_table_is_unsound_by_one_descriptor(t: Seq<acl::AttrInfoView>, e: acl::AttrInfoView)
    ensures
        has_values(t.push(e)) <==> has_values(t) && !(e.uuid == acl::AttUuidView::Short(0x2902)
            && e.handle == 0),
        has_values(seq![]),
{
    let all = t.push(e);
    assert(all.drop_last() =~= t);
    let c = cccds_in(t);
    if e.uuid == acl::AttUuidView::Short(0x2902) {
        assert(cccds_in(all) == c.push(e.handle));
        assert(c.push(e.handle)[c.len() as int] == e.handle);
        if has_values(t) && e.handle != 0 {
            assert forall|i: int| 0 <= i < cccds_in(all).len() implies #[trigger] cccds_in(all)[i]
                > 0 by {
                if i < c.len() {
                    assert(c[i] > 0);
                }
            }
        }
        if has_values(all) {
            assert(cccds_in(all)[c.len() as int] > 0);
            assert forall|i: int| 0 <= i < c.len() implies #[trigger] c[i] > 0 by {
                assert(cccds_in(all)[i] == c[i]);
            }
        }
    } else {
        assert(all.last() == e);
        assert(cccds_in(all) == c);
        assert(has_values(all) == has_values(t));
    }
}

/// Two dumps differ where one byte was changed and nowhere else, whichever comes first, and
/// what only one of them has is no difference.
pub proof fn a_difference_is_a_changed_byte(a: Seq<u8>, b: Seq<u8>, i: int, x: u8, more: Seq<u8>)
    ensures
        differences(a, b) == differences(b, a),
        differences(a, a + more) == Set::<int>::empty(),
        0 <= i < a.len() && x != a[i] ==> differences(a, a.update(i, x)) == set![i],
        0 <= i < a.len() && i < b.len() ==> (differences(a, b).contains(i) <==> a[i] != b[i]),
{
    assert(differences(a, b) =~= differences(b, a));
    assert(differences(a, a + more) =~= Set::<int>::empty());
    if 0 <= i < a.len() && x != a[i] {
        assert(differences(a, a.update(i, x)) =~= set![i]);
    }
}

} // verus!
