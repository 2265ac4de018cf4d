//! The contract module: what contracts answer, how their events are checked and
//! rewritten, and how the answers to their sub-messages are routed back.
use crate::multitest::balance::{add_coins, normalizes, sub_coins};
use crate::multitest::bank::{copy_coins, send_ok, BankError, BankState, SimpleBank};
use crate::multitest::coin::{coins_view, Coin};
use vstd::prelude::*;
use vstd::string::{StrSliceExecFns, StringExecFns, StringSliceAdditionalSpecFns};

verus! {

/// The key of the attribute that names the contract in the events of a call.
pub const CONTRACT_ATTR: &'static str = "_contract_addr";

/// A key and value attached to an event.
#[derive(Clone, Debug, PartialEq, Eq)]
pub struct Attribute {
    pub key: String,
    pub value: String,
}

/// An event of a given type with its attributes.
#[derive(Clone, Debug, PartialEq, Eq)]
pub struct Event {
    pub ty: String,
    pub attributes: Vec<Attribute>,
}

/// The view of an attribute.
pub open spec fn attr_view(a: Attribute) -> (Seq<char>, Seq<char>) {
    (a.key@, a.value@)
}

/// The view of a list of attributes.
pub open spec fn attrs_view(s: Seq<Attribute>) -> Seq<(Seq<char>, Seq<char>)> {
    s.map_values(|a: Attribute| attr_view(a))
}

/// The view of an event: its type and attributes.
pub open spec fn event_view(e: Event) -> (Seq<char>, Seq<(Seq<char>, Seq<char>)>) {
    (e.ty@, attrs_view(e.attributes@))
}

/// The view of a list of events.
pub open spec fn events_view(s: Seq<Event>) -> Seq<(Seq<char>, Seq<(Seq<char>, Seq<char>)>)> {
    s.map_values(|e: Event| event_view(e))
}

/// Why a contract's answer or a contract message was refused.
#[derive(Clone, Debug, PartialEq, Eq)]
pub enum WasmError {
    /// An attribute's key is blank; the trimmed value is given.
    EmptyAttributeKey { value: String },
    /// An attribute's value is blank; the trimmed key is given.
    EmptyAttributeValue { key: String },
    /// An attribute's key starts with the reserved `_`; the key is given as it was.
    ReservedAttributeKey { key: String },
    /// An event's type, trimmed, is shorter than two bytes.
    EventTypeTooShort { ty: String },
    /// A contract must be instantiated with a label.
    LabelRequired,
    /// No code is stored under the id a contract is instantiated with.
    UnregisteredCodeId,
    /// No code is stored under the id a contract is migrated to.
    MigrateToUnregisteredCode,
    /// Only the admin of a contract can migrate it; the admin is given.
    OnlyAdminCanMigrate { admin: Option<String> },
    /// No contract lives at the address.
    ContractNotFound,
    /// An instantiation answered no data.
    NoDataResponse,
    /// The data of an instantiation is not a valid instantiation record.
    InvalidInstantiateData,
    /// The instantiation record names no address.
    NoContractAddress,
    /// The chain refused the contract address a message names; its words are given.
    InvalidAddress { msg: String },
}

impl WasmError {
    pub fn empty_attribute_key(value: String) -> (r: Self)
        ensures
            r matches WasmError::EmptyAttributeKey { value: v } && v@ == value@,
    {
        WasmError::EmptyAttributeKey { value }
    }

    pub fn empty_attribute_value(key: String) -> (r: Self)
        ensures
            r matches WasmError::EmptyAttributeValue { key: k } && k@ == key@,
    {
        WasmError::EmptyAttributeValue { key }
    }

    pub fn reserved_attribute_key(key: String) -> (r: Self)
        ensures
            r matches WasmError::ReservedAttributeKey { key: k } && k@ == key@,
    {
        WasmError::ReservedAttributeKey { key }
    }

    pub fn event_type_too_short(ty: String) -> (r: Self)
        ensures
            r matches WasmError::EventTypeTooShort { ty: t } && t@ == ty@,
    {
        WasmError::EventTypeTooShort { ty }
    }
}

/// A character with the Unicode White_Space property, which `char::is_whitespace` tests.
pub open spec fn is_white_space(c: char) -> bool {
    let u = c as u32;
    ||| 0x09 <= u <= 0x0D
    ||| u == 0x20
    ||| u == 0x85
    ||| u == 0xA0
    ||| u == 0x1680
    ||| 0x2000 <= u <= 0x200A
    ||| u == 0x2028
    ||| u == 0x2029
    ||| u == 0x202F
    ||| u == 0x205F
    ||| u == 0x3000
}

/// The text without its leading white space.
pub open spec fn trimmed_start(s: Seq<char>) -> Seq<char>
    decreases s.len(),
{
    if s.len() > 0 && is_white_space(s[0]) {
        trimmed_start(s.drop_first())
    } else {
        s
    }
}

/// The text without its trailing white space.
pub open spec fn trimmed_end(s: Seq<char>) -> Seq<char>
    decreases s.len(),
{
    if s.len() > 0 && is_white_space(s.last()) {
        trimmed_end(s.drop_last())
    } else {
        s
    }
}

/// The text without its leading and trailing white space.
pub open spec fn trimmed(s: Seq<char>) -> Seq<char> {
    trimmed_end(trimmed_start(s))
}

/// `str::trim`: the text with leading and trailing white space (the characters that
/// `char::is_whitespace` accepts) removed.
#[verifier::external_body]
pub(crate) fn trim_str(s: &str) -> (r: &str)
    ensures
        r@ == trimmed(s@),
{
    s.trim()
}

/// The refusal that an attribute earns, if any: a blank key, a blank value, or a key
/// that starts with `_` after trimming.
pub open spec fn attribute_error(a: (Seq<char>, Seq<char>)) -> Option<WasmErrorView> {
    let key = trimmed(a.0);
    let val = trimmed(a.1);
    if key.len() == 0 {
        Some(WasmErrorView::EmptyAttributeKey { value: val })
    } else if val.len() == 0 {
        Some(WasmErrorView::EmptyAttributeValue { key })
    } else if key[0] == '_' {
        Some(WasmErrorView::ReservedAttributeKey { key: a.0 })
    } else {
        None
    }
}

/// The refusal of the first refused attribute of a list, if any.
pub open spec fn attributes_error(attrs: Seq<(Seq<char>, Seq<char>)>) -> Option<WasmErrorView>
    decreases attrs.len(),
{
    if attrs.len() == 0 {
        None
    } else {
        match attribute_error(attrs[0]) {
            Some(e) => Some(e),
            None => attributes_error(attrs.drop_first()),
        }
    }
}

/// What is known of a refusal.
pub enum WasmErrorView {
    EmptyAttributeKey { value: Seq<char> },
    EmptyAttributeValue { key: Seq<char> },
    ReservedAttributeKey { key: Seq<char> },
    EventTypeTooShort { ty: Seq<char> },
    LabelRequired,
    UnregisteredCodeId,
    MigrateToUnregisteredCode,
    OnlyAdminCanMigrate { admin: Option<Seq<char>> },
    ContractNotFound,
    NoDataResponse,
    InvalidInstantiateData,
    NoContractAddress,
    InvalidAddress { msg: Seq<char> },
}

pub open spec fn error_view(e: WasmError) -> WasmErrorView {
    match e {
        WasmError::EmptyAttributeKey { value } => WasmErrorView::EmptyAttributeKey { value: value@ },
        WasmError::EmptyAttributeValue { key } => WasmErrorView::EmptyAttributeValue { key: key@ },
        WasmError::ReservedAttributeKey { key } => WasmErrorView::ReservedAttributeKey { key: key@ },
        WasmError::EventTypeTooShort { ty } => WasmErrorView::EventTypeTooShort { ty: ty@ },
        WasmError::LabelRequired => WasmErrorView::LabelRequired,
        WasmError::UnregisteredCodeId => WasmErrorView::UnregisteredCodeId,
        WasmError::MigrateToUnregisteredCode => WasmErrorView::MigrateToUnregisteredCode,
        WasmError::OnlyAdminCanMigrate { admin } => WasmErrorView::OnlyAdminCanMigrate {
            admin: match admin {
                Some(a) => Some(a@),
                None => None,
            },
        },
        WasmError::ContractNotFound => WasmErrorView::ContractNotFound,
        WasmError::NoDataResponse => WasmErrorView::NoDataResponse,
        WasmError::InvalidInstantiateData => WasmErrorView::InvalidInstantiateData,
        WasmError::NoContractAddress => WasmErrorView::NoContractAddress,
        WasmError::InvalidAddress { msg } => WasmErrorView::InvalidAddress { msg: msg@ },
    }
}

/// The view of a result that carries no value.
pub open spec fn check_view(r: Result<(), WasmError>) -> Option<WasmErrorView> {
    match r {
        Ok(()) => None,
        Err(e) => Some(error_view(e)),
    }
}

/// A copy of a text.
fn copy_str(s: &str) -> (r: String)
    ensures
        r@ == s@,
{
    s.to_owned()
}

/// Checks one attribute.
fn verify_attribute(attr: &Attribute) -> (r: Result<(), WasmError>)
    ensures
        check_view(r) == attribute_error(attr_view(*attr)),
{
    let key = trim_str(attr.key.as_str());
    let val = trim_str(attr.value.as_str());
    if key.unicode_len() == 0 {
        return Err(WasmError::EmptyAttributeKey { value: copy_str(val) });
    }
    if val.unicode_len() == 0 {
        return Err(WasmError::EmptyAttributeValue { key: copy_str(key) });
    }
    if key.get_char(0) == '_' {
        return Err(WasmError::ReservedAttributeKey { key: attr.key.clone() });
    }
    Ok(())
}

/// Checks the attributes in order and refuses at the first blank key, blank value or key
/// with the reserved `_` prefix.
pub fn verify_attributes(attributes: &[Attribute]) -> (r: Result<(), WasmError>)
    ensures
        check_view(r) == attributes_error(attrs_view(attributes@)),
{
    let mut i: usize = 0;
    assert(attrs_view(attributes@).skip(0) =~= attrs_view(attributes@));
    while i < attributes.len()
        invariant
            i <= attributes@.len(),
            attributes_error(attrs_view(attributes@)) == attributes_error(
                attrs_view(attributes@).skip(i as int),
            ),
        decreases attributes@.len() - i,
    {
        let ghost rest = attrs_view(attributes@).skip(i as int);
        assert(rest[0] == attr_view(attributes@[i as int]));
        match verify_attribute(&attributes[i]) {
            Ok(()) => {},
            Err(e) => {
                return Err(e);
            },
        }
        assert(rest.drop_first() =~= attrs_view(attributes@).skip(i + 1));
        i = i + 1;
    }
    assert(attrs_view(attributes@).skip(attributes@.len() as int) =~= Seq::empty());
    Ok(())
}

} // verus!

verus! {

/// When the contract that sent a sub-message wants to hear how it went.
#[derive(Clone, Copy, Debug, PartialEq, Eq, Structural)]
pub enum ReplyOn {
    Always,
    Error,
    Success,
    Never,
}

/// A message a contract sends on, with how it wants to hear back.
#[derive(Clone, Debug, PartialEq, Eq)]
pub struct SubMsg<M> {
    pub id: u64,
    pub msg: M,
    pub gas_limit: Option<u64>,
    pub reply_on: ReplyOn,
}

/// What a contract answers: messages to send on, attributes, events and data.
#[derive(Clone, Debug, PartialEq, Eq)]
pub struct Response<M> {
    pub messages: Vec<SubMsg<M>>,
    pub attributes: Vec<Attribute>,
    pub events: Vec<Event>,
    pub data: Option<Vec<u8>>,
}

/// What the chain reports of an executed message: its events and data.
#[derive(Clone, Debug, PartialEq, Eq)]
pub struct AppResponse {
    pub events: Vec<Event>,
    pub data: Option<Vec<u8>>,
}

/// The view of optional data.
pub open spec fn data_view(d: Option<Vec<u8>>) -> Option<Seq<u8>> {
    match d {
        Some(v) => Some(v@),
        None => None,
    }
}

/// The refusal that an event earns, if any: one of its attributes, or a type shorter than
/// two bytes after trimming.
pub open spec fn event_error(e: (Seq<char>, Seq<(Seq<char>, Seq<char>)>)) -> Option<WasmErrorView> {
    match attributes_error(e.1) {
        Some(err) => Some(err),
        None => if vstd::utf8::encode_utf8(trimmed(e.0)).len() < 2 {
            Some(WasmErrorView::EventTypeTooShort { ty: trimmed(e.0) })
        } else {
            None
        },
    }
}

/// The refusal of the first refused event of a list, if any.
pub open spec fn events_error(events: Seq<(Seq<char>, Seq<(Seq<char>, Seq<char>)>)>) -> Option<
    WasmErrorView,
>
    decreases events.len(),
{
    if events.len() == 0 {
        None
    } else {
        match event_error(events[0]) {
            Some(e) => Some(e),
            None => events_error(events.drop_first()),
        }
    }
}

/// Checks an event.
fn verify_event(event: &Event) -> (r: Result<(), WasmError>)
    ensures
        check_view(r) == event_error(event_view(*event)),
{
    match verify_attributes(event.attributes.as_slice()) {
        Ok(()) => {},
        Err(e) => {
            return Err(e);
        },
    }
    let ty = trim_str(event.ty.as_str());
    let ty_bytes = ty.as_bytes();
    assert(ty_bytes@ == vstd::utf8::encode_utf8(ty@));
    if ty_bytes.len() < 2 {
        return Err(WasmError::EventTypeTooShort { ty: copy_str(ty) });
    }
    Ok(())
}

/// Checks a contract's answer: its attributes, then each event in order.
pub fn verify_response<M>(response: Response<M>) -> (r: Result<Response<M>, WasmError>)
    ensures
        ({
            let err = match attributes_error(attrs_view(response.attributes@)) {
                Some(e) => Some(e),
                None => events_error(events_view(response.events@)),
            };
            &&& (r is Ok <==> err is None)
            &&& (r matches Err(e) ==> Some(error_view(e)) == err)
            &&& (r matches Ok(resp) ==> resp == response)
        }),
{
    match verify_attributes(response.attributes.as_slice()) {
        Ok(()) => {},
        Err(e) => {
            assert(check_view(Err(e)) == Some(error_view(e)));
            return Err(e);
        },
    }
    let mut i: usize = 0;
    assert(events_view(response.events@).skip(0) =~= events_view(response.events@));
    while i < response.events.len()
        invariant
            i <= response.events@.len(),
            attributes_error(attrs_view(response.attributes@)) is None,
            events_error(events_view(response.events@)) == events_error(
                events_view(response.events@).skip(i as int),
            ),
        decreases response.events@.len() - i,
    {
        let ghost rest = events_view(response.events@).skip(i as int);
        assert(rest[0] == event_view(response.events@[i as int]));
        match verify_event(&response.events[i]) {
            Ok(()) => {},
            Err(e) => {
                assert(check_view(Err(e)) == Some(error_view(e)));
                return Err(e);
            },
        }
        assert(rest.drop_first() =~= events_view(response.events@).skip(i + 1));
        i = i + 1;
    }
    assert(events_view(response.events@).skip(response.events@.len() as int) =~= Seq::empty());
    Ok(response)
}

/// The attribute that names the contract, followed by the given attributes.
pub open spec fn with_contract_attr(contract: Seq<char>, attrs: Seq<(Seq<char>, Seq<char>)>) -> Seq<
    (Seq<char>, Seq<char>),
> {
    seq![(CONTRACT_ATTR@, contract)] + attrs
}

/// A contract's own event as the chain reports it: its type gets the `wasm-` prefix and
/// the contract attribute comes first.
pub open spec fn wasm_event(contract: Seq<char>, e: (Seq<char>, Seq<(Seq<char>, Seq<char>)>)) -> (
    Seq<char>,
    Seq<(Seq<char>, Seq<char>)>,
) {
    ("wasm-"@ + e.0, with_contract_attr(contract, e.1))
}

/// The attributes with the contract attribute in front.
fn prefixed_attributes(contract: &String, attributes: Vec<Attribute>) -> (r: Vec<Attribute>)
    ensures
        attrs_view(r@) == with_contract_attr(contract@, attrs_view(attributes@)),
{
    let mut out: Vec<Attribute> = Vec::new();
    out.push(Attribute { key: CONTRACT_ATTR.to_owned(), value: contract.clone() });
    let ghost first = out@;
    let mut rest = attributes;
    out.append(&mut rest);
    proof {
        reveal_strlit("_contract_addr");
        assert(attrs_view(out@) =~= with_contract_attr(contract@, attrs_view(attributes@)));
    }
    out
}

/// The events the chain reports for a contract call, and the messages to send on: the
/// entry point's own event; a `wasm` event with the answer's attributes, if it has any;
/// then the answer's events with the `wasm-` prefix. Each of the last names the contract
/// first.
pub fn build_app_response<M>(contract: &String, custom_event: Event, response: Response<M>) -> (r: (
    AppResponse,
    Vec<SubMsg<M>>,
))
    ensures
        events_view(r.0.events@) == seq![event_view(custom_event)] + (if response.attributes@.len()
            > 0 {
            seq![("wasm"@, with_contract_attr(contract@, attrs_view(response.attributes@)))]
        } else {
            Seq::empty()
        }) + events_view(response.events@).map_values(
            |e: (Seq<char>, Seq<(Seq<char>, Seq<char>)>)| wasm_event(contract@, e),
        ),
        data_view(r.0.data) == data_view(response.data),
        r.1@ == response.messages@,
{
    let Response { messages, attributes, events, data } = response;
    // always add custom event
    let mut app_events: Vec<Event> = Vec::new();
    let ghost cv = event_view(custom_event);
    app_events.push(custom_event);
    // we only emit the `wasm` event if some attributes are specified
    let ghost head = if attributes@.len() > 0 {
        seq![cv, ("wasm"@, with_contract_attr(contract@, attrs_view(attributes@)))]
    } else {
        seq![cv]
    };
    if attributes.len() > 0 {
        // turn attributes into event and place it first
        let wasm_attrs = prefixed_attributes(contract, attributes);
        let wasm_event = Event { ty: "wasm".to_owned(), attributes: wasm_attrs };
        proof {
            reveal_strlit("wasm");
        }
        app_events.push(wasm_event);
    }
    assert(events_view(app_events@) =~= head);
    // These need to get `wasm-` prefix to match the wasmd semantics (custom wasm messages cannot
    // fake system level event types, like transfer from the bank module)
    let ghost evs = events_view(events@);
    let n = events.len();
    let mut rest = events;
    let mut i: usize = 0;
    while i < n
        invariant
            n == evs.len(),
            i <= n,
            rest@.len() == n - i,
            forall|j: int| 0 <= j < rest@.len() ==> event_view(#[trigger] rest@[j]) == evs[i + j],
            events_view(app_events@) == head + evs.subrange(0, i as int).map_values(
                |e: (Seq<char>, Seq<(Seq<char>, Seq<char>)>)| wasm_event(contract@, e),
            ),
        decreases n - i,
    {
        let ghost prev = rest@;
        let ev = rest.remove(0);
        proof {
            assert(rest@ == prev.remove(0));
            assert(event_view(prev[0]) == evs[i + 0]);
            assert(event_view(ev) == evs[i as int]);
            assert forall|j: int| 0 <= j < rest@.len() implies event_view(#[trigger] rest@[j])
                == evs[i + 1 + j] by {
                assert(rest@[j] == prev[j + 1]);
                assert(event_view(prev[j + 1]) == evs[i + (j + 1)]);
            }
        }
        let mut ty = "wasm-".to_owned();
        ty.append(ev.ty.as_str());
        let attrs = prefixed_attributes(contract, ev.attributes);
        let ghost before = app_events@;
        let wev = Event { ty, attributes: attrs };
        proof {
            reveal_strlit("wasm-");
        }
        app_events.push(wev);
        proof {
            let f = |e: (Seq<char>, Seq<(Seq<char>, Seq<char>)>)| wasm_event(contract@, e);
            assert(evs.subrange(0, i + 1).map_values(f) =~= evs.subrange(0, i as int).map_values(
                f,
            ).push(f(evs[i as int])));
            assert(events_view(app_events@) =~= events_view(before).push(event_view(wev)));
        }
        i = i + 1;
    }
    assert(evs.subrange(0, n as int) =~= evs);
    (AppResponse { events: app_events, data }, messages)
}

} // verus!

verus! {

/// What a contract hears of a sub-message it sent: the events and data of its success,
/// or the error.
#[derive(Debug, PartialEq, Eq)]
pub struct Reply {
    pub id: u64,
    pub result: Result<AppResponse, String>,
}

/// Whether the sender of a sub-message hears back, given how the message went.
pub fn reply_wanted(reply_on: ReplyOn, succeeded: bool) -> (r: bool)
    ensures
        r == match reply_on {
            ReplyOn::Always => true,
            ReplyOn::Success => succeeded,
            ReplyOn::Error => !succeeded,
            ReplyOn::Never => false,
        },
{
    match reply_on {
        ReplyOn::Always => true,
        ReplyOn::Success => succeeded,
        ReplyOn::Error => !succeeded,
        ReplyOn::Never => false,
    }
}

/// The reply a sub-message's sender gets, if it wants one.
pub fn reply_for(id: u64, reply_on: ReplyOn, result: &Result<AppResponse, String>) -> (r: Option<
    Reply,
>)
    ensures
        r is Some <==> match reply_on {
            ReplyOn::Always => true,
            ReplyOn::Success => result is Ok,
            ReplyOn::Error => result is Err,
            ReplyOn::Never => false,
        },
        r matches Some(rep) ==> rep.id == id && (rep.result is Ok <==> result is Ok) && (
        rep.result matches Ok(a) ==> result matches Ok(b) && events_view(a.events@)
            == events_view(b.events@) && data_view(a.data) == data_view(b.data)) && (
        rep.result matches Err(e) ==> result matches Err(f) && e@ == f@),
{
    if !reply_wanted(reply_on, result.is_ok()) {
        return None;
    }
    match result {
        Ok(a) => Some(Reply { id, result: Ok(copy_app_response(a)) }),
        Err(e) => Some(Reply { id, result: Err(e.clone()) }),
    }
}

/// A copy of a list of attributes.
fn copy_attributes(v: &Vec<Attribute>) -> (r: Vec<Attribute>)
    ensures
        attrs_view(r@) == attrs_view(v@),
{
    let mut out: Vec<Attribute> = Vec::new();
    let mut i: usize = 0;
    while i < v.len()
        invariant
            i <= v@.len(),
            attrs_view(out@) == attrs_view(v@.subrange(0, i as int)),
        decreases v@.len() - i,
    {
        let a = Attribute { key: v[i].key.clone(), value: v[i].value.clone() };
        let ghost before = out@;
        out.push(a);
        assert(v@.subrange(0, i + 1) =~= v@.subrange(0, i as int).push(v@[i as int]));
        assert(attrs_view(out@) =~= attrs_view(before).push(attr_view(a)));
        assert(attrs_view(v@.subrange(0, i as int).push(v@[i as int])) =~= attrs_view(
            v@.subrange(0, i as int),
        ).push(attr_view(v@[i as int])));
        i = i + 1;
    }
    assert(v@.subrange(0, v@.len() as int) =~= v@);
    out
}

/// A copy of a list of events.
fn copy_events(v: &Vec<Event>) -> (r: Vec<Event>)
    ensures
        events_view(r@) == events_view(v@),
{
    let mut out: Vec<Event> = Vec::new();
    let mut i: usize = 0;
    while i < v.len()
        invariant
            i <= v@.len(),
            events_view(out@) == events_view(v@.subrange(0, i as int)),
        decreases v@.len() - i,
    {
        let e = Event { ty: v[i].ty.clone(), attributes: copy_attributes(&v[i].attributes) };
        let ghost before = out@;
        out.push(e);
        assert(v@.subrange(0, i + 1) =~= v@.subrange(0, i as int).push(v@[i as int]));
        assert(events_view(out@) =~= events_view(before).push(event_view(e)));
        assert(events_view(v@.subrange(0, i as int).push(v@[i as int])) =~= events_view(
            v@.subrange(0, i as int),
        ).push(event_view(v@[i as int])));
        i = i + 1;
    }
    assert(v@.subrange(0, v@.len() as int) =~= v@);
    out
}

/// A copy of optional data.
fn copy_data(d: &Option<Vec<u8>>) -> (r: Option<Vec<u8>>)
    ensures
        data_view(r) == data_view(*d),
{
    match d {
        Some(v) => {
            let mut c: Vec<u8> = Vec::new();
            c.extend_from_slice(v.as_slice());
            Some(c)
        },
        None => None,
    }
}

/// A copy of what the chain reports of a message.
pub fn copy_app_response(a: &AppResponse) -> (r: AppResponse)
    ensures
        events_view(r.events@) == events_view(a.events@),
        data_view(r.data) == data_view(a.data),
{
    AppResponse { events: copy_events(&a.events), data: copy_data(&a.data) }
}

/// The attribute is one of the list.
pub open spec fn attr_in(a: (Seq<char>, Seq<char>), list: Seq<(Seq<char>, Seq<char>)>) -> bool {
    exists|i: int| 0 <= i < list.len() && list[i] == a
}

/// An event matches the expected one: same type, and every expected attribute among its
/// own.
pub open spec fn event_matches(
    expected: (Seq<char>, Seq<(Seq<char>, Seq<char>)>),
    ev: (Seq<char>, Seq<(Seq<char>, Seq<char>)>),
) -> bool {
    &&& expected.0 == ev.0
    &&& forall|j: int| 0 <= j < expected.1.len() ==> attr_in(#[trigger] expected.1[j], ev.1)
}

/// Whether the attribute is one of the list.
fn contains_attr(list: &Vec<Attribute>, a: &Attribute) -> (r: bool)
    ensures
        r == attr_in(attr_view(*a), attrs_view(list@)),
{
    let mut i: usize = 0;
    while i < list.len()
        invariant
            i <= list@.len(),
            forall|j: int| 0 <= j < i ==> attrs_view(list@)[j] != attr_view(*a),
        decreases list@.len() - i,
    {
        if list[i].key == a.key && list[i].value == a.value {
            assert(attrs_view(list@)[i as int] == attr_view(*a));
            return true;
        }
        i = i + 1;
    }
    false
}

/// Whether the event matches the expected one.
fn matches_event(expected: &Event, ev: &Event) -> (r: bool)
    ensures
        r == event_matches(event_view(*expected), event_view(*ev)),
{
    if expected.ty != ev.ty {
        return false;
    }
    let mut j: usize = 0;
    while j < expected.attributes.len()
        invariant
            j <= expected.attributes@.len(),
            expected.ty@ == ev.ty@,
            forall|k: int|
                0 <= k < j ==> attr_in(#[trigger] attrs_view(expected.attributes@)[k], attrs_view(
                    ev.attributes@,
                )),
        decreases expected.attributes@.len() - j,
    {
        if !contains_attr(&ev.attributes, &expected.attributes[j]) {
            assert(attrs_view(expected.attributes@)[j as int] == attr_view(
                expected.attributes@[j as int],
            ));
            assert(event_view(*expected).1[j as int] == attrs_view(expected.attributes@)[j as int]);
            assert(!attr_in(event_view(*expected).1[j as int], event_view(*ev).1));
            return false;
        }
        j = j + 1;
    }
    true
}

impl AppResponse {
    /// Checks if there is an Event that is a super-set of this.
    ///
    /// It has the same type, and all compare.attributes are included in it as well.
    /// You don't need to specify them all.
    pub fn has_event(&self, expected: &Event) -> (r: bool)
        ensures
            r == exists|i: int|
                0 <= i < self.events@.len() && event_matches(
                    event_view(*expected),
                    #[trigger] events_view(self.events@)[i],
                ),
    {
        let mut i: usize = 0;
        while i < self.events.len()
            invariant
                i <= self.events@.len(),
                forall|k: int|
                    0 <= k < i ==> !event_matches(
                        event_view(*expected),
                        #[trigger] events_view(self.events@)[k],
                    ),
            decreases self.events@.len() - i,
        {
            if matches_event(expected, &self.events[i]) {
                assert(events_view(self.events@)[i as int] == event_view(self.events@[i as int]));
                return true;
            }
            assert(events_view(self.events@)[i as int] == event_view(self.events@[i as int]));
            i = i + 1;
        }
        false
    }
}

/// The outcome of a sub-message once the reply, if there was one, has run: without a reply
/// the message's own outcome; after a successful message, its events followed by the
/// reply's, and the reply's data apart; after a failed one, the reply's response and data.
/// A failed reply fails the whole.
pub fn submsg_outcome(result: Result<AppResponse, String>, reply: Option<Result<AppResponse, String>>) -> (r:
    Result<(AppResponse, Option<Vec<u8>>), String>)
    ensures
        match (result, reply) {
            (result, None) => match result {
                Ok(a) => r matches Ok((b, d)) && events_view(b.events@) == events_view(a.events@)
                    && data_view(b.data) == data_view(a.data) && d is None,
                Err(e) => r matches Err(f) && f@ == e@,
            },
            (_, Some(Err(e))) => r matches Err(f) && f@ == e@,
            (Ok(a), Some(Ok(b))) => r matches Ok((c, d)) && events_view(c.events@) == events_view(
                a.events@,
            ) + events_view(b.events@) && data_view(c.data) == data_view(a.data) && data_view(d)
                == data_view(b.data),
            (Err(_), Some(Ok(b))) => r matches Ok((c, d)) && events_view(c.events@) == events_view(
                b.events@,
            ) && data_view(c.data) == data_view(b.data) && data_view(d) == data_view(b.data),
        },
{
    match (result, reply) {
        (Ok(a), None) => Ok((a, None)),
        (Err(e), None) => Err(e),
        (_, Some(Err(e))) => Err(e),
        (Ok(a), Some(Ok(b))) => {
            // do reply and combine it with the response of the sub-message
            let AppResponse { events, data } = a;
            let mut events = events;
            let ghost ea = events_view(events@);
            let reply_data = copy_data(&b.data);
            let mut more = b.events;
            let ghost eb = events_view(more@);
            let ghost before = events@;
            events.append(&mut more);
            assert(events_view(events@) =~= ea + eb);
            Ok((AppResponse { events, data }, reply_data))
        },
        (Err(_), Some(Ok(b))) => {
            let data = copy_data(&b.data);
            Ok((b, data))
        },
    }
}

/// Folds the outcome of one sub-message into the response of its sender: the events are
/// appended and the reply's data, if any, replaces the data so far.
pub fn fold_submsg(events: &mut Vec<Event>, data: Option<Vec<u8>>, subres: AppResponse, reply_data: Option<
    Vec<u8>,
>) -> (r: Option<Vec<u8>>)
    ensures
        events_view(final(events)@) == events_view(old(events)@) + events_view(subres.events@),
        data_view(r) == match reply_data {
            Some(d) => Some(d@),
            None => data_view(data),
        },
{
    let mut more = subres.events;
    let ghost before = events@;
    let ghost eb = events_view(more@);
    events.append(&mut more);
    assert(events_view(events@) =~= events_view(before) + eb);
    match reply_data {
        Some(d) => Some(d),
        None => data,
    }
}

} // verus!

verus! {

/// The character of a decimal digit.
pub open spec fn digit_char(d: nat) -> char {
    if d == 0 {
        '0'
    } else if d == 1 {
        '1'
    } else if d == 2 {
        '2'
    } else if d == 3 {
        '3'
    } else if d == 4 {
        '4'
    } else if d == 5 {
        '5'
    } else if d == 6 {
        '6'
    } else if d == 7 {
        '7'
    } else if d == 8 {
        '8'
    } else {
        '9'
    }
}

/// The decimal digits of a number, most significant first.
pub open spec fn decimal(n: nat) -> Seq<char>
    decreases n,
{
    if n < 10 {
        seq![digit_char(n)]
    } else {
        decimal(n / 10) + seq![digit_char(n % 10)]
    }
}

/// The text of one digit.
fn digit_str(d: u128) -> (r: &'static str)
    requires
        d < 10,
    ensures
        r@ == seq![digit_char(d as nat)],
{
    proof {
        reveal_strlit("0");
        reveal_strlit("1");
        reveal_strlit("2");
        reveal_strlit("3");
        reveal_strlit("4");
        reveal_strlit("5");
        reveal_strlit("6");
        reveal_strlit("7");
        reveal_strlit("8");
        reveal_strlit("9");
    }
    if d == 0 {
        "0"
    } else if d == 1 {
        "1"
    } else if d == 2 {
        "2"
    } else if d == 3 {
        "3"
    } else if d == 4 {
        "4"
    } else if d == 5 {
        "5"
    } else if d == 6 {
        "6"
    } else if d == 7 {
        "7"
    } else if d == 8 {
        "8"
    } else {
        "9"
    }
}

/// Appends the decimal digits of a number.
pub fn push_decimal(s: &mut String, n: u128)
    ensures
        final(s)@ == old(s)@ + decimal(n as nat),
    decreases n,
{
    if n >= 10 {
        push_decimal(s, n / 10);
    }
    s.append(digit_str(n % 10));
    proof {
        if n < 10 {
            assert(final(s)@ =~= old(s)@ + decimal(n as nat));
        } else {
            assert(final(s)@ =~= old(s)@ + decimal(n as nat));
        }
    }
}

/// The namespace of a contract's storage: `contract_data/` followed by its address.
pub fn contract_namespace(contract: &String) -> (r: Vec<u8>)
    ensures
        r@ == vstd::utf8::encode_utf8("contract_data/"@) + vstd::utf8::encode_utf8(contract@),
{
    let prefix = "contract_data/".as_bytes();
    let cs = contract.as_str();
    let a = cs.as_bytes();
    let mut name: Vec<u8> = Vec::new();
    name.extend_from_slice(prefix);
    name.extend_from_slice(a);
    proof {
        assert(prefix@ == "contract_data/".spec_bytes());
        assert(a@ == cs.spec_bytes());
    }
    assert(name@ =~= prefix@ + a@);
    name
}

/// The data a contract was instantiated with.
#[derive(Clone, Debug, PartialEq, Eq)]
pub struct ContractData {
    /// Identifier of stored contract code
    pub code_id: usize,
    /// Address of account who initially instantiated the contract
    pub creator: String,
    /// Optional address of account who can execute migrations
    pub admin: Option<String>,
    /// Metadata passed while contract instantiation
    pub label: String,
    /// Blockchain height in the moment of instantiating the contract
    pub created: u64,
}

/// What is known of a contract's data.
pub struct ContractDataView {
    pub code_id: usize,
    pub creator: Seq<char>,
    pub admin: Option<Seq<char>>,
    pub label: Seq<char>,
    pub created: u64,
}

/// The view of an optional address.
pub open spec fn opt_view(a: Option<String>) -> Option<Seq<char>> {
    match a {
        Some(s) => Some(s@),
        None => None,
    }
}

pub open spec fn contract_view(c: ContractData) -> ContractDataView {
    ContractDataView {
        code_id: c.code_id,
        creator: c.creator@,
        admin: opt_view(c.admin),
        label: c.label@,
        created: c.created,
    }
}

/// The contracts that exist, by address.
pub struct WasmState {
    contracts: crate::multitest::table::Table<String, ContractData>,
}

impl WasmState {
    pub closed spec fn contracts(&self) -> Map<Seq<char>, ContractDataView> {
        self.contracts.view().map_values(|c: ContractData| contract_view(c))
    }

    pub closed spec fn wf(&self) -> bool {
        self.contracts.wf()
    }

    pub fn new() -> (r: Self)
        ensures
            r.wf(),
            r.contracts() == Map::<Seq<char>, ContractDataView>::empty(),
    {
        let r = WasmState { contracts: crate::multitest::table::Table::new() };
        assert(r.contracts() =~= Map::<Seq<char>, ContractDataView>::empty());
        r
    }
}

/// The address of the `n`-th contract, counting from zero.
pub open spec fn contract_address(n: nat) -> Seq<char> {
    "Contract #"@ + decimal(n)
}

/// The contract module's keeper: it knows which codes are stored, under the ids 1 to
/// the number of codes.
pub struct WasmKeeper {
    code_count: usize,
}

impl WasmKeeper {
    /// The number of stored codes.
    pub closed spec fn code_count(&self) -> nat {
        self.code_count as nat
    }

    pub fn new() -> (r: Self)
        ensures
            r.code_count() == 0,
    {
        WasmKeeper { code_count: 0 }
    }

    /// Stores a new code and returns its id: one more than the number of codes so far.
    pub fn store_code(&mut self) -> (r: usize)
        requires
            old(self).code_count() < usize::MAX,
        ensures
            r == old(self).code_count() + 1,
            final(self).code_count() == r,
    {
        let idx = self.code_count + 1;
        self.code_count = idx;
        idx
    }

    /// A code is stored under the id.
    pub fn has_code(&self, code_id: u64) -> (r: bool)
        ensures
            r == (1 <= code_id <= self.code_count()),
    {
        code_id >= 1 && (code_id as u128) <= (self.code_count as u128)
    }

    /// The address for the next contract: `Contract #` and the number of contracts.
    pub fn next_address(&self, state: &WasmState) -> (r: String)
        requires
            state.wf(),
        ensures
            r@ == contract_address(state.contracts().len()),
    {
        let count = state.contracts.len();
        let mut name = "Contract #".to_owned();
        push_decimal(&mut name, count as u128);
        proof {
            assert(state.contracts().dom() =~= state.contracts.view().dom());
        }
        name
    }

    /// Registers a contract of a stored code under the next address.
    pub fn register_contract(
        &self,
        state: &mut WasmState,
        code_id: u64,
        creator: String,
        admin: Option<String>,
        label: String,
        created: u64,
    ) -> (r: Result<String, WasmError>)
        requires
            old(state).wf(),
        ensures
            final(state).wf(),
            r is Err <==> !(1 <= code_id <= self.code_count()),
            r matches Err(e) ==> e == WasmError::UnregisteredCodeId && final(state).contracts()
                == old(state).contracts(),
            r matches Ok(addr) ==> addr@ == contract_address(old(state).contracts().len())
                && final(state).contracts() == old(state).contracts().insert(
                addr@,
                ContractDataView {
                    code_id: code_id as usize,
                    creator: creator@,
                    admin: opt_view(admin),
                    label: label@,
                    created,
                },
            ),
    {
        if !self.has_code(code_id) {
            return Err(WasmError::UnregisteredCodeId);
        }
        let addr = self.next_address(state);
        let info = ContractData { code_id: code_id as usize, creator, admin, label, created };
        let ghost iv = contract_view(info);
        self.save_contract(state, &addr, info);
        Ok(addr)
    }

    /// The data of the contract at the address.
    pub fn load_contract(&self, state: &WasmState, address: &String) -> (r: Result<
        ContractData,
        WasmError,
    >)
        requires
            state.wf(),
        ensures
            r is Ok <==> state.contracts().contains_key(address@),
            r matches Ok(c) ==> contract_view(c) == state.contracts()[address@],
            r matches Err(e) ==> e == WasmError::ContractNotFound,
    {
        match state.contracts.get(address) {
            Some(c) => Ok(
                ContractData {
                    code_id: c.code_id,
                    creator: c.creator.clone(),
                    admin: match &c.admin {
                        Some(a) => Some(a.clone()),
                        None => None,
                    },
                    label: c.label.clone(),
                    created: c.created,
                },
            ),
            None => Err(WasmError::ContractNotFound),
        }
    }

    /// Saves the data of the contract at the address.
    pub fn save_contract(&self, state: &mut WasmState, address: &String, contract: ContractData)
        requires
            old(state).wf(),
        ensures
            final(state).wf(),
            final(state).contracts() == old(state).contracts().insert(
                address@,
                contract_view(contract),
            ),
    {
        let ghost cv = contract_view(contract);
        state.contracts.set(address.clone(), contract);
        assert(state.contracts() =~= old(state).contracts().insert(address@, cv));
    }
}

} // verus!

verus! {

/// The messages to the contract module.
#[derive(Clone, Debug, PartialEq, Eq)]
pub enum WasmMsg {
    Execute { contract_addr: String, msg: Vec<u8>, funds: Vec<Coin> },
    Instantiate { admin: Option<String>, code_id: u64, msg: Vec<u8>, funds: Vec<Coin>, label: String },
    Migrate { contract_addr: String, new_code_id: u64, msg: Vec<u8> },
}

/// The entry point of a contract that a message calls.
#[derive(Clone, Copy, Debug, PartialEq, Eq, Structural)]
pub enum EntryPoint {
    Execute,
    Instantiate,
    Migrate,
}

/// The call a contract message comes to: the funds to move from the sender to the
/// contract first, then the entry point to call with the message, and the event the chain
/// reports for it.
#[derive(Debug)]
pub struct WasmCall {
    pub contract: String,
    pub entry: EntryPoint,
    pub funds: Vec<Coin>,
    pub msg: Vec<u8>,
    pub custom_event: Event,
}

/// The event of a call of `entry` on `contract`, with the code id where there is one.
pub open spec fn call_event(ty: Seq<char>, contract: Seq<char>, code_id: Option<u64>) -> (
    Seq<char>,
    Seq<(Seq<char>, Seq<char>)>,
) {
    match code_id {
        None => (ty, seq![(CONTRACT_ATTR@, contract)]),
        Some(c) => (ty, seq![(CONTRACT_ATTR@, contract), ("code_id"@, decimal(c as nat))]),
    }
}

/// An event that names the contract, and the code id if one is given.
fn make_call_event(ty: &str, contract: &String, code_id: Option<u64>) -> (r: Event)
    ensures
        event_view(r) == call_event(ty@, contract@, code_id),
{
    let mut attributes: Vec<Attribute> = Vec::new();
    attributes.push(Attribute { key: CONTRACT_ATTR.to_owned(), value: contract.clone() });
    match code_id {
        Some(c) => {
            let mut v = String::new();
            push_decimal(&mut v, c as u128);
            attributes.push(Attribute { key: "code_id".to_owned(), value: v });
        },
        None => {},
    }
    proof {
        reveal_strlit("_contract_addr");
    }
    let r = Event { ty: ty.to_owned(), attributes };
    assert(attrs_view(r.attributes@) =~= call_event(ty@, contract@, code_id).1);
    r
}

/// Why a contract message did not reach its contract: the message was refused, or the
/// bank could not move its funds.
#[derive(Clone, Debug, PartialEq, Eq)]
pub enum CallError {
    Wasm(WasmError),
    Bank(BankError),
}

/// The funds a contract message sends along.
pub open spec fn msg_funds(m: WasmMsg) -> Seq<Coin> {
    match m {
        WasmMsg::Execute { funds, .. } => funds@,
        WasmMsg::Instantiate { funds, .. } => funds@,
        WasmMsg::Migrate { .. } => Seq::empty(),
    }
}

/// An execution or a migration names the contract it is for, and the chain checks that
/// address before anything else.
pub open spec fn names_contract(m: WasmMsg) -> bool {
    m is Execute || m is Migrate
}

/// The contract a message is for, the contracts being `contracts`: a new contract gets the
/// next address.
pub open spec fn call_recipient(contracts: Map<Seq<char>, ContractDataView>, m: WasmMsg) -> Seq<char> {
    match m {
        WasmMsg::Execute { contract_addr, .. } => contract_addr@,
        WasmMsg::Instantiate { .. } => contract_address(contracts.len()),
        WasmMsg::Migrate { contract_addr, .. } => contract_addr@,
    }
}

impl WasmKeeper {
    /// What deciding `wasm_msg` of `sender` at block `height` answers, the contracts being
    /// `before` and then `after`: an execution calls the named contract, which must be
    /// stored, with the funds; an instantiation needs a label and a stored code, and
    /// registers the next contract; a migration needs a stored code, the contract, and its
    /// admin as the sender, and moves the contract to the new code. A refused message
    /// changes no contract.
    pub open spec fn wasm_decided(
        self,
        before: Map<Seq<char>, ContractDataView>,
        after: Map<Seq<char>, ContractDataView>,
        height: u64,
        sender: Seq<char>,
        wasm_msg: WasmMsg,
        r: Result<WasmCall, WasmError>,
    ) -> bool {
        match wasm_msg {
            WasmMsg::Execute { contract_addr, msg, funds } => {
                &&& after == before
                &&& (!before.contains_key(contract_addr@) ==> (r matches Err(e) && e
                    == WasmError::ContractNotFound))
                &&& (before.contains_key(contract_addr@) ==> (r matches Ok(call) && call.contract@
                    == contract_addr@ && call.entry == EntryPoint::Execute && call.funds@ == funds@
                    && call.msg@ == msg@ && event_view(call.custom_event) == call_event(
                    "execute"@,
                    contract_addr@,
                    None,
                )))
            },
            WasmMsg::Instantiate { admin, code_id, msg, funds, label } => {
                let addr = contract_address(before.len());
                let ok_code = 1 <= code_id <= self.code_count();
                &&& (label@.len() == 0 ==> (r matches Err(e) && e == WasmError::LabelRequired))
                &&& (label@.len() != 0 && !ok_code ==> (r matches Err(e) && e
                    == WasmError::UnregisteredCodeId))
                &&& (r is Err ==> after == before)
                &&& (label@.len() != 0 && ok_code ==> (r matches Ok(call) && call.contract@
                    == addr && call.entry == EntryPoint::Instantiate && call.funds@ == funds@
                    && call.msg@ == msg@ && event_view(call.custom_event) == call_event(
                    "instantiate"@,
                    addr,
                    Some(code_id),
                ) && after == before.insert(
                    addr,
                    ContractDataView {
                        code_id: code_id as usize,
                        creator: sender,
                        admin: opt_view(admin),
                        label: label@,
                        created: height,
                    },
                )))
            },
            WasmMsg::Migrate { contract_addr, new_code_id, msg } => {
                let c = before[contract_addr@];
                let ok_code = 1 <= new_code_id <= self.code_count();
                let exists = before.contains_key(contract_addr@);
                &&& (!ok_code ==> (r matches Err(e) && e == WasmError::MigrateToUnregisteredCode))
                &&& (ok_code && !exists ==> (r matches Err(e) && e == WasmError::ContractNotFound))
                &&& (ok_code && exists && c.admin != Some(sender) ==> (r matches Err(e)
                    && error_view(e) == WasmErrorView::OnlyAdminCanMigrate { admin: c.admin }))
                &&& (r is Err ==> after == before)
                &&& (ok_code && exists && c.admin == Some(sender) ==> (r matches Ok(call)
                    && call.contract@ == contract_addr@ && call.entry == EntryPoint::Migrate
                    && call.funds@.len() == 0 && call.msg@ == msg@ && event_view(
                    call.custom_event,
                ) == call_event("migrate"@, contract_addr@, Some(new_code_id)) && after == before.insert(
                    contract_addr@,
                    ContractDataView { code_id: new_code_id as usize, ..c },
                )))
            },
        }
    }

    /// Moves funds from the sender to a contract, as the chain does before it runs the
    /// contract (after `execute_wasm` decided the call): nothing moves when there are no
    /// funds; otherwise the bank sends them, and the call follows only if it did.
    pub fn send(
        &self,
        bank: &SimpleBank,
        store: &mut BankState,
        sender: &String,
        recipient: &String,
        amount: Vec<Coin>,
    ) -> (r: Result<(), BankError>)
        requires
            old(store).wf(),
            send_ok(*old(store), sender@, recipient@, coins_view(amount@)),
        ensures
            final(store).wf(),
            amount@.len() == 0 ==> r is Ok && final(store).balances() == old(store).balances(),
            amount@.len() > 0 ==> ({
                let sub = sub_coins(old(store).balance_of(sender@), coins_view(amount@));
                &&& (r is Ok <==> sub is Some)
                &&& (r is Err ==> final(store).balances() == old(store).balances())
                &&& (r is Ok && sender@ != recipient@ ==> normalizes(
                    final(store).balance_of(sender@),
                    sub->0,
                ) && normalizes(
                    final(store).balance_of(recipient@),
                    add_coins(old(store).balance_of(recipient@), coins_view(amount@)),
                ))
            }),
    {
        if amount.len() == 0 {
            Ok(())
        } else {
            bank.send(store, sender, recipient, amount)
        }
    }

    /// Decides a contract message of `sender` at block `height`: which contract is called
    /// with which funds, or why the message is refused. An instantiation first registers
    /// the contract; a migration first moves it to the new code.
    pub fn execute_wasm(&self, state: &mut WasmState, height: u64, sender: &String, wasm_msg: WasmMsg) -> (r:
        Result<WasmCall, WasmError>)
        requires
            old(state).wf(),
        ensures
            final(state).wf(),
            self.wasm_decided(old(state).contracts(), final(state).contracts(), height, sender@, wasm_msg, r),

    {
        match wasm_msg {
            WasmMsg::Execute { contract_addr, msg, funds } => {
                // the contract must be stored at the address to be called
                match self.load_contract(state, &contract_addr) {
                    Ok(_) => {},
                    Err(e) => {
                        return Err(e);
                    },
                }
                let custom_event = make_call_event("execute", &contract_addr, None);
                Ok(
                    WasmCall {
                        contract: contract_addr,
                        entry: EntryPoint::Execute,
                        funds,
                        msg,
                        custom_event,
                    },
                )
            },
            WasmMsg::Instantiate { admin, code_id, msg, funds, label } => {
                if label.as_str().unicode_len() == 0 {
                    return Err(WasmError::LabelRequired);
                }
                let contract_addr = match self.register_contract(
                    state,
                    code_id,
                    sender.clone(),
                    admin,
                    label,
                    height,
                ) {
                    Ok(a) => a,
                    Err(e) => {
                        return Err(e);
                    },
                };
                let custom_event = make_call_event("instantiate", &contract_addr, Some(code_id));
                Ok(
                    WasmCall {
                        contract: contract_addr,
                        entry: EntryPoint::Instantiate,
                        funds,
                        msg,
                        custom_event,
                    },
                )
            },
            WasmMsg::Migrate { contract_addr, new_code_id, msg } => {
                // check admin status and update the stored code_id
                if !self.has_code(new_code_id) {
                    return Err(WasmError::MigrateToUnregisteredCode);
                }
                let mut data = match self.load_contract(state, &contract_addr) {
                    Ok(d) => d,
                    Err(e) => {
                        return Err(e);
                    },
                };
                let is_admin = match &data.admin {
                    Some(a) => *a == *sender,
                    None => false,
                };
                if !is_admin {
                    return Err(WasmError::OnlyAdminCanMigrate { admin: data.admin });
                }
                data.code_id = new_code_id as usize;
                let ghost dv = contract_view(data);
                self.save_contract(state, &contract_addr, data);
                proof {
                    let c = old(state).contracts()[contract_addr@];
                    assert(dv == ContractDataView { code_id: new_code_id as usize, ..c });
                }
                let custom_event = make_call_event("migrate", &contract_addr, Some(new_code_id));
                Ok(
                    WasmCall {
                        contract: contract_addr,
                        entry: EntryPoint::Migrate,
                        funds: Vec::new(),
                        msg,
                        custom_event,
                    },
                )
            },
        }
    }

    /// Handles a contract message of `sender` at block `height` up to the contract call.
    /// An execution or a migration first needs its contract address accepted by the
    /// chain's address check, whose outcome (with the chain's words on a refusal) is
    /// `address_check`. Then the call is decided as `execute_wasm` does, and its funds
    /// move from the sender to the contract, so that the contract sees them when it runs.
    /// The call is handed back only when every step succeeds.
    pub fn handle_wasm(
        &self,
        state: &mut WasmState,
        bank: &SimpleBank,
        bank_store: &mut BankState,
        height: u64,
        sender: &String,
        wasm_msg: WasmMsg,
        address_check: Result<(), String>,
    ) -> (r: Result<WasmCall, CallError>)
        requires
            old(state).wf(),
            old(bank_store).wf(),
            send_ok(
                *old(bank_store),
                sender@,
                call_recipient(old(state).contracts(), wasm_msg),
                coins_view(msg_funds(wasm_msg)),
            ),
        ensures
            final(state).wf(),
            final(bank_store).wf(),
            names_contract(wasm_msg) && address_check is Err ==> (r matches Err(CallError::Wasm(e))
                && e == WasmError::InvalidAddress { msg: address_check->Err_0 })
                && final(state).contracts() == old(state).contracts()
                && final(bank_store).balances() == old(bank_store).balances(),
            !(names_contract(wasm_msg) && address_check is Err) ==> match r {
                Ok(call) => {
                    let sub = sub_coins(old(bank_store).balance_of(sender@), coins_view(call.funds@));
                    &&& self.wasm_decided(old(state).contracts(), final(state).contracts(), height, sender@, wasm_msg, Ok(call))
                    &&& (call.funds@.len() == 0 ==> final(bank_store).balances() == old(bank_store).balances())
                    &&& (call.funds@.len() > 0 ==> sub is Some)
                    &&& (call.funds@.len() > 0 && sender@ != call.contract@ ==> normalizes(
                        final(bank_store).balance_of(sender@),
                        sub->0,
                    ) && normalizes(
                        final(bank_store).balance_of(call.contract@),
                        add_coins(old(bank_store).balance_of(call.contract@), coins_view(call.funds@)),
                    ))
                },
                Err(CallError::Wasm(e)) => self.wasm_decided(old(state).contracts(), final(state).contracts(), height, sender@, wasm_msg, Err(e))
                    && final(bank_store).balances() == old(bank_store).balances(),
                Err(CallError::Bank(e)) => {
                    &&& e == BankError::Overflow
                    &&& msg_funds(wasm_msg).len() > 0
                    &&& sub_coins(old(bank_store).balance_of(sender@), coins_view(msg_funds(wasm_msg))) is None
                    &&& final(bank_store).balances() == old(bank_store).balances()
                    &&& exists|call: WasmCall| #[trigger] self.wasm_decided(old(state).contracts(), final(state).contracts(), height, sender@, wasm_msg, Ok(call))
                },
            },
    {
        let ghost before = state.contracts();
        let ghost m = wasm_msg;
        let named = match &wasm_msg {
            WasmMsg::Execute { .. } => true,
            WasmMsg::Migrate { .. } => true,
            WasmMsg::Instantiate { .. } => false,
        };
        if named {
            match address_check {
                Err(msg) => {
                    return Err(CallError::Wasm(WasmError::InvalidAddress { msg }));
                },
                Ok(()) => {},
            }
        }
        let call = match self.execute_wasm(state, height, sender, wasm_msg) {
            Ok(c) => c,
            Err(e) => {
                return Err(CallError::Wasm(e));
            },
        };
        proof {
            assert(call.contract@ == call_recipient(before, m));
            assert(call.funds@ == msg_funds(m));
        }
        let funds = copy_coins(&call.funds);
        match self.send(bank, bank_store, sender, &call.contract, funds) {
            Ok(()) => Ok(call),
            Err(e) => {
                proof {
                    assert(self.wasm_decided(before, state.contracts(), height, sender@, m, Ok(call)));
                }
                Err(CallError::Bank(e))
            },
        }
    }
}

impl WasmKeeper {
    /// A migration moves the contract to the new code: when a migration of a contract is
    /// accepted, the contract is then stored with the new code id, and its creator, admin,
    /// label and creation height are what they were; every other contract is untouched.
    /// Only the admin migrates, and only to stored code.
    pub proof fn lemma_migration_moves_code(
        self,
        before: Map<Seq<char>, ContractDataView>,
        after: Map<Seq<char>, ContractDataView>,
        height: u64,
        sender: Seq<char>,
        wasm_msg: WasmMsg,
        r: Result<WasmCall, WasmError>,
    )
        requires
            wasm_msg is Migrate,
            self.wasm_decided(before, after, height, sender, wasm_msg, r),
            r is Ok,
        ensures
            ({
                let addr = wasm_msg->Migrate_contract_addr@;
                let code = wasm_msg->Migrate_new_code_id;
                &&& before.contains_key(addr)
                &&& before[addr].admin == Some(sender)
                &&& 1 <= code <= self.code_count()
                &&& after.contains_key(addr)
                &&& after[addr].code_id == code
                &&& after[addr].creator == before[addr].creator
                &&& after[addr].admin == before[addr].admin
                &&& after[addr].label == before[addr].label
                &&& after[addr].created == before[addr].created
                &&& forall|a: Seq<char>|
                    a != addr ==> (#[trigger] after.contains_key(a) == before.contains_key(a))
                        && (before.contains_key(a) ==> after[a] == before[a])
            }),
    {
    }

    /// An instantiation registers exactly one new contract, under the next address, with
    /// the code, creator, admin, label and height of the message; the contracts already
    /// stored are untouched.
    pub proof fn lemma_instantiation_registers(
        self,
        before: Map<Seq<char>, ContractDataView>,
        after: Map<Seq<char>, ContractDataView>,
        height: u64,
        sender: Seq<char>,
        wasm_msg: WasmMsg,
        r: Result<WasmCall, WasmError>,
    )
        requires
            wasm_msg is Instantiate,
            self.wasm_decided(before, after, height, sender, wasm_msg, r),
            r is Ok,
        ensures
            ({
                let addr = r->Ok_0.contract@;
                &&& addr == contract_address(before.len())
                &&& after.contains_key(addr)
                &&& after[addr].code_id == wasm_msg->Instantiate_code_id
                &&& after[addr].creator == sender
                &&& after[addr].admin == opt_view(wasm_msg->Instantiate_admin)
                &&& after[addr].label == wasm_msg->Instantiate_label@
                &&& after[addr].created == height
                &&& forall|a: Seq<char>|
                    a != addr ==> (#[trigger] after.contains_key(a) == before.contains_key(a))
                        && (before.contains_key(a) ==> after[a] == before[a])
            }),
    {
    }
}

/// Puts the instantiation record of the new contract in the answer's data: the address and
/// the data the contract answered (none counts as empty).
pub fn init_response<M>(res: &mut Response<M>, contract_address: &String)
    ensures
        final(res).messages == old(res).messages,
        final(res).attributes == old(res).attributes,
        final(res).events == old(res).events,
        final(res).data matches Some(d) && d@ == crate::multitest::instantiate::encode_record(
            vstd::utf8::encode_utf8(contract_address@),
            match old(res).data {
                Some(v) => v@,
                None => Seq::<u8>::empty(),
            },
        ),
{
    let empty: Vec<u8> = Vec::new();
    let new_data = match &res.data {
        Some(v) => crate::multitest::instantiate::encode_instantiate_data(
            contract_address.as_str(),
            v.as_slice(),
        ),
        None => crate::multitest::instantiate::encode_instantiate_data(
            contract_address.as_str(),
            empty.as_slice(),
        ),
    };
    res.data = Some(new_data);
}

/// The address of a new contract, read from the data of its instantiation.
pub fn parse_contract_addr(data: &Option<Vec<u8>>) -> (r: Result<String, WasmError>)
    ensures
        match data {
            None => r == Err::<String, WasmError>(WasmError::NoDataResponse),
            Some(d) => match crate::multitest::instantiate::decode_record(d@) {
                None => r == Err::<String, WasmError>(WasmError::InvalidInstantiateData),
                Some((a, _)) => if a.len() == 0 {
                    r == Err::<String, WasmError>(WasmError::NoContractAddress)
                } else {
                    r matches Ok(s) && vstd::utf8::encode_utf8(s@) == a
                },
            },
        },
{
    let bin = match data {
        Some(d) => d,
        None => {
            return Err(WasmError::NoDataResponse);
        },
    };
    // parse the protobuf struct
    let (address, _) = match crate::multitest::instantiate::decode_instantiate_data(bin.as_slice()) {
        Some(x) => x,
        None => {
            return Err(WasmError::InvalidInstantiateData);
        },
    };
    if address.as_str().unicode_len() == 0 {
        proof {
            assert(address@ =~= Seq::<char>::empty());
            assert(vstd::utf8::encode_utf8(Seq::<char>::empty()) =~= Seq::<u8>::empty()) by {
                reveal_with_fuel(vstd::utf8::encode_utf8, 1);
            }
        }
        return Err(WasmError::NoContractAddress);
    }
    proof {
        if vstd::utf8::encode_utf8(address@).len() == 0 {
            vstd::utf8::encode_utf8_decode_utf8(address@);
            assert(vstd::utf8::decode_utf8(Seq::<u8>::empty()) =~= Seq::<char>::empty()) by {
                reveal_with_fuel(vstd::utf8::decode_utf8, 1);
            }
            assert(vstd::utf8::encode_utf8(address@) =~= Seq::<u8>::empty());
        }
    }
    Ok(address)
}

} // verus!
