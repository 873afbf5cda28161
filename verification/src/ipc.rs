//! The Sway IPC wire format, and what Sway's replies and events mean.
use vstd::prelude::*;
use crate::json::{Json, JsonView, clone_json, json_of, parse_json};
use crate::text::join;

verus! {

broadcast use vstd::string::group_string_axioms;

/// The bytes every message starts with: `i3-ipc`.
pub open spec fn magic() -> Seq<u8> {
    seq![105u8, 51u8, 45u8, 105u8, 112u8, 99u8]
}

/// `n` as four little-endian bytes.
pub open spec fn le32(n: nat) -> Seq<u8> {
    seq![
        (n % 256) as u8,
        ((n / 256) % 256) as u8,
        ((n / 65536) % 256) as u8,
        ((n / 16777216) % 256) as u8,
    ]
}

/// The number four little-endian bytes encode.
pub open spec fn le32_value(b: Seq<u8>) -> nat {
    (b[0] + 256 * b[1] + 65536 * b[2] + 16777216 * b[3]) as nat
}

/// A framed message: magic, payload length (modulo 2^32), message type,
/// payload.
pub open spec fn message_bytes(typ: u32, payload: Seq<u8>) -> Seq<u8> {
    magic() + le32(payload.len() % 4294967296) + le32(typ as nat) + payload
}

/// The length of a message header.
pub const HEADER_LEN: usize = 14;

fn push_le32(buf: &mut Vec<u8>, n: u32)
    ensures
        final(buf)@ == old(buf)@ + le32(n as nat),
{
    buf.push((n % 256) as u8);
    buf.push(((n / 256) % 256) as u8);
    buf.push(((n / 65536) % 256) as u8);
    buf.push(((n / 16777216) % 256) as u8);
    assert(buf@ =~= old(buf)@ + le32(n as nat));
}

/// Frames a message of type `typ` carrying `payload`.
pub fn encode_message(typ: u32, payload: &[u8]) -> (buf: Vec<u8>)
    ensures
        buf@ == message_bytes(typ, payload@),
{
    let mut buf: Vec<u8> = Vec::new();
    buf.push(105u8);
    buf.push(51u8);
    buf.push(45u8);
    buf.push(105u8);
    buf.push(112u8);
    buf.push(99u8);
    assert(buf@ =~= magic());
    let len: u32 = ((payload.len() as u64) % 0x1_0000_0000u64) as u32;
    push_le32(&mut buf, len);
    push_le32(&mut buf, typ);
    buf.extend_from_slice(payload);
    assert(buf@ =~= message_bytes(typ, payload@));
    buf
}

/// The payload length a message header announces.
pub fn payload_length(header: &[u8; 14]) -> (n: u32)
    ensures
        n == le32_value(header@.subrange(6, 10)),
{
    let b0 = header[6] as u32;
    let b1 = header[7] as u32;
    let b2 = header[8] as u32;
    let b3 = header[9] as u32;
    b0 + 256 * b1 + 65536 * b2 + 16777216 * b3
}

proof fn lemma_le32_roundtrip(n: nat)
    requires
        n < 4294967296,
    ensures
        le32_value(le32(n)) == n,
{
    let b = le32(n);
    assert(b[0] == n % 256);
    assert(b[1] == (n / 256) % 256);
    assert(b[2] == (n / 65536) % 256);
    assert(b[3] == (n / 16777216) % 256);
    assert(n % 256 + 256 * ((n / 256) % 256) + 65536 * ((n / 65536) % 256) + 16777216 * ((n
        / 16777216) % 256) == n) by (nonlinear_arith)
        requires
            n < 4294967296,
    ;
}

/// Reading a framed message's header gives back what was framed: the magic,
/// the payload length (modulo 2^32), the type, and then the payload itself.
pub proof fn lemma_message_roundtrip(typ: u32, payload: Seq<u8>)
    ensures
        message_bytes(typ, payload).subrange(0, 6) == magic(),
        le32_value(message_bytes(typ, payload).subrange(6, 10)) == payload.len() % 4294967296,
        le32_value(message_bytes(typ, payload).subrange(10, 14)) == typ,
        message_bytes(typ, payload).subrange(14, message_bytes(typ, payload).len() as int) == payload,
{
    let m = message_bytes(typ, payload);
    assert(m.subrange(0, 6) =~= magic());
    assert(m.subrange(6, 10) =~= le32(payload.len() % 4294967296));
    assert(m.subrange(10, 14) =~= le32(typ as nat));
    assert(m.subrange(14, m.len() as int) =~= payload);
    lemma_le32_roundtrip(payload.len() % 4294967296);
    lemma_le32_roundtrip(typ as nat);
}


/// Whether one entry of a command reply reports success (`"success": true`).
pub open spec fn result_succeeded(r: JsonView) -> bool {
    r.at("success"@).as_bool() == Some(true)
}

/// What a reply to a command says.
#[derive(Debug, Clone, Copy, PartialEq, Eq)]
pub enum CommandOutcome {
    /// The reply is not a list of results.
    Malformed,
    /// The result at `index` is the first that did not succeed.
    Failed { index: usize },
    /// Every result succeeded.
    Succeeded,
}

/// Whether `r` is what a reply `resp` to a run-command message says: every
/// result succeeded, the first that did not, or `Malformed` when the reply
/// is no list.
pub open spec fn outcome_of(resp: JsonView, r: CommandOutcome) -> bool {
    match resp {
        JsonView::Array(items) => match r {
            CommandOutcome::Succeeded => forall|i: int|
                0 <= i < items.len() ==> result_succeeded(#[trigger] items[i]),
            CommandOutcome::Failed { index } => index < items.len() && !result_succeeded(
                items[index as int],
            ) && forall|j: int| 0 <= j < index ==> result_succeeded(#[trigger] items[j]),
            CommandOutcome::Malformed => false,
        },
        _ => r == CommandOutcome::Malformed,
    }
}

/// Reads the reply to a run-command message.
pub fn command_outcome(resp: &Json) -> (r: CommandOutcome)
    ensures
        outcome_of(resp@, r),
{
    match resp.as_array() {
        None => CommandOutcome::Malformed,
        Some(items) => {
            let ghost iv = items@.map_values(|x: Json| x@);
            let mut i: usize = 0;
            while i < items.len()
                invariant
                    0 <= i <= items.len(),
                    resp@ == JsonView::Array(iv),
                    iv == items@.map_values(|x: Json| x@),
                    forall|j: int| 0 <= j < i ==> result_succeeded(#[trigger] iv[j]),
                decreases items.len() - i,
            {
                let ok = match items[i].get("success") {
                    Some(v) => match v.as_bool() {
                        Some(b) => b,
                        None => false,
                    },
                    None => false,
                };
                assert(iv[i as int] == items@[i as int]@);
                if !ok {
                    return CommandOutcome::Failed { index: i };
                }
                i += 1;
            }
            CommandOutcome::Succeeded
        },
    }
}

/// Reads the bytes of a reply to a run-command message: what it says, and,
/// when a result failed, that result's `error` member (if it has one).
/// Bytes that are not JSON are a malformed reply.
pub fn command_reply(bytes: &[u8]) -> (r: (CommandOutcome, Option<Json>))
    ensures
        match json_of(bytes@) {
            None => r.0 == CommandOutcome::Malformed && r.1 is None,
            Some(v) => outcome_of(v, r.0) && match r.0 {
                CommandOutcome::Failed { index } => match r.1 {
                    Some(e) => v->Array_0[index as int].field("error"@) == Some(e@),
                    None => v->Array_0[index as int].field("error"@) is None,
                },
                _ => r.1 is None,
            },
        },
{
    match parse_json(bytes) {
        None => (CommandOutcome::Malformed, None),
        Some(v) => {
            let outcome = command_outcome(&v);
            match outcome {
                CommandOutcome::Failed { index } => {
                    let err = match &v {
                        Json::Array(items) => {
                            assert(v@->Array_0[index as int] == items@[index as int]@);
                            match items[index].get("error") {
                                Some(e) => Some(clone_json(e)),
                                None => None,
                            }
                        },
                        _ => None,
                    };
                    (outcome, err)
                },
                _ => (outcome, None),
            }
        },
    }
}

/// The names of the workspaces listed (entries without a string name are
/// skipped).
pub open spec fn names_of(items: Seq<JsonView>) -> Seq<Seq<char>>
    decreases items.len(),
{
    if items.len() == 0 {
        Seq::empty()
    } else {
        names_of(items.drop_last()) + match items.last().at("name"@).as_str() {
            Some(s) => seq![s],
            None => Seq::empty(),
        }
    }
}

fn member_str<'a>(v: &'a Json, key: &str) -> (r: Option<&'a str>)
    ensures
        match r {
            Some(s) => v@.at(key@).as_str() == Some(s@),
            None => v@.at(key@).as_str() is None,
        },
{
    match v.get(key) {
        Some(x) => x.as_str(),
        None => None,
    }
}

/// The names in a reply to a get-workspaces message; `None` when the reply
/// is not a list.
pub fn workspace_names(resp: &Json) -> (r: Option<Vec<String>>)
    ensures
        match resp@ {
            JsonView::Array(items) => r is Some && r->Some_0@.map_values(|s: String| s@)
                == names_of(items),
            _ => r is None,
        },
{
    match resp.as_array() {
        None => None,
        Some(items) => {
            let ghost iv = items@.map_values(|x: Json| x@);
            let mut names: Vec<String> = Vec::new();
            let mut i: usize = 0;
            while i < items.len()
                invariant
                    0 <= i <= items.len(),
                    resp@ == JsonView::Array(iv),
                    iv == items@.map_values(|x: Json| x@),
                    names@.map_values(|s: String| s@) == names_of(iv.take(i as int)),
                decreases items.len() - i,
            {
                assert(iv.take(i + 1).drop_last() =~= iv.take(i as int));
                assert(iv.take(i + 1).last() == items@[i as int]@);
                let ghost before = names@.map_values(|s: String| s@);
                match member_str(&items[i], "name") {
                    Some(s) => {
                        names.push(String::from_str(s));
                        assert(names@.map_values(|s: String| s@) =~= before + seq![s@]);
                    },
                    None => {
                        assert(before + Seq::<Seq<char>>::empty() =~= before);
                    },
                }
                i += 1;
            }
            assert(iv.take(items.len() as int) =~= iv);
            Some(names)
        },
    }
}

/// Whether a listed workspace is the focused one.
pub open spec fn is_focused(w: JsonView) -> bool {
    w.at("focused"@).as_bool() == Some(true)
}

/// The name of the first focused workspace in `items`; `None` when no
/// workspace is focused or the focused one has no string name.
pub open spec fn focused_name(items: Seq<JsonView>) -> Option<Seq<char>> {
    if exists|k: int| 0 <= k < items.len() && is_focused(#[trigger] items[k]) {
        let k = choose|k: int|
            0 <= k < items.len() && is_focused(#[trigger] items[k]) && forall|j: int|
                0 <= j < k ==> !is_focused(#[trigger] items[j]);
        items[k].at("name"@).as_str()
    } else {
        None
    }
}

/// The focused workspace in a reply to a get-workspaces message: `None` when
/// the reply is not a list, `Some(None)` when no workspace is focused.
pub fn focused_workspace(resp: &Json) -> (r: Option<Option<String>>)
    ensures
        match resp@ {
            JsonView::Array(items) => r is Some && match r->Some_0 {
                Some(s) => focused_name(items) == Some(s@),
                None => focused_name(items) is None,
            },
            _ => r is None,
        },
{
    match resp.as_array() {
        None => None,
        Some(items) => {
            let ghost iv = items@.map_values(|x: Json| x@);
            let mut i: usize = 0;
            while i < items.len()
                invariant
                    0 <= i <= items.len(),
                    resp@ == JsonView::Array(iv),
                    iv == items@.map_values(|x: Json| x@),
                    forall|j: int| 0 <= j < i ==> !is_focused(#[trigger] iv[j]),
                decreases items.len() - i,
            {
                let focused = match items[i].get("focused") {
                    Some(v) => match v.as_bool() {
                        Some(b) => b,
                        None => false,
                    },
                    None => false,
                };
                assert(iv[i as int] == items@[i as int]@);
                if focused {
                    proof {
                        let k = choose|k: int|
                            0 <= k < iv.len() && is_focused(#[trigger] iv[k]) && forall|j: int|
                                0 <= j < k ==> !is_focused(#[trigger] iv[j]);
                        assert(is_focused(iv[i as int]));
                        if k < i {
                            assert(!is_focused(iv[k]));
                        }
                        if k > i {
                            assert(!is_focused(iv[i as int]));
                        }
                        assert(k == i);
                    }
                    return match member_str(&items[i], "name") {
                        Some(s) => Some(Some(String::from_str(s))),
                        None => Some(None),
                    };
                }
                i += 1;
            }
            Some(None)
        },
    }
}

/// The names in the bytes of a reply to a get-workspaces message; `None`
/// when they are not JSON or not a list.
pub fn reply_workspace_names(bytes: &[u8]) -> (r: Option<Vec<String>>)
    ensures
        match json_of(bytes@) {
            Some(JsonView::Array(items)) => r is Some && r->Some_0@.map_values(|s: String| s@)
                == names_of(items),
            _ => r is None,
        },
{
    match parse_json(bytes) {
        None => None,
        Some(v) => workspace_names(&v),
    }
}

/// The focused workspace in the bytes of a reply to a get-workspaces
/// message: `None` when they are not JSON or not a list, `Some(None)` when no
/// workspace is focused.
pub fn reply_focused_workspace(bytes: &[u8]) -> (r: Option<Option<String>>)
    ensures
        match json_of(bytes@) {
            Some(JsonView::Array(items)) => r is Some && match r->Some_0 {
                Some(s) => focused_name(items) == Some(s@),
                None => focused_name(items) is None,
            },
            _ => r is None,
        },
{
    match parse_json(bytes) {
        None => None,
        Some(v) => focused_workspace(&v),
    }
}

/// A window event: what changed, and the container and process involved.
pub struct WindowEvent {
    pub change: String,
    pub con_id: i64,
    pub pid: i64,
}

pub struct WindowEventView {
    pub change: Seq<char>,
    pub con_id: i64,
    pub pid: i64,
}

impl View for WindowEvent {
    type V = WindowEventView;

    open spec fn view(&self) -> WindowEventView {
        WindowEventView { change: self.change@, con_id: self.con_id, pid: self.pid }
    }
}

/// An event from a subscription.
pub enum SwayEvent {
    Window(WindowEvent),
    Workspace { change: String, name: String },
    Other,
}

pub enum SwayEventView {
    Window(WindowEventView),
    Workspace { change: Seq<char>, name: Seq<char> },
    Other,
}

impl View for SwayEvent {
    type V = SwayEventView;

    open spec fn view(&self) -> SwayEventView {
        match self {
            SwayEvent::Window(w) => SwayEventView::Window(w@),
            SwayEvent::Workspace { change, name } => SwayEventView::Workspace {
                change: change@,
                name: name@,
            },
            SwayEvent::Other => SwayEventView::Other,
        }
    }
}

/// `v["change"]` as a string, or the empty string.
pub open spec fn change_of(v: JsonView) -> Seq<char> {
    match v.at("change"@).as_str() {
        Some(s) => s,
        None => Seq::empty(),
    }
}

/// `v["container"][key]` as an integer, or 0.
pub open spec fn container_int(v: JsonView, key: Seq<char>) -> i64 {
    match v.at("container"@).at(key).as_i64() {
        Some(n) => n,
        None => 0,
    }
}

/// The window event an event message carries: present exactly when the
/// message names a container with a non-zero id.
pub open spec fn window_event_spec(v: JsonView) -> Option<WindowEventView> {
    if container_int(v, "id"@) != 0 {
        Some(
            WindowEventView {
                change: change_of(v),
                con_id: container_int(v, "id"@),
                pid: container_int(v, "pid"@),
            },
        )
    } else {
        None
    }
}

fn change_string(v: &Json) -> (s: String)
    ensures
        s@ == change_of(v@),
{
    match member_str(v, "change") {
        Some(s) => String::from_str(s),
        None => String::new(),
    }
}

fn container_member_int(v: &Json, key: &str) -> (n: i64)
    ensures
        n == container_int(v@, key@),
{
    let c = v.get("container");
    match c {
        Some(c) => match c.get(key) {
            Some(x) => match x.as_i64() {
                Some(n) => n,
                None => 0,
            },
            None => 0,
        },
        None => 0,
    }
}

/// The window event in a message of a window subscription, if any.
pub fn window_event_of(v: &Json) -> (r: Option<WindowEvent>)
    ensures
        match r {
            Some(e) => window_event_spec(v@) == Some(e@),
            None => window_event_spec(v@) is None,
        },
{
    let change = change_string(v);
    let con_id = container_member_int(v, "id");
    let pid = container_member_int(v, "pid");
    if con_id != 0 {
        Some(WindowEvent { change, con_id, pid })
    } else {
        None
    }
}

/// The event a message of a window-and-workspace subscription carries: a
/// window event when it names a container (with a non-zero id), otherwise a
/// workspace event when it names the current workspace.
pub open spec fn sway_event_spec(v: JsonView) -> Option<SwayEventView> {
    if v.field("container"@) is Some {
        match window_event_spec(v) {
            Some(w) => Some(SwayEventView::Window(w)),
            None => None,
        }
    } else {
        match v.at("current"@).at("name"@).as_str() {
            Some(name) => Some(SwayEventView::Workspace { change: change_of(v), name }),
            None => None,
        }
    }
}

/// The event in a message of a window-and-workspace subscription, if any.
pub fn sway_event_of(v: &Json) -> (r: Option<SwayEvent>)
    ensures
        match r {
            Some(e) => sway_event_spec(v@) == Some(e@),
            None => sway_event_spec(v@) is None,
        },
{
    let change = change_string(v);
    if v.get("container").is_some() {
        match window_event_of(v) {
            Some(w) => Some(SwayEvent::Window(w)),
            None => None,
        }
    } else {
        let name = match v.get("current") {
            Some(cur) => member_str(cur, "name"),
            None => None,
        };
        match name {
            Some(n) => Some(SwayEvent::Workspace { change, name: String::from_str(n) }),
            None => None,
        }
    }
}


/// The window event in the bytes of a message of a window subscription:
/// `None` when they are not JSON, `Some(None)` when the message carries no
/// window event.
pub fn window_event_message(bytes: &[u8]) -> (r: Option<Option<WindowEvent>>)
    ensures
        match json_of(bytes@) {
            None => r is None,
            Some(v) => r is Some && match r->Some_0 {
                Some(e) => window_event_spec(v) == Some(e@),
                None => window_event_spec(v) is None,
            },
        },
{
    match parse_json(bytes) {
        None => None,
        Some(v) => Some(window_event_of(&v)),
    }
}

/// The event in the bytes of a message of a window-and-workspace
/// subscription: `None` when they are not JSON, `Some(None)` when the
/// message carries no event the library reads.
pub fn sway_event_message(bytes: &[u8]) -> (r: Option<Option<SwayEvent>>)
    ensures
        match json_of(bytes@) {
            None => r is None,
            Some(v) => r is Some && match r->Some_0 {
                Some(e) => sway_event_spec(v) == Some(e@),
                None => sway_event_spec(v) is None,
            },
        },
{
    match parse_json(bytes) {
        None => None,
        Some(v) => Some(sway_event_of(&v)),
    }
}

#[verifier::external_type_specification]
#[verifier::external_body]
pub struct ExJsonError(serde_json::Error);

/// The lowercase hexadecimal digit of `d < 16`.
pub open spec fn hex_digit(d: nat) -> char {
    if d < 10 {
        (d + 48) as char
    } else {
        (d + 87) as char
    }
}

/// How JSON writes one character inside a string: the double quote and the
/// backslash behind a backslash; backspace, tab, line feed, form feed and
/// carriage return as `\b`, `\t`, `\n`, `\f`, `\r`; any other character
/// below U+0020 as `\u00` and two lowercase hex digits; every other
/// character as itself.
pub open spec fn json_escape_char(c: char) -> Seq<char> {
    let u = c as u32;
    if u == 0x22 || u == 0x5c {
        seq!['\u{5c}', c]
    } else if u == 0x08 {
        seq!['\u{5c}', 'b']
    } else if u == 0x09 {
        seq!['\u{5c}', 't']
    } else if u == 0x0a {
        seq!['\u{5c}', 'n']
    } else if u == 0x0c {
        seq!['\u{5c}', 'f']
    } else if u == 0x0d {
        seq!['\u{5c}', 'r']
    } else if u < 0x20 {
        seq!['\u{5c}', 'u', '0', '0', hex_digit((u / 16) as nat), hex_digit((u % 16) as nat)]
    } else {
        seq![c]
    }
}

/// The characters of `s`, each as JSON writes it inside a string.
pub open spec fn json_escaped(s: Seq<char>) -> Seq<char>
    decreases s.len(),
{
    if s.len() == 0 {
        Seq::empty()
    } else {
        json_escaped(s.drop_last()) + json_escape_char(s.last())
    }
}

/// `s` as a JSON string: escaped, between double quotes.
pub open spec fn json_string(s: Seq<char>) -> Seq<char> {
    seq!['\u{22}'] + json_escaped(s) + seq!['\u{22}']
}

/// The compact JSON array of strings: `[`, the JSON strings separated by
/// `,`, `]`.
pub open spec fn json_string_list(items: Seq<Seq<char>>) -> Seq<char> {
    seq!['['] + join(items.map_values(|s: Seq<char>| json_string(s)), seq![',']) + seq![']']
}

/// Serialises a list of strings as a JSON array with `serde_json::to_string`.
///
/// The contract claims what serde_json's documentation and source show for
/// this type: serialising fails only when a `Serialize` impl fails or a map
/// has a non-string key, so a list of strings always serialises; the compact
/// formatter writes `[`, the elements separated by `,`, and `]`; a string is
/// written between double quotes, escaped as its escape table says
/// (`json_escape_char`).
#[verifier::external_body]
fn to_json_string_list(items: &Vec<String>) -> (r: Result<String, serde_json::Error>)
    ensures
        match r {
            Ok(s) => s@ == json_string_list(items@.map_values(|x: String| x@)),
            Err(_) => false,
        },
{
    serde_json::to_string(items)
}

/// A subscription payload could not be written.
#[derive(Debug, Clone, Copy, PartialEq, Eq)]
pub enum SubscribeError {
    Serialize,
}

/// The payload of a subscribe message for the given event types: the JSON
/// array of their names.
pub fn subscription_payload(types: &Vec<String>) -> (r: Result<String, SubscribeError>)
    ensures
        r matches Ok(s) && s@ == json_string_list(types@.map_values(|x: String| x@)),
{
    match to_json_string_list(types) {
        Ok(s) => Ok(s),
        Err(_) => Err(SubscribeError::Serialize),
    }
}

} // verus!
