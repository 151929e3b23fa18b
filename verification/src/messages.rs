//! What travels between browsers and the authority.

use crate::json;
use crate::json::JsonView;
use crate::seqs;
use crate::seqs::Text;
use crate::text;
use crate::wire;
use crate::wire::Field;
use vstd::prelude::*;

pub mod laws;

verus! {

/// A message of a room, addressed to or coming from one of its clients.
#[derive(Debug)]
pub struct Message {
    pub roomid: String,
    pub clientid: String,
    pub msg: String,
}

#[verifier::ext_equal]
pub struct MessageView {
    pub roomid: Text,
    pub clientid: Text,
    pub msg: Text,
}

impl View for Message {
    type V = MessageView;

    open spec fn view(&self) -> MessageView {
        MessageView { roomid: self.roomid@, clientid: self.clientid@, msg: self.msg@ }
    }
}

impl Clone for Message {
    fn clone(&self) -> (r: Message)
        ensures
            r@ == self@,
    {
        Message {
            roomid: self.roomid.clone(),
            clientid: self.clientid.clone(),
            msg: self.msg.clone(),
        }
    }
}

impl Default for Message {
    fn default() -> (r: Message)
        ensures
            r@ == (MessageView { roomid: Seq::empty(), clientid: Seq::empty(), msg: Seq::empty() }),
    {
        Message { roomid: String::new(), clientid: String::new(), msg: String::new() }
    }
}

/// A WebSocket message from the client.
///
/// Fields absent from the frame default to `""`: a `send` frame carries only `cmd`
/// and `msg`, a `register` frame only `cmd`, `roomid` and `clientid`. The epoch is
/// the one that the frame gives as a text, if it does.
#[derive(Debug)]
pub struct WsClientMsg {
    pub cmd: String,
    pub roomid: String,
    pub clientid: String,
    pub msg: String,
    pub ver: Option<u8>,
    pub token: String,
    pub epoch: Option<String>,
}

#[verifier::ext_equal]
pub struct WsClientMsgView {
    pub cmd: Text,
    pub roomid: Text,
    pub clientid: Text,
    pub msg: Text,
    pub ver: Option<u8>,
    pub token: Text,
    pub epoch: Option<Text>,
}

impl View for WsClientMsg {
    type V = WsClientMsgView;

    open spec fn view(&self) -> WsClientMsgView {
        WsClientMsgView {
            cmd: self.cmd@,
            roomid: self.roomid@,
            clientid: self.clientid@,
            msg: self.msg@,
            ver: self.ver,
            token: self.token@,
            epoch: seqs::opt_view(self.epoch),
        }
    }
}

impl Clone for WsClientMsg {
    fn clone(&self) -> (r: WsClientMsg)
        ensures
            r@ == self@,
    {
        WsClientMsg {
            cmd: self.cmd.clone(),
            roomid: self.roomid.clone(),
            clientid: self.clientid.clone(),
            msg: self.msg.clone(),
            ver: self.ver,
            token: self.token.clone(),
            epoch: match &self.epoch {
                Some(epoch) => Some(epoch.clone()),
                None => None,
            },
        }
    }
}

impl Default for WsClientMsg {
    fn default() -> (r: WsClientMsg)
        ensures
            r@ == (WsClientMsgView {
                cmd: Seq::empty(),
                roomid: Seq::empty(),
                clientid: Seq::empty(),
                msg: Seq::empty(),
                ver: None,
                token: Seq::empty(),
                epoch: None,
            }),
    {
        WsClientMsg {
            cmd: String::new(),
            roomid: String::new(),
            clientid: String::new(),
            msg: String::new(),
            ver: None,
            token: String::new(),
            epoch: None,
        }
    }
}

/// The text that an optional value is; nothing stands for the empty text.
pub open spec fn text_or_empty(value: Option<JsonView>) -> Result<Text, Text> {
    match value {
        Some(v) => json::text_of(v),
        None => Ok(Seq::empty()),
    }
}

/// The version that an optional value is.
pub open spec fn version_or_none(value: Option<JsonView>) -> Result<Option<u8>, Text> {
    match value {
        Some(v) => json::optional_byte_of(v),
        None => Ok(None),
    }
}

/// The epoch that an optional value names.
pub open spec fn epoch_or_none(value: Option<JsonView>) -> Option<Text> {
    match value {
        Some(JsonView::Text(epoch)) => Some(epoch),
        _ => None,
    }
}

/// The member of an object, if it is there.
pub open spec fn find(members: Map<Text, JsonView>, name: Text) -> Option<JsonView> {
    if members.contains_key(name) {
        Some(members[name])
    } else {
        None
    }
}

/// The element of a list, if it is there.
pub open spec fn nth(items: Seq<JsonView>, i: int) -> Option<JsonView> {
    if i < items.len() {
        Some(items[i])
    } else {
        None
    }
}

impl WsClientMsgView {
    /// A frame as JSON: an object with the fields under their names, or a list with
    /// the fields in their order.
    pub open spec fn decode(value: JsonView) -> Result<WsClientMsgView, Text> {
        match value {
            JsonView::Object(members) => Self::decode_object(members),
            JsonView::List(items) => Self::decode_list(items),
            _ => Err(json::wrong_type(value, "struct WsClientMsg"@)),
        }
    }

    /// The fields of an object; the first wrong one in the order of the names is an
    /// error, and other names mean nothing.
    pub open spec fn decode_object(members: Map<Text, JsonView>) -> Result<WsClientMsgView, Text> {
        match text_or_empty(find(members, "clientid"@)) {
            Err(e) => Err(e),
            Ok(clientid) => match text_or_empty(find(members, "cmd"@)) {
                Err(e) => Err(e),
                Ok(cmd) => match text_or_empty(find(members, "msg"@)) {
                    Err(e) => Err(e),
                    Ok(msg) => match text_or_empty(find(members, "roomid"@)) {
                        Err(e) => Err(e),
                        Ok(roomid) => match text_or_empty(find(members, "token"@)) {
                            Err(e) => Err(e),
                            Ok(token) => match version_or_none(find(members, "ver"@)) {
                                Err(e) => Err(e),
                                Ok(ver) => Ok(
                                    WsClientMsgView {
                                        cmd,
                                        roomid,
                                        clientid,
                                        msg,
                                        ver,
                                        token,
                                        epoch: epoch_or_none(find(members, "epoch"@)),
                                    },
                                ),
                            },
                        },
                    },
                },
            },
        }
    }

    /// The fields of a list; the first wrong one is an error, and so is a list that
    /// is too long.
    pub open spec fn decode_list(items: Seq<JsonView>) -> Result<WsClientMsgView, Text> {
        match text_or_empty(nth(items, 0)) {
            Err(e) => Err(e),
            Ok(cmd) => match text_or_empty(nth(items, 1)) {
                Err(e) => Err(e),
                Ok(roomid) => match text_or_empty(nth(items, 2)) {
                    Err(e) => Err(e),
                    Ok(clientid) => match text_or_empty(nth(items, 3)) {
                        Err(e) => Err(e),
                        Ok(msg) => match version_or_none(nth(items, 4)) {
                            Err(e) => Err(e),
                            Ok(ver) => match text_or_empty(nth(items, 5)) {
                                Err(e) => Err(e),
                                Ok(token) => if items.len() > 7 {
                                    Err(
                                        "invalid length "@ + text::decimal(items.len())
                                            + ", expected fewer elements in array"@,
                                    )
                                } else {
                                    Ok(
                                        WsClientMsgView {
                                            cmd,
                                            roomid,
                                            clientid,
                                            msg,
                                            ver,
                                            token,
                                            epoch: epoch_or_none(nth(items, 6)),
                                        },
                                    )
                                },
                            },
                        },
                    },
                },
            },
        }
    }

    /// What a text frame says, or why it says nothing.
    pub open spec fn read(frame: Text) -> Result<WsClientMsgView, Text> {
        match json::json_parse(frame) {
            Ok(value) => Self::decode(value),
            Err(e) => Err(e),
        }
    }
}

/// What a value holds, if there is one.
spec fn opt_contents(value: Option<&serde_json::Value>) -> Option<JsonView> {
    match value {
        Some(v) => Some(json::json_contents(*v)),
        None => None,
    }
}

fn read_text(value: Option<&serde_json::Value>) -> (r: Result<String, String>)
    ensures
        seqs::result_view(r) == text_or_empty(opt_contents(value)),
{
    match value {
        Some(v) => json::to_text(v),
        None => Ok(String::new()),
    }
}

fn read_version(value: Option<&serde_json::Value>) -> (r: Result<Option<u8>, String>)
    ensures
        seqs::result_view(r) == version_or_none(opt_contents(value)),
{
    match value {
        Some(v) => json::to_optional_byte(v),
        None => Ok(None),
    }
}

fn read_epoch(value: Option<&serde_json::Value>) -> (r: Option<String>)
    ensures
        seqs::opt_view(r) == epoch_or_none(opt_contents(value)),
{
    match value {
        Some(v) => match json::as_text(v) {
            Some(epoch) => Some(epoch.to_string()),
            None => None,
        },
        None => None,
    }
}

fn element<'a>(items: &'a Vec<serde_json::Value>, i: usize) -> (r: Option<&'a serde_json::Value>)
    ensures
        opt_contents(r) == nth(json::all_contents(items@), i as int),
{
    if i < items.len() {
        Some(&items[i])
    } else {
        None
    }
}

impl WsClientMsg {
    /// Reads a text frame.
    pub fn from_text(frame: &str) -> (r: Result<WsClientMsg, String>)
        ensures
            seqs::result_view(r) == WsClientMsgView::read(frame@),
    {
        match json::parse(frame) {
            Ok(value) => WsClientMsg::from_value(&value),
            Err(e) => Err(e),
        }
    }

    /// Reads a frame that was parsed as JSON.
    pub fn from_value(value: &serde_json::Value) -> (r: Result<WsClientMsg, String>)
        ensures
            seqs::result_view(r) == WsClientMsgView::decode(json::json_contents(*value)),
    {
        if let Some(items) = json::elements(value) {
            return WsClientMsg::from_list(items);
        }
        match json::check_object(value) {
            Ok(_) => WsClientMsg::from_object(value),
            Err(message) => {
                let ghost before = "invalid type: "@ + json::json_unexpected(
                    json::json_contents(*value),
                ) + ", expected "@;
                proof {
                    reveal_strlit("a map");
                }
                let n: usize = message.as_str().unicode_len();
                let front = message.as_str().substring_char(0, n - 5);
                assert(front@ =~= before);
                let mut error = front.to_string();
                error.append("struct WsClientMsg");
                Err(error)
            },
        }
    }

    fn from_object(value: &serde_json::Value) -> (r: Result<WsClientMsg, String>)
        requires
            json::json_contents(*value) is Object,
        ensures
            seqs::result_view(r) == WsClientMsgView::decode_object(
                json::json_contents(*value)->Object_0,
            ),
    {
        let clientid = match read_text(json::member(value, "clientid")) {
            Err(e) => {
                return Err(e);
            },
            Ok(clientid) => clientid,
        };
        let cmd = match read_text(json::member(value, "cmd")) {
            Err(e) => {
                return Err(e);
            },
            Ok(cmd) => cmd,
        };
        let epoch = read_epoch(json::member(value, "epoch"));
        let msg = match read_text(json::member(value, "msg")) {
            Err(e) => {
                return Err(e);
            },
            Ok(msg) => msg,
        };
        let roomid = match read_text(json::member(value, "roomid")) {
            Err(e) => {
                return Err(e);
            },
            Ok(roomid) => roomid,
        };
        let token = match read_text(json::member(value, "token")) {
            Err(e) => {
                return Err(e);
            },
            Ok(token) => token,
        };
        match read_version(json::member(value, "ver")) {
            Err(e) => Err(e),
            Ok(ver) => Ok(WsClientMsg { cmd, roomid, clientid, msg, ver, token, epoch }),
        }
    }

    fn from_list(items: &Vec<serde_json::Value>) -> (r: Result<WsClientMsg, String>)
        ensures
            seqs::result_view(r) == WsClientMsgView::decode_list(json::all_contents(items@)),
    {
        let cmd = match read_text(element(items, 0)) {
            Err(e) => {
                return Err(e);
            },
            Ok(cmd) => cmd,
        };
        let roomid = match read_text(element(items, 1)) {
            Err(e) => {
                return Err(e);
            },
            Ok(roomid) => roomid,
        };
        let clientid = match read_text(element(items, 2)) {
            Err(e) => {
                return Err(e);
            },
            Ok(clientid) => clientid,
        };
        let msg = match read_text(element(items, 3)) {
            Err(e) => {
                return Err(e);
            },
            Ok(msg) => msg,
        };
        let ver = match read_version(element(items, 4)) {
            Err(e) => {
                return Err(e);
            },
            Ok(ver) => ver,
        };
        let token = match read_text(element(items, 5)) {
            Err(e) => {
                return Err(e);
            },
            Ok(token) => token,
        };
        if items.len() > 7 {
            let mut error = "invalid length ".to_string();
            error.append(text::to_decimal(items.len() as u64).as_str());
            error.append(", expected fewer elements in array");
            return Err(error);
        }
        let epoch = read_epoch(element(items, 6));
        Ok(WsClientMsg { cmd, roomid, clientid, msg, ver, token, epoch })
    }
}

/// A truth value in JSON.
pub open spec fn json_bool(b: bool) -> Text {
    if b {
        "true"@
    } else {
        "false"@
    }
}

fn write_bool(out: &mut String, b: bool)
    ensures
        final(out)@ == old(out)@ + json_bool(b),
{
    if b {
        out.append("true");
    } else {
        out.append("false");
    }
}

fn write_text(out: &mut String, value: &str)
    ensures
        final(out)@ == old(out)@ + json::json_quoted(value@),
{
    out.append(json::quote(value).as_str());
}

/// The answer to a registration: how the room runs and, in a direct room, whether
/// the client is the one that offers.
#[derive(Debug)]
pub struct V2Registered {
    pub control: &'static str,
    pub roomid: String,
    pub epoch: String,
    pub mode: &'static str,
    pub is_initiator: Option<bool>,
}

impl Clone for V2Registered {
    fn clone(&self) -> (r: V2Registered)
        ensures
            r.control@ == self.control@,
            r.roomid@ == self.roomid@,
            r.epoch@ == self.epoch@,
            r.mode@ == self.mode@,
            r.is_initiator == self.is_initiator,
    {
        V2Registered {
            control: self.control,
            roomid: self.roomid.clone(),
            epoch: self.epoch.clone(),
            mode: self.mode,
            is_initiator: self.is_initiator,
        }
    }
}

impl V2Registered {
    pub open spec fn wire(&self) -> Text {
        wire_registered(
            self.control@,
            self.roomid@,
            self.epoch@,
            self.mode@,
            self.is_initiator,
        )
    }

    pub fn to_wire(&self) -> (r: String)
        ensures
            r@ == self.wire(),
            wire::fields_of(r@) == Some(
                wire::registered_fields(
                    self.control@,
                    self.roomid@,
                    self.epoch@,
                    self.mode@,
                    self.is_initiator,
                ),
            ),
    {
        proof {
            wire::law_registered_frame_carries_its_fields(
                self.control@,
                self.roomid@,
                self.epoch@,
                self.mode@,
                self.is_initiator,
            );
        }
        let mut out = "{\"control\":".to_string();
        write_text(&mut out, self.control);
        out.append(",\"roomid\":");
        write_text(&mut out, self.roomid.as_str());
        out.append(",\"epoch\":");
        write_text(&mut out, self.epoch.as_str());
        out.append(",\"mode\":");
        write_text(&mut out, self.mode);
        if let Some(is_initiator) = self.is_initiator {
            out.append(",\"is_initiator\":");
            write_bool(&mut out, is_initiator);
        }
        out.append("}");
        out
    }
}

/// The wire form of a [`V2Registered`].
pub open spec fn wire_registered(
    control: Text,
    roomid: Text,
    epoch: Text,
    mode: Text,
    is_initiator: Option<bool>,
) -> Text {
    let front = "{\"control\":"@ + json::json_quoted(control) + ",\"roomid\":"@
        + json::json_quoted(roomid) + ",\"epoch\":"@ + json::json_quoted(epoch) + ",\"mode\":"@
        + json::json_quoted(mode);
    (match is_initiator {
        Some(b) => front + ",\"is_initiator\":"@ + json_bool(b),
        None => front,
    }) + "}"@
}

/// The news that the client is now the one that offers.
#[derive(Debug)]
pub struct V2Promoted {
    pub control: &'static str,
    pub roomid: String,
    pub epoch: String,
    pub is_initiator: bool,
}

impl Clone for V2Promoted {
    fn clone(&self) -> (r: V2Promoted)
        ensures
            r.control@ == self.control@,
            r.roomid@ == self.roomid@,
            r.epoch@ == self.epoch@,
            r.is_initiator == self.is_initiator,
    {
        V2Promoted {
            control: self.control,
            roomid: self.roomid.clone(),
            epoch: self.epoch.clone(),
            is_initiator: self.is_initiator,
        }
    }
}

impl V2Promoted {
    pub open spec fn wire(&self) -> Text {
        wire_offer(self.control@, self.roomid@, self.epoch@, self.is_initiator)
    }

    pub fn to_wire(&self) -> (r: String)
        ensures
            r@ == self.wire(),
            wire::fields_of(r@) == Some(
                seq![
                    ("control"@, Field::Text(self.control@)),
                    ("roomid"@, Field::Text(self.roomid@)),
                    ("epoch"@, Field::Text(self.epoch@)),
                    ("is_initiator"@, Field::Flag(self.is_initiator)),
                ],
            ),
    {
        proof {
            wire::law_offer_frame_carries_its_fields(
                self.control@,
                self.roomid@,
                self.epoch@,
                self.is_initiator,
            );
        }
        write_offer(self.control, &self.roomid, &self.epoch, self.is_initiator)
    }
}

/// The wire form of a [`V2Promoted`] or a [`V2Downgrade`].
pub open spec fn wire_offer(control: Text, roomid: Text, epoch: Text, is_initiator: bool) -> Text {
    "{\"control\":"@ + json::json_quoted(control) + ",\"roomid\":"@ + json::json_quoted(roomid)
        + ",\"epoch\":"@ + json::json_quoted(epoch) + ",\"is_initiator\":"@ + json_bool(
        is_initiator,
    ) + "}"@
}

fn write_offer(control: &str, roomid: &String, epoch: &String, is_initiator: bool) -> (r: String)
    ensures
        r@ == wire_offer(control@, roomid@, epoch@, is_initiator),
{
    let mut out = "{\"control\":".to_string();
    write_text(&mut out, control);
    out.append(",\"roomid\":");
    write_text(&mut out, roomid.as_str());
    out.append(",\"epoch\":");
    write_text(&mut out, epoch.as_str());
    out.append(",\"is_initiator\":");
    write_bool(&mut out, is_initiator);
    out.append("}");
    out
}

/// The news that the room runs on a worker from here on.
#[derive(Debug)]
pub struct V2Upgrade {
    pub control: &'static str,
    pub roomid: String,
    pub epoch: String,
}

impl Clone for V2Upgrade {
    fn clone(&self) -> (r: V2Upgrade)
        ensures
            r.control@ == self.control@,
            r.roomid@ == self.roomid@,
            r.epoch@ == self.epoch@,
    {
        V2Upgrade {
            control: self.control,
            roomid: self.roomid.clone(),
            epoch: self.epoch.clone(),
        }
    }
}

impl V2Upgrade {
    pub open spec fn wire(&self) -> Text {
        wire_upgrade(self.control@, self.roomid@, self.epoch@)
    }

    pub fn to_wire(&self) -> (r: String)
        ensures
            r@ == self.wire(),
            wire::fields_of(r@) == Some(
                seq![
                    ("control"@, Field::Text(self.control@)),
                    ("roomid"@, Field::Text(self.roomid@)),
                    ("epoch"@, Field::Text(self.epoch@)),
                ],
            ),
    {
        proof {
            wire::law_upgrade_frame_carries_its_fields(self.control@, self.roomid@, self.epoch@);
        }
        let mut out = "{\"control\":".to_string();
        write_text(&mut out, self.control);
        out.append(",\"roomid\":");
        write_text(&mut out, self.roomid.as_str());
        out.append(",\"epoch\":");
        write_text(&mut out, self.epoch.as_str());
        out.append("}");
        out
    }
}

/// The wire form of a [`V2Upgrade`].
pub open spec fn wire_upgrade(control: Text, roomid: Text, epoch: Text) -> Text {
    "{\"control\":"@ + json::json_quoted(control) + ",\"roomid\":"@ + json::json_quoted(roomid)
        + ",\"epoch\":"@ + json::json_quoted(epoch) + "}"@
}

/// The news that the room is direct again, and whether the client offers.
#[derive(Debug)]
pub struct V2Downgrade {
    pub control: &'static str,
    pub roomid: String,
    pub epoch: String,
    pub is_initiator: bool,
}

impl Clone for V2Downgrade {
    fn clone(&self) -> (r: V2Downgrade)
        ensures
            r.control@ == self.control@,
            r.roomid@ == self.roomid@,
            r.epoch@ == self.epoch@,
            r.is_initiator == self.is_initiator,
    {
        V2Downgrade {
            control: self.control,
            roomid: self.roomid.clone(),
            epoch: self.epoch.clone(),
            is_initiator: self.is_initiator,
        }
    }
}

impl V2Downgrade {
    pub open spec fn wire(&self) -> Text {
        wire_offer(self.control@, self.roomid@, self.epoch@, self.is_initiator)
    }

    pub fn to_wire(&self) -> (r: String)
        ensures
            r@ == self.wire(),
            wire::fields_of(r@) == Some(
                seq![
                    ("control"@, Field::Text(self.control@)),
                    ("roomid"@, Field::Text(self.roomid@)),
                    ("epoch"@, Field::Text(self.epoch@)),
                    ("is_initiator"@, Field::Flag(self.is_initiator)),
                ],
            ),
    {
        proof {
            wire::law_offer_frame_carries_its_fields(
                self.control@,
                self.roomid@,
                self.epoch@,
                self.is_initiator,
            );
        }
        write_offer(self.control, &self.roomid, &self.epoch, self.is_initiator)
    }
}

/// The news that the room has failed.
#[derive(Debug)]
pub struct V2RoomFailed {
    pub control: &'static str,
    pub roomid: String,
    pub reason: String,
}

impl Clone for V2RoomFailed {
    fn clone(&self) -> (r: V2RoomFailed)
        ensures
            r.control@ == self.control@,
            r.roomid@ == self.roomid@,
            r.reason@ == self.reason@,
    {
        V2RoomFailed {
            control: self.control,
            roomid: self.roomid.clone(),
            reason: self.reason.clone(),
        }
    }
}

impl V2RoomFailed {
    pub open spec fn wire(&self) -> Text {
        wire_room_failed(self.control@, self.roomid@, self.reason@)
    }

    pub fn to_wire(&self) -> (r: String)
        ensures
            r@ == self.wire(),
            wire::fields_of(r@) == Some(
                seq![
                    ("control"@, Field::Text(self.control@)),
                    ("roomid"@, Field::Text(self.roomid@)),
                    ("reason"@, Field::Text(self.reason@)),
                ],
            ),
    {
        proof {
            wire::law_failure_frame_carries_its_fields(self.control@, self.roomid@, self.reason@);
        }
        let mut out = "{\"control\":".to_string();
        write_text(&mut out, self.control);
        out.append(",\"roomid\":");
        write_text(&mut out, self.roomid.as_str());
        out.append(",\"reason\":");
        write_text(&mut out, self.reason.as_str());
        out.append("}");
        out
    }
}

/// The wire form of a [`V2RoomFailed`].
pub open spec fn wire_room_failed(control: Text, roomid: Text, reason: Text) -> Text {
    "{\"control\":"@ + json::json_quoted(control) + ",\"roomid\":"@ + json::json_quoted(roomid)
        + ",\"reason\":"@ + json::json_quoted(reason) + "}"@
}

/// A message sent to a client on behalf of another client. Both fields are always
/// serialized: a relay carries `error: ""`, an error carries `msg: ""`.
#[derive(Debug)]
pub struct WsServerMsg {
    pub msg: String,
    pub error: String,
}

/// The wire form of a [`WsServerMsg`].
pub open spec fn wire_server(msg: Text, error: Text) -> Text {
    "{\"msg\":"@ + json::json_quoted(msg) + ",\"error\":"@ + json::json_quoted(error) + "}"@
}

/// The wire form of a relay payload.
pub open spec fn wire_msg(msg: Text) -> Text {
    wire_server(msg, Seq::empty())
}

/// The wire form of an error.
pub open spec fn wire_err(error: Text) -> Text {
    wire_server(Seq::empty(), error)
}

impl Default for WsServerMsg {
    fn default() -> (r: WsServerMsg)
        ensures
            r.msg@ == Seq::<char>::empty(),
            r.error@ == Seq::<char>::empty(),
    {
        WsServerMsg { msg: String::new(), error: String::new() }
    }
}

impl Clone for WsServerMsg {
    fn clone(&self) -> (r: WsServerMsg)
        ensures
            r.msg@ == self.msg@,
            r.error@ == self.error@,
    {
        WsServerMsg {
            msg: self.msg.clone(),
            error: self.error.clone(),
        }
    }
}

impl WsServerMsg {
    pub open spec fn wire(&self) -> Text {
        wire_server(self.msg@, self.error@)
    }

    /// A server frame carrying the relay payload `msg`.
    pub fn msg(msg: &str) -> (r: WsServerMsg)
        ensures
            r.msg@ == msg@,
            r.error@ == Seq::<char>::empty(),
    {
        WsServerMsg { msg: msg.to_string(), error: String::new() }
    }

    /// A server frame carrying `error`.
    pub fn err(error: &str) -> (r: WsServerMsg)
        ensures
            r.msg@ == Seq::<char>::empty(),
            r.error@ == error@,
    {
        WsServerMsg { msg: String::new(), error: error.to_string() }
    }

    pub fn to_wire(&self) -> (r: String)
        ensures
            r@ == self.wire(),
            wire::fields_of(r@) == Some(
                seq![
                    ("msg"@, Field::Text(self.msg@)),
                    ("error"@, Field::Text(self.error@)),
                ],
            ),
    {
        proof {
            wire::law_server_frame_carries_its_texts(self.msg@, self.error@);
        }
        let mut out = "{\"msg\":".to_string();
        write_text(&mut out, self.msg.as_str());
        out.append(",\"error\":");
        write_text(&mut out, self.error.as_str());
        out.append("}");
        out
    }
}

/// Frames a relay payload as the `{ "msg": .. }` wire string the driver writes to a
/// client socket.
pub fn server_msg(msg: &str) -> (r: String)
    ensures
        r@ == wire_msg(msg@),
        wire::fields_of(r@) == Some(
            seq![("msg"@, Field::Text(msg@)), ("error"@, Field::Text(Seq::empty()))],
        ),
{
    proof {
        wire::law_relay_frame_carries_the_payload(msg@, msg@);
    }
    WsServerMsg::msg(msg).to_wire()
}

/// Frames an error as the `{ "error": .. }` wire string.
pub fn server_err(error: &str) -> (r: String)
    ensures
        r@ == wire_err(error@),
        wire::fields_of(r@) == Some(
            seq![("msg"@, Field::Text(Seq::empty())), ("error"@, Field::Text(error@))],
        ),
{
    proof {
        wire::law_relay_frame_carries_the_payload(error@, error@);
    }
    WsServerMsg::err(error).to_wire()
}

} // verus!
