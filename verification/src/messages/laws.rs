//! What a frame of a browser says.

use super::WsClientMsgView;
use crate::json;
use crate::json::JsonView;
use crate::seqs::Text;
use crate::text;
use vstd::prelude::*;

verus! {

/// Whether a member of an object is a text, if it is there.
pub open spec fn is_text_or_absent(members: Map<Text, JsonView>, name: Text) -> bool {
    members.contains_key(name) ==> members[name] is Text
}

/// Whether the version of an object is nothing or a small number, if it is there.
pub open spec fn is_version_or_absent(members: Map<Text, JsonView>) -> bool {
    members.contains_key("ver"@) ==> match members["ver"@] {
        JsonView::Null => true,
        JsonView::Integer(n) => 0 <= n <= 255,
        _ => false,
    }
}

/// The text under a name, or the empty one.
pub open spec fn text_under(members: Map<Text, JsonView>, name: Text) -> Text {
    if members.contains_key(name) {
        members[name]->Text_0
    } else {
        Seq::empty()
    }
}

/// An object is a frame exactly if its command, room, client, message and token are texts,
/// as far as they are there, and its version is nothing or a small number. Each field is
/// what stands under its own name, and whatever stands under other names does not matter.
/// The epoch counts only where it is a text.
pub proof fn law_object_is_read_by_names(members: Map<Text, JsonView>)
    ensures
        ({
            let read = WsClientMsgView::decode(JsonView::Object(members));
            &&& read is Ok <==> {
                &&& is_text_or_absent(members, "cmd"@)
                &&& is_text_or_absent(members, "roomid"@)
                &&& is_text_or_absent(members, "clientid"@)
                &&& is_text_or_absent(members, "msg"@)
                &&& is_text_or_absent(members, "token"@)
                &&& is_version_or_absent(members)
            }
            &&& read matches Ok(frame) ==> {
                &&& frame.cmd == text_under(members, "cmd"@)
                &&& frame.roomid == text_under(members, "roomid"@)
                &&& frame.clientid == text_under(members, "clientid"@)
                &&& frame.msg == text_under(members, "msg"@)
                &&& frame.token == text_under(members, "token"@)
                &&& frame.ver == (if members.contains_key("ver"@) && members["ver"@] is Integer {
                    Some(members["ver"@]->Integer_0 as u8)
                } else {
                    None
                })
                &&& frame.epoch == (if members.contains_key("epoch"@) && members["epoch"@] is Text {
                    Some(members["epoch"@]->Text_0)
                } else {
                    None
                })
            }
        }),
{
}

/// Whether an element of a list is a text, if it is there.
pub open spec fn is_text_at(items: Seq<JsonView>, i: int) -> bool {
    i < items.len() ==> items[i] is Text
}

/// The text at a place, or the empty one.
pub open spec fn text_at(items: Seq<JsonView>, i: int) -> Text {
    if i < items.len() {
        items[i]->Text_0
    } else {
        Seq::empty()
    }
}

/// A list is a frame exactly if it has at most seven elements, the first four and the sixth
/// are texts and the fifth is nothing or a small number, as far as they are there. They are
/// the command, the room, the client, the message, the version and the token; the seventh
/// is the epoch, where it is a text.
pub proof fn law_list_is_read_by_places(items: Seq<JsonView>)
    ensures
        ({
            let read = WsClientMsgView::decode(JsonView::List(items));
            let version = items.len() > 4 ==> match items[4] {
                JsonView::Null => true,
                JsonView::Integer(n) => 0 <= n <= 255,
                _ => false,
            };
            &&& read is Ok <==> {
                &&& items.len() <= 7
                &&& is_text_at(items, 0)
                &&& is_text_at(items, 1)
                &&& is_text_at(items, 2)
                &&& is_text_at(items, 3)
                &&& version
                &&& is_text_at(items, 5)
            }
            &&& read matches Ok(frame) ==> {
                &&& frame.cmd == text_at(items, 0)
                &&& frame.roomid == text_at(items, 1)
                &&& frame.clientid == text_at(items, 2)
                &&& frame.msg == text_at(items, 3)
                &&& frame.token == text_at(items, 5)
                &&& frame.ver == (if items.len() > 4 && items[4] is Integer {
                    Some(items[4]->Integer_0 as u8)
                } else {
                    None
                })
                &&& frame.epoch == (if items.len() > 6 && items[6] is Text {
                    Some(items[6]->Text_0)
                } else {
                    None
                })
            }
        }),
{
}

/// Nothing but an object or a list is a frame, and a text that is no JSON is none.
pub proof fn law_other_values_are_no_frames(value: JsonView, frame: Text)
    ensures
        !(value is Object) && !(value is List) ==> WsClientMsgView::decode(value) == Err::<
            WsClientMsgView,
            Text,
        >(
            "invalid type: "@ + json::json_unexpected(value) + ", expected "@
                + "struct WsClientMsg"@,
        ),
        json::json_parse(frame) is Err ==> WsClientMsgView::read(frame) == Err::<
            WsClientMsgView,
            Text,
        >(json::json_parse(frame)->Err_0),
        json::json_parse(frame) is Ok ==> WsClientMsgView::read(frame) == WsClientMsgView::decode(
            json::json_parse(frame)->Ok_0,
        ),
{
}

/// What is said of a frame with one wrong field: that the value is no text, no number, or a
/// number that is too large.
pub proof fn law_wrong_field_is_described(members: Map<Text, JsonView>, name: Text)
    requires
        members.contains_key(name),
        forall|other: Text| #[trigger]
            members.contains_key(other) && other != name && other != "epoch"@ && other != "ver"@
                ==> members[other] is Text,
        name != "ver"@ ==> is_version_or_absent(members),
    ensures
        ({
            let value = members[name];
            let read = WsClientMsgView::decode(JsonView::Object(members));
            let field = name == "cmd"@ || name == "roomid"@ || name == "clientid"@ || name
                == "msg"@ || name == "token"@;
            &&& field && !(value is Text) ==> read == Err::<WsClientMsgView, Text>(
                "invalid type: "@ + json::json_unexpected(value) + ", expected "@ + "a string"@,
            )
            &&& name == "ver"@ ==> match value {
                JsonView::Null => read is Ok,
                JsonView::Integer(n) => if 0 <= n <= 255 {
                    read is Ok
                } else {
                    read == Err::<WsClientMsgView, Text>(
                        "invalid value: "@ + json::json_unexpected(value) + ", expected "@ + "u8"@,
                    )
                },
                _ => read == Err::<WsClientMsgView, Text>(
                    "invalid type: "@ + json::json_unexpected(value) + ", expected "@ + "u8"@,
                ),
            }
        }),
{
    reveal_strlit("cmd");
    reveal_strlit("roomid");
    reveal_strlit("clientid");
    reveal_strlit("msg");
    reveal_strlit("token");
    reveal_strlit("ver");
    reveal_strlit("epoch");
    assert("cmd"@[0] == 'c');
    assert("msg"@[0] == 'm');
    assert("ver"@[0] == 'v');
    assert("token"@[0] == 't');
    assert("epoch"@[0] == 'e');
    assert("clientid"@.len() == 8);
    assert("roomid"@.len() == 6);
}

/// A list that is too long is said to be so, with its length.
pub proof fn law_long_list_is_described(items: Seq<JsonView>)
    requires
        items.len() > 7,
        items.len() <= u64::MAX,
        items[0] is Text,
        items[1] is Text,
        items[2] is Text,
        items[3] is Text,
        items[4] is Null,
        items[5] is Text,
    ensures
        WsClientMsgView::decode(JsonView::List(items)) == Err::<WsClientMsgView, Text>(
            "invalid length "@ + text::decimal(items.len())
                + ", expected fewer elements in array"@,
        ),
{
}

} // verus!
