//! What a frame says to whoever reads it as JSON.
//!
//! A reader of flat JSON objects, and what it finds in the frames that browsers get.

use crate::json;
use crate::messages;
use crate::seqs::Text;
use vstd::prelude::*;

verus! {

/// The value of a member of a flat object.
#[verifier::ext_equal]
pub enum Field {
    Text(Text),
    Flag(bool),
}

/// The members of a flat object in the order in which they are written.
pub type Fields = Seq<(Text, Field)>;

/// What a letter after a backslash stands for.
pub open spec fn unescaped(c: char) -> Option<char> {
    if c == '"' || c == '\\' || c == '/' {
        Some(c)
    } else if c == 'b' {
        Some(8u8 as char)
    } else if c == 't' {
        Some(9u8 as char)
    } else if c == 'n' {
        Some(10u8 as char)
    } else if c == 'f' {
        Some(12u8 as char)
    } else if c == 'r' {
        Some(13u8 as char)
    } else {
        None
    }
}

/// What a hexadecimal digit is worth.
pub open spec fn hex_value(c: char) -> int {
    if 'a' as int <= c as int <= 'f' as int {
        c as int - 'a' as int + 10
    } else if 'A' as int <= c as int <= 'F' as int {
        c as int - 'A' as int + 10
    } else {
        c as int - '0' as int
    }
}

/// What is read with one more character in front.
pub open spec fn preceded(c: char, read: Option<(Text, Text)>) -> Option<(Text, Text)> {
    match read {
        Some((text, rest)) => Some((seq![c] + text, rest)),
        None => None,
    }
}

/// The text of a JSON string whose opening quote has been read, and what comes after the
/// closing one.
pub open spec fn text_from(s: Text) -> Option<(Text, Text)>
    decreases s.len(),
{
    if s.len() == 0 {
        None
    } else if s[0] == '"' {
        Some((Seq::empty(), s.skip(1)))
    } else if s[0] == '\\' {
        if s.len() >= 6 && s[1] == 'u' {
            let code = ((hex_value(s[2]) * 16 + hex_value(s[3])) * 16 + hex_value(s[4])) * 16
                + hex_value(s[5]);
            preceded(code as char, text_from(s.skip(6)))
        } else if s.len() >= 2 && unescaped(s[1]) is Some {
            preceded(unescaped(s[1])->0, text_from(s.skip(2)))
        } else {
            None
        }
    } else if (s[0] as int) < 0x20 {
        None
    } else {
        preceded(s[0], text_from(s.skip(1)))
    }
}

/// The text of the JSON string in front, and what comes after it.
pub open spec fn text_at(s: Text) -> Option<(Text, Text)> {
    if s.len() > 0 && s[0] == '"' {
        text_from(s.skip(1))
    } else {
        None
    }
}

/// The value in front, and what comes after it.
pub open spec fn field_at(s: Text) -> Option<(Field, Text)> {
    if s.len() >= 4 && s.take(4) == seq!['t', 'r', 'u', 'e'] {
        Some((Field::Flag(true), s.skip(4)))
    } else if s.len() >= 5 && s.take(5) == seq!['f', 'a', 'l', 's', 'e'] {
        Some((Field::Flag(false), s.skip(5)))
    } else {
        match text_at(s) {
            Some((text, rest)) => Some((Field::Text(text), rest)),
            None => None,
        }
    }
}

/// The member in front, and what comes after it.
pub open spec fn member_at(s: Text) -> Option<((Text, Field), Text)> {
    match text_at(s) {
        Some((name, rest)) => if rest.len() > 0 && rest[0] == ':' {
            match field_at(rest.skip(1)) {
                Some((field, after)) => Some(((name, field), after)),
                None => None,
            }
        } else {
            None
        },
        None => None,
    }
}

/// The members of an object whose opening brace has been read, where nothing comes after
/// the closing one.
pub open spec fn members_of(s: Text) -> Option<Fields>
    decreases s.len(),
{
    match member_at(s) {
        Some((member, rest)) => if rest == seq!['}'] {
            Some(seq![member])
        } else if 0 < rest.len() <= s.len() && rest[0] == ',' {
            match members_of(rest.skip(1)) {
                Some(members) => Some(seq![member] + members),
                None => None,
            }
        } else {
            None
        },
        None => None,
    }
}

/// The members of the flat JSON object that a text is, if it is one.
pub open spec fn fields_of(s: Text) -> Option<Fields> {
    if s.len() > 0 && s[0] == '{' {
        members_of(s.skip(1))
    } else {
        None
    }
}

// Reading what was written

/// An escaped character is read as itself.
proof fn lemma_escaped(c: char, rest: Text)
    ensures
        text_from(json::escaped(c) + rest) == preceded(c, text_from(rest)),
{
    let s = json::escaped(c) + rest;
    let code = c as int;
    reveal_with_fuel(text_from, 2);
    if c == '"' || c == '\\' || code == 8 || code == 9 || code == 10 || code == 12 || code == 13 {
        assert(s.skip(2) =~= rest);
        assert(s[0] == '\\');
        assert(s[1] != 'u');
        assert(unescaped(s[1]) == Some(c));
    } else if code < 0x20 {
        assert(s.skip(6) =~= rest);
        assert(s[0] == '\\');
        assert(s[1] == 'u');
        assert(s[2] == '0');
        assert(s[3] == '0');
        assert(s[4] == json::hex_digit(code / 16));
        assert(s[5] == json::hex_digit(code % 16));
        assert(hex_value(s[4]) == code / 16);
        assert(hex_value(s[5]) == code % 16);
    } else {
        assert(s.skip(1) =~= rest);
        assert(s[0] == c);
    }
}

proof fn lemma_escaped_text(m: Text, rest: Text)
    ensures
        text_from(m.map_values(|c: char| json::escaped(c)).flatten() + seq!['"'] + rest) == Some(
            (m, rest),
        ),
    decreases m.len(),
{
    let f = |c: char| json::escaped(c);
    let pieces = m.map_values(f);
    let end = seq!['"'] + rest;
    if m.len() == 0 {
        assert(pieces.flatten() + seq!['"'] + rest =~= end);
        assert(end.skip(1) =~= rest);
        assert(m =~= Seq::empty());
    } else {
        let tail = m.drop_first();
        lemma_escaped_text(tail, rest);
        assert(pieces.drop_first() =~= tail.map_values(f));
        assert(pieces.first() == json::escaped(m[0]));
        assert(pieces.flatten() == pieces.first() + pieces.drop_first().flatten());
        let after = tail.map_values(f).flatten() + seq!['"'] + rest;
        assert(pieces.flatten() + seq!['"'] + rest =~= json::escaped(m[0]) + after);
        lemma_escaped(m[0], after);
        assert(seq![m[0]] + tail =~= m);
    }
}

/// Whatever is written as a JSON string is read back whole, whatever comes after it.
pub proof fn law_quoted_text_reads_back(m: Text, rest: Text)
    ensures
        text_at(json::json_quoted(m) + rest) == Some((m, rest)),
{
    lemma_escaped_text(m, rest);
    let s = json::json_quoted(m) + rest;
    assert(s.skip(1) =~= m.map_values(|c: char| json::escaped(c)).flatten() + seq!['"'] + rest);
    assert(s[0] == '"');
}

/// Different texts are written as different JSON strings.
pub proof fn law_quoting_is_injective(a: Text, b: Text)
    requires
        json::json_quoted(a) == json::json_quoted(b),
    ensures
        a == b,
{
    law_quoted_text_reads_back(a, Seq::empty());
    law_quoted_text_reads_back(b, Seq::empty());
}

/// Whether a text can stand between quotes as it is.
spec fn is_plain(s: Text) -> bool {
    forall|i: int|
        0 <= i < s.len() ==> #[trigger] s[i] != '"' && s[i] != '\\' && s[i] as int >= 0x20
}

proof fn lemma_plain_text(m: Text, rest: Text)
    requires
        is_plain(m),
    ensures
        text_from(m + seq!['"'] + rest) == Some((m, rest)),
    decreases m.len(),
{
    let s = m + seq!['"'] + rest;
    if m.len() == 0 {
        assert(s.skip(1) =~= rest);
        assert(m =~= Seq::empty());
    } else {
        let tail = m.drop_first();
        assert forall|i: int| 0 <= i < tail.len() implies #[trigger] tail[i] != '"' && tail[i]
            != '\\' && tail[i] as int >= 0x20 by {
            assert(tail[i] == m[i + 1]);
        }
        lemma_plain_text(tail, rest);
        assert(s.skip(1) =~= tail + seq!['"'] + rest);
        assert(s[0] == m[0]);
        assert(seq![m[0]] + tail =~= m);
    }
}

/// A plain name as it stands in front of a value.
spec fn key(name: Text) -> Text {
    seq!['"'] + name + seq!['"', ':']
}

/// A member with a plain name and a text.
spec fn text_member(name: Text, value: Text) -> Text {
    key(name) + json::json_quoted(value)
}

/// A member with a plain name and a truth value.
spec fn flag_member(name: Text, value: bool) -> Text {
    key(name) + messages::json_bool(value)
}

/// What is written after a comma.
proof fn lemma_step(front: Text, k: Text, name: Text, value: Text, tail: Text)
    requires
        k == seq![','] + key(name),
    ensures
        front + k + value + tail == front + (seq![','] + (key(name) + value + tail)),
{
    assert(front + k + value + tail =~= front + (seq![','] + (key(name) + value + tail)));
}

/// What is written after the opening brace.
proof fn lemma_open(k: Text, name: Text, value: Text, tail: Text)
    requires
        k == seq!['{'] + key(name),
    ensures
        k + value + tail == seq!['{'] + (key(name) + value + tail),
{
    assert(k + value + tail =~= seq!['{'] + (key(name) + value + tail));
}

/// What comes after the opening brace.
proof fn lemma_opened(s: Text, body: Text)
    requires
        s == seq!['{'] + body,
    ensures
        fields_of(s) == members_of(body),
{
    assert(s.skip(1) =~= body);
}

proof fn lemma_text_member(name: Text, value: Text, rest: Text)
    requires
        is_plain(name),
    ensures
        member_at(text_member(name, value) + rest) == Some(((name, Field::Text(value)), rest)),
{
    let s = text_member(name, value) + rest;
    let after = seq![':'] + json::json_quoted(value) + rest;
    lemma_plain_text(name, after);
    assert(s[0] == '"');
    assert(s.skip(1) =~= name + seq!['"'] + after);
    let field = json::json_quoted(value) + rest;
    assert(after.skip(1) =~= field);
    assert(after[0] == ':');
    law_quoted_text_reads_back(value, rest);
    assert(field[0] == '"');
    assert(field.len() >= 4 ==> field.take(4)[0] == '"');
    assert(field.len() >= 5 ==> field.take(5)[0] == '"');
    assert(seq!['t', 'r', 'u', 'e'][0] == 't');
    assert(seq!['f', 'a', 'l', 's', 'e'][0] == 'f');
}

proof fn lemma_flag_member(name: Text, value: bool, rest: Text)
    requires
        is_plain(name),
    ensures
        member_at(flag_member(name, value) + rest) == Some(((name, Field::Flag(value)), rest)),
{
    reveal_strlit("true");
    reveal_strlit("false");
    let s = flag_member(name, value) + rest;
    let after = seq![':'] + messages::json_bool(value) + rest;
    lemma_plain_text(name, after);
    assert(s[0] == '"');
    assert(s.skip(1) =~= name + seq!['"'] + after);
    let field = messages::json_bool(value) + rest;
    assert(after.skip(1) =~= field);
    assert(after[0] == ':');
    if value {
        assert(field.take(4) =~= seq!['t', 'r', 'u', 'e']);
        assert(field.skip(4) =~= rest);
    } else {
        assert(field.take(4)[0] == 'f');
        assert(field.take(5) =~= seq!['f', 'a', 'l', 's', 'e']);
        assert(field.skip(5) =~= rest);
    }
}

/// The last member of an object.
proof fn lemma_last(s: Text, member: (Text, Field))
    requires
        member_at(s) == Some((member, seq!['}'])),
    ensures
        members_of(s) == Some(seq![member]),
{
}

/// A member and those that come after it.
proof fn lemma_more(s: Text, member: (Text, Field), tail: Text, members: Fields)
    requires
        member_at(s) == Some((member, seq![','] + tail)),
        tail.len() < s.len(),
        members_of(tail) == Some(members),
    ensures
        members_of(s) == Some(seq![member] + members),
{
    let rest = seq![','] + tail;
    assert(rest.skip(1) =~= tail);
    assert(rest[0] == ',');
    assert(rest != seq!['}']) by {
        assert(seq!['}'][0] == '}');
    }
}

/// A member as it is written.
spec fn member_text(member: (Text, Field)) -> Text {
    match member.1 {
        Field::Text(value) => text_member(member.0, value),
        Field::Flag(value) => flag_member(member.0, value),
    }
}

proof fn lemma_one(member: (Text, Field))
    requires
        is_plain(member.0),
    ensures
        members_of(member_text(member) + seq!['}']) == Some(seq![member]),
{
    match member.1 {
        Field::Text(value) => lemma_text_member(member.0, value, seq!['}']),
        Field::Flag(value) => lemma_flag_member(member.0, value, seq!['}']),
    }
    lemma_last(member_text(member) + seq!['}'], member);
}

proof fn lemma_prepended(member: (Text, Field), tail: Text, members: Fields)
    requires
        is_plain(member.0),
        members_of(tail) == Some(members),
    ensures
        members_of(member_text(member) + (seq![','] + tail)) == Some(seq![member] + members),
{
    match member.1 {
        Field::Text(value) => lemma_text_member(member.0, value, seq![','] + tail),
        Field::Flag(value) => lemma_flag_member(member.0, value, seq![','] + tail),
    }
    lemma_more(member_text(member) + (seq![','] + tail), member, tail, members);
}

/// A frame for a message or an error is an object with both, whole and in this order:
/// whatever was relayed arrives as it was sent, however long it is.
#[verifier::rlimit(40)]
pub proof fn law_server_frame_carries_its_texts(msg: Text, error: Text)
    ensures
        fields_of(messages::wire_server(msg, error)) == Some(
            seq![("msg"@, Field::Text(msg)), ("error"@, Field::Text(error))],
        ),
{
    reveal_strlit("msg");
    reveal_strlit("error");
    reveal_strlit("{\"msg\":");
    reveal_strlit(",\"error\":");
    reveal_strlit("}");
    let a = ("msg"@, Field::Text(msg));
    let b = ("error"@, Field::Text(error));
    let o = "{\"msg\":"@;
    assert(o =~= seq!['{'] + key("msg"@));
    let k2 = ",\"error\":"@;
    assert(k2 =~= seq![','] + key("error"@));
    assert("}"@ =~= seq!['}']);
    let t2 = member_text(b) + seq!['}'];
    let t1 = member_text(a) + (seq![','] + t2);
    lemma_one(b);
    lemma_prepended(a, t2, seq![b]);
    let f1 = o + json::json_quoted(msg);
    let f2 = f1 + k2 + json::json_quoted(error);
    lemma_step(f1, k2, "error"@, json::json_quoted(error), seq!['}']);
    lemma_open(o, "msg"@, json::json_quoted(msg), seq![','] + t2);
    assert(messages::wire_server(msg, error) == seq!['{'] + t1);
    lemma_opened(messages::wire_server(msg, error), t1);
    assert(seq![a] + seq![b] =~= seq![a, b]);
}

/// A relay frame carries the payload and no error, and an error frame the error and no
/// payload; so different payloads make different frames.
pub proof fn law_relay_frame_carries_the_payload(msg: Text, other: Text)
    ensures
        fields_of(messages::wire_msg(msg)) == Some(
            seq![("msg"@, Field::Text(msg)), ("error"@, Field::Text(Seq::empty()))],
        ),
        fields_of(messages::wire_err(msg)) == Some(
            seq![("msg"@, Field::Text(Seq::empty())), ("error"@, Field::Text(msg))],
        ),
        messages::wire_msg(msg) == messages::wire_msg(other) ==> msg == other,
        messages::wire_err(msg) == messages::wire_err(other) ==> msg == other,
{
    let none = Seq::<char>::empty();
    law_server_frame_carries_its_texts(msg, none);
    law_server_frame_carries_its_texts(other, none);
    law_server_frame_carries_its_texts(none, msg);
    law_server_frame_carries_its_texts(none, other);
    if messages::wire_msg(msg) == messages::wire_msg(other) {
        let a = seq![("msg"@, Field::Text(msg)), ("error"@, Field::Text(none))];
        let b = seq![("msg"@, Field::Text(other)), ("error"@, Field::Text(none))];
        assert(a == b);
        assert(a[0] == b[0]);
    }
    if messages::wire_err(msg) == messages::wire_err(other) {
        let a = seq![("msg"@, Field::Text(none)), ("error"@, Field::Text(msg))];
        let b = seq![("msg"@, Field::Text(none)), ("error"@, Field::Text(other))];
        assert(a == b);
        assert(a[1] == b[1]);
    }
}

/// The news of an upgrade names what it is, the room and the epoch.
#[verifier::rlimit(40)]
pub proof fn law_upgrade_frame_carries_its_fields(control: Text, roomid: Text, epoch: Text)
    ensures
        fields_of(messages::wire_upgrade(control, roomid, epoch)) == Some(
            seq![
                ("control"@, Field::Text(control)),
                ("roomid"@, Field::Text(roomid)),
                ("epoch"@, Field::Text(epoch)),
            ],
        ),
{
    reveal_strlit("control");
    reveal_strlit("roomid");
    reveal_strlit("epoch");
    reveal_strlit("{\"control\":");
    reveal_strlit(",\"roomid\":");
    reveal_strlit(",\"epoch\":");
    reveal_strlit("}");
    let a = ("control"@, Field::Text(control));
    let b = ("roomid"@, Field::Text(roomid));
    let c = ("epoch"@, Field::Text(epoch));
    let o = "{\"control\":"@;
    assert(o =~= seq!['{'] + key("control"@));
    let k2 = ",\"roomid\":"@;
    assert(k2 =~= seq![','] + key("roomid"@));
    let k3 = ",\"epoch\":"@;
    assert(k3 =~= seq![','] + key("epoch"@));
    assert("}"@ =~= seq!['}']);
    let t3 = member_text(c) + seq!['}'];
    let t2 = member_text(b) + (seq![','] + t3);
    let t1 = member_text(a) + (seq![','] + t2);
    lemma_one(c);
    lemma_prepended(b, t3, seq![c]);
    lemma_prepended(a, t2, seq![b] + seq![c]);
    let f1 = o + json::json_quoted(control);
    let f2 = f1 + k2 + json::json_quoted(roomid);
    let f3 = f2 + k3 + json::json_quoted(epoch);
    lemma_step(f2, k3, "epoch"@, json::json_quoted(epoch), seq!['}']);
    lemma_step(f1, k2, "roomid"@, json::json_quoted(roomid), seq![','] + t3);
    lemma_open(o, "control"@, json::json_quoted(control), seq![','] + t2);
    assert(messages::wire_upgrade(control, roomid, epoch) == seq!['{'] + t1);
    lemma_opened(messages::wire_upgrade(control, roomid, epoch), t1);
    assert(seq![a] + (seq![b] + seq![c]) =~= seq![a, b, c]);
}

/// The news of a downgrade or a promotion names what it is, the room, the epoch and
/// whether the client offers.
#[verifier::rlimit(40)]
pub proof fn law_offer_frame_carries_its_fields(
    control: Text,
    roomid: Text,
    epoch: Text,
    is_initiator: bool,
)
    ensures
        fields_of(messages::wire_offer(control, roomid, epoch, is_initiator)) == Some(
            seq![
                ("control"@, Field::Text(control)),
                ("roomid"@, Field::Text(roomid)),
                ("epoch"@, Field::Text(epoch)),
                ("is_initiator"@, Field::Flag(is_initiator)),
            ],
        ),
{
    reveal_strlit("control");
    reveal_strlit("roomid");
    reveal_strlit("epoch");
    reveal_strlit("is_initiator");
    reveal_strlit("{\"control\":");
    reveal_strlit(",\"roomid\":");
    reveal_strlit(",\"epoch\":");
    reveal_strlit(",\"is_initiator\":");
    reveal_strlit("}");
    let a = ("control"@, Field::Text(control));
    let b = ("roomid"@, Field::Text(roomid));
    let c = ("epoch"@, Field::Text(epoch));
    let d = ("is_initiator"@, Field::Flag(is_initiator));
    let o = "{\"control\":"@;
    assert(o =~= seq!['{'] + key("control"@));
    let k2 = ",\"roomid\":"@;
    assert(k2 =~= seq![','] + key("roomid"@));
    let k3 = ",\"epoch\":"@;
    assert(k3 =~= seq![','] + key("epoch"@));
    let k4 = ",\"is_initiator\":"@;
    assert(k4 =~= seq![','] + key("is_initiator"@));
    assert("}"@ =~= seq!['}']);
    let t4 = member_text(d) + seq!['}'];
    let t3 = member_text(c) + (seq![','] + t4);
    let t2 = member_text(b) + (seq![','] + t3);
    let t1 = member_text(a) + (seq![','] + t2);
    lemma_one(d);
    lemma_prepended(c, t4, seq![d]);
    lemma_prepended(b, t3, seq![c] + seq![d]);
    lemma_prepended(a, t2, seq![b] + (seq![c] + seq![d]));
    let f1 = o + json::json_quoted(control);
    let f2 = f1 + k2 + json::json_quoted(roomid);
    let f3 = f2 + k3 + json::json_quoted(epoch);
    let f4 = f3 + k4 + messages::json_bool(is_initiator);
    lemma_step(f3, k4, "is_initiator"@, messages::json_bool(is_initiator), seq!['}']);
    lemma_step(f2, k3, "epoch"@, json::json_quoted(epoch), seq![','] + t4);
    lemma_step(f1, k2, "roomid"@, json::json_quoted(roomid), seq![','] + t3);
    lemma_open(o, "control"@, json::json_quoted(control), seq![','] + t2);
    assert(messages::wire_offer(control, roomid, epoch, is_initiator) == seq!['{'] + t1);
    lemma_opened(messages::wire_offer(control, roomid, epoch, is_initiator), t1);
    assert(seq![a] + (seq![b] + (seq![c] + seq![d])) =~= seq![a, b, c, d]);
}

/// The members of the answer to a registration.
pub open spec fn registered_fields(
    control: Text,
    roomid: Text,
    epoch: Text,
    mode: Text,
    is_initiator: Option<bool>,
) -> Fields {
    let always = seq![
        ("control"@, Field::Text(control)),
        ("roomid"@, Field::Text(roomid)),
        ("epoch"@, Field::Text(epoch)),
        ("mode"@, Field::Text(mode)),
    ];
    match is_initiator {
        Some(b) => always.push(("is_initiator"@, Field::Flag(b))),
        None => always,
    }
}

/// The answer to a registration names what it is, the room, the epoch and the mode, and,
/// where the client was told, whether it offers.
pub proof fn law_registered_frame_carries_its_fields(
    control: Text,
    roomid: Text,
    epoch: Text,
    mode: Text,
    is_initiator: Option<bool>,
)
    ensures
        fields_of(messages::wire_registered(control, roomid, epoch, mode, is_initiator)) == Some(
            registered_fields(control, roomid, epoch, mode, is_initiator),
        ),
{
    match is_initiator {
        Some(flag) => lemma_registered_with(control, roomid, epoch, mode, flag),
        None => lemma_registered_without(control, roomid, epoch, mode),
    }
}

#[verifier::rlimit(40)]
proof fn lemma_registered_with(control: Text, roomid: Text, epoch: Text, mode: Text, flag: bool)
    ensures
        fields_of(messages::wire_registered(control, roomid, epoch, mode, Some(flag))) == Some(
            registered_fields(control, roomid, epoch, mode, Some(flag)),
        ),
{
    reveal_strlit("control");
    reveal_strlit("roomid");
    reveal_strlit("epoch");
    reveal_strlit("mode");
    reveal_strlit("is_initiator");
    reveal_strlit("{\"control\":");
    reveal_strlit(",\"roomid\":");
    reveal_strlit(",\"epoch\":");
    reveal_strlit(",\"mode\":");
    reveal_strlit(",\"is_initiator\":");
    reveal_strlit("}");
    let a = ("control"@, Field::Text(control));
    let b = ("roomid"@, Field::Text(roomid));
    let c = ("epoch"@, Field::Text(epoch));
    let d = ("mode"@, Field::Text(mode));
    let e = ("is_initiator"@, Field::Flag(flag));
    let o = "{\"control\":"@;
    assert(o =~= seq!['{'] + key("control"@));
    let k2 = ",\"roomid\":"@;
    assert(k2 =~= seq![','] + key("roomid"@));
    let k3 = ",\"epoch\":"@;
    assert(k3 =~= seq![','] + key("epoch"@));
    let k4 = ",\"mode\":"@;
    assert(k4 =~= seq![','] + key("mode"@));
    let k5 = ",\"is_initiator\":"@;
    assert(k5 =~= seq![','] + key("is_initiator"@));
    assert("}"@ =~= seq!['}']);
    let t5 = member_text(e) + seq!['}'];
    let t4 = member_text(d) + (seq![','] + t5);
    let t3 = member_text(c) + (seq![','] + t4);
    let t2 = member_text(b) + (seq![','] + t3);
    let t1 = member_text(a) + (seq![','] + t2);
    lemma_one(e);
    lemma_prepended(d, t5, seq![e]);
    lemma_prepended(c, t4, seq![d] + seq![e]);
    lemma_prepended(b, t3, seq![c] + (seq![d] + seq![e]));
    lemma_prepended(a, t2, seq![b] + (seq![c] + (seq![d] + seq![e])));
    let f1 = o + json::json_quoted(control);
    let f2 = f1 + k2 + json::json_quoted(roomid);
    let f3 = f2 + k3 + json::json_quoted(epoch);
    let f4 = f3 + k4 + json::json_quoted(mode);
    let f5 = f4 + k5 + messages::json_bool(flag);
    lemma_step(f4, k5, "is_initiator"@, messages::json_bool(flag), seq!['}']);
    lemma_step(f3, k4, "mode"@, json::json_quoted(mode), seq![','] + t5);
    lemma_step(f2, k3, "epoch"@, json::json_quoted(epoch), seq![','] + t4);
    lemma_step(f1, k2, "roomid"@, json::json_quoted(roomid), seq![','] + t3);
    lemma_open(o, "control"@, json::json_quoted(control), seq![','] + t2);
    assert(messages::wire_registered(control, roomid, epoch, mode, Some(flag)) == seq!['{'] + t1);
    lemma_opened(messages::wire_registered(control, roomid, epoch, mode, Some(flag)), t1);
    assert(seq![a] + (seq![b] + (seq![c] + (seq![d] + seq![e]))) =~= registered_fields(control, roomid, epoch, mode, Some(flag)));
}

#[verifier::rlimit(40)]
proof fn lemma_registered_without(control: Text, roomid: Text, epoch: Text, mode: Text)
    ensures
        fields_of(messages::wire_registered(control, roomid, epoch, mode, None)) == Some(
            registered_fields(control, roomid, epoch, mode, None),
        ),
{
    reveal_strlit("control");
    reveal_strlit("roomid");
    reveal_strlit("epoch");
    reveal_strlit("mode");
    reveal_strlit("{\"control\":");
    reveal_strlit(",\"roomid\":");
    reveal_strlit(",\"epoch\":");
    reveal_strlit(",\"mode\":");
    reveal_strlit("}");
    let a = ("control"@, Field::Text(control));
    let b = ("roomid"@, Field::Text(roomid));
    let c = ("epoch"@, Field::Text(epoch));
    let d = ("mode"@, Field::Text(mode));
    let o = "{\"control\":"@;
    assert(o =~= seq!['{'] + key("control"@));
    let k2 = ",\"roomid\":"@;
    assert(k2 =~= seq![','] + key("roomid"@));
    let k3 = ",\"epoch\":"@;
    assert(k3 =~= seq![','] + key("epoch"@));
    let k4 = ",\"mode\":"@;
    assert(k4 =~= seq![','] + key("mode"@));
    assert("}"@ =~= seq!['}']);
    let t4 = member_text(d) + seq!['}'];
    let t3 = member_text(c) + (seq![','] + t4);
    let t2 = member_text(b) + (seq![','] + t3);
    let t1 = member_text(a) + (seq![','] + t2);
    lemma_one(d);
    lemma_prepended(c, t4, seq![d]);
    lemma_prepended(b, t3, seq![c] + seq![d]);
    lemma_prepended(a, t2, seq![b] + (seq![c] + seq![d]));
    let f1 = o + json::json_quoted(control);
    let f2 = f1 + k2 + json::json_quoted(roomid);
    let f3 = f2 + k3 + json::json_quoted(epoch);
    let f4 = f3 + k4 + json::json_quoted(mode);
    lemma_step(f3, k4, "mode"@, json::json_quoted(mode), seq!['}']);
    lemma_step(f2, k3, "epoch"@, json::json_quoted(epoch), seq![','] + t4);
    lemma_step(f1, k2, "roomid"@, json::json_quoted(roomid), seq![','] + t3);
    lemma_open(o, "control"@, json::json_quoted(control), seq![','] + t2);
    assert(messages::wire_registered(control, roomid, epoch, mode, None) == seq!['{'] + t1);
    lemma_opened(messages::wire_registered(control, roomid, epoch, mode, None), t1);
    assert(seq![a] + (seq![b] + (seq![c] + seq![d])) =~= registered_fields(control, roomid, epoch, mode, None));
}

/// The news of a failure names what it is, the room and the reason.
#[verifier::rlimit(40)]
pub proof fn law_failure_frame_carries_its_fields(control: Text, roomid: Text, reason: Text)
    ensures
        fields_of(messages::wire_room_failed(control, roomid, reason)) == Some(
            seq![
                ("control"@, Field::Text(control)),
                ("roomid"@, Field::Text(roomid)),
                ("reason"@, Field::Text(reason)),
            ],
        ),
{
    reveal_strlit("control");
    reveal_strlit("roomid");
    reveal_strlit("reason");
    reveal_strlit("{\"control\":");
    reveal_strlit(",\"roomid\":");
    reveal_strlit(",\"reason\":");
    reveal_strlit("}");
    let a = ("control"@, Field::Text(control));
    let b = ("roomid"@, Field::Text(roomid));
    let c = ("reason"@, Field::Text(reason));
    let o = "{\"control\":"@;
    assert(o =~= seq!['{'] + key("control"@));
    let k2 = ",\"roomid\":"@;
    assert(k2 =~= seq![','] + key("roomid"@));
    let k3 = ",\"reason\":"@;
    assert(k3 =~= seq![','] + key("reason"@));
    assert("}"@ =~= seq!['}']);
    let t3 = member_text(c) + seq!['}'];
    let t2 = member_text(b) + (seq![','] + t3);
    let t1 = member_text(a) + (seq![','] + t2);
    lemma_one(c);
    lemma_prepended(b, t3, seq![c]);
    lemma_prepended(a, t2, seq![b] + seq![c]);
    let f1 = o + json::json_quoted(control);
    let f2 = f1 + k2 + json::json_quoted(roomid);
    let f3 = f2 + k3 + json::json_quoted(reason);
    lemma_step(f2, k3, "reason"@, json::json_quoted(reason), seq!['}']);
    lemma_step(f1, k2, "roomid"@, json::json_quoted(roomid), seq![','] + t3);
    lemma_open(o, "control"@, json::json_quoted(control), seq![','] + t2);
    assert(messages::wire_room_failed(control, roomid, reason) == seq!['{'] + t1);
    lemma_opened(messages::wire_room_failed(control, roomid, reason), t1);
    assert(seq![a] + (seq![b] + seq![c]) =~= seq![a, b, c]);
}

} // verus!
