use vstd::prelude::*;
use crate::codec::{json_string, spec_skip_ws, spec_parse_string, skip_ws, parse_json_string,
    lemma_parse_escaped};
use crate::errors::ValveError;
use crate::state::{Registry, CodebaseView, contains_id, contains_path, spec_insert,
    spec_remove_id, spec_remove_first_path};
use crate::text::str_eq;

verus! {

/// A control-plane request, one JSON object per line.
pub enum Command {
    /// Watch the directory at `path`.
    Register { path: String },
    /// Stop watching; `target` names an id or a canonical path.
    Unregister { target: String },
    /// Enumerate the registered codebases.
    List,
}

/// The mathematical value of a `Command`.
pub ghost enum CommandView {
    Register { path: Seq<char> },
    Unregister { target: Seq<char> },
    List,
}

impl View for Command {
    type V = CommandView;

    open spec fn view(&self) -> CommandView {
        match self {
            Command::Register { path } => CommandView::Register { path: path@ },
            Command::Unregister { target } => CommandView::Unregister { target: target@ },
            Command::List => CommandView::List,
        }
    }
}

/// A control-plane reply, one JSON object per line.
pub enum Reply {
    /// Rendered as `{"type":"Ok"}`.
    Okay,
    /// Rendered as `{"type":"Error","message":...}`.
    Error { message: String },
    /// Rendered as `{"type":"List","items":[[id,path],...]}`.
    Listing { items: Vec<(String, String)> },
}

// --- request interpretation and grammar ---

/// A one-field object: only `{"type":"List"}`.
pub open spec fn spec_interpret1(k: Seq<char>, v: Seq<char>) -> Option<CommandView> {
    if k == "type"@ && v == "List"@ {
        Some(CommandView::List)
    } else {
        None
    }
}

/// A two-field object, fields in either order.
pub open spec fn spec_interpret2(
    k1: Seq<char>, v1: Seq<char>,
    k2: Seq<char>, v2: Seq<char>,
) -> Option<CommandView> {
    if k1 == "type"@ {
        spec_tagged(v1, k2, v2)
    } else if k2 == "type"@ {
        spec_tagged(v2, k1, v1)
    } else {
        None
    }
}

pub open spec fn spec_tagged(t: Seq<char>, k: Seq<char>, v: Seq<char>) -> Option<CommandView> {
    if t == "Register"@ && k == "path"@ {
        Some(CommandView::Register { path: v })
    } else if t == "Unregister"@ && k == "target"@ {
        Some(CommandView::Unregister { target: v })
    } else {
        None
    }
}

/// The whole request grammar: an object of one or two string fields,
/// surrounded by optional whitespace, spelling one of the three requests.
pub open spec fn spec_parse_command(s: Seq<char>) -> Option<CommandView> {
    let i0 = spec_skip_ws(s, 0);
    if !(i0 < s.len() && s[i0] == '{') { None } else {
        let i1 = spec_skip_ws(s, i0 + 1);
        if !(i1 < s.len() && s[i1] == '"') { None } else {
            match spec_parse_string(s, i1 + 1) {
                None => None,
                Some((k1, i2)) => {
                    let i3 = spec_skip_ws(s, i2);
                    if !(i3 < s.len() && s[i3] == ':') { None } else {
                        let i4 = spec_skip_ws(s, i3 + 1);
                        if !(i4 < s.len() && s[i4] == '"') { None } else {
                            match spec_parse_string(s, i4 + 1) {
                                None => None,
                                Some((v1, i5)) => spec_parse_tail(s, k1, v1, spec_skip_ws(s, i5)),
                            }
                        }
                    }
                },
            }
        }
    }
}

/// After the first field: either the closing brace or one more field.
pub open spec fn spec_parse_tail(
    s: Seq<char>,
    k1: Seq<char>,
    v1: Seq<char>,
    i6: int,
) -> Option<CommandView> {
    if !(i6 < s.len()) { None } else {
        if s[i6] == '}' {
            if spec_skip_ws(s, i6 + 1) == s.len() { spec_interpret1(k1, v1) } else { None }
        } else if s[i6] == ',' {
            let i7 = spec_skip_ws(s, i6 + 1);
            if !(i7 < s.len() && s[i7] == '"') { None } else {
                match spec_parse_string(s, i7 + 1) {
                    None => None,
                    Some((k2, i8)) => {
                        let i9 = spec_skip_ws(s, i8);
                        if !(i9 < s.len() && s[i9] == ':') { None } else {
                            let i10 = spec_skip_ws(s, i9 + 1);
                            if !(i10 < s.len() && s[i10] == '"') { None } else {
                                match spec_parse_string(s, i10 + 1) {
                                    None => None,
                                    Some((v2, i11)) => {
                                        let i12 = spec_skip_ws(s, i11);
                                        if i12 < s.len() && s[i12] == '}'
                                            && spec_skip_ws(s, i12 + 1) == s.len() {
                                            spec_interpret2(k1, v1, k2, v2)
                                        } else {
                                            None
                                        }
                                    },
                                }
                            }
                        }
                    },
                }
            }
        } else {
            None
        }
    }
}

/// The wire text of a two-field request: the fixed framing around a
/// tag, a key, and an escaped value.
#[verifier::rlimit(100)]
proof fn lemma_tagged_parse(tag: Seq<char>, key: Seq<char>, v: Seq<char>, s: Seq<char>)
    requires
        crate::codec::escape_string(tag) == tag,
        crate::codec::escape_string(key) == key,
        s == "{\"type\":\""@ + tag + "\",\""@ + key + "\":\""@
            + crate::codec::escape_string(v) + "\"}"@,
    ensures
        spec_parse_command(s) == spec_interpret2("type"@, tag, key, v),
{
    reveal_strlit("{\"type\":\"");
    reveal_strlit("\",\"");
    reveal_strlit("\":\"");
    reveal_strlit("\"}");
    reveal_strlit("type");
    crate::codec::lemma_escape_plain("type"@);
    let t = tag.len() as int;
    let k = key.len() as int;
    let esc = crate::codec::escape_string(v);
    let e = esc.len() as int;
    assert(s.len() == 17 + t + k + e);
    assert(s[0] == '{');
    assert(s[1] == '"');
    assert(spec_skip_ws(s, 0) == 0);
    assert(spec_skip_ws(s, 1) == 1);
    assert(s.subrange(2, 7) =~= crate::codec::escape_string("type"@) + seq!['"']);
    lemma_parse_escaped(s, 2, "type"@);
    assert(s[7] == ':');
    assert(s[8] == '"');
    assert(spec_skip_ws(s, 7) == 7);
    assert(spec_skip_ws(s, 8) == 8);
    assert(s.subrange(9, 10 + t) =~= tag + seq!['"']);
    lemma_parse_escaped(s, 9, tag);
    assert(s[10 + t] == ',');
    assert(s[11 + t] == '"');
    assert(spec_skip_ws(s, 10 + t) == 10 + t);
    assert(spec_skip_ws(s, 11 + t) == 11 + t);
    assert(s.subrange(12 + t, 13 + t + k) =~= key + seq!['"']);
    lemma_parse_escaped(s, 12 + t, key);
    assert(s[13 + t + k] == ':');
    assert(s[14 + t + k] == '"');
    assert(spec_skip_ws(s, 13 + t + k) == 13 + t + k);
    assert(spec_skip_ws(s, 14 + t + k) == 14 + t + k);
    assert(s.subrange(15 + t + k, 16 + t + k + e) =~= esc + seq!['"']);
    lemma_parse_escaped(s, 15 + t + k, v);
    assert(s[16 + t + k + e] == '}');
    assert(spec_skip_ws(s, 16 + t + k + e) == 16 + t + k + e);
    assert(spec_skip_ws(s, 17 + t + k + e) == s.len());
}

/// Law: a request rendered by `encode_command` parses back to the same
/// request — client and server agree on the wire format.
#[verifier::rlimit(100)]
pub proof fn lemma_command_round_trip(c: Command)
    ensures
        spec_parse_command(spec_command_json(c)) == Some(c@),
{
    reveal_strlit("type");
    reveal_strlit("List");
    reveal_strlit("Register");
    reveal_strlit("Unregister");
    reveal_strlit("path");
    reveal_strlit("target");
    crate::codec::lemma_escape_plain("type"@);
    crate::codec::lemma_escape_plain("List"@);
    crate::codec::lemma_escape_plain("Register"@);
    crate::codec::lemma_escape_plain("Unregister"@);
    crate::codec::lemma_escape_plain("path"@);
    crate::codec::lemma_escape_plain("target"@);
    match c {
        Command::List => {
            reveal_strlit("{\"type\":\"List\"}");
            let s = spec_command_json(c);
            assert(s == "{\"type\":\"List\"}"@);
            assert(spec_skip_ws(s, 0) == 0);
            assert(s[0] == '{');
            assert(spec_skip_ws(s, 1) == 1);
            assert(s[1] == '"');
            assert(s.subrange(2, 7) =~= crate::codec::escape_string("type"@) + seq!['"']);
            lemma_parse_escaped(s, 2, "type"@);
            assert(spec_skip_ws(s, 7) == 7);
            assert(s[7] == ':');
            assert(spec_skip_ws(s, 8) == 8);
            assert(s[8] == '"');
            assert(s.subrange(9, 14) =~= crate::codec::escape_string("List"@) + seq!['"']);
            lemma_parse_escaped(s, 9, "List"@);
            assert(spec_skip_ws(s, 14) == 14);
            assert(s[14] == '}');
            assert(spec_skip_ws(s, 15) == 15);
        },
        Command::Register { path } => {
            reveal_strlit("{\"type\":\"Register\",\"path\":");
            reveal_strlit("}");
            reveal_strlit("{\"type\":\"");
            reveal_strlit("\",\"");
            reveal_strlit("\":\"");
            reveal_strlit("\"}");
            let s = spec_command_json(c);
            assert(s =~= "{\"type\":\""@ + "Register"@ + "\",\""@ + "path"@ + "\":\""@
                + crate::codec::escape_string(path@) + "\"}"@);
            lemma_tagged_parse("Register"@, "path"@, path@, s);
        },
        Command::Unregister { target } => {
            reveal_strlit("{\"type\":\"Unregister\",\"target\":");
            reveal_strlit("}");
            reveal_strlit("{\"type\":\"");
            reveal_strlit("\",\"");
            reveal_strlit("\":\"");
            reveal_strlit("\"}");
            let s = spec_command_json(c);
            assert(s =~= "{\"type\":\""@ + "Unregister"@ + "\",\""@ + "target"@ + "\":\""@
                + crate::codec::escape_string(target@) + "\"}"@);
            lemma_tagged_parse("Unregister"@, "target"@, target@, s);
        },
    }
}

/// Parses one request line.
///
/// Accepts exactly the request grammar (`spec_parse_command`); anything
/// else is a protocol error, reported to the client without closing the
/// connection.
pub fn parse_command(line: &str) -> (r: Result<Command, ValveError>)
    ensures
        match spec_parse_command(line@) {
            Some(c) => r is Ok && r->Ok_0@ == c,
            None => r is Err && r->Err_0 == ValveError::ProtocolError,
        },
{
    let n = line.unicode_len();
    let i0 = skip_ws(line, 0);
    if !(i0 < n && line.get_char(i0) == '{') {
        return Err(ValveError::ProtocolError);
    }
    let i1 = skip_ws(line, i0 + 1);
    if !(i1 < n && line.get_char(i1) == '"') {
        return Err(ValveError::ProtocolError);
    }
    let mut k1 = String::new();
    let i2 = match parse_json_string(line, i1 + 1, &mut k1) {
        None => {
            return Err(ValveError::ProtocolError);
        },
        Some(i2) => i2,
    };
    let i3 = skip_ws(line, i2);
    if !(i3 < n && line.get_char(i3) == ':') {
        return Err(ValveError::ProtocolError);
    }
    let i4 = skip_ws(line, i3 + 1);
    if !(i4 < n && line.get_char(i4) == '"') {
        return Err(ValveError::ProtocolError);
    }
    let mut v1 = String::new();
    let i5 = match parse_json_string(line, i4 + 1, &mut v1) {
        None => {
            return Err(ValveError::ProtocolError);
        },
        Some(i5) => i5,
    };
    let i6 = skip_ws(line, i5);
    if !(i6 < n) {
        return Err(ValveError::ProtocolError);
    }
    if line.get_char(i6) == '}' {
        if skip_ws(line, i6 + 1) == n {
            if str_eq(k1.as_str(), "type") && str_eq(v1.as_str(), "List") {
                return Ok(Command::List);
            }
            return Err(ValveError::ProtocolError);
        }
        return Err(ValveError::ProtocolError);
    }
    if line.get_char(i6) != ',' {
        return Err(ValveError::ProtocolError);
    }
    let i7 = skip_ws(line, i6 + 1);
    if !(i7 < n && line.get_char(i7) == '"') {
        return Err(ValveError::ProtocolError);
    }
    let mut k2 = String::new();
    let i8 = match parse_json_string(line, i7 + 1, &mut k2) {
        None => {
            return Err(ValveError::ProtocolError);
        },
        Some(i8) => i8,
    };
    let i9 = skip_ws(line, i8);
    if !(i9 < n && line.get_char(i9) == ':') {
        return Err(ValveError::ProtocolError);
    }
    let i10 = skip_ws(line, i9 + 1);
    if !(i10 < n && line.get_char(i10) == '"') {
        return Err(ValveError::ProtocolError);
    }
    let mut v2 = String::new();
    let i11 = match parse_json_string(line, i10 + 1, &mut v2) {
        None => {
            return Err(ValveError::ProtocolError);
        },
        Some(i11) => i11,
    };
    let i12 = skip_ws(line, i11);
    if !(i12 < n && line.get_char(i12) == '}' && skip_ws(line, i12 + 1) == n) {
        return Err(ValveError::ProtocolError);
    }
    let tagged = if str_eq(k1.as_str(), "type") {
        tagged_command(v1, k2, v2)
    } else if str_eq(k2.as_str(), "type") {
        tagged_command(v2, k1, v1)
    } else {
        None
    };
    match tagged {
        Some(c) => Ok(c),
        None => Err(ValveError::ProtocolError),
    }
}

fn tagged_command(t: String, k: String, v: String) -> (r: Option<Command>)
    ensures
        match spec_tagged(t@, k@, v@) {
            Some(c) => r is Some && r.unwrap()@ == c,
            None => r is None,
        },
{
    if str_eq(t.as_str(), "Register") && str_eq(k.as_str(), "path") {
        Some(Command::Register { path: v })
    } else if str_eq(t.as_str(), "Unregister") && str_eq(k.as_str(), "target") {
        Some(Command::Unregister { target: v })
    } else {
        None
    }
}

// --- reply and request rendering ---

/// The JSON items array of a List reply.
pub open spec fn spec_items_json(items: Seq<(String, String)>) -> Seq<char>
    decreases items.len(),
{
    if items.len() == 0 {
        Seq::empty()
    } else if items.len() == 1 {
        spec_item_json(items[0])
    } else {
        spec_items_json(items.drop_last()) + ","@ + spec_item_json(items.last())
    }
}

pub open spec fn spec_item_json(item: (String, String)) -> Seq<char> {
    "["@ + json_string(item.0@) + ","@ + json_string(item.1@) + "]"@
}

/// The one-line JSON rendering of a reply.
pub open spec fn spec_reply_json(r: Reply) -> Seq<char> {
    match r {
        Reply::Okay => "{\"type\":\"Ok\"}"@,
        Reply::Error { message } =>
            "{\"type\":\"Error\",\"message\":"@ + json_string(message@) + "}"@,
        Reply::Listing { items } =>
            "{\"type\":\"List\",\"items\":["@ + spec_items_json(items@) + "]}"@,
    }
}

/// Serializes a reply as one JSON object.
pub fn encode_reply(r: &Reply) -> (out: String)
    ensures
        out@ == spec_reply_json(*r),
{
    match r {
        Reply::Okay => {
            let mut out = String::new();
            out.append("{\"type\":\"Ok\"}");
            proof {
                assert(out@ =~= spec_reply_json(*r));
            }
            out
        },
        Reply::Error { message } => {
            let mut out = String::new();
            out.append("{\"type\":\"Error\",\"message\":");
            crate::codec::append_json_string(&mut out, message.as_str());
            out.append("}");
            proof {
                assert(out@ =~= spec_reply_json(*r));
            }
            out
        },
        Reply::Listing { items } => {
            let mut out = String::new();
            out.append("{\"type\":\"List\",\"items\":[");
            let n = items.len();
            let mut i: usize = 0;
            while i < n
                invariant
                    n == items@.len(),
                    i <= n,
                    out@ == "{\"type\":\"List\",\"items\":["@ + spec_items_json(items@.take(i as int)),
                decreases n - i,
            {
                proof {
                    assert(items@.take(i as int + 1).drop_last() =~= items@.take(i as int));
                    assert(items@.take(i as int + 1).last() == items@[i as int]);
                }
                if i > 0 {
                    out.append(",");
                }
                out.append("[");
                let item = &items[i];
                crate::codec::append_json_string(&mut out, item.0.as_str());
                out.append(",");
                crate::codec::append_json_string(&mut out, item.1.as_str());
                out.append("]");
                proof {
                    assert(out@ =~= "{\"type\":\"List\",\"items\":["@
                        + spec_items_json(items@.take(i as int + 1)));
                }
                i += 1;
            }
            out.append("]}");
            proof {
                assert(items@.take(n as int) =~= items@);
                assert(out@ =~= spec_reply_json(*r));
            }
            out
        },
    }
}

/// The one-line JSON rendering of a request, as the client sends it.
pub open spec fn spec_command_json(c: Command) -> Seq<char> {
    match c {
        Command::Register { path } => "{\"type\":\"Register\",\"path\":"@ + json_string(path@) + "}"@,
        Command::Unregister { target } =>
            "{\"type\":\"Unregister\",\"target\":"@ + json_string(target@) + "}"@,
        Command::List => "{\"type\":\"List\"}"@,
    }
}

/// Serializes a request as one JSON object.
pub fn encode_command(c: &Command) -> (out: String)
    ensures
        out@ == spec_command_json(*c),
{
    match c {
        Command::Register { path } => {
            let mut out = String::new();
            out.append("{\"type\":\"Register\",\"path\":");
            crate::codec::append_json_string(&mut out, path.as_str());
            out.append("}");
            proof {
                assert(out@ =~= spec_command_json(*c));
            }
            out
        },
        Command::Unregister { target } => {
            let mut out = String::new();
            out.append("{\"type\":\"Unregister\",\"target\":");
            crate::codec::append_json_string(&mut out, target.as_str());
            out.append("}");
            proof {
                assert(out@ =~= spec_command_json(*c));
            }
            out
        },
        Command::List => {
            let mut out = String::new();
            out.append("{\"type\":\"List\"}");
            proof {
                assert(out@ =~= spec_command_json(*c));
            }
            out
        },
    }
}

/// Handles one parsed request against the registry, as the §control
/// table says: Register inserts under a fresh id, Unregister removes by
/// id or canonical path, List snapshots the entries in id order.
///
/// `canon` carries the canonicalized form of a Register path, `None`
/// when the path did not resolve to an existing directory; it is
/// ignored for the other requests. Persisting the mutated registry is
/// the caller's step, with `encode_registry`.
pub fn handle_command(reg: &mut Registry, cmd: &Command, canon: Option<String>) -> (r: Reply)
    requires
        old(reg).wf(),
    ensures
        final(reg).wf(),
        cmd@ is List ==> {
            &&& final(reg)@ == old(reg)@
            &&& r matches Reply::Listing { items } && {
                &&& items@.len() == old(reg)@.len()
                &&& forall|i: int| 0 <= i < old(reg)@.len()
                    ==> (#[trigger] items@[i]).0@ == old(reg)@[i].id
                        && items@[i].1@ == old(reg)@[i].path
            }
        },
        cmd@ matches CommandView::Register { path } ==> match canon {
            Some(p) => {
                &&& r is Okay
                &&& exists|cb: CodebaseView| cb.path == p@
                    && final(reg)@ == spec_insert(old(reg)@, cb)
            },
            None => {
                &&& final(reg)@ == old(reg)@
                &&& r matches Reply::Error { message }
                    && message@ == ValveError::InvalidPath.spec_message()
            },
        },
        cmd@ matches CommandView::Unregister { target } ==> {
            &&& contains_id(old(reg)@, target) ==> r is Okay
                && final(reg)@ == spec_remove_id(old(reg)@, target)
            &&& (!contains_id(old(reg)@, target) && contains_path(old(reg)@, target))
                ==> r is Okay && final(reg)@ == spec_remove_first_path(old(reg)@, target)
            &&& (!contains_id(old(reg)@, target) && !contains_path(old(reg)@, target))
                ==> final(reg)@ == old(reg)@
                    && (r matches Reply::Error { message }
                        && message@ == ValveError::NotFound.spec_message())
        },
{
    match cmd {
        Command::Register { path: _ } => {
            match canon {
                Some(p) => {
                    let cb = reg.add(p);
                    proof {
                        assert(cb@.path == p@ && reg@ == spec_insert(old(reg)@, cb@));
                    }
                    Reply::Okay
                },
                None => Reply::Error {
                    message: String::from_str(ValveError::InvalidPath.message()),
                },
            }
        },
        Command::Unregister { target } => {
            match reg.remove_by_id_or_path(target) {
                Some(_) => Reply::Okay,
                None => Reply::Error {
                    message: String::from_str(ValveError::NotFound.message()),
                },
            }
        },
        Command::List => {
            Reply::Listing { items: reg.items() }
        },
    }
}

} // verus!
