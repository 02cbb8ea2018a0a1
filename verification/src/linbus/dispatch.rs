//! Server-side dispatch decisions: how an incoming method call is routed,
//! the property store behind `org.freedesktop.DBus.Properties`, and the
//! replies the dispatcher sends. Handlers and the socket stay with the
//! caller.

use vstd::prelude::*;
use vstd::utf8::*;
use crate::linbus::error::LinbusError;
use crate::linbus::message::{Message, MessageType, MsgModel, bare};
use crate::linbus::value::C_STRING;
use crate::linbus::value::{Value, VModel, str_of, models, model, lemma_models, copy_value};
use crate::text::{sbytes, chars_of, push_str_chars, push_chars, decimal_chars, decimal, string_of};
use crate::linbus::conn::first_str;

verus! {

broadcast use vstd::seq::group_seq_axioms;

/// An error reply to `reply_serial` with error `name` and message bytes.
pub open spec fn error_reply(reply_serial: u32, name: Seq<char>, message: Seq<u8>) -> MsgModel {
    MsgModel {
        reply_serial: Some(reply_serial),
        error_name: Some(encode_utf8(name)),
        signature: Some(seq![C_STRING]),
        body: seq![VModel::Str(message)],
        ..bare(MessageType::Error, 1, 0)
    }
}

/// Where an incoming message goes.
#[derive(Debug, Clone, Copy, PartialEq, Eq, Structural)]
pub enum Route {
    /// Not a method call: not dispatched.
    NotACall,
    /// `org.freedesktop.DBus.Peer.Ping`: answered with an empty return.
    Ping,
    /// A registered handler takes it.
    Handler,
    /// The built-in `Properties.Get`.
    PropertiesGet,
    /// The built-in `Properties.GetAll`.
    PropertiesGetAll,
    /// No handler: an `UnknownMethod` error (unless no reply is expected).
    Unknown,
}

/// The bytes of an optional string, empty when absent.
pub open spec fn bytes_or_empty(o: Option<Seq<u8>>) -> Seq<u8> {
    match o {
        Some(b) => b,
        None => Seq::empty(),
    }
}

/// The route of a message, given whether a handler is registered for its
/// interface and member.
pub open spec fn route_of(m: MsgModel, has_handler: bool) -> Route {
    let iface = bytes_or_empty(m.interface);
    let member = bytes_or_empty(m.member);
    if m.msg_type != MessageType::MethodCall {
        Route::NotACall
    } else if iface == encode_utf8("org.freedesktop.DBus.Peer"@) && member == encode_utf8("Ping"@) {
        Route::Ping
    } else if has_handler {
        Route::Handler
    } else if iface == encode_utf8("org.freedesktop.DBus.Properties"@) && member == encode_utf8("Get"@) {
        Route::PropertiesGet
    } else if iface == encode_utf8("org.freedesktop.DBus.Properties"@) && member == encode_utf8("GetAll"@) {
        Route::PropertiesGetAll
    } else {
        Route::Unknown
    }
}

fn opt_or_empty(o: &Option<String>) -> (r: String)
    ensures
        sbytes(r) == bytes_or_empty(crate::linbus::message::opt_sbytes(*o)),
{
    match o {
        Some(s) => s.clone(),
        None => {
            let e = String::new();
            proof { assert(e@ =~= Seq::<char>::empty()); assert(sbytes(e) =~= Seq::<u8>::empty()); }
            e
        },
    }
}

/// The handler key of a call: its interface and member (empty if absent).
pub fn method_key(msg: &Message) -> (r: (String, String))
    ensures
        sbytes(r.0) == bytes_or_empty(msg@.interface),
        sbytes(r.1) == bytes_or_empty(msg@.member),
{
    (opt_or_empty(&msg.interface), opt_or_empty(&msg.member))
}

/// Whether the string's bytes equal those of a literal.
fn str_is(s: &String, lit: &str) -> (r: bool)
    ensures
        r == (sbytes(*s) == encode_utf8(lit@)),
{
    let a = chars_of(s.as_str());
    let b = chars_of(lit);
    let eq = crate::text::chars_eq(a.as_slice(), b.as_slice());
    proof {
        if !eq {
            crate::text::lemma_encode_injective(s@, lit@);
        }
    }
    eq
}

/// Routes an incoming message; `has_handler` tells whether a handler is
/// registered for its `method_key`.
pub fn route(msg: &Message, has_handler: bool) -> (r: Route)
    ensures
        r == route_of(msg@, has_handler),
{
    if msg.msg_type != MessageType::MethodCall {
        return Route::NotACall;
    }
    let (iface, member) = method_key(msg);
    if str_is(&iface, "org.freedesktop.DBus.Peer") && str_is(&member, "Ping") {
        return Route::Ping;
    }
    if has_handler {
        return Route::Handler;
    }
    if str_is(&iface, "org.freedesktop.DBus.Properties") && str_is(&member, "Get") {
        return Route::PropertiesGet;
    }
    if str_is(&iface, "org.freedesktop.DBus.Properties") && str_is(&member, "GetAll") {
        return Route::PropertiesGetAll;
    }
    Route::Unknown
}

/// The properties served, as `(interface, name, value)` in insertion order.
pub struct PropertyStore {
    entries: Vec<(String, String, Value)>,
}

pub open spec fn store_view(v: Seq<(String, String, Value)>) -> Seq<(Seq<u8>, Seq<u8>, VModel)> {
    v.map_values(|e: (String, String, Value)| (sbytes(e.0), sbytes(e.1), e.2@))
}

/// The first index of the key `(iface, name)`.
pub open spec fn prop_index(s: Seq<(Seq<u8>, Seq<u8>, VModel)>, iface: Seq<u8>, name: Seq<u8>) -> Option<int>
    decreases s.len(),
{
    if s.len() == 0 {
        None
    } else if s[0].0 == iface && s[0].1 == name {
        Some(0)
    } else {
        match prop_index(s.drop_first(), iface, name) {
            Some(i) => Some(i + 1),
            None => None,
        }
    }
}

/// The value of a property, if set.
pub open spec fn prop_value(s: Seq<(Seq<u8>, Seq<u8>, VModel)>, iface: Seq<u8>, name: Seq<u8>) -> Option<VModel> {
    match prop_index(s, iface, name) {
        Some(i) => Some(s[i].2),
        None => None,
    }
}

/// The properties of one interface as `GetAll` returns them: name, and
/// value in a variant.
pub open spec fn iface_pairs(s: Seq<(Seq<u8>, Seq<u8>, VModel)>, iface: Seq<u8>) -> Seq<(VModel, VModel)>
    decreases s.len(),
{
    if s.len() == 0 {
        Seq::empty()
    } else {
        let r = iface_pairs(s.drop_last(), iface);
        let e = s.last();
        if e.0 == iface { r.push((VModel::Str(e.1), VModel::Variant(Box::new(e.2)))) } else { r }
    }
}

pub proof fn lemma_prop_index(s: Seq<(Seq<u8>, Seq<u8>, VModel)>, iface: Seq<u8>, name: Seq<u8>)
    ensures
        (match prop_index(s, iface, name) {
            Some(i) => 0 <= i < s.len() && s[i].0 == iface && s[i].1 == name
                && forall|j: int| 0 <= j < i ==> !(#[trigger] s[j].0 == iface && s[j].1 == name),
            None => forall|j: int| 0 <= j < s.len() ==> !(#[trigger] s[j].0 == iface && s[j].1 == name),
        }),
    decreases s.len(),
{
    if s.len() > 0 {
        lemma_prop_index(s.drop_first(), iface, name);
        assert forall|j: int| 0 < j < s.len() implies #[trigger] s[j] == s.drop_first()[j - 1] by {}
    }
}

/// The store after setting `(iface, name)` to `v`: an existing entry is
/// replaced in place, a new one goes last.
pub open spec fn after_set(s: Seq<(Seq<u8>, Seq<u8>, VModel)>, iface: Seq<u8>, name: Seq<u8>, v: VModel)
    -> Seq<(Seq<u8>, Seq<u8>, VModel)> {
    match prop_index(s, iface, name) {
        Some(i) => s.update(i, (iface, name, v)),
        None => s.push((iface, name, v)),
    }
}

proof fn lemma_prop_index_first(s: Seq<(Seq<u8>, Seq<u8>, VModel)>, iface: Seq<u8>, name: Seq<u8>, j: int)
    requires
        0 <= j < s.len(),
        s[j].0 == iface && s[j].1 == name,
        forall|k: int| 0 <= k < j ==> !(#[trigger] s[k].0 == iface && s[k].1 == name),
    ensures
        prop_index(s, iface, name) == Some(j),
    decreases j,
{
    if j > 0 {
        let t = s.drop_first();
        assert forall|k: int| 0 <= k < j - 1 implies !(#[trigger] t[k].0 == iface && t[k].1 == name) by {
            assert(t[k] == s[k + 1]);
        }
        lemma_prop_index_first(t, iface, name, j - 1);
    }
}

proof fn lemma_prop_index_absent(s: Seq<(Seq<u8>, Seq<u8>, VModel)>, iface: Seq<u8>, name: Seq<u8>)
    requires
        forall|k: int| 0 <= k < s.len() ==> !(#[trigger] s[k].0 == iface && s[k].1 == name),
    ensures
        prop_index(s, iface, name) is None,
    decreases s.len(),
{
    if s.len() > 0 {
        let t = s.drop_first();
        assert forall|k: int| 0 <= k < t.len() implies !(#[trigger] t[k].0 == iface && t[k].1 == name) by {
            assert(t[k] == s[k + 1]);
        }
        lemma_prop_index_absent(t, iface, name);
    }
}

/// Setting one property leaves every other property's value as it was.
pub proof fn lemma_set_keeps_others(s: Seq<(Seq<u8>, Seq<u8>, VModel)>, iface: Seq<u8>, name: Seq<u8>, v: VModel,
    iface2: Seq<u8>, name2: Seq<u8>)
    requires
        !(iface2 == iface && name2 == name),
    ensures
        prop_value(after_set(s, iface, name, v), iface2, name2) == prop_value(s, iface2, name2),
{
    let t = after_set(s, iface, name, v);
    lemma_prop_index(s, iface, name);
    lemma_prop_index(s, iface2, name2);
    assert forall|k: int| 0 <= k < s.len() implies (#[trigger] t[k].0 == iface2 && t[k].1 == name2)
        == (s[k].0 == iface2 && s[k].1 == name2) && (s[k].0 == iface2 && s[k].1 == name2 ==> t[k] == s[k]) by {
        if prop_index(s, iface, name) == Some(k) {
            assert(t[k] == (iface, name, v));
        } else {
            assert(t[k] == s[k]);
        }
    }
    if t.len() > s.len() {
        assert(t[s.len() as int] == (iface, name, v));
    }
    match prop_index(s, iface2, name2) {
        Some(j) => {
            assert forall|k: int| 0 <= k < j implies !(#[trigger] t[k].0 == iface2 && t[k].1 == name2) by {
                assert(!(s[k].0 == iface2 && s[k].1 == name2));
            }
            lemma_prop_index_first(t, iface2, name2, j);
        },
        None => {
            assert forall|k: int| 0 <= k < t.len() implies !(#[trigger] t[k].0 == iface2 && t[k].1 == name2) by {
                if k < s.len() {
                    assert(!(s[k].0 == iface2 && s[k].1 == name2));
                }
            }
            lemma_prop_index_absent(t, iface2, name2);
        },
    }
}

impl View for PropertyStore {
    type V = Seq<(Seq<u8>, Seq<u8>, VModel)>;

    closed spec fn view(&self) -> Seq<(Seq<u8>, Seq<u8>, VModel)> {
        store_view(self.entries@)
    }
}

impl PropertyStore {
    /// No properties.
    pub fn new() -> (s: Self)
        ensures
            s@ == Seq::<(Seq<u8>, Seq<u8>, VModel)>::empty(),
    {
        let s = PropertyStore { entries: Vec::new() };
        proof { assert(s@ =~= Seq::<(Seq<u8>, Seq<u8>, VModel)>::empty()); }
        s
    }

    fn find(&self, iface: &String, name: &String) -> (r: Option<usize>)
        ensures
            (match r {
                Some(i) => i < self@.len() && prop_index(self@, sbytes(*iface), sbytes(*name)) == Some(i as int),
                None => prop_index(self@, sbytes(*iface), sbytes(*name)) is None,
            }),
    {
        let ghost sv = self@;
        let mut i: usize = 0;
        proof { assert(sv.skip(0) =~= sv); }
        while i < self.entries.len()
            invariant
                i <= self.entries@.len(),
                sv == store_view(self.entries@),
                sv.len() == self.entries@.len(),
                prop_index(sv, sbytes(*iface), sbytes(*name)) == (match prop_index(sv.skip(i as int), sbytes(*iface), sbytes(*name)) {
                    Some(m) => Some(m + i),
                    None => None,
                }),
            decreases self.entries@.len() - i,
        {
            proof {
                assert(sv.skip(i as int)[0] == sv[i as int]);
                assert(sv.skip(i as int).drop_first() =~= sv.skip(i + 1));
            }
            let e = &self.entries[i];
            let same = crate::model::string_eq(&e.0, iface) && crate::model::string_eq(&e.1, name);
            proof {
                crate::text::lemma_encode_injective(e.0@, iface@);
                crate::text::lemma_encode_injective(e.1@, name@);
            }
            if same {
                return Some(i);
            }
            i += 1;
        }
        proof { assert(sv.skip(i as int) =~= Seq::<(Seq<u8>, Seq<u8>, VModel)>::empty()); }
        None
    }

    /// Sets a property, replacing an earlier value of the same key.
    pub fn set_property(&mut self, interface: &str, name: &str, value: Value)
        ensures
            prop_value(final(self)@, encode_utf8(interface@), encode_utf8(name@)) == Some(value@),
            final(self)@ == after_set(old(self)@, encode_utf8(interface@), encode_utf8(name@), value@),
    {
        let i_s = interface.to_owned();
        let n_s = name.to_owned();
        let ghost entry = (encode_utf8(interface@), encode_utf8(name@), value@);
        let ghost before = self@;
        match self.find(&i_s, &n_s) {
            Some(i) => {
                self.entries.set(i, (i_s, n_s, value));
                proof {
                    assert(self@ =~= before.update(i as int, entry));
                    lemma_prop_index(before, entry.0, entry.1);
                    lemma_prop_index(self@, entry.0, entry.1);
                    match prop_index(self@, entry.0, entry.1) {
                        Some(m) => { if m < i { assert(self@[m] == before[m]); } if m > i { assert(!(self@[i as int].0 == entry.0 && self@[i as int].1 == entry.1)); } },
                        None => { assert(self@[i as int].0 == entry.0); },
                    }
                }
            },
            None => {
                self.entries.push((i_s, n_s, value));
                proof {
                    assert(self@ =~= before.push(entry));
                    lemma_prop_index(before, entry.0, entry.1);
                    lemma_prop_index(self@, entry.0, entry.1);
                    match prop_index(self@, entry.0, entry.1) {
                        Some(m) => { if m < before.len() { assert(self@[m] == before[m]); } },
                        None => { assert(self@[before.len() as int].0 == entry.0); },
                    }
                }
            },
        }
    }

    /// The value of a property, if set.
    pub fn get(&self, interface: &String, name: &String) -> (r: Option<&Value>)
        ensures
            (match r {
                Some(v) => prop_value(self@, sbytes(*interface), sbytes(*name)) == Some(v@),
                None => prop_value(self@, sbytes(*interface), sbytes(*name)) is None,
            }),
    {
        match self.find(interface, name) {
            Some(i) => {
                proof { assert(self@[i as int].2 == self.entries@[i as int].2@); }
                Some(&self.entries[i].2)
            },
            None => None,
        }
    }

    /// The `GetAll` pairs of an interface.
    pub fn get_all(&self, interface: &String) -> (r: Vec<(Value, Value)>)
        ensures
            crate::linbus::value::pair_models(r@) == iface_pairs(self@, sbytes(*interface)),
    {
        let ghost sv = self@;
        let mut out: Vec<(Value, Value)> = Vec::new();
        let mut i: usize = 0;
        while i < self.entries.len()
            invariant
                i <= self.entries@.len(),
                sv == store_view(self.entries@),
                sv.len() == self.entries@.len(),
                crate::linbus::value::pair_models(out@) == iface_pairs(sv.take(i as int), sbytes(*interface)),
            decreases self.entries@.len() - i,
        {
            proof {
                assert(sv.take(i + 1).drop_last() =~= sv.take(i as int));
                assert(sv.take(i + 1).last() == sv[i as int]);
            }
            let e = &self.entries[i];
            proof { crate::text::lemma_encode_injective(e.0@, interface@); }
            if crate::model::string_eq(&e.0, interface) {
                let ghost before = out@;
                let v = copy_value(&e.2);
                let name = e.1.clone();
                let pair = (Value::String(name), Value::Variant(Box::new(v)));
                proof {
                    assert(model(pair.0) == VModel::Str(sbytes(e.1)));
                    assert(model(pair.1) == VModel::Variant(Box::new(e.2@)));
                    assert(sv[i as int] == (sbytes(e.0), sbytes(e.1), e.2@));
                }
                out.push(pair);
                proof {
                    assert(out@.drop_last() =~= before);
                    assert(out@.last() == pair);
                }
            }
            i += 1;
        }
        proof { assert(sv.take(i as int) =~= sv); }
        out
    }
}

/// The string argument at `k` of a body (through variants), empty if none.
pub open spec fn str_arg(body: Seq<VModel>, k: int) -> Seq<u8> {
    if 0 <= k < body.len() && str_of(body[k]) is Some { str_of(body[k])->0 } else { Seq::empty() }
}

fn str_arg_exec(body: &Vec<Value>, k: usize) -> (r: String)
    ensures
        sbytes(r) == str_arg(models(body@), k as int),
{
    proof { lemma_models(body@); }
    let empty = String::new();
    proof { assert(empty@ =~= Seq::<char>::empty()); assert(sbytes(empty) =~= Seq::<u8>::empty()); }
    if k < body.len() {
        match body[k].as_str() {
            Some(s) => s.to_owned(),
            None => empty,
        }
    } else {
        empty
    }
}

/// The reply to `Ping`: an empty return.
pub fn ping_reply(msg: &Message) -> (r: Message)
    ensures
        r@ == (MsgModel { reply_serial: Some(msg@.serial), ..bare(MessageType::MethodReturn, 0, 0) }),
{
    Message::method_return(msg.serial)
}

/// Whether the caller expects no reply (flag 0x1).
pub open spec fn no_reply(m: MsgModel) -> bool {
    m.flags & 1u8 != 0
}

/// The reply to a handled call: its return with the handler's values
/// (none when no reply is expected), or a `Failed` error with the
/// handler's error text.
pub fn handler_reply(msg: &Message, result: Result<Vec<Value>, String>) -> (r: Option<Message>)
    ensures
        (match result {
            Ok(body) => if no_reply(msg@) { r is None } else {
                r matches Some(m) && m@ == (MsgModel { reply_serial: Some(msg@.serial), body: models(body@),
                    ..bare(MessageType::MethodReturn, 0, 0) })
            },
            Err(text) => r matches Some(m) && m@ == error_reply(msg@.serial,
                "org.freedesktop.DBus.Error.Failed"@, encode_utf8(text@)),
        }),
{
    match result {
        Ok(body) => {
            if msg.flags & 0x1 == 0 {
                Some(Message::method_return(msg.serial).with_body(body))
            } else {
                None
            }
        },
        Err(text) => Some(Message::error(msg.serial, "org.freedesktop.DBus.Error.Failed", text.as_str())),
    }
}

/// The reply to `Properties.Get`: the value in a variant, or an
/// `UnknownProperty` error naming `<interface>.<property>`.
pub fn properties_get_reply(msg: &Message, store: &PropertyStore) -> (r: Message)
    ensures
        ({
            let iface = str_arg(msg@.body, 0);
            let prop = str_arg(msg@.body, 1);
            match prop_value(store@, iface, prop) {
                Some(v) => r@ == (MsgModel { reply_serial: Some(msg@.serial), body: seq![VModel::Variant(Box::new(v))],
                    ..bare(MessageType::MethodReturn, 0, 0) }),
                None => r@ == error_reply(msg@.serial, "org.freedesktop.DBus.Error.UnknownProperty"@,
                    iface + encode_utf8("."@) + prop + encode_utf8(" not found"@)),
            }
        }),
{
    let iface = str_arg_exec(&msg.body, 0);
    let prop = str_arg_exec(&msg.body, 1);
    match store.get(&iface, &prop) {
        Some(v) => {
            let body = vec![Value::Variant(Box::new(copy_value(v)))];
            proof {
                lemma_models(body@);
                assert(models(body@) =~= seq![VModel::Variant(Box::new(v@))]);
            }
            Message::method_return(msg.serial).with_body(body)
        },
        None => {
            let mut text = String::new();
            push_str_chars(&mut text, iface.as_str());
            push_str_chars(&mut text, ".");
            push_str_chars(&mut text, prop.as_str());
            push_str_chars(&mut text, " not found");
            proof {
                assert(text@ =~= iface@ + "."@ + prop@ + " not found"@);
                crate::text::lemma_encode_concat(iface@ + "."@ + prop@, " not found"@);
                crate::text::lemma_encode_concat(iface@ + "."@, prop@);
                crate::text::lemma_encode_concat(iface@, "."@);
            }
            Message::error(msg.serial, "org.freedesktop.DBus.Error.UnknownProperty", text.as_str())
        },
    }
}

/// The reply to `Properties.GetAll`: a dictionary of the interface's
/// properties.
pub fn properties_get_all_reply(msg: &Message, store: &PropertyStore) -> (r: Message)
    ensures
        r@ == (MsgModel { reply_serial: Some(msg@.serial),
            body: seq![VModel::Dict(iface_pairs(store@, str_arg(msg@.body, 0)))],
            ..bare(MessageType::MethodReturn, 0, 0) }),
{
    let iface = str_arg_exec(&msg.body, 0);
    let pairs = store.get_all(&iface);
    let body = vec![Value::Dict(pairs)];
    proof {
        lemma_models(body@);
        assert(models(body@) =~= seq![VModel::Dict(iface_pairs(store@, str_arg(msg@.body, 0)))]);
    }
    Message::method_return(msg.serial).with_body(body)
}

/// The reply to a call nobody handles: an `UnknownMethod` error naming
/// `<interface>.<member>`, unless no reply is expected.
pub fn unknown_method_reply(msg: &Message) -> (r: Option<Message>)
    ensures
        no_reply(msg@) ==> r is None,
        !no_reply(msg@) ==> (r matches Some(m) && m@ == error_reply(msg@.serial,
            "org.freedesktop.DBus.Error.UnknownMethod"@, encode_utf8("No handler for "@)
                + bytes_or_empty(msg@.interface) + encode_utf8("."@) + bytes_or_empty(msg@.member))),
{
    if msg.flags & 0x1 != 0 {
        return None;
    }
    let (iface, member) = method_key(msg);
    let mut text = String::new();
    push_str_chars(&mut text, "No handler for ");
    push_str_chars(&mut text, iface.as_str());
    push_str_chars(&mut text, ".");
    push_str_chars(&mut text, member.as_str());
    proof {
        assert(text@ =~= "No handler for "@ + iface@ + "."@ + member@);
        crate::text::lemma_encode_concat("No handler for "@ + iface@ + "."@, member@);
        crate::text::lemma_encode_concat("No handler for "@ + iface@, "."@);
        crate::text::lemma_encode_concat("No handler for "@, iface@);
    }
    Some(Message::error(msg.serial, "org.freedesktop.DBus.Error.UnknownMethod", text.as_str()))
}

} // verus!
