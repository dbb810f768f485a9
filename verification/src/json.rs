//! JSON values as the router reads and writes them.
use crate::text;
use crate::text::same;
use vstd::prelude::*;
use vstd::string::*;
use vstd::utf8::encode_utf8;

verus! {

/// A JSON number: what it reads as, and its own spelling.
pub struct Number {
    /// The value, where it is an integer of sixty-four signed bits.
    pub int: Option<i64>,
    /// The value, where it is an integer of sixty-four unsigned bits.
    pub uint: Option<u64>,
    /// The IEEE-754 bits of the nearest finite double, for a number that was read.
    pub double: Option<u64>,
    /// The spelling.
    pub text: String,
}

/// A JSON value.
pub enum Json {
    Null,
    Bool(bool),
    Number(Number),
    Text(String),
    Array(Vec<Json>),
    Object(Vec<(String, Json)>),
}

/// The mathematical model of [`Number`].
pub struct NumberView {
    pub int: Option<i64>,
    pub uint: Option<u64>,
    pub double: Option<u64>,
    pub text: Seq<char>,
}

/// The mathematical model of [`Json`].
pub enum JsonView {
    Null,
    Bool(bool),
    Number(NumberView),
    Text(Seq<char>),
    Array(Seq<JsonView>),
    Object(Seq<(Seq<char>, JsonView)>),
}

impl View for Number {
    type V = NumberView;

    open spec fn view(&self) -> NumberView {
        NumberView { int: self.int, uint: self.uint, double: self.double, text: self.text@ }
    }
}

impl Json {
    pub open spec fn view(&self) -> JsonView
        decreases self,
    {
        match self {
            Json::Null => JsonView::Null,
            Json::Bool(b) => JsonView::Bool(*b),
            Json::Number(n) => JsonView::Number(n@),
            Json::Text(s) => JsonView::Text(s@),
            Json::Array(v) => JsonView::Array(
                Seq::new(
                    v@.len(),
                    |i: int|
                        if 0 <= i < v@.len() {
                            v@[i].view()
                        } else {
                            JsonView::Null
                        },
                ),
            ),
            Json::Object(v) => JsonView::Object(
                Seq::new(
                    v@.len(),
                    |i: int|
                        if 0 <= i < v@.len() {
                            (v@[i].0@, v@[i].1.view())
                        } else {
                            (Seq::empty(), JsonView::Null)
                        },
                ),
            ),
        }
    }
}

/// `serde_json::Value`: a parsed document.
#[verifier::external_type_specification]
#[verifier::external_body]
pub struct ExValue(serde_json::Value);

/// What a parsed document holds.
pub uninterp spec fn document(v: serde_json::Value) -> JsonView;

/// The document that bytes write, where they are JSON; nothing is not.
pub open spec fn parsed(bytes: Seq<u8>) -> Option<JsonView> {
    if bytes.len() == 0 {
        None
    } else {
        read_as(bytes)
    }
}

/// The document that bytes write, where there are any and they are JSON.
pub uninterp spec fn read_as(bytes: Seq<u8>) -> Option<JsonView>;

/// `serde_json::from_slice` reads one document, or fails, as the bytes alone decide. Nothing is no
/// document.
#[verifier::external_body]
fn read(bytes: &[u8]) -> (r: Option<serde_json::Value>)
    ensures
        match r {
            Some(v) => bytes@.len() > 0 && read_as(bytes@) == Some(document(v)),
            None => bytes@.len() == 0 || read_as(bytes@) is None,
        },
{
    serde_json::from_slice(bytes).ok()
}

/// Takes a `serde_json::Value` apart: each variant becomes the one of the same kind, and a
/// number keeps what `as_i64`, `as_u64`, `as_f64` and its display say of it.
#[verifier::external_body]
fn from_value(v: serde_json::Value) -> (r: Json)
    ensures
        r@ == document(v),
{
    match v {
        serde_json::Value::Null => Json::Null,
        serde_json::Value::Bool(b) => Json::Bool(b),
        serde_json::Value::Number(n) => Json::Number(
            Number { int: n.as_i64(), uint: n.as_u64(), double: n.as_f64().map(|x| x.to_bits()), text: n.to_string() },
        ),
        serde_json::Value::String(s) => Json::Text(s),
        serde_json::Value::Array(a) => Json::Array(a.into_iter().map(from_value).collect()),
        serde_json::Value::Object(o) => Json::Object(o.into_iter().map(|(k, v)| (k, from_value(v))).collect()),
    }
}

/// The document that bytes write, where they are JSON.
pub fn parse(bytes: &[u8]) -> (r: Option<Json>)
    ensures
        match r {
            Some(j) => parsed(bytes@) == Some(j@),
            None => parsed(bytes@) is None,
        },
{
    match read(bytes) {
        Some(v) => Some(from_value(v)),
        None => None,
    }
}

/// How a character is written in a string literal.
pub open spec fn escape(c: char) -> Seq<char> {
    if c == '"' {
        seq!['\\', '"']
    } else if c == '\\' {
        seq!['\\', '\\']
    } else if c == '\x08' {
        seq!['\\', 'b']
    } else if c == '\t' {
        seq!['\\', 't']
    } else if c == '\n' {
        seq!['\\', 'n']
    } else if c == '\x0c' {
        seq!['\\', 'f']
    } else if c == '\r' {
        seq!['\\', 'r']
    } else if (c as int) < 32 {
        seq![
            '\\',
            'u',
            '0',
            '0',
            text::hex_digit((c as int) / 16),
            text::hex_digit((c as int) % 16),
        ]
    } else {
        seq![c]
    }
}

/// How a text is written in a string literal.
pub open spec fn escaped(s: Seq<char>) -> Seq<char>
    decreases s.len(),
{
    if s.len() == 0 {
        Seq::empty()
    } else {
        escape(s[0]) + escaped(s.drop_first())
    }
}

/// The JSON string literal of a text.
pub open spec fn quoted(s: Seq<char>) -> Seq<char> {
    seq!['"'] + escaped(s) + seq!['"']
}

/// `serde_json::to_string` of a text writes its string literal, in which quotes, backslashes and
/// controls are escaped, and which reads as the text again. It cannot fail on a text.
#[verifier::external_body]
pub(crate) fn quote(s: &str) -> (r: String)
    ensures
        r@ == quoted(s@),
        unquoted(r@) == Some(s@),
{
    serde_json::to_string(s).unwrap()
}

/// The members of the object that bytes write, each name with the spelling of its value.
pub uninterp spec fn members(bytes: Seq<u8>) -> Option<Seq<(Seq<char>, Seq<char>)>>;

/// The characters of named spellings.
pub open spec fn pair_views(s: Seq<(String, String)>) -> Seq<(Seq<char>, Seq<char>)> {
    s.map_values(|p: (String, String)| (p.0@, p.1@))
}

/// Named spellings with commas between them.
pub open spec fn listed(s: Seq<(Seq<char>, Seq<char>)>) -> Seq<char>
    decreases s.len(),
{
    if s.len() == 0 {
        Seq::empty()
    } else {
        let one = quoted(s.last().0) + ":"@ + s.last().1;
        if s.len() == 1 {
            one
        } else {
            listed(s.drop_last()) + ","@ + one
        }
    }
}

/// The object that named spellings write.
pub open spec fn written(s: Seq<(Seq<char>, Seq<char>)>) -> Seq<char> {
    "{"@ + listed(s) + "}"@
}

/// Named spellings with another under one name.
pub open spec fn respelled(s: Seq<(Seq<char>, Seq<char>)>, name: Seq<char>, raw: Seq<char>) -> Seq<
    (Seq<char>, Seq<char>),
> {
    s.map_values(
        |p: (Seq<char>, Seq<char>)|
            if p.0 == name {
                (p.0, raw)
            } else {
                p
            },
    )
}

/// Written again, with a string under one name, named spellings are read as they were written.
pub open spec fn rewritable(s: Seq<(Seq<char>, Seq<char>)>) -> bool {
    forall|name: Seq<char>, t: Seq<char>|
        members(encode_utf8(written(#[trigger] respelled(s, name, quoted(t))))) == Some(
            respelled(s, name, quoted(t)),
        )
}

/// `serde_json::from_slice` into a `BTreeMap` of `RawValue` reads the members of an object in
/// the order of their names, or fails, as the bytes alone decide. Each value keeps its spelling,
/// so that the object can be written again and is then read as it was written.
#[verifier::external_body]
pub(crate) fn read_members(bytes: &[u8]) -> (r: Option<Vec<(String, String)>>)
    ensures
        match r {
            Some(v) => members(bytes@) == Some(pair_views(v@)) && rewritable(pair_views(v@)),
            None => members(bytes@) is None,
        },
{
    let parsed: std::collections::BTreeMap<String, Box<serde_json::value::RawValue>> =
        serde_json::from_slice(bytes).ok()?;
    Some(parsed.into_iter().map(|(k, v)| (k, v.get().to_owned())).collect())
}

/// The text that a spelling writes, where it is a string literal.
pub uninterp spec fn unquoted(raw: Seq<char>) -> Option<Seq<char>>;

/// `serde_json::from_str` into a `String` reads a string literal, or fails, as the spelling
/// alone decides.
#[verifier::external_body]
pub(crate) fn unquote(raw: &str) -> (r: Option<String>)
    ensures
        text::opt_view(r) == unquoted(raw@),
{
    serde_json::from_str(raw).ok()
}

/// The value of the first member with a name.
pub open spec fn lookup(s: Seq<(Seq<char>, JsonView)>, key: Seq<char>) -> Option<JsonView>
    decreases s.len(),
{
    if s.len() == 0 {
        None
    } else if s[0].0 == key {
        Some(s[0].1)
    } else {
        lookup(s.skip(1), key)
    }
}

impl JsonView {
    /// The member of an object with a name.
    pub open spec fn member(self, key: Seq<char>) -> Option<JsonView> {
        match self {
            JsonView::Object(s) => lookup(s, key),
            _ => None,
        }
    }

    /// The member with a name, or null.
    pub open spec fn at(self, key: Seq<char>) -> JsonView {
        match self.member(key) {
            Some(v) => v,
            None => JsonView::Null,
        }
    }

    /// The text of a string.
    pub open spec fn as_str(self) -> Option<Seq<char>> {
        match self {
            JsonView::Text(s) => Some(s),
            _ => None,
        }
    }

    /// The value of a boolean.
    pub open spec fn as_bool(self) -> Option<bool> {
        match self {
            JsonView::Bool(b) => Some(b),
            _ => None,
        }
    }

    /// The signed integer of a number.
    pub open spec fn as_int(self) -> Option<i64> {
        match self {
            JsonView::Number(n) => n.int,
            _ => None,
        }
    }

    /// The unsigned integer of a number.
    pub open spec fn as_uint(self) -> Option<u64> {
        match self {
            JsonView::Number(n) => n.uint,
            _ => None,
        }
    }

    /// The elements of an array.
    pub open spec fn as_items(self) -> Option<Seq<JsonView>> {
        match self {
            JsonView::Array(s) => Some(s),
            _ => None,
        }
    }

    /// The compact spelling of a value.
    pub open spec fn spelled(self) -> Seq<char>
        decreases self, 0int,
    {
        match self {
            JsonView::Null => "null"@,
            JsonView::Bool(b) => if b {
                "true"@
            } else {
                "false"@
            },
            JsonView::Number(n) => n.text,
            JsonView::Text(s) => quoted(s),
            JsonView::Array(s) => "["@ + spelled_items(s) + "]"@,
            JsonView::Object(s) => "{"@ + spelled_members(s) + "}"@,
        }
    }
}

/// Elements with commas between them.
pub open spec fn spelled_items(s: Seq<JsonView>) -> Seq<char>
    decreases s, 1int,
{
    if s.len() == 0 {
        Seq::empty()
    } else if s.len() == 1 {
        s[0].spelled()
    } else {
        spelled_items(s.take(s.len() - 1)) + ","@ + s[s.len() - 1].spelled()
    }
}

/// Members with commas between them.
pub open spec fn spelled_members(s: Seq<(Seq<char>, JsonView)>) -> Seq<char>
    decreases s, 1int,
{
    if s.len() == 0 {
        Seq::empty()
    } else {
        let last = s[s.len() - 1];
        let one = quoted(last.0) + ":"@ + last.1.spelled();
        if s.len() == 1 {
            one
        } else {
            spelled_members(s.take(s.len() - 1)) + ","@ + one
        }
    }
}

/// The value at hand, or null.
pub open spec fn seen(v: Option<&Json>) -> JsonView {
    match v {
        Some(j) => j@,
        None => JsonView::Null,
    }
}

/// The models of several values.
pub open spec fn all(s: Seq<Json>) -> Seq<JsonView> {
    s.map_values(|j: Json| j@)
}

/// The models of several members.
pub open spec fn all_members(s: Seq<(String, Json)>) -> Seq<(Seq<char>, JsonView)> {
    s.map_values(|m: (String, Json)| (m.0@, m.1@))
}

/// An array is the sequence of its elements, and an object that of its members.
pub proof fn composite(j: Json)
    ensures
        match j {
            Json::Array(v) => j@ == JsonView::Array(all(v@)),
            Json::Object(v) => j@ == JsonView::Object(all_members(v@)),
            _ => true,
        },
{
    match j {
        Json::Array(v) => {
            assert(j@->Array_0 =~= all(v@));
        },
        Json::Object(v) => {
            assert(j@->Object_0 =~= all_members(v@));
        },
        _ => {},
    }
}

impl Json {
    /// The member of an object with a name.
    pub fn get(&self, key: &str) -> (r: Option<&Json>)
        ensures
            match r {
                Some(j) => self@.member(key@) == Some(j@),
                None => self@.member(key@) is None,
            },
    {
        match self {
            Json::Object(v) => {
                proof {
                    composite(*self);
                    assert(all_members(v@).skip(0) =~= all_members(v@));
                }
                let mut i: usize = 0;
                while i < v.len()
                    invariant
                        i <= v@.len(),
                        self@ == JsonView::Object(all_members(v@)),
                        lookup(all_members(v@), key@) == lookup(
                            all_members(v@).skip(i as int),
                            key@,
                        ),
                    decreases v@.len() - i,
                {
                    assert(all_members(v@).skip(i as int)[0] == (v@[i as int].0@, v@[i as int].1@));
                    if same(v[i].0.as_str(), key) {
                        return Some(&v[i].1);
                    }
                    assert(all_members(v@).skip(i as int).skip(1) =~= all_members(v@).skip(i + 1));
                    i = i + 1;
                }
                None
            },
            _ => None,
        }
    }

    /// A copy of a value.
    pub fn copy(&self) -> (r: Json)
        ensures
            r@ == self@,
        decreases self,
    {
        match self {
            Json::Null => Json::Null,
            Json::Bool(b) => Json::Bool(*b),
            Json::Number(n) => Json::Number(
                Number { int: n.int, uint: n.uint, double: n.double, text: n.text.clone() },
            ),
            Json::Text(s) => Json::Text(s.clone()),
            Json::Array(v) => {
                let mut items: Vec<Json> = Vec::new();
                let mut i: usize = 0;
                while i < v.len()
                    invariant
                        i <= v@.len(),
                        *self == Json::Array(*v),
                        items@.len() == i,
                        forall|j: int| 0 <= j < i ==> (#[trigger] items@[j])@ == v@[j]@,
                    decreases v@.len() - i,
                {
                    assert(decreases_to!(*self => self->Array_0));
                    assert(decreases_to!(*v => v@));
                    assert(decreases_to!(v@ => v@[i as int]));
                    items.push(v[i].copy());
                    i = i + 1;
                }
                proof {
                    composite(*self);
                    assert(all(items@) =~= all(v@));
                }
                array(items)
            },
            Json::Object(v) => {
                let mut members: Vec<(String, Json)> = Vec::new();
                let mut i: usize = 0;
                while i < v.len()
                    invariant
                        i <= v@.len(),
                        *self == Json::Object(*v),
                        members@.len() == i,
                        forall|j: int|
                            0 <= j < i ==> (#[trigger] members@[j]).0@ == v@[j].0@ && members@[j].1@
                                == v@[j].1@,
                    decreases v@.len() - i,
                {
                    assert(decreases_to!(*self => self->Object_0));
                    assert(decreases_to!(*v => v@));
                    assert(decreases_to!(v@ => v@[i as int]));
                    assert(decreases_to!(v@[i as int] => v@[i as int].1));
                    members.push((v[i].0.clone(), v[i].1.copy()));
                    i = i + 1;
                }
                proof {
                    composite(*self);
                    assert(all_members(members@) =~= all_members(v@));
                }
                object(members)
            },
        }
    }

    /// A string.
    pub fn text(s: &str) -> (r: Json)
        ensures
            r@ == JsonView::Text(s@),
    {
        Json::Text(s.to_owned())
    }

    /// A natural number.
    pub fn natural(n: u64) -> (r: Json)
        ensures
            r@ == natural(n),
    {
        let signed: Option<i64> = if n <= 0x7fff_ffff_ffff_ffff {
            Some(n as i64)
        } else {
            None
        };
        Json::Number(Number { int: signed, uint: Some(n), double: None, text: text::number(n) })
    }

    /// The compact spelling of a value.
    pub fn render(&self) -> (r: String)
        ensures
            r@ == self@.spelled(),
        decreases self,
    {
        match self {
            Json::Null => "null".to_owned(),
            Json::Bool(b) => if *b {
                "true".to_owned()
            } else {
                "false".to_owned()
            },
            Json::Number(n) => n.text.clone(),
            Json::Text(s) => quote(s.as_str()),
            Json::Array(v) => {
                let mut r = "[".to_owned();
                let mut i: usize = 0;
                assert(spelled_items(all(v@).take(0)) =~= Seq::<char>::empty());
                assert(r@ =~= "["@ + spelled_items(all(v@).take(0)));
                while i < v.len()
                    invariant
                        i <= v@.len(),
                        *self == Json::Array(*v),
                        r@ == "["@ + spelled_items(all(v@).take(i as int)),
                    decreases v@.len() - i,
                {
                    if i > 0 {
                        r.append(",");
                    }
                    assert(decreases_to!(*self => self->Array_0));
                    assert(decreases_to!(*v => v@));
                    assert(decreases_to!(v@ => v@[i as int]));
                    r.append(v[i].render().as_str());
                    proof {
                        let next = all(v@).take(i + 1);
                        assert(next.take(i as int) =~= all(v@).take(i as int));
                        assert(r@ =~= "["@ + spelled_items(next));
                    }
                    i = i + 1;
                }
                r.append("]");
                proof {
                    assert(all(v@).take(i as int) =~= all(v@));
                    composite(*self);
                }
                r
            },
            Json::Object(v) => {
                let mut r = "{".to_owned();
                let mut i: usize = 0;
                assert(spelled_members(all_members(v@).take(0)) =~= Seq::<char>::empty());
                assert(r@ =~= "{"@ + spelled_members(all_members(v@).take(0)));
                while i < v.len()
                    invariant
                        i <= v@.len(),
                        *self == Json::Object(*v),
                        r@ == "{"@ + spelled_members(all_members(v@).take(i as int)),
                    decreases v@.len() - i,
                {
                    if i > 0 {
                        r.append(",");
                    }
                    assert(decreases_to!(*self => self->Object_0));
                    assert(decreases_to!(*v => v@));
                    assert(decreases_to!(v@ => v@[i as int]));
                    assert(decreases_to!(v@[i as int] => v@[i as int].1));
                    r.append(quote(v[i].0.as_str()).as_str());
                    r.append(":");
                    r.append(v[i].1.render().as_str());
                    proof {
                        let next = all_members(v@).take(i + 1);
                        assert(next.take(i as int) =~= all_members(v@).take(i as int));
                        assert(r@ =~= "{"@ + spelled_members(next));
                    }
                    i = i + 1;
                }
                r.append("}");
                proof {
                    assert(all_members(v@).take(i as int) =~= all_members(v@));
                    composite(*self);
                }
                r
            },
        }
    }
}

/// A natural number.
pub open spec fn natural(n: u64) -> JsonView {
    JsonView::Number(
        NumberView {
            int: if n <= i64::MAX {
                Some(n as i64)
            } else {
                None
            },
            uint: Some(n),
            double: None,
            text: text::decimal(n as nat),
        },
    )
}

/// The member with a name, or nothing for null.
pub fn at<'a>(v: Option<&'a Json>, key: &str) -> (r: Option<&'a Json>)
    ensures
        seen(r) == seen(v).at(key@),
{
    match v {
        Some(j) => j.get(key),
        None => None,
    }
}

/// The text of a string.
pub fn str_of<'a>(v: Option<&'a Json>) -> (r: Option<&'a String>)
    ensures
        match r {
            Some(s) => seen(v).as_str() == Some(s@),
            None => seen(v).as_str() is None,
        },
{
    match v {
        Some(Json::Text(s)) => Some(s),
        _ => None,
    }
}

/// The value of a boolean.
pub fn bool_of(v: Option<&Json>) -> (r: Option<bool>)
    ensures
        r == seen(v).as_bool(),
{
    match v {
        Some(Json::Bool(b)) => Some(*b),
        _ => None,
    }
}

/// The signed integer of a number.
pub fn int_of(v: Option<&Json>) -> (r: Option<i64>)
    ensures
        r == seen(v).as_int(),
{
    match v {
        Some(Json::Number(n)) => n.int,
        _ => None,
    }
}

/// The unsigned integer of a number.
pub fn uint_of(v: Option<&Json>) -> (r: Option<u64>)
    ensures
        r == seen(v).as_uint(),
{
    match v {
        Some(Json::Number(n)) => n.uint,
        _ => None,
    }
}

/// The elements of an array.
pub fn items_of<'a>(v: Option<&'a Json>) -> (r: Option<&'a Vec<Json>>)
    ensures
        match r {
            Some(s) => seen(v).as_items() == Some(all(s@)),
            None => seen(v).as_items() is None,
        },
{
    match v {
        Some(j) => {
            proof {
                composite(*j);
            }
            match j {
                Json::Array(s) => Some(s),
                _ => None,
            }
        },
        None => None,
    }
}

/// A member of an object.
pub fn member(name: &str, value: Json) -> (r: (String, Json))
    ensures
        r.0@ == name@,
        r.1 == value,
{
    (name.to_owned(), value)
}

/// An object.
pub fn object(members: Vec<(String, Json)>) -> (r: Json)
    ensures
        r@ == JsonView::Object(all_members(members@)),
{
    let r = Json::Object(members);
    proof {
        composite(r);
    }
    r
}

/// An array.
pub fn array(items: Vec<Json>) -> (r: Json)
    ensures
        r@ == JsonView::Array(all(items@)),
{
    let r = Json::Array(items);
    proof {
        composite(r);
    }
    r
}

proof fn escapes_are_apart(c: char, d: char, x: Seq<char>, y: Seq<char>)
    requires
        escape(c) + x == escape(d) + y,
    ensures
        c == d,
        x == y,
{
    let a = escape(c) + x;
    let b = escape(d) + y;
    assert(a[0] == b[0]);
    assert(a[0] == escape(c)[0] && b[0] == escape(d)[0]);
    if escape(c).len() > 1 && escape(d).len() > 1 {
        assert(a[1] == escape(c)[1] && b[1] == escape(d)[1]);
        if escape(c).len() > 2 && escape(d).len() > 2 {
            assert(a[4] == escape(c)[4] && b[4] == escape(d)[4]);
            assert(a[5] == escape(c)[5] && b[5] == escape(d)[5]);
            assert((c as int) / 16 == (d as int) / 16);
            assert((c as int) % 16 == (d as int) % 16);
        }
    }
    assert(c == d);
    assert(x =~= y) by {
        let n = escape(c).len() as int;
        assert(a.skip(n) =~= x);
        assert(b.skip(n) =~= y);
    }
}

proof fn escape_starts(c: char)
    ensures
        escape(c).len() > 0,
        escape(c)[0] != '"',
{
}

proof fn escaped_is_apart(s: Seq<char>, t: Seq<char>, x: Seq<char>, y: Seq<char>)
    requires
        escaped(s) + seq!['"'] + x == escaped(t) + seq!['"'] + y,
    ensures
        s == t,
        x == y,
    decreases s.len() + t.len(),
{
    let a = escaped(s) + seq!['"'] + x;
    let b = escaped(t) + seq!['"'] + y;
    if s.len() == 0 && t.len() == 0 {
        assert(a.skip(1) =~= x);
        assert(b.skip(1) =~= y);
        assert(s =~= t);
    } else if s.len() == 0 {
        escape_starts(t[0]);
        assert(a[0] == '"');
        assert(b[0] == escape(t[0])[0]);
    } else if t.len() == 0 {
        escape_starts(s[0]);
        assert(b[0] == '"');
        assert(a[0] == escape(s[0])[0]);
    } else {
        let u = escaped(s.drop_first()) + seq!['"'] + x;
        let v = escaped(t.drop_first()) + seq!['"'] + y;
        assert(a =~= escape(s[0]) + u);
        assert(b =~= escape(t[0]) + v);
        escapes_are_apart(s[0], t[0], u, v);
        escaped_is_apart(s.drop_first(), t.drop_first(), x, y);
        assert(s =~= seq![s[0]] + s.drop_first());
        assert(t =~= seq![t[0]] + t.drop_first());
    }
}

/// Where a string literal ends can be told from its beginning: two spellings that start with string
/// literals are the same only if the texts are, and what follows them.
pub proof fn literals_are_apart(s: Seq<char>, t: Seq<char>, x: Seq<char>, y: Seq<char>)
    requires
        quoted(s) + x == quoted(t) + y,
    ensures
        s == t,
        x == y,
{
    let a = quoted(s) + x;
    let b = quoted(t) + y;
    assert(a.skip(1) =~= escaped(s) + seq!['"'] + x);
    assert(b.skip(1) =~= escaped(t) + seq!['"'] + y);
    escaped_is_apart(s, t, x, y);
}

/// A member is found under its name, where no member before it has the same. Where none has a name,
/// nothing is found under it.
pub proof fn members_are_found(s: Seq<(Seq<char>, JsonView)>, i: int, key: Seq<char>)
    requires
        0 <= i <= s.len(),
        forall|j: int| 0 <= j < i ==> (#[trigger] s[j]).0 != key,
    ensures
        i < s.len() && s[i].0 == key ==> lookup(s, key) == Some(s[i].1),
        i == s.len() ==> lookup(s, key) is None,
    decreases s.len(),
{
    if s.len() > 0 && i > 0 {
        assert(s[0].0 != key);
        let t = s.skip(1);
        assert forall|j: int| 0 <= j < i - 1 implies (#[trigger] t[j]).0 != key by {
            assert(t[j] == s[j + 1]);
        }
        members_are_found(t, i - 1, key);
        if i < s.len() {
            assert(t[i - 1] == s[i]);
        }
    }
}

/// Only objects have members, and what is not there reads as null. A value reads as a text, a truth or a
/// list only where it is one.
pub proof fn values_are_read_as_they_are(v: JsonView, key: Seq<char>)
    ensures
        !(v is Object) ==> v.at(key) == JsonView::Null && v.member(key) is None,
        v is Object ==> v.member(key) == lookup(v->Object_0, key),
        v.member(key) is Some ==> v.at(key) == v.member(key)->0,
        v.member(key) is None ==> v.at(key) == JsonView::Null,
        v.as_str() is Some <==> v is Text,
        v is Text ==> v.as_str() == Some(v->Text_0),
        v.as_bool() is Some <==> v is Bool,
        v is Bool ==> v.as_bool() == Some(v->Bool_0),
        v.as_items() is Some <==> v is Array,
        v is Array ==> v.as_items() == Some(v->Array_0),
        v.as_int() is Some ==> v is Number,
        v is Number ==> v.as_int() == v->Number_0.int && v.as_uint() == v->Number_0.uint,
{
}

/// A list is spelled as its elements with commas between them, in brackets.
pub proof fn lists_are_spelled(s: Seq<JsonView>, x: JsonView)
    ensures
        JsonView::Array(Seq::empty()).spelled() =~= "["@ + "]"@,
        s.len() > 0 ==> spelled_items(s.push(x)) == spelled_items(s) + ","@ + x.spelled(),
        spelled_items(seq![x]) == x.spelled(),
        JsonView::Array(s).spelled() == "["@ + spelled_items(s) + "]"@,
        JsonView::Null.spelled() == "null"@,
        JsonView::Bool(true).spelled() == "true"@,
        JsonView::Bool(false).spelled() == "false"@,
{
    let t = s.push(x);
    assert(t.take(t.len() - 1) =~= s);
    assert(seq![x][0] == x);
}

/// An object is spelled as its members with commas between them, in braces: each name as a literal, a
/// colon, and the value.
pub proof fn objects_are_spelled(
    s: Seq<(Seq<char>, JsonView)>,
    name: Seq<char>,
    x: JsonView,
)
    ensures
        s.len() > 0 ==> spelled_members(s.push((name, x))) == spelled_members(s) + ","@ + (quoted(name)
            + ":"@ + x.spelled()),
        spelled_members(seq![(name, x)]) == quoted(name) + ":"@ + x.spelled(),
        JsonView::Object(s).spelled() == "{"@ + spelled_members(s) + "}"@,
{
    let t = s.push((name, x));
    assert(t.take(t.len() - 1) =~= s);
    assert(t[t.len() - 1] == (name, x));
    assert(seq![(name, x)][0] == (name, x));
}

/// Named spellings are written with commas between them, in braces: each name as a literal, a colon, and
/// the spelling as it is.
pub proof fn spellings_are_written(
    s: Seq<(Seq<char>, Seq<char>)>,
    name: Seq<char>,
    raw: Seq<char>,
)
    ensures
        s.len() > 0 ==> listed(s.push((name, raw))) == listed(s) + ","@ + (quoted(name) + ":"@ + raw),
        listed(seq![(name, raw)]) == quoted(name) + ":"@ + raw,
        written(s) == "{"@ + listed(s) + "}"@,
{
    let t = s.push((name, raw));
    assert(t.drop_last() =~= s);
    assert(t.last() == (name, raw));
    let u = seq![(name, raw)];
    assert(u.last() == (name, raw));
}

/// Another spelling goes under its name wherever that stands, and nowhere else.
pub proof fn spellings_are_replaced(
    s: Seq<(Seq<char>, Seq<char>)>,
    name: Seq<char>,
    raw: Seq<char>,
    i: int,
)
    requires
        0 <= i < s.len(),
    ensures
        respelled(s, name, raw).len() == s.len(),
        respelled(s, name, raw)[i].0 == s[i].0,
        s[i].0 == name ==> respelled(s, name, raw)[i].1 == raw,
        s[i].0 != name ==> respelled(s, name, raw)[i].1 == s[i].1,
{
}

/// A natural number reads as itself, signed where it fits, and is spelled in decimal.
pub proof fn naturals_are_written(n: u64)
    ensures
        natural(n).as_uint() == Some(n),
        n <= i64::MAX ==> natural(n).as_int() == Some(n as i64),
        n > i64::MAX ==> natural(n).as_int() is None,
        natural(n).spelled() == text::decimal(n as nat),
{
}

} // verus!
