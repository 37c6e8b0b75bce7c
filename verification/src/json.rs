//! JSON documents.
//!
//! `serde_json` reads the text. What it read becomes a [`Json`] of the library's own, on which
//! the rest of the library works.

use vstd::prelude::*;
use vstd::string::*;

use crate::double::Double;
use crate::text::same_text;

verus! {

/// `serde_json::Value`, a document as `serde_json` holds it.
#[verifier::external_type_specification]
#[verifier::external_body]
pub struct ExValue(serde_json::Value);

/// `serde_json::Number`, a number of such a document.
#[verifier::external_type_specification]
#[verifier::external_body]
pub struct ExNumber(serde_json::Number);

/// `serde_json::Error`, the reason why a text is no document.
#[verifier::external_type_specification]
#[verifier::external_body]
pub struct ExError(serde_json::Error);

/// A JSON document.
pub enum Json {
    Null,
    Bool(bool),
    Number(JsonNumber),
    Text(String),
    Array(Vec<Json>),
    Object(Vec<Member>),
}

/// A JSON number, in the two readings that the library asks for.
#[derive(Clone, Copy, Debug, PartialEq, Eq, Structural)]
pub struct JsonNumber {
    /// The number as an unsigned integer, where it is one.
    pub integer: Option<u64>,
    /// The number as a binary64 number.
    pub double: Option<Double>,
}

/// A member of a JSON object.
pub struct Member {
    pub key: String,
    pub value: Json,
}

/// What a JSON document says.
pub enum JsonView {
    Null,
    Bool(bool),
    Number(JsonNumber),
    Text(Seq<char>),
    Array(Seq<JsonView>),
    Object(Seq<(Seq<char>, JsonView)>),
}

impl View for Json {
    type V = JsonView;

    open spec fn view(&self) -> JsonView
        decreases self,
    {
        match self {
            Json::Null => JsonView::Null,
            Json::Bool(b) => JsonView::Bool(*b),
            Json::Number(n) => JsonView::Number(*n),
            Json::Text(s) => JsonView::Text(s@),
            Json::Array(a) => JsonView::Array(
                Seq::new(
                    a@.len(),
                    |i: int|
                        if 0 <= i < a@.len() {
                            a@[i].view()
                        } else {
                            JsonView::Null
                        },
                ),
            ),
            Json::Object(o) => JsonView::Object(
                Seq::new(
                    o@.len(),
                    |i: int|
                        if 0 <= i < o@.len() {
                            (o@[i].key@, o@[i].value.view())
                        } else {
                            (Seq::empty(), JsonView::Null)
                        },
                ),
            ),
        }
    }
}

/// What a document that `serde_json` holds says.
pub uninterp spec fn value_view(v: serde_json::Value) -> JsonView;

/// The unsigned integer that `Number::as_u64` reads.
pub uninterp spec fn number_integer(n: serde_json::Number) -> Option<u64>;

/// The bit pattern of the binary64 number that `Number::as_f64` reads.
pub uninterp spec fn number_bits(n: serde_json::Number) -> Option<u64>;

/// The document that `serde_json::from_str` reads in a text, if the text is one.
pub uninterp spec fn document(text: Seq<char>) -> Option<JsonView>;

/// The document that `serde_json::from_slice` reads in bytes, if they are one.
pub uninterp spec fn document_bytes(bytes: Seq<u8>) -> Option<JsonView>;

/// One layer of a document that `serde_json` holds.
pub enum Node<'a> {
    Null,
    Bool(bool),
    Number(&'a serde_json::Number),
    Text(&'a String),
    Array(&'a Vec<serde_json::Value>),
    Object(Vec<(&'a String, &'a serde_json::Value)>),
}

/// The two readings of a number.
pub open spec fn number_view(n: serde_json::Number) -> JsonNumber {
    JsonNumber {
        integer: number_integer(n),
        double: match number_bits(n) {
            Some(bits) => Some(Double { bits }),
            None => None,
        },
    }
}

/// What one layer of a document says.
pub open spec fn node_view(node: Node) -> JsonView {
    match node {
        Node::Null => JsonView::Null,
        Node::Bool(b) => JsonView::Bool(b),
        Node::Number(n) => JsonView::Number(number_view(*n)),
        Node::Text(s) => JsonView::Text(s@),
        Node::Array(a) => JsonView::Array(Seq::new(a@.len(), |i: int| value_view(a@[i]))),
        Node::Object(o) => JsonView::Object(
            Seq::new(o@.len(), |i: int| (o@[i].0@, value_view(*o@[i].1))),
        ),
    }
}

/// Opens a `serde_json::Value` by its variants; `Map::iter` lists the members of an object. The
/// contract says that what the value says is what its layer says.
#[verifier::external_body]
fn open_value<'a>(v: &'a serde_json::Value) -> (r: Node<'a>)
    ensures
        value_view(*v) == node_view(r),
{
    match v {
        serde_json::Value::Null => Node::Null,
        serde_json::Value::Bool(b) => Node::Bool(*b),
        serde_json::Value::Number(n) => Node::Number(n),
        serde_json::Value::String(s) => Node::Text(s),
        serde_json::Value::Array(a) => Node::Array(a),
        serde_json::Value::Object(o) => Node::Object(o.iter().collect()),
    }
}

/// Calls `Number::as_u64`, and gives its result a name.
#[verifier::external_body]
fn number_as_integer(n: &serde_json::Number) -> (r: Option<u64>)
    ensures
        r == number_integer(*n),
{
    n.as_u64()
}

/// Calls `Number::as_f64`, and gives the bit pattern of its result a name.
#[verifier::external_body]
fn number_as_bits(n: &serde_json::Number) -> (r: Option<u64>)
    ensures
        r == number_bits(*n),
{
    n.as_f64().map(|x| x.to_bits())
}

/// Calls `serde_json::from_str`. The contract gives a name to what it reads, and says that it
/// fails where the name holds nothing.
#[verifier::external_body]
fn value_from_text(text: &str) -> (r: Result<serde_json::Value, serde_json::Error>)
    ensures
        match r {
            Ok(v) => document(text@) == Some(value_view(v)),
            Err(_) => document(text@) is None,
        },
{
    serde_json::from_str(text)
}

/// Calls `serde_json::from_slice`. The contract gives a name to what it reads, and says that it
/// fails where the name holds nothing.
#[verifier::external_body]
fn value_from_bytes(bytes: &[u8]) -> (r: Result<serde_json::Value, serde_json::Error>)
    ensures
        match r {
            Ok(v) => document_bytes(bytes@) == Some(value_view(v)),
            Err(_) => document_bytes(bytes@) is None,
        },
{
    serde_json::from_slice(bytes)
}

/// Turns a document that `serde_json` holds into one of the library's own.
fn json_of(v: &serde_json::Value) -> (r: Json)
    ensures
        r@ == value_view(*v),
    decreases value_view(*v),
{
    match open_value(v) {
        Node::Null => Json::Null,
        Node::Bool(b) => Json::Bool(b),
        Node::Number(n) => {
            let integer: Option<u64> = number_as_integer(n);
            let double: Option<Double> = match number_as_bits(n) {
                Some(bits) => Some(Double { bits }),
                None => None,
            };
            Json::Number(JsonNumber { integer, double })
        },
        Node::Text(s) => Json::Text(s.clone()),
        Node::Array(a) => {
            let mut items: Vec<Json> = Vec::new();
            let mut i: usize = 0;
            while i < a.len()
                invariant
                    i <= a.len(),
                    items.len() == i,
                    value_view(*v) == node_view(Node::Array(a)),
                    forall|j: int| 0 <= j < i ==> (#[trigger] items@[j])@ == value_view(a@[j]),
                decreases a.len() - i,
            {
                proof {
                    let whole = value_view(*v);
                    assert(whole->Array_0[i as int] == value_view(a@[i as int]));
                    assert(decreases_to!(whole => whole->Array_0));
                    assert(decreases_to!(whole->Array_0 => whole->Array_0[i as int]));
                }
                items.push(json_of(&a[i]));
                i = i + 1;
            }
            let r: Json = Json::Array(items);
            proof {
                assert(r@->Array_0 =~= node_view(Node::Array(a))->Array_0);
            }
            r
        },
        Node::Object(o) => {
            let mut members: Vec<Member> = Vec::new();
            let mut i: usize = 0;
            while i < o.len()
                invariant
                    i <= o.len(),
                    members.len() == i,
                    value_view(*v) == node_view(Node::Object(o)),
                    forall|j: int|
                        0 <= j < i ==> (#[trigger] members@[j]).key@ == o@[j].0@
                            && members@[j].value@ == value_view(*o@[j].1),
                decreases o.len() - i,
            {
                let key: String = o[i].0.clone();
                proof {
                    let whole = value_view(*v);
                    let pair = whole->Object_0[i as int];
                    assert(pair.1 == value_view(*o@[i as int].1));
                    assert(decreases_to!(whole => whole->Object_0));
                    assert(decreases_to!(whole->Object_0 => whole->Object_0[i as int]));
                    assert(decreases_to!(pair => pair.1));
                }
                let value: Json = json_of(o[i].1);
                members.push(Member { key, value });
                i = i + 1;
            }
            let r: Json = Json::Object(members);
            proof {
                assert(r@->Object_0 =~= node_view(Node::Object(o))->Object_0);
            }
            r
        },
    }
}

/// Reads a JSON text; `None` where it is not JSON.
pub fn parse_text(text: &str) -> (r: Option<Json>)
    ensures
        match r {
            Some(j) => document(text@) == Some(j@),
            None => document(text@) is None,
        },
{
    match value_from_text(text) {
        Ok(v) => Some(json_of(&v)),
        Err(_) => None,
    }
}

/// Reads JSON bytes; `None` where they are not JSON.
pub fn parse_bytes(bytes: &[u8]) -> (r: Option<Json>)
    ensures
        match r {
            Some(j) => document_bytes(bytes@) == Some(j@),
            None => document_bytes(bytes@) is None,
        },
{
    match value_from_bytes(bytes) {
        Ok(v) => Some(json_of(&v)),
        Err(_) => None,
    }
}

/// The value of the first of some members that has a key.
pub open spec fn find_member(members: Seq<(Seq<char>, JsonView)>, key: Seq<char>) -> Option<
    JsonView,
>
    decreases members.len(),
{
    if members.len() == 0 {
        None
    } else if members[0].0 == key {
        Some(members[0].1)
    } else {
        find_member(members.drop_first(), key)
    }
}

impl JsonView {
    /// The value of a member, where this is an object that has it.
    pub open spec fn member(self, key: Seq<char>) -> Option<JsonView> {
        match self {
            JsonView::Object(members) => find_member(members, key),
            _ => None,
        }
    }

    /// The text of a member, where this is an object that has it and it is a text.
    pub open spec fn text_at(self, key: Seq<char>) -> Option<Seq<char>> {
        match self.member(key) {
            Some(JsonView::Text(s)) => Some(s),
            _ => None,
        }
    }

    /// The unsigned integer of a member, where this is an object that has it and it is one.
    pub open spec fn integer_at(self, key: Seq<char>) -> Option<u64> {
        match self.member(key) {
            Some(JsonView::Number(n)) => n.integer,
            _ => None,
        }
    }

    /// The items of a member, where this is an object that has it and it is an array.
    pub open spec fn array_at(self, key: Seq<char>) -> Option<Seq<JsonView>> {
        match self.member(key) {
            Some(JsonView::Array(items)) => Some(items),
            _ => None,
        }
    }
}

/// What the items of an array say.
pub open spec fn items_view(items: Seq<Json>) -> Seq<JsonView> {
    items.map_values(|j: Json| j@)
}

pub proof fn lemma_array_view(j: Json)
    requires
        j is Array,
    ensures
        j@ == JsonView::Array(items_view(j->Array_0@)),
{
    reveal_with_fuel(<Json as View>::view, 2);
    assert(j@->Array_0 =~= items_view(j->Array_0@));
}

proof fn lemma_object_view(j: Json)
    requires
        j is Object,
    ensures
        j@ is Object,
        j@->Object_0.len() == j->Object_0@.len(),
        forall|i: int|
            0 <= i < j->Object_0@.len() ==> #[trigger] j@->Object_0[i] == (
                j->Object_0@[i].key@,
                j->Object_0@[i].value@,
            ),
{
    reveal_with_fuel(<Json as View>::view, 2);
}

impl Json {
    /// The value of a member.
    pub fn get(&self, key: &str) -> (r: Option<&Json>)
        ensures
            match r {
                Some(j) => self@.member(key@) == Some(j@),
                None => self@.member(key@) is None,
            },
    {
        match self {
            Json::Object(members) => {
                let ghost all = self@->Object_0;
                let mut i: usize = 0;
                proof {
                    lemma_object_view(*self);
                    assert(all.skip(0) =~= all);
                }
                while i < members.len()
                    invariant
                        i <= members.len(),
                        all.len() == members.len(),
                        self@ == JsonView::Object(all),
                        forall|j: int|
                            0 <= j < members.len() ==> #[trigger] all[j] == (
                                members@[j].key@,
                                members@[j].value@,
                            ),
                        self@.member(key@) == find_member(all.skip(i as int), key@),
                    decreases members.len() - i,
                {
                    proof {
                        assert(all.skip(i as int)[0] == all[i as int]);
                        assert(all.skip(i as int).drop_first() =~= all.skip(i + 1));
                    }
                    if same_text(members[i].key.as_str(), key) {
                        return Some(&members[i].value);
                    }
                    i = i + 1;
                }
                None
            },
            _ => None,
        }
    }

    /// The text of a member.
    pub fn get_text(&self, key: &str) -> (r: Option<&String>)
        ensures
            match r {
                Some(s) => self@.text_at(key@) == Some(s@),
                None => self@.text_at(key@) is None,
            },
    {
        match self.get(key) {
            Some(Json::Text(s)) => Some(s),
            _ => None,
        }
    }

    /// The unsigned integer of a member.
    pub fn get_integer(&self, key: &str) -> (r: Option<u64>)
        ensures
            r == self@.integer_at(key@),
    {
        match self.get(key) {
            Some(Json::Number(n)) => n.integer,
            _ => None,
        }
    }

    /// The items of a member.
    pub fn get_array(&self, key: &str) -> (r: Option<&Vec<Json>>)
        ensures
            match r {
                Some(a) => self@.array_at(key@) == Some(items_view(a@)),
                None => self@.array_at(key@) is None,
            },
    {
        match self.get(key) {
            Some(Json::Array(items)) => {
                proof {
                    lemma_array_view(Json::Array(*items));
                }
                Some(items)
            },
            _ => None,
        }
    }
}

/// A hexadecimal digit.
pub open spec fn hex_digit(d: nat) -> char {
    if d < 10 {
        ('0' as u32 + d) as char
    } else {
        ('a' as u32 + d - 10) as char
    }
}

/// A character as it stands inside a JSON string.
pub open spec fn escaped(c: char) -> Seq<char> {
    let code = c as u32;
    if c == '"' || c == '\\' {
        seq!['\\', c]
    } else if code == 0x8 {
        seq!['\\', 'b']
    } else if code == 0x9 {
        seq!['\\', 't']
    } else if code == 0xa {
        seq!['\\', 'n']
    } else if code == 0xc {
        seq!['\\', 'f']
    } else if code == 0xd {
        seq!['\\', 'r']
    } else if code < 0x20 {
        seq!['\\', 'u', '0', '0', hex_digit((code / 16) as nat), hex_digit((code % 16) as nat)]
    } else {
        seq![c]
    }
}

/// A text as the inside of a JSON string.
pub open spec fn escaped_text(s: Seq<char>) -> Seq<char>
    decreases s.len(),
{
    if s.len() == 0 {
        Seq::empty()
    } else {
        escaped_text(s.drop_last()) + escaped(s.last())
    }
}

/// A text as a JSON string.
pub open spec fn literal(s: Seq<char>) -> Seq<char> {
    seq!['"'] + escaped_text(s) + seq!['"']
}

/// Writes a text as JSON with the `Display` of `serde_json::Value`, of the variant `String`: the
/// text between quotes, with quotes, backslashes and the control characters below the space
/// escaped.
#[verifier::external_body]
pub(crate) fn string_literal(s: &str) -> (r: String)
    ensures
        r@ == literal(s@),
{
    serde_json::Value::String(s.to_owned()).to_string()
}

/// A text without quotes, backslashes and control characters stands in a JSON string as it is.
pub proof fn plain_text_is_not_escaped(s: Seq<char>)
    requires
        forall|i: int|
            0 <= i < s.len() ==> (#[trigger] s[i]) as u32 >= 0x20 && s[i] != '"' && s[i] != '\\',
    ensures
        literal(s) == seq!['"'] + s + seq!['"'],
{
    lemma_plain_text(s);
}

proof fn lemma_plain_text(s: Seq<char>)
    requires
        forall|i: int|
            0 <= i < s.len() ==> (#[trigger] s[i]) as u32 >= 0x20 && s[i] != '"' && s[i] != '\\',
    ensures
        escaped_text(s) == s,
    decreases s.len(),
{
    if s.len() > 0 {
        lemma_plain_text(s.drop_last());
        assert(s.drop_last() + seq![s.last()] =~= s);
    }
}

/// The member of an object under a key is the first one that carries it; it is read as a text, an
/// integer or a list only where it is one.
pub proof fn member_is_the_one_with_its_key(
    members: Seq<(Seq<char>, JsonView)>,
    key: Seq<char>,
    k: int,
)
    requires
        0 <= k < members.len(),
        members[k].0 == key,
        forall|j: int| 0 <= j < k ==> (#[trigger] members[j]).0 != key,
    ensures
        JsonView::Object(members).member(key) == Some(members[k].1),
        JsonView::Object(members).text_at(key) == if members[k].1 is Text {
            Some(members[k].1->Text_0)
        } else {
            None
        },
        JsonView::Object(members).integer_at(key) == if members[k].1 is Number {
            members[k].1->Number_0.integer
        } else {
            None
        },
        JsonView::Object(members).array_at(key) == if members[k].1 is Array {
            Some(members[k].1->Array_0)
        } else {
            None
        },
{
    lemma_find_member(members, key, k);
}

proof fn lemma_find_member(members: Seq<(Seq<char>, JsonView)>, key: Seq<char>, k: int)
    requires
        0 <= k < members.len(),
        members[k].0 == key,
        forall|j: int| 0 <= j < k ==> (#[trigger] members[j]).0 != key,
    ensures
        find_member(members, key) == Some(members[k].1),
    decreases k,
{
    if k > 0 {
        let rest = members.drop_first();
        assert(members[0].0 != key);
        assert forall|j: int| 0 <= j < k - 1 implies (#[trigger] rest[j]).0 != key by {
            assert(rest[j] == members[j + 1]);
        }
        lemma_find_member(rest, key, k - 1);
    }
}

/// An object without a member under a key, and what is no object, has nothing there.
pub proof fn missing_member_is_nothing(doc: JsonView, key: Seq<char>)
    requires
        doc matches JsonView::Object(members) ==> forall|j: int|
            0 <= j < members.len() ==> (#[trigger] members[j]).0 != key,
    ensures
        doc.member(key) is None,
        doc.text_at(key) is None,
        doc.integer_at(key) is None,
        doc.array_at(key) is None,
{
    if let JsonView::Object(members) = doc {
        lemma_no_member(members, key);
    }
}

proof fn lemma_no_member(members: Seq<(Seq<char>, JsonView)>, key: Seq<char>)
    requires
        forall|j: int| 0 <= j < members.len() ==> (#[trigger] members[j]).0 != key,
    ensures
        find_member(members, key) is None,
    decreases members.len(),
{
    if members.len() > 0 {
        let rest = members.drop_first();
        assert(members[0].0 != key);
        assert forall|j: int| 0 <= j < rest.len() implies (#[trigger] rest[j]).0 != key by {
            assert(rest[j] == members[j + 1]);
        }
        lemma_no_member(rest, key);
    }
}

} // verus!
