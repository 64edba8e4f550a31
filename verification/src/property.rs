//! Properties of registry entries: trees of named values.

use vstd::prelude::*;

use crate::text;
use crate::text::{push_dec, push_hex_bytes, same_text};

verus! {

/// A property of a registry entry.
#[derive(Debug)]
pub enum Property {
    Null,
    Bool(bool),
    Int(i64),
    /// The bits of a double precision number that is no `i64`.
    Real(u64),
    Text(String),
    Array(Vec<Property>),
    Object(Vec<(String, Property)>),
}

/// Whether two properties hold the same.
pub open spec fn alike(p: Property, q: Property) -> bool
    decreases p,
{
    match (p, q) {
        (Property::Null, Property::Null) => true,
        (Property::Bool(a), Property::Bool(b)) => a == b,
        (Property::Int(a), Property::Int(b)) => a == b,
        (Property::Real(a), Property::Real(b)) => a == b,
        (Property::Text(a), Property::Text(b)) => a@ == b@,
        (Property::Array(a), Property::Array(b)) => {
            &&& a@.len() == b@.len()
            &&& forall|i: int| 0 <= i < a@.len() ==> alike(#[trigger] a@[i], b@[i])
        },
        (Property::Object(a), Property::Object(b)) => {
            &&& a@.len() == b@.len()
            &&& forall|i: int|
                0 <= i < a@.len() ==> (#[trigger] a@[i]).0@ == b@[i].0@ && alike(a@[i].1, b@[i].1)
        },
        _ => false,
    }
}

impl Clone for Property {
    fn clone(&self) -> (r: Self)
        ensures
            alike(*self, r),
        decreases self,
    {
        match self {
            Property::Null => Property::Null,
            Property::Bool(b) => Property::Bool(*b),
            Property::Int(i) => Property::Int(*i),
            Property::Real(x) => Property::Real(*x),
            Property::Text(t) => Property::Text(t.as_str().to_string()),
            Property::Array(v) => {
                let mut out: Vec<Property> = Vec::new();
                let mut i: usize = 0;
                while i < v.len()
                    invariant
                        i == out.len(),
                        i <= v.len(),
                        *self == Property::Array(*v),
                        forall|k: int| 0 <= k < i ==> alike(#[trigger] v@[k], out@[k]),
                    decreases v.len() - i,
                {
                    assert(decreases_to!(self => self->Array_0@[i as int]));
                    let one = v[i].clone();
                    out.push(one);
                    i += 1;
                }
                Property::Array(out)
            },
            Property::Object(v) => {
                let mut out: Vec<(String, Property)> = Vec::new();
                let mut i: usize = 0;
                while i < v.len()
                    invariant
                        i == out.len(),
                        i <= v.len(),
                        *self == Property::Object(*v),
                        forall|k: int|
                            0 <= k < i ==> (#[trigger] v@[k]).0@ == out@[k].0@ && alike(
                                v@[k].1,
                                out@[k].1,
                            ),
                    decreases v.len() - i,
                {
                    assert(decreases_to!(self => self->Object_0@[i as int].1));
                    let one = v[i].1.clone();
                    out.push((v[i].0.as_str().to_string(), one));
                    i += 1;
                }
                Property::Object(out)
            },
        }
    }
}

/// Where the last field with the given name stands.
pub open spec fn position(fields: Seq<(String, Property)>, key: Seq<char>) -> Option<int>
    decreases fields.len(),
{
    if fields.len() == 0 {
        None
    } else if fields.last().0@ == key {
        Some(fields.len() - 1)
    } else {
        position(fields.drop_last(), key)
    }
}

/// The value of the field with the given name, if there is one.
pub open spec fn value_of(fields: Seq<(String, Property)>, key: Seq<char>) -> Option<Property> {
    match position(fields, key) {
        Some(i) => Some(fields[i].1),
        None => None,
    }
}

proof fn lemma_position(fields: Seq<(String, Property)>, key: Seq<char>)
    ensures
        match position(fields, key) {
            Some(i) => {
                &&& 0 <= i < fields.len()
                &&& fields[i].0@ == key
                &&& forall|k: int| i < k < fields.len() ==> (#[trigger] fields[k]).0@ != key
            },
            None => forall|k: int| 0 <= k < fields.len() ==> (#[trigger] fields[k]).0@ != key,
        },
    decreases fields.len(),
{
    if fields.len() > 0 {
        let before = fields.drop_last();
        lemma_position(before, key);
        if fields.last().0@ != key {
            assert forall|k: int| 0 <= k < before.len() implies #[trigger] fields[k] == before[k] by {}
        }
    }
}

proof fn lemma_position_is(fields: Seq<(String, Property)>, key: Seq<char>, i: int)
    requires
        0 <= i < fields.len(),
        fields[i].0@ == key,
        forall|k: int| i < k < fields.len() ==> (#[trigger] fields[k]).0@ != key,
    ensures
        position(fields, key) == Some(i),
    decreases fields.len(),
{
    if i < fields.len() - 1 {
        let before = fields.drop_last();
        assert(fields.last() == fields[fields.len() - 1]);
        assert forall|k: int| i < k < before.len() implies (#[trigger] before[k]).0@ != key by {
            assert(before[k] == fields[k]);
        }
        lemma_position_is(before, key, i);
    }
}

/// Where the last field with the given name stands.
pub fn find(fields: &Vec<(String, Property)>, key: &str) -> (r: Option<usize>)
    ensures
        match r {
            Some(i) => i < fields.len() && position(fields@, key@) == Some(i as int),
            None => position(fields@, key@) is None,
        },
{
    let mut i: usize = fields.len();
    assert(fields@.take(i as int) =~= fields@);
    while i > 0
        invariant
            i <= fields.len(),
            position(fields@, key@) == position(fields@.take(i as int), key@),
        decreases i,
    {
        if same_text(fields[i - 1].0.as_str(), key) {
            return Some(i - 1);
        }
        assert(fields@.take(i as int).drop_last() =~= fields@.take(i - 1));
        i -= 1;
    }
    None
}

/// Gives the field with the given name a value, in place of the one it has, if it has one.
/// Other fields keep theirs.
pub fn put(fields: &mut Vec<(String, Property)>, key: String, value: Property)
    ensures
        value_of(final(fields)@, key@) == Some(value),
        forall|other: Seq<char>|
            other != key@ ==> #[trigger] value_of(final(fields)@, other) == value_of(
                old(fields)@,
                other,
            ),
{
    let ghost before = fields@;
    let ghost k = key@;
    match find(fields, key.as_str()) {
        Some(i) => {
            proof {
                lemma_position(before, k);
            }
            fields.set(i, (key, value));
            proof {
                lemma_position_is(fields@, k, i as int);
                assert forall|other: Seq<char>| other != k implies #[trigger] value_of(
                    fields@,
                    other,
                ) == value_of(before, other) by {
                    lemma_same_elsewhere(before, fields@, other);
                }
            }
        },
        None => {
            fields.push((key, value));
            assert(fields@.drop_last() =~= before);
            proof {
                lemma_position(before, k);
                assert forall|other: Seq<char>| other != k implies #[trigger] value_of(
                    fields@,
                    other,
                ) == value_of(before, other) by {
                    lemma_position(before, other);
                }
            }
        },
    }
}

/// Fields with the same names, whose values differ only under other names.
proof fn lemma_same_elsewhere(
    a: Seq<(String, Property)>,
    b: Seq<(String, Property)>,
    key: Seq<char>,
)
    requires
        a.len() == b.len(),
        forall|i: int| 0 <= i < a.len() ==> (#[trigger] a[i]).0@ == b[i].0@,
        forall|i: int| 0 <= i < a.len() && (#[trigger] a[i]).0@ == key ==> a[i].1 == b[i].1,
    ensures
        value_of(a, key) == value_of(b, key),
{
    lemma_position(a, key);
    lemma_position(b, key);
    match (position(a, key), position(b, key)) {
        (Some(i), Some(j)) => {
            if i < j {
                assert(a[j].0@ == b[j].0@);
            } else if j < i {
                assert(a[i].0@ == b[i].0@);
            }
        },
        (Some(i), None) => {
            assert(a[i].0@ == b[i].0@);
        },
        (None, Some(j)) => {
            assert(a[j].0@ == b[j].0@);
        },
        (None, None) => {},
    }
}

impl Property {
    /// The field with the given name, if this is an object that has it.
    pub open spec fn field(self, key: Seq<char>) -> Option<Property> {
        match self {
            Property::Object(fields) => value_of(fields@, key),
            _ => None,
        }
    }

    /// The text, if this is one.
    pub open spec fn text(self) -> Option<Seq<char>> {
        match self {
            Property::Text(s) => Some(s@),
            _ => None,
        }
    }

    /// The whole number, if this is one.
    pub open spec fn number(self) -> Option<i64> {
        match self {
            Property::Int(i) => Some(i),
            _ => None,
        }
    }

    /// The items, none if this is no array.
    pub open spec fn items(self) -> Seq<Property> {
        match self {
            Property::Array(v) => v@,
            _ => Seq::empty(),
        }
    }

    /// The text in the field with the given name, if there is one.
    pub open spec fn text_in(self, key: Seq<char>) -> Option<Seq<char>> {
        match self.field(key) {
            Some(p) => p.text(),
            None => None,
        }
    }

    /// The whole number in the field with the given name, if there is one.
    pub open spec fn number_in(self, key: Seq<char>) -> Option<i64> {
        match self.field(key) {
            Some(p) => p.number(),
            None => None,
        }
    }

    /// The items in the field with the given name, none if it is missing or no array.
    pub open spec fn items_in(self, key: Seq<char>) -> Seq<Property> {
        match self.field(key) {
            Some(p) => p.items(),
            None => Seq::empty(),
        }
    }

    /// The text in the field with the given name, or nothing.
    pub open spec fn text_or_empty(self, key: Seq<char>) -> Seq<char> {
        match self.text_in(key) {
            Some(s) => s,
            None => Seq::empty(),
        }
    }

    /// The whole number in the field with the given name, or zero.
    pub open spec fn number_or_zero(self, key: Seq<char>) -> i64 {
        match self.number_in(key) {
            Some(i) => i,
            None => 0,
        }
    }

    /// The field with the given name, if this is an object that has it.
    pub fn get(&self, key: &str) -> (r: Option<&Property>)
        ensures
            match r {
                Some(p) => self.field(key@) == Some(*p),
                None => self.field(key@) is None,
            },
    {
        match self {
            Property::Object(fields) => match find(fields, key) {
                Some(i) => Some(&fields[i].1),
                None => None,
            },
            _ => None,
        }
    }

    /// The text in the field with the given name, if there is one.
    pub fn get_text(&self, key: &str) -> (r: Option<String>)
        ensures
            match r {
                Some(s) => self.text_in(key@) == Some(s@),
                None => self.text_in(key@) is None,
            },
    {
        match self.get(key) {
            Some(Property::Text(s)) => Some(s.clone()),
            _ => None,
        }
    }

    /// The text in the field with the given name, or nothing.
    pub fn get_text_or_empty(&self, key: &str) -> (s: String)
        ensures
            s@ == self.text_or_empty(key@),
    {
        match self.get_text(key) {
            Some(s) => s,
            None => String::new(),
        }
    }

    /// The whole number in the field with the given name, if there is one.
    pub fn get_int(&self, key: &str) -> (r: Option<i64>)
        ensures
            r == self.number_in(key@),
    {
        match self.get(key) {
            Some(Property::Int(i)) => Some(*i),
            _ => None,
        }
    }

    /// The whole number in the field with the given name, or zero.
    pub fn get_int_or_zero(&self, key: &str) -> (i: i64)
        ensures
            i == self.number_or_zero(key@),
    {
        match self.get_int(key) {
            Some(i) => i,
            None => 0,
        }
    }

    /// The items in the field with the given name, if it is an array.
    pub fn get_items(&self, key: &str) -> (r: Option<&Vec<Property>>)
        ensures
            match r {
                Some(v) => self.items_in(key@) == v@,
                None => self.items_in(key@) == Seq::<Property>::empty(),
            },
    {
        match self.get(key) {
            Some(Property::Array(v)) => Some(v),
            _ => None,
        }
    }

    /// A number that may be whole (`i`) and may be a double precision number with the bits
    /// `f`: whole if it can be, null if it is neither.
    pub fn of_number(i: Option<i64>, f: Option<u64>) -> (p: Property)
        ensures
            p == (match (i, f) {
                (Some(i), _) => Property::Int(i),
                (None, Some(f)) => Property::Real(f),
                (None, None) => Property::Null,
            }),
    {
        match (i, f) {
            (Some(i), _) => Property::Int(i),
            (None, Some(f)) => Property::Real(f),
            (None, None) => Property::Null,
        }
    }

    /// Raw bytes, as text in hexadecimal.
    pub fn of_data(bytes: &[u8]) -> (p: Property)
        ensures
            p.text() == Some(text::hex_text(bytes@)),
    {
        let mut s = String::new();
        push_hex_bytes(&mut s, bytes);
        assert(s@ =~= text::hex_text(bytes@));
        Property::Text(s)
    }

    /// An object of a kind that has no counterpart here.
    pub fn of_unknown(type_id: u64) -> (p: Property)
        ensures
            p.text() == Some("<CFTypeID "@ + text::dec(type_id as nat) + ">"@),
    {
        let mut s = String::new();
        s.append("<CFTypeID ");
        push_dec(&mut s, type_id as u128);
        s.append(">");
        assert(s@ =~= "<CFTypeID "@ + text::dec(type_id as nat) + ">"@);
        Property::Text(s)
    }
}

// ---------------------------------------------------------------------------
// Arrays.

/// The texts among the items.
pub open spec fn texts_among(items: Seq<Property>) -> Seq<Seq<char>>
    decreases items.len(),
{
    if items.len() == 0 {
        Seq::empty()
    } else {
        let before = texts_among(items.drop_last());
        match items.last().text() {
            Some(s) => before.push(s),
            None => before,
        }
    }
}

/// The whole numbers among the items.
pub open spec fn ints_among(items: Seq<Property>) -> Seq<i64>
    decreases items.len(),
{
    if items.len() == 0 {
        Seq::empty()
    } else {
        let before = ints_among(items.drop_last());
        match items.last().number() {
            Some(i) => before.push(i),
            None => before,
        }
    }
}

/// The texts in the array in the field with the given name.
pub fn str_array(p: &Property, key: &str) -> (out: Vec<String>)
    ensures
        text::texts(out@) == texts_among(p.items_in(key@)),
{
    let mut out: Vec<String> = Vec::new();
    if let Some(v) = p.get_items(key) {
        let mut i: usize = 0;
        assert(text::texts(out@) =~= Seq::empty());
        while i < v.len()
            invariant
                i <= v.len(),
                text::texts(out@) == texts_among(v@.take(i as int)),
            decreases v.len() - i,
        {
            assert(v@.take(i + 1).drop_last() =~= v@.take(i as int));
            if let Property::Text(s) = &v[i] {
                let ghost before = text::texts(out@);
                out.push(s.clone());
                assert(text::texts(out@) =~= before.push(s@));
            }
            i += 1;
        }
        assert(v@.take(i as int) =~= v@);
    } else {
        assert(text::texts(out@) =~= Seq::empty());
    }
    out
}

/// The whole numbers in the array in the field with the given name.
pub fn int_array(p: &Property, key: &str) -> (out: Vec<i64>)
    ensures
        out@ == ints_among(p.items_in(key@)),
{
    let mut out: Vec<i64> = Vec::new();
    if let Some(v) = p.get_items(key) {
        let mut i: usize = 0;
        while i < v.len()
            invariant
                i <= v.len(),
                out@ == ints_among(v@.take(i as int)),
            decreases v.len() - i,
        {
            assert(v@.take(i + 1).drop_last() =~= v@.take(i as int));
            if let Property::Int(n) = &v[i] {
                out.push(*n);
            }
            i += 1;
        }
        assert(v@.take(i as int) =~= v@);
    }
    out
}

// ---------------------------------------------------------------------------
// What is read.

/// Whether field `i` is the last with the given name.
pub open spec fn is_last_field(fields: Seq<(String, Property)>, key: Seq<char>, i: int) -> bool {
    &&& 0 <= i < fields.len()
    &&& fields[i].0@ == key
    &&& forall|k: int| i < k < fields.len() ==> (#[trigger] fields[k]).0@ != key
}

/// Reading a field of an object gives the last with that name: a whole number or a text as it
/// is, an array item by item. A field of another kind is no number, no text and no item.
pub proof fn law_field(fields: Vec<(String, Property)>, key: Seq<char>, i: int)
    requires
        is_last_field(fields@, key, i),
    ensures
        ({
            let p = Property::Object(fields);
            let v = fields@[i].1;
            &&& p.field(key) == Some(v)
            &&& match v {
                Property::Int(n) => p.number_in(key) == Some(n) && p.number_or_zero(key) == n,
                _ => p.number_in(key) is None && p.number_or_zero(key) == 0,
            }
            &&& match v {
                Property::Text(s) => p.text_in(key) == Some(s@) && p.text_or_empty(key) == s@,
                _ => p.text_in(key) is None && p.text_or_empty(key).len() == 0,
            }
            &&& match v {
                Property::Array(items) => p.items_in(key) == items@,
                _ => p.items_in(key).len() == 0,
            }
        }),
{
    lemma_position_is(fields@, key, i);
}

/// A field that is missing is no number, no text and no item, and so is every field of what is
/// no object.
pub proof fn law_no_field(p: Property, key: Seq<char>)
    requires
        p matches Property::Object(fields) ==> forall|k: int|
            0 <= k < fields@.len() ==> (#[trigger] fields@[k]).0@ != key,
    ensures
        p.field(key) is None,
        p.number_in(key) is None,
        p.number_or_zero(key) == 0,
        p.text_in(key) is None,
        p.text_or_empty(key).len() == 0,
        p.items_in(key).len() == 0,
{
    if let Property::Object(fields) = p {
        lemma_position(fields@, key);
    }
}

/// The whole numbers among items, and the texts among them, are those of the items one by one.
pub proof fn law_among(items: Seq<Property>, p: Property)
    ensures
        ints_among(Seq::empty()) == Seq::<i64>::empty(),
        ints_among(items.push(p)) == (match p {
            Property::Int(n) => ints_among(items).push(n),
            _ => ints_among(items),
        }),
        texts_among(Seq::empty()) == Seq::<Seq<char>>::empty(),
        texts_among(items.push(p)) == (match p {
            Property::Text(s) => texts_among(items).push(s@),
            _ => texts_among(items),
        }),
{
    assert(items.push(p).drop_last() =~= items);
}

} // verus!
