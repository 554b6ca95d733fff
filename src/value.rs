use vstd::prelude::*;
use vstd::utf8::encode_utf8;
use crate::leb::{uleb, sleb, write_uleb, write_sleb};

verus! {

broadcast use vstd::std_specs::vec::axiom_vec_index_decreases;

/// A value to encode. Record fields and variant payloads are given in the
/// canonical order of their type, ascending by field hash.
pub enum Value {
    Null,
    Bool(bool),
    Nat(u64),
    Int(i64),
    Text(String),
    Opt(Option<Box<Value>>),
    Vec(Vec<Value>),
    Record(Vec<Value>),
    /// The index of the chosen case among the hash-sorted cases, and the
    /// fields of its payload.
    Variant(u64, Vec<Value>),
}

/// The bytes of a text: its UTF-8 length, then its UTF-8 bytes.
pub open spec fn text_bytes(s: Seq<char>) -> Seq<u8> {
    uleb(encode_utf8(s).len()) + encode_utf8(s)
}

/// The encoding of a value.
pub open spec fn value_bytes(v: Value) -> Seq<u8>
    decreases v,
{
    match v {
        Value::Null => Seq::empty(),
        Value::Bool(b) => uleb(if b { 1 } else { 0 }),
        Value::Nat(n) => uleb(n as nat),
        Value::Int(i) => sleb(i as int),
        Value::Text(s) => text_bytes(s@),
        Value::Opt(None) => uleb(0),
        Value::Opt(Some(x)) => uleb(1) + value_bytes(*x),
        Value::Vec(xs) => uleb(xs.len() as nat) + values_bytes(xs@, xs@.len() as int),
        Value::Record(xs) => values_bytes(xs@, xs@.len() as int),
        Value::Variant(i, xs) => uleb(i as nat) + values_bytes(xs@, xs@.len() as int),
    }
}

/// The encodings of the first `n` values of `xs`, concatenated.
pub open spec fn values_bytes(xs: Seq<Value>, n: int) -> Seq<u8>
    decreases xs, n,
{
    if n <= 0 || n > xs.len() {
        Seq::empty()
    } else {
        values_bytes(xs, n - 1) + value_bytes(xs[n - 1])
    }
}

/// A writer of value bytes; each method appends the encoding of one value
/// or of the header of a compound value.
#[derive(Debug)]
pub struct ValueSerializer {
    value: Vec<u8>,
}

impl View for ValueSerializer {
    type V = Seq<u8>;

    closed spec fn view(&self) -> Seq<u8> {
        self.value@
    }
}

impl ValueSerializer {
    /// Creates a serializer with no bytes written.
    pub fn new() -> (r: Self)
        ensures
            r@ == Seq::<u8>::empty(),
    {
        ValueSerializer { value: Vec::new() }
    }

    /// The bytes written so far.
    pub fn bytes(&self) -> (r: &Vec<u8>)
        ensures
            r@ == self@,
    {
        &self.value
    }

    fn write_sleb128(&mut self, value: i64)
        ensures
            final(self)@ == old(self)@ + sleb(value as int),
    {
        write_sleb(&mut self.value, value);
    }

    fn write_leb128(&mut self, value: u64)
        ensures
            final(self)@ == old(self)@ + uleb(value as nat),
    {
        write_uleb(&mut self.value, value);
    }

    /// Writes a boolean as the unsigned number 0 or 1.
    pub fn serialize_bool(&mut self, v: bool)
        ensures
            final(self)@ == old(self)@ + uleb(if v { 1 } else { 0 }),
    {
        let n: u64 = if v { 1 } else { 0 };
        self.write_leb128(n);
    }

    /// Writes a signed integer in signed LEB128.
    pub fn serialize_int(&mut self, v: i64)
        ensures
            final(self)@ == old(self)@ + sleb(v as int),
    {
        self.write_sleb128(v);
    }

    /// Writes an unsigned integer in unsigned LEB128.
    pub fn serialize_nat(&mut self, v: u64)
        ensures
            final(self)@ == old(self)@ + uleb(v as nat),
    {
        self.write_leb128(v);
    }

    /// Writes a text: its byte length, then its UTF-8 bytes.
    pub fn serialize_text(&mut self, v: &str)
        ensures
            final(self)@ == old(self)@ + text_bytes(v@),
    {
        let b = v.as_bytes();
        self.write_leb128(b.len() as u64);
        let ghost start = self@;
        let mut i: usize = 0;
        while i < b.len()
            invariant
                i <= b@.len(),
                b@ == encode_utf8(v@),
                self@ == start + b@.subrange(0, i as int),
            decreases b@.len() - i,
        {
            self.value.push(b[i]);
            proof {
                assert(b@.subrange(0, i + 1) =~= b@.subrange(0, i as int).push(b@[i as int]));
            }
            i += 1;
        }
        proof {
            assert(b@.subrange(0, i as int) =~= b@);
            assert(self@ =~= old(self)@ + text_bytes(v@));
        }
    }

    /// Writes nothing: the null value has no bytes.
    pub fn serialize_null(&mut self)
        ensures
            final(self)@ == old(self)@,
    {
    }

    /// Writes the tag of an absent optional value.
    pub fn serialize_none(&mut self)
        ensures
            final(self)@ == old(self)@ + uleb(0),
    {
        self.write_leb128(0);
    }

    /// Writes the tag of a present optional value; the inner value follows.
    pub fn serialize_some(&mut self)
        ensures
            final(self)@ == old(self)@ + uleb(1),
    {
        self.write_leb128(1);
    }

    /// Writes the index of a variant's chosen case; its payload follows.
    pub fn serialize_variant(&mut self, index: u64)
        ensures
            final(self)@ == old(self)@ + uleb(index as nat),
    {
        self.write_leb128(index);
    }

    /// Starts a record: its fields follow with no header.
    pub fn serialize_struct(&mut self)
        ensures
            final(self)@ == old(self)@,
    {
    }

    /// Writes the length of a sequence; its elements follow.
    pub fn serialize_vec(&mut self, len: usize)
        ensures
            final(self)@ == old(self)@ + uleb(len as nat),
    {
        self.write_leb128(len as u64);
    }

    /// Writes the encoding of a value.
    pub fn serialize_value(&mut self, v: &Value)
        ensures
            final(self)@ == old(self)@ + value_bytes(*v),
        decreases v,
    {
        match v {
            Value::Null => {
                self.serialize_null();
                assert(self@ =~= old(self)@ + value_bytes(*v));
            },
            Value::Bool(b) => self.serialize_bool(*b),
            Value::Nat(n) => self.serialize_nat(*n),
            Value::Int(i) => self.serialize_int(*i),
            Value::Text(s) => self.serialize_text(s.as_str()),
            Value::Opt(None) => self.serialize_none(),
            Value::Opt(Some(x)) => {
                self.serialize_some();
                self.serialize_value(x);
                assert(self@ =~= old(self)@ + value_bytes(*v));
            },
            Value::Vec(xs) => {
                self.serialize_vec(xs.len());
                self.serialize_elements(xs);
                assert(self@ =~= old(self)@ + value_bytes(*v));
            },
            Value::Record(xs) => {
                self.serialize_struct();
                self.serialize_elements(xs);
                assert(self@ =~= old(self)@ + value_bytes(*v));
            },
            Value::Variant(i, xs) => {
                self.serialize_variant(*i);
                self.serialize_elements(xs);
                assert(self@ =~= old(self)@ + value_bytes(*v));
            },
        }
    }

    fn serialize_elements(&mut self, xs: &Vec<Value>)
        ensures
            final(self)@ == old(self)@ + values_bytes(xs@, xs@.len() as int),
        decreases xs, 0int,
    {
        let mut i: usize = 0;
        while i < xs.len()
            invariant
                i <= xs@.len(),
                self@ == old(self)@ + values_bytes(xs@, i as int),
            decreases xs@.len() - i,
        {
            assert(decreases_to!(xs => xs@[i as int]));
            self.serialize_value(&xs[i]);
            i += 1;
            assert(self@ =~= old(self)@ + values_bytes(xs@, i as int));
        }
    }
}

/// A writer for the children of a compound value (sequence elements, record
/// fields, or a variant's payload), in canonical order.
pub struct Compound {
    ser: ValueSerializer,
}

impl View for Compound {
    type V = Seq<u8>;

    closed spec fn view(&self) -> Seq<u8> {
        self.ser@
    }
}

impl Compound {
    /// Continues writing after what `ser` holds.
    pub fn new(ser: ValueSerializer) -> (r: Self)
        ensures
            r@ == ser@,
    {
        Compound { ser }
    }

    /// Writes one child value.
    pub fn serialize_element(&mut self, value: &Value)
        ensures
            final(self)@ == old(self)@ + value_bytes(*value),
    {
        self.ser.serialize_value(value);
    }

    /// Hands back the serializer, with the children written.
    pub fn end(self) -> (r: ValueSerializer)
        ensures
            r@ == self@,
    {
        self.ser
    }
}

} // verus!
