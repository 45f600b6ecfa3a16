//! Tuples: record ids, values, and the bytes of a tuple laid out by a schema.
//!
//! A fixed-width column is stored at its offset, integers big-endian and a
//! bool as one byte. A varchar column stores at its offset the big-endian
//! `u16` offset and length of its payload, which lies behind the fixed part.

use vstd::prelude::*;
use vstd::slice::slice_subrange;
use vstd::string::StringSliceAdditionalSpecFns;
use vstd::utf8::{encode_utf8, valid_utf8};
use bytes::BytesMut;
use core::cmp::Ordering;
use crate::buffer::{as_slice, contents, from_slice, put_slice, set_byte};
use crate::catalog::{Column, Schema, Type};
use crate::codec::{
    i32_be, i32_from_be, i64_be, i64_from_be, i8_bits, i8_from_bits, read_i32, read_i64, read_u16,
    read_u32, u16_be, u16_from_be, u32_be, u32_from_be, write_i32, write_i64, write_u32,
};
use crate::page::PageId;

verus! {

/// A value of a column.
#[derive(PartialEq, Eq, PartialOrd, Ord, Clone, Debug)]
pub enum Value {
    TinyInt(i8),
    Bool(bool),
    Int(i32),
    BigInt(i64),
    Varchar(String),
}

/// The mathematical content of a value; of a varchar, its bytes.
pub enum ValueView {
    TinyInt(i8),
    Bool(bool),
    Int(i32),
    BigInt(i64),
    Varchar(Seq<u8>),
}

/// Where the payload of the varchar column at `offset` starts in `data`.
pub open spec fn varchar_start(data: Seq<u8>, offset: int) -> int {
    u16_from_be(data.subrange(offset, offset + 2)) as int
}

/// How long the payload of the varchar column at `offset` is.
pub open spec fn varchar_len(data: Seq<u8>, offset: int) -> int {
    u16_from_be(data.subrange(offset + 2, offset + 4)) as int
}

/// Whether `data` holds a value for `column`: the inline bytes lie within
/// `data`, and so does the payload of a varchar, which is valid UTF-8.
pub open spec fn readable(column: Column, data: Seq<u8>) -> bool {
    &&& column.offset + column.ty.spec_size() <= data.len()
    &&& column.ty == Type::Varchar ==> {
        &&& varchar_start(data, column.offset as int) + varchar_len(data, column.offset as int)
            <= data.len()
        &&& valid_utf8(
            data.subrange(
                varchar_start(data, column.offset as int),
                varchar_start(data, column.offset as int) + varchar_len(
                    data,
                    column.offset as int,
                ),
            ),
        )
    }
}

/// The value that `data` holds for `column`.
pub open spec fn value_of(column: Column, data: Seq<u8>) -> ValueView {
    let o = column.offset as int;
    match column.ty {
        Type::TinyInt => ValueView::TinyInt(i8_from_bits(data[o])),
        Type::Bool => ValueView::Bool(data[o] > 0),
        Type::Int => ValueView::Int(i32_from_be(data.subrange(o, o + 4))),
        Type::BigInt => ValueView::BigInt(i64_from_be(data.subrange(o, o + 8))),
        Type::Varchar => ValueView::Varchar(
            data.subrange(varchar_start(data, o), varchar_start(data, o) + varchar_len(data, o)),
        ),
    }
}

/// `std::str::from_utf8` accepts exactly the byte sequences that are valid
/// UTF-8, and the string it gives has those bytes.
#[verifier::external_body]
fn str_from_utf8(bytes: &[u8]) -> (r: Option<&str>)
    ensures
        r is Some <==> valid_utf8(bytes@),
        r is Some ==> r->0.spec_bytes() == bytes@,
{
    match std::str::from_utf8(bytes) {
        Ok(s) => Some(s),
        Err(_) => None,
    }
}

impl Value {
    /// The mathematical content of the value.
    pub open spec fn view(&self) -> ValueView {
        match self {
            Value::TinyInt(v) => ValueView::TinyInt(*v),
            Value::Bool(v) => ValueView::Bool(*v),
            Value::Int(v) => ValueView::Int(*v),
            Value::BigInt(v) => ValueView::BigInt(*v),
            Value::Varchar(v) => ValueView::Varchar(encode_utf8(v@)),
        }
    }

    /// Reads the value of `column` from the bytes of a tuple.
    pub fn from(column: &Column, data: &[u8]) -> (v: Value)
        requires
            readable(*column, data@),
        ensures
            v@ == value_of(*column, data@),
    {
        let o = column.offset;
        let total = data.len();
        match column.ty {
            Type::TinyInt => {
                let b = data[o];
                Value::TinyInt(
                    if b >= 0x80 {
                        (b as i16 - 0x100) as i8
                    } else {
                        b as i8
                    },
                )
            },
            Type::Bool => Value::Bool(data[o] > 0),
            Type::Int => Value::Int(read_i32(data, o)),
            Type::BigInt => Value::BigInt(read_i64(data, o)),
            Type::Varchar => {
                let start = read_u16(data, o) as usize;
                let size = read_u16(data, o + 2) as usize;
                let payload = slice_subrange(data, start, start + size);
                match str_from_utf8(payload) {
                    Some(s) => Value::Varchar(s.to_owned()),
                    None => vstd::pervasive::unreached(),
                }
            },
        }
    }
}

/// The decimal text of an integer: its digits, behind a minus sign if it is
/// negative.
pub uninterp spec fn decimal(v: int) -> Seq<char>;

/// `i64::to_string` gives the decimal text of the integer.
#[verifier::external_body]
fn int_text(v: i64) -> (r: String)
    ensures
        r@ == decimal(v as int),
{
    v.to_string()
}

impl Value {
    /// The text of the value: the decimal text of an integer, `true` or
    /// `false` for a bool, and a varchar as it is.
    pub fn text(&self) -> (r: String)
        ensures
            match self {
                Value::TinyInt(v) => r@ == decimal(*v as int),
                Value::Bool(v) => r@ == (if *v {
                    "true"@
                } else {
                    "false"@
                }),
                Value::Int(v) => r@ == decimal(*v as int),
                Value::BigInt(v) => r@ == decimal(*v as int),
                Value::Varchar(v) => r@ == v@,
            },
    {
        match self {
            Value::TinyInt(v) => int_text(*v as i64),
            Value::Bool(v) => if *v {
                "true".to_owned()
            } else {
                "false".to_owned()
            },
            Value::Int(v) => int_text(*v as i64),
            Value::BigInt(v) => int_text(*v),
            Value::Varchar(v) => v.as_str().to_owned(),
        }
    }

    /// Reads the value of `column` from the bytes of a tuple, if they hold
    /// one: `None` where the inline bytes or the payload of a varchar reach
    /// past the end, or the payload is not valid UTF-8.
    pub fn try_from(column: &Column, data: &[u8]) -> (r: Option<Value>)
        ensures
            r is Some <==> readable(*column, data@),
            r is Some ==> r->0@ == value_of(*column, data@),
    {
        let o = column.offset;
        let total = data.len();
        let size = column.ty.size();
        if o > total || size > total - o {
            return None;
        }
        match column.ty {
            Type::Varchar => {
                let start = read_u16(data, o) as usize;
                let len = read_u16(data, o + 2) as usize;
                if start + len > total {
                    return None;
                }
                let payload = slice_subrange(data, start, start + len);
                match str_from_utf8(payload) {
                    Some(_) => Some(Value::from(column, data)),
                    None => None,
                }
            },
            _ => Some(Value::from(column, data)),
        }
    }
}

/// A record id: the page of a tuple and its slot on the page.
#[derive(Debug, PartialEq, Copy, Clone, PartialOrd, Eq, Ord)]
pub struct RId {
    pub page_id: PageId,
    pub slot_id: u32,
}

/// A tuple: its record id and its bytes.
#[derive(Debug, PartialEq, Clone, PartialOrd, Eq, Ord)]
pub struct Tuple {
    pub rid: RId,
    pub data: BytesMut,
}

impl Tuple {
    /// The value of `column` in this tuple.
    pub fn get_value(&self, column: &Column) -> (v: Value)
        requires
            readable(*column, contents(self.data)),
        ensures
            v@ == value_of(*column, contents(self.data)),
    {
        Value::from(column, as_slice(&self.data))
    }

    /// The value of `column` in this tuple, if the tuple holds one.
    pub fn try_get_value(&self, column: &Column) -> (r: Option<Value>)
        ensures
            r is Some <==> readable(*column, contents(self.data)),
            r is Some ==> r->0@ == value_of(*column, contents(self.data)),
    {
        Value::try_from(column, as_slice(&self.data))
    }
}

/// What the heap list keeps of a tuple beside its bytes.
#[derive(Debug, PartialEq, Eq, Structural, Copy, Clone)]
pub struct TupleMeta {
    pub deleted: bool,
}

impl TupleMeta {
    /// The meta byte: bit 0 says whether the tuple is deleted.
    pub open spec fn spec_byte(self) -> u8 {
        if self.deleted {
            1
        } else {
            0
        }
    }

    /// The meta data that a meta byte stands for.
    pub open spec fn spec_from_byte(b: u8) -> TupleMeta {
        TupleMeta { deleted: b % 2 == 1 }
    }

    /// Reads the meta data from its byte, the first of `value`.
    pub fn from(value: &[u8]) -> (meta: TupleMeta)
        requires
            value@.len() >= 1,
        ensures
            meta == Self::spec_from_byte(value@[0]),
    {
        TupleMeta { deleted: value[0] % 2 == 1 }
    }

    /// The meta byte.
    pub fn to_byte(&self) -> (b: u8)
        ensures
            b == self.spec_byte(),
            Self::spec_from_byte(b) == *self,
    {
        if self.deleted {
            1
        } else {
            0
        }
    }
}

/// Size of a slot record of the heap node's directory.
pub const SLOT_SIZE: usize = 9;

/// A slot of a heap node's directory: where the bytes of a tuple lie on the
/// page, how many they are, and the tuple's meta data.
#[derive(Debug, PartialEq, Eq, Structural, Copy, Clone)]
pub struct Slot {
    pub offset: u32,
    pub len: u32,
    pub meta: TupleMeta,
}

impl Slot {
    /// Size of a slot record.
    pub const SIZE: usize = 9;

    /// The nine bytes of the record: offset and length big-endian, then the
    /// meta byte.
    pub open spec fn spec_bytes(self) -> Seq<u8> {
        u32_be(self.offset) + u32_be(self.len) + seq![self.meta.spec_byte()]
    }

    /// The slot that the first nine bytes of `b` stand for.
    pub open spec fn spec_from_bytes(b: Seq<u8>) -> Slot {
        Slot {
            offset: u32_from_be(b.subrange(0, 4)),
            len: u32_from_be(b.subrange(4, 8)),
            meta: TupleMeta::spec_from_byte(b[8]),
        }
    }

    /// Decoding undoes encoding.
    pub proof fn lemma_round_trip(self)
        ensures
            self.spec_bytes().len() == SLOT_SIZE,
            Self::spec_from_bytes(self.spec_bytes()) == self,
    {
        let b = self.spec_bytes();
        crate::codec::lemma_u32_round_trip(self.offset);
        crate::codec::lemma_u32_round_trip(self.len);
        assert(b.subrange(0, 4) =~= u32_be(self.offset));
        assert(b.subrange(4, 8) =~= u32_be(self.len));
    }

    /// Reads a slot from the nine bytes of its record.
    pub fn from(buf: &[u8]) -> (slot: Slot)
        requires
            buf@.len() >= SLOT_SIZE,
        ensures
            slot == Self::spec_from_bytes(buf@),
    {
        let offset = read_u32(buf, 0);
        let len = read_u32(buf, 4);
        let meta = TupleMeta::from(slice_subrange(buf, 8, 9));
        Slot { offset, len, meta }
    }

    /// The nine bytes of the record.
    pub fn to_bytes(&self) -> (buf: Vec<u8>)
        ensures
            buf@ == self.spec_bytes(),
    {
        let mut buf: Vec<u8> = Vec::new();
        let mut i: usize = 0;
        while i < 9
            invariant
                i <= 9,
                buf@.len() == i,
            decreases 9 - i,
        {
            buf.push(0u8);
            i = i + 1;
        }
        proof {
            crate::codec::lemma_u32_round_trip(self.offset);
            crate::codec::lemma_u32_round_trip(self.len);
        }
        write_u32(&mut buf, 0, self.offset);
        write_u32(&mut buf, 4, self.len);
        buf.set(8, self.meta.to_byte());
        assert(buf@ =~= self.spec_bytes());
        buf
    }
}

/// How one thing stands to another in an order.
#[derive(PartialEq, Eq, Structural, Clone, Copy, Debug)]
pub enum Order {
    Less,
    Equal,
    Greater,
}

/// How the byte sequences `a` and `b` compare from index `i` on, byte by
/// byte, a sequence that ends first coming first.
pub open spec fn bytes_order(a: Seq<u8>, b: Seq<u8>, i: int) -> Order
    decreases a.len() - i,
{
    if i < 0 || i >= a.len() {
        if i >= b.len() {
            Order::Equal
        } else {
            Order::Less
        }
    } else if i >= b.len() {
        Order::Greater
    } else if a[i] < b[i] {
        Order::Less
    } else if a[i] > b[i] {
        Order::Greater
    } else {
        bytes_order(a, b, i + 1)
    }
}

/// How two integers compare.
pub open spec fn int_order(a: int, b: int) -> Order {
    if a < b {
        Order::Less
    } else if a > b {
        Order::Greater
    } else {
        Order::Equal
    }
}

/// Where a kind of value stands among the kinds.
pub open spec fn kind_rank(v: ValueView) -> int {
    match v {
        ValueView::TinyInt(_) => 0,
        ValueView::Bool(_) => 1,
        ValueView::Int(_) => 2,
        ValueView::BigInt(_) => 3,
        ValueView::Varchar(_) => 4,
    }
}

/// How two values compare: numbers by size, `false` before `true`, varchars
/// by their bytes; values of different kinds by their kinds.
pub open spec fn value_order(a: ValueView, b: ValueView) -> Order {
    match (a, b) {
        (ValueView::TinyInt(x), ValueView::TinyInt(y)) => int_order(x as int, y as int),
        (ValueView::Bool(x), ValueView::Bool(y)) => int_order(
            if x {
                1
            } else {
                0
            },
            if y {
                1
            } else {
                0
            },
        ),
        (ValueView::Int(x), ValueView::Int(y)) => int_order(x as int, y as int),
        (ValueView::BigInt(x), ValueView::BigInt(y)) => int_order(x as int, y as int),
        (ValueView::Varchar(x), ValueView::Varchar(y)) => bytes_order(x, y, 0),
        _ => int_order(kind_rank(a), kind_rank(b)),
    }
}

/// How two tuples compare under a schema, from column `c` on: by the first
/// column in which their values differ.
pub open spec fn tuple_order(schema: Seq<Column>, a: Seq<u8>, b: Seq<u8>, c: int) -> Order
    decreases schema.len() - c,
{
    if c < 0 || c >= schema.len() {
        Order::Equal
    } else {
        match value_order(value_of(schema[c], a), value_of(schema[c], b)) {
            Order::Equal => tuple_order(schema, a, b, c + 1),
            decided => decided,
        }
    }
}

/// Whether two tuples can be compared under a schema from column `c` on:
/// both hold a value for every column up to the first in which they differ.
pub open spec fn comparable(schema: Seq<Column>, a: Seq<u8>, b: Seq<u8>, c: int) -> bool
    decreases schema.len() - c,
{
    c < 0 || c >= schema.len() || (readable(schema[c], a) && readable(schema[c], b) && (
    value_order(value_of(schema[c], a), value_of(schema[c], b)) != Order::Equal || comparable(
        schema,
        a,
        b,
        c + 1,
    )))
}

/// How the byte slices `a` and `b` compare.
pub fn order_bytes(a: &[u8], b: &[u8]) -> (o: Order)
    ensures
        o == bytes_order(a@, b@, 0),
{
    let mut i: usize = 0;
    while i < a.len() && i < b.len()
        invariant
            i <= a@.len(),
            i <= b@.len(),
            bytes_order(a@, b@, 0) == bytes_order(a@, b@, i as int),
        decreases a@.len() - i,
    {
        if a[i] < b[i] {
            return Order::Less;
        }
        if a[i] > b[i] {
            return Order::Greater;
        }
        i = i + 1;
    }
    if i < b.len() {
        Order::Less
    } else if i < a.len() {
        Order::Greater
    } else {
        Order::Equal
    }
}

impl Value {
    /// Where the kind of this value stands among the kinds.
    fn kind(&self) -> (k: u8)
        ensures
            k == kind_rank(self@),
    {
        match self {
            Value::TinyInt(_) => 0,
            Value::Bool(_) => 1,
            Value::Int(_) => 2,
            Value::BigInt(_) => 3,
            Value::Varchar(_) => 4,
        }
    }

    /// How this value compares to `other`.
    pub fn order(&self, other: &Value) -> (o: Order)
        ensures
            o == value_order(self@, other@),
    {
        match (self, other) {
            (Value::TinyInt(x), Value::TinyInt(y)) => {
                if *x < *y {
                    Order::Less
                } else if *x > *y {
                    Order::Greater
                } else {
                    Order::Equal
                }
            },
            (Value::Bool(x), Value::Bool(y)) => {
                if !*x && *y {
                    Order::Less
                } else if *x && !*y {
                    Order::Greater
                } else {
                    Order::Equal
                }
            },
            (Value::Int(x), Value::Int(y)) => {
                if *x < *y {
                    Order::Less
                } else if *x > *y {
                    Order::Greater
                } else {
                    Order::Equal
                }
            },
            (Value::BigInt(x), Value::BigInt(y)) => {
                if *x < *y {
                    Order::Less
                } else if *x > *y {
                    Order::Greater
                } else {
                    Order::Equal
                }
            },
            (Value::Varchar(x), Value::Varchar(y)) => order_bytes(
                x.as_str().as_bytes(),
                y.as_str().as_bytes(),
            ),
            _ => {
                let a = self.kind();
                let b = other.kind();
                if a < b {
                    Order::Less
                } else if a > b {
                    Order::Greater
                } else {
                    Order::Equal
                }
            },
        }
    }
}

/// The standard ordering that `o` stands for.
pub open spec fn ordering_of(o: Order) -> Ordering {
    match o {
        Order::Less => Ordering::Less,
        Order::Equal => Ordering::Equal,
        Order::Greater => Ordering::Greater,
    }
}

/// A tuple to be compared under a schema.
pub struct Comparand<'a, 'b>(pub &'a Schema, pub &'b Tuple);

impl<'a, 'b> Comparand<'a, 'b> {
    /// How this tuple compares to `other` under the schema of this one: by
    /// the first column in which their values differ.
    pub fn order(&self, other: &Comparand) -> (o: Order)
        requires
            comparable(self.0@, contents(self.1.data), contents(other.1.data), 0),
        ensures
            o == tuple_order(self.0@, contents(self.1.data), contents(other.1.data), 0),
    {
        let schema = self.0;
        let mut c: usize = 0;
        while c < schema.len()
            invariant
                c <= schema@.len(),
                schema == self.0,
                comparable(schema@, contents(self.1.data), contents(other.1.data), c as int),
                tuple_order(schema@, contents(self.1.data), contents(other.1.data), 0)
                    == tuple_order(
                    schema@,
                    contents(self.1.data),
                    contents(other.1.data),
                    c as int,
                ),
            decreases schema@.len() - c,
        {
            let col = schema.column(c);
            let lhs = self.1.get_value(col);
            let rhs = other.1.get_value(col);
            match lhs.order(&rhs) {
                Order::Less => {
                    return Order::Less;
                },
                Order::Greater => {
                    return Order::Greater;
                },
                Order::Equal => {},
            }
            c = c + 1;
        }
        Order::Equal
    }

    /// How this tuple compares to `other` under the schema of this one, if
    /// the two can be compared: `None` where one of them holds no value for a
    /// column up to the first in which they differ.
    pub fn try_order(&self, other: &Comparand) -> (r: Option<Order>)
        ensures
            r is Some <==> comparable(self.0@, contents(self.1.data), contents(other.1.data), 0),
            r is Some ==> r->0 == tuple_order(
                self.0@,
                contents(self.1.data),
                contents(other.1.data),
                0,
            ),
    {
        let schema = self.0;
        let mut c: usize = 0;
        while c < schema.len()
            invariant
                c <= schema@.len(),
                schema == self.0,
                comparable(schema@, contents(self.1.data), contents(other.1.data), 0)
                    == comparable(
                    schema@,
                    contents(self.1.data),
                    contents(other.1.data),
                    c as int,
                ),
                tuple_order(schema@, contents(self.1.data), contents(other.1.data), 0)
                    == tuple_order(
                    schema@,
                    contents(self.1.data),
                    contents(other.1.data),
                    c as int,
                ),
            decreases schema@.len() - c,
        {
            let col = schema.column(c);
            let lhs = match self.1.try_get_value(col) {
                Some(v) => v,
                None => {
                    return None;
                },
            };
            let rhs = match other.1.try_get_value(col) {
                Some(v) => v,
                None => {
                    return None;
                },
            };
            match lhs.order(&rhs) {
                Order::Less => {
                    return Some(Order::Less);
                },
                Order::Greater => {
                    return Some(Order::Greater);
                },
                Order::Equal => {},
            }
            c = c + 1;
        }
        Some(Order::Equal)
    }

    /// How this tuple compares to `other` under the schema of this one, if
    /// the two can be compared.
    pub fn partial_cmp(&self, other: &Comparand) -> (r: Option<Ordering>)
        ensures
            r is Some <==> comparable(self.0@, contents(self.1.data), contents(other.1.data), 0),
            r is Some ==> r->0 == ordering_of(
                tuple_order(self.0@, contents(self.1.data), contents(other.1.data), 0),
            ),
    {
        match self.try_order(other) {
            Some(Order::Less) => Some(Ordering::Less),
            Some(Order::Equal) => Some(Ordering::Equal),
            Some(Order::Greater) => Some(Ordering::Greater),
            None => None,
        }
    }

    /// How this tuple compares to `other` under the schema of this one.
    pub fn cmp(&self, other: &Comparand) -> (o: Ordering)
        requires
            comparable(self.0@, contents(self.1.data), contents(other.1.data), 0),
        ensures
            o == ordering_of(
                tuple_order(self.0@, contents(self.1.data), contents(other.1.data), 0),
            ),
    {
        match self.order(other) {
            Order::Less => Ordering::Less,
            Order::Equal => Ordering::Equal,
            Order::Greater => Ordering::Greater,
        }
    }

    /// Whether the two tuples have the same bytes.
    pub fn eq(&self, other: &Comparand) -> (b: bool)
        ensures
            b == (contents(self.1.data) == contents(other.1.data)),
    {
        let x = as_slice(&self.1.data);
        let y = as_slice(&other.1.data);
        if x.len() != y.len() {
            return false;
        }
        let mut i: usize = 0;
        while i < x.len()
            invariant
                i <= x@.len(),
                x@.len() == y@.len(),
                x@ == contents(self.1.data),
                y@ == contents(other.1.data),
                forall|j: int| 0 <= j < i ==> x@[j] == y@[j],
            decreases x@.len() - i,
        {
            if x[i] != y[i] {
                return false;
            }
            i = i + 1;
        }
        assert(x@ =~= y@);
        true
    }
}

/// The payload of a varchar that a builder has taken in, and where its offset
/// is to be written.
pub struct Variable {
    data: BytesMut,
    offset_offset: usize,
}

/// Builds the bytes of a tuple from its values, in column order.
pub struct TupleBuilder {
    data: BytesMut,
    variable: Vec<Variable>,
}

/// The mathematical content of a builder: the fixed part built so far, and
/// for each varchar its payload and the place of its offset in the fixed
/// part.
pub struct BuilderView {
    pub data: Seq<u8>,
    pub variable: Seq<(Seq<u8>, int)>,
}

impl BuilderView {
    /// The builder after it has taken in `v`: a fixed-width value is
    /// appended; of a varchar four bytes are appended, two that stay zero
    /// until the tuple is built and the length (its low 16 bits), and the
    /// payload is kept for the end.
    pub open spec fn added(self, v: ValueView) -> BuilderView {
        match v {
            ValueView::TinyInt(x) => BuilderView { data: self.data + seq![i8_bits(x)], ..self },
            ValueView::Bool(x) => BuilderView {
                data: self.data + seq![
                    if x {
                        1u8
                    } else {
                        0u8
                    },
                ],
                ..self
            },
            ValueView::Int(x) => BuilderView { data: self.data + i32_be(x), ..self },
            ValueView::BigInt(x) => BuilderView { data: self.data + i64_be(x), ..self },
            ValueView::Varchar(bytes) => BuilderView {
                data: self.data + seq![0u8, 0u8] + u16_be((bytes.len() % 0x1_0000) as u16),
                variable: self.variable.push((bytes, self.data.len() as int)),
            },
        }
    }

    /// The bytes of the tuple once the first `n` payloads are appended and
    /// their offsets (the low 16 bits) written to their places.
    pub open spec fn built_upto(self, n: nat) -> Seq<u8>
        decreases n,
    {
        if n == 0 {
            self.data
        } else {
            let prev = self.built_upto((n - 1) as nat);
            let (payload, place) = self.variable[n - 1];
            crate::codec::overwrite(prev, place, u16_be((prev.len() % 0x1_0000) as u16)) + payload
        }
    }

    /// The bytes of the tuple.
    pub open spec fn built(self) -> Seq<u8> {
        self.built_upto(self.variable.len())
    }

    /// Number of bytes of the tuple once the first `n` payloads are appended.
    pub open spec fn size_upto(self, n: nat) -> int
        decreases n,
    {
        if n == 0 {
            self.data.len() as int
        } else {
            self.size_upto((n - 1) as nat) + self.variable[n - 1].0.len()
        }
    }

    /// The builder's invariant: every offset has its two bytes in the fixed
    /// part.
    pub open spec fn wf(self) -> bool {
        forall|i: int|
            0 <= i < self.variable.len() ==> 0 <= (#[trigger] self.variable[i]).1
                && self.variable[i].1 + 2 <= self.data.len()
    }

    /// The length of what is built is the size.
    pub proof fn lemma_built_len(self, n: nat)
        requires
            self.wf(),
            n <= self.variable.len(),
        ensures
            self.built_upto(n).len() == self.size_upto(n),
            self.size_upto(n) >= self.data.len(),
        decreases n,
    {
        if n > 0 {
            self.lemma_built_len((n - 1) as nat);
        }
    }
}

impl TupleBuilder {
    /// The mathematical content of the builder.
    pub closed spec fn view(&self) -> BuilderView {
        BuilderView {
            data: contents(self.data),
            variable: Seq::new(
                self.variable@.len(),
                |i: int| (contents(self.variable@[i].data), self.variable@[i].offset_offset as int),
            ),
        }
    }

    /// A builder that has taken in no value.
    pub fn new() -> (b: Self)
        ensures
            b@.data == Seq::<u8>::empty(),
            b@.variable == Seq::<(Seq<u8>, int)>::empty(),
            b@.wf(),
    {
        let b = TupleBuilder { data: BytesMut::new(), variable: Vec::new() };
        assert(b@.variable =~= Seq::<(Seq<u8>, int)>::empty());
        b
    }

    /// A builder that has taken in no value, with room set aside for `size`
    /// bytes.
    pub fn with_capacity(size: usize) -> (b: Self)
        requires
            size <= isize::MAX,
        ensures
            b@.data == Seq::<u8>::empty(),
            b@.variable == Seq::<(Seq<u8>, int)>::empty(),
            b@.wf(),
    {
        let b = TupleBuilder { data: BytesMut::with_capacity(size), variable: Vec::new() };
        assert(b@.variable =~= Seq::<(Seq<u8>, int)>::empty());
        b
    }

    /// Takes in the next value.
    pub fn add(self, v: &Value) -> (b: Self)
        requires
            self@.wf(),
            self@.data.len() + 8 <= isize::MAX,
        ensures
            b@ == self@.added(v@),
            b@.wf(),
    {
        let mut b = self;
        let ghost before = b@;
        match v {
            Value::TinyInt(x) => {
                let byte: u8 = if *x < 0 {
                    (*x as i16 + 0x100) as u8
                } else {
                    *x as u8
                };
                let bytes: [u8; 1] = [byte];
                put_slice(&mut b.data, &bytes);
                assert(bytes@ =~= seq![i8_bits(*x)]);
            },
            Value::Bool(x) => {
                let bytes: [u8; 1] = [
                    if *x {
                        1u8
                    } else {
                        0u8
                    },
                ];
                put_slice(&mut b.data, &bytes);
                assert(bytes@ =~= seq![
                    if *x {
                        1u8
                    } else {
                        0u8
                    },
                ]);
            },
            Value::Int(x) => {
                let mut bytes: Vec<u8> = vec![0u8, 0u8, 0u8, 0u8];
                proof {
                    crate::codec::lemma_i32_round_trip(*x);
                }
                write_i32(&mut bytes, 0, *x);
                assert(bytes@ =~= i32_be(*x));
                put_slice(&mut b.data, bytes.as_slice());
            },
            Value::BigInt(x) => {
                let mut bytes: Vec<u8> = vec![0u8, 0u8, 0u8, 0u8, 0u8, 0u8, 0u8, 0u8];
                proof {
                    crate::codec::lemma_i64_round_trip(*x);
                }
                write_i64(&mut bytes, 0, *x);
                assert(bytes@ =~= i64_be(*x));
                put_slice(&mut b.data, bytes.as_slice());
            },
            Value::Varchar(s) => {
                let offset = b.data.len();
                let payload = s.as_str().as_bytes();
                let len = (payload.len() % 0x1_0000) as u16;
                b.data.resize(offset + 4, 0);
                set_byte(&mut b.data, offset + 2, (len / 256) as u8);
                set_byte(&mut b.data, offset + 3, (len % 256) as u8);
                b.variable.push(Variable { data: from_slice(payload), offset_offset: offset });
                proof {
                    assert(contents(b.data) =~= before.data + seq![0u8, 0u8] + u16_be(len));
                    assert(b@.variable =~= before.variable.push(
                        (encode_utf8(s@), before.data.len() as int),
                    ));
                }
            },
        }
        proof {
            assert(b@.variable =~= self@.added(v@).variable);
        }
        b
    }

    /// The bytes of the tuple: the fixed part with the offsets of the varchar
    /// payloads written to their places, then the payloads.
    pub fn build(self) -> (data: BytesMut)
        requires
            self@.wf(),
            self@.size_upto(self@.variable.len()) <= isize::MAX,
        ensures
            contents(data) == self@.built(),
    {
        let mut data = self.data;
        let variable = self.variable;
        let ghost view = self@;
        let mut i: usize = 0;
        while i < variable.len()
            invariant
                i <= variable@.len(),
                view.wf(),
                view.variable.len() == variable@.len(),
                forall|j: int|
                    0 <= j < variable@.len() ==> #[trigger] view.variable[j] == (
                        contents(variable@[j].data),
                        variable@[j].offset_offset as int,
                    ),
                view.size_upto(view.variable.len()) <= isize::MAX,
                contents(data) == view.built_upto(i as nat),
            decreases variable@.len() - i,
        {
            proof {
                view.lemma_built_len(i as nat);
                view.lemma_built_len((i + 1) as nat);
                lemma_size_grows(view, (i + 1) as nat, view.variable.len());
            }
            let var = &variable[i];
            let offset = data.len();
            let low = (offset % 0x1_0000) as u16;
            let ghost prev = contents(data);
            set_byte(&mut data, var.offset_offset, (low / 256) as u8);
            set_byte(&mut data, var.offset_offset + 1, (low % 256) as u8);
            proof {
                assert(contents(data) =~= crate::codec::overwrite(
                    prev,
                    var.offset_offset as int,
                    u16_be(low),
                ));
            }
            put_slice(&mut data, as_slice(&var.data));
            i = i + 1;
        }
        data
    }
}

/// The size of what is built grows with every payload.
pub proof fn lemma_size_grows(view: BuilderView, n: nat, m: nat)
    requires
        n <= m,
    ensures
        view.size_upto(n) <= view.size_upto(m),
    decreases m,
{
    if n < m {
        lemma_size_grows(view, n, (m - 1) as nat);
    }
}

} // verus!
