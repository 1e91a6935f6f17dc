//! The schema-driven block parser: what a schema says of a block's links and
//! data fields, and the block that results from reading the file by it.

use vstd::prelude::*;
use vstd::slice::slice_to_vec;
use vstd::utf8::{decode_utf8, valid_utf8};
use vstd::utf8::encode_utf8;
use indexmap::IndexMap;
use crate::data_serde::{
    clone_value, holds_model, le_u16, le_u32, le_u64, read_i16_le, read_i32_le, read_i64_le, read_u16_le,
    read_u32_le, read_u64_le, signed16, signed32, signed64, str_eq, string_from_utf8, DataModel,
    DataValue,
};
use crate::error::MdfError;

verus! {

// ---------------------------------------------------------------------------
// Runs of little-endian numbers
// ---------------------------------------------------------------------------

/// `count` unsigned 16-bit numbers stored one after the other in `b`.
pub open spec fn u16s_le(b: Seq<u8>, count: nat) -> Seq<u16> {
    Seq::new(count, |i: int| le_u16(b.subrange(2 * i, 2 * i + 2)) as u16)
}

/// `count` unsigned 32-bit numbers stored one after the other in `b`.
pub open spec fn u32s_le(b: Seq<u8>, count: nat) -> Seq<u32> {
    Seq::new(count, |i: int| le_u32(b.subrange(4 * i, 4 * i + 4)) as u32)
}

/// `count` unsigned 64-bit numbers stored one after the other in `b`.
pub open spec fn u64s_le(b: Seq<u8>, count: nat) -> Seq<u64> {
    Seq::new(count, |i: int| le_u64(b.subrange(8 * i, 8 * i + 8)) as u64)
}

/// `count` signed 16-bit numbers stored one after the other in `b`.
pub open spec fn i16s_le(b: Seq<u8>, count: nat) -> Seq<i16> {
    Seq::new(count, |i: int| signed16(le_u16(b.subrange(2 * i, 2 * i + 2))) as i16)
}

/// `count` signed 32-bit numbers stored one after the other in `b`.
pub open spec fn i32s_le(b: Seq<u8>, count: nat) -> Seq<i32> {
    Seq::new(count, |i: int| signed32(le_u32(b.subrange(4 * i, 4 * i + 4))) as i32)
}

/// `count` signed 64-bit numbers stored one after the other in `b`.
pub open spec fn i64s_le(b: Seq<u8>, count: nat) -> Seq<i64> {
    Seq::new(count, |i: int| signed64(le_u64(b.subrange(8 * i, 8 * i + 8))) as i64)
}

fn read_u16s(b: &[u8], count: usize) -> (v: Vec<u16>)
    requires
        2 * count <= b@.len(),
    ensures
        v@ == u16s_le(b@, count as nat),
{
    let len: usize = b.len();
    let mut v: Vec<u16> = Vec::new();
    let mut i: usize = 0;
    while i < count
        invariant
            i <= count,
            2 * count <= len,
            len == b@.len(),
            v@.len() == i,
            forall|j: int| 0 <= j < i ==> v@[j] == u16s_le(b@, count as nat)[j],
        decreases count - i,
    {
        v.push(read_u16_le(&b[2 * i..2 * i + 2]));
        i += 1;
    }
    assert(v@ =~= u16s_le(b@, count as nat));
    v
}

fn read_u32s(b: &[u8], count: usize) -> (v: Vec<u32>)
    requires
        4 * count <= b@.len(),
    ensures
        v@ == u32s_le(b@, count as nat),
{
    let len: usize = b.len();
    let mut v: Vec<u32> = Vec::new();
    let mut i: usize = 0;
    while i < count
        invariant
            i <= count,
            4 * count <= len,
            len == b@.len(),
            v@.len() == i,
            forall|j: int| 0 <= j < i ==> v@[j] == u32s_le(b@, count as nat)[j],
        decreases count - i,
    {
        v.push(read_u32_le(&b[4 * i..4 * i + 4]));
        i += 1;
    }
    assert(v@ =~= u32s_le(b@, count as nat));
    v
}

pub(crate) fn read_u64s(b: &[u8], count: usize) -> (v: Vec<u64>)
    requires
        8 * count <= b@.len(),
    ensures
        v@ == u64s_le(b@, count as nat),
{
    let len: usize = b.len();
    let mut v: Vec<u64> = Vec::new();
    let mut i: usize = 0;
    while i < count
        invariant
            i <= count,
            8 * count <= len,
            len == b@.len(),
            v@.len() == i,
            forall|j: int| 0 <= j < i ==> v@[j] == u64s_le(b@, count as nat)[j],
        decreases count - i,
    {
        v.push(read_u64_le(&b[8 * i..8 * i + 8]));
        i += 1;
    }
    assert(v@ =~= u64s_le(b@, count as nat));
    v
}

fn read_i16s(b: &[u8], count: usize) -> (v: Vec<i16>)
    requires
        2 * count <= b@.len(),
    ensures
        v@ == i16s_le(b@, count as nat),
{
    let len: usize = b.len();
    let mut v: Vec<i16> = Vec::new();
    let mut i: usize = 0;
    while i < count
        invariant
            i <= count,
            2 * count <= len,
            len == b@.len(),
            v@.len() == i,
            forall|j: int| 0 <= j < i ==> v@[j] == i16s_le(b@, count as nat)[j],
        decreases count - i,
    {
        v.push(read_i16_le(&b[2 * i..2 * i + 2]));
        i += 1;
    }
    assert(v@ =~= i16s_le(b@, count as nat));
    v
}

fn read_i32s(b: &[u8], count: usize) -> (v: Vec<i32>)
    requires
        4 * count <= b@.len(),
    ensures
        v@ == i32s_le(b@, count as nat),
{
    let len: usize = b.len();
    let mut v: Vec<i32> = Vec::new();
    let mut i: usize = 0;
    while i < count
        invariant
            i <= count,
            4 * count <= len,
            len == b@.len(),
            v@.len() == i,
            forall|j: int| 0 <= j < i ==> v@[j] == i32s_le(b@, count as nat)[j],
        decreases count - i,
    {
        v.push(read_i32_le(&b[4 * i..4 * i + 4]));
        i += 1;
    }
    assert(v@ =~= i32s_le(b@, count as nat));
    v
}

fn read_i64s(b: &[u8], count: usize) -> (v: Vec<i64>)
    requires
        8 * count <= b@.len(),
    ensures
        v@ == i64s_le(b@, count as nat),
{
    let len: usize = b.len();
    let mut v: Vec<i64> = Vec::new();
    let mut i: usize = 0;
    while i < count
        invariant
            i <= count,
            8 * count <= len,
            len == b@.len(),
            v@.len() == i,
            forall|j: int| 0 <= j < i ==> v@[j] == i64s_le(b@, count as nat)[j],
        decreases count - i,
    {
        v.push(read_i64_le(&b[8 * i..8 * i + 8]));
        i += 1;
    }
    assert(v@ =~= i64s_le(b@, count as nat));
    v
}

// ---------------------------------------------------------------------------
// A position in a block's payload
// ---------------------------------------------------------------------------

/// A payload being read front to back.
pub struct ByteCursor<'a> {
    pub buf: &'a [u8],
    pub pos: usize,
}

impl<'a> ByteCursor<'a> {
    /// Whether the position lies within the payload.
    pub open spec fn wf(&self) -> bool {
        self.pos <= self.buf@.len()
    }

    /// The bytes not yet read.
    pub open spec fn rest(&self) -> Seq<u8> {
        self.buf@.subrange(self.pos as int, self.buf@.len() as int)
    }

    /// A cursor at the start of `buf`.
    pub fn new(buf: &'a [u8]) -> (c: Self)
        ensures
            c.buf@ == buf@,
            c.pos == 0,
            c.wf(),
    {
        ByteCursor { buf, pos: 0 }
    }

    /// The number of bytes not yet read.
    pub fn remaining(&self) -> (n: usize)
        requires
            self.wf(),
        ensures
            n == self.buf@.len() - self.pos,
    {
        self.buf.len() - self.pos
    }
}

// ---------------------------------------------------------------------------
// One data field of a schema
// ---------------------------------------------------------------------------

/// The primitive type of a block's data field.
#[derive(Debug, Clone, Copy, PartialEq, Eq, Structural)]
pub enum DataType {
    CHAR,
    BYTE,
    UINT64,
    UINT8,
    INT16,
    UINT16,
    INT32,
    UINT32,
    INT64,
    REAL,
}

impl DataType {
    /// The bytes that one element takes.
    pub open spec fn spec_width(&self) -> int {
        match self {
            DataType::CHAR | DataType::BYTE | DataType::UINT8 => 1,
            DataType::INT16 | DataType::UINT16 => 2,
            DataType::INT32 | DataType::UINT32 => 4,
            DataType::UINT64 | DataType::INT64 | DataType::REAL => 8,
        }
    }

    /// The bytes that one element takes.
    pub fn width(&self) -> (w: usize)
        ensures
            w == self.spec_width(),
    {
        match self {
            DataType::CHAR | DataType::BYTE | DataType::UINT8 => 1,
            DataType::INT16 | DataType::UINT16 => 2,
            DataType::INT32 | DataType::UINT32 => 4,
            DataType::UINT64 | DataType::INT64 | DataType::REAL => 8,
        }
    }

    /// What `count` elements of this type stored in `b` hold.
    pub open spec fn spec_decode(&self, b: Seq<u8>, count: nat) -> DataModel {
        match self {
            DataType::CHAR => DataModel::Char(decode_utf8(b.subrange(0, count as int))),
            DataType::BYTE => DataModel::Byte(b.subrange(0, count as int)),
            DataType::UINT8 => DataModel::U8(b.subrange(0, count as int)),
            DataType::UINT64 => DataModel::U64(u64s_le(b, count)),
            DataType::INT16 => DataModel::I16(i16s_le(b, count)),
            DataType::UINT16 => DataModel::U16(u16s_le(b, count)),
            DataType::INT32 => DataModel::I32(i32s_le(b, count)),
            DataType::UINT32 => DataModel::U32(u32s_le(b, count)),
            DataType::INT64 => DataModel::I64(i64s_le(b, count)),
            DataType::REAL => DataModel::Real(u64s_le(b, count)),
        }
    }
}

/// One data field of a block schema: the type of its elements and their
/// number. Without a number the field takes the rest of the payload.
#[derive(Debug, Clone, Copy)]
pub struct BlockField {
    data_type: DataType,
    size: Option<u32>,
}

impl BlockField {
    /// A field of `size` elements of `data_type`, or one that fills the
    /// rest of the payload where `size` is `None`.
    pub fn new(data_type: DataType, size: Option<u32>) -> (f: Self)
        ensures
            f.spec_data_type() == data_type,
            f.spec_size() == size,
    {
        BlockField { data_type, size }
    }

    /// The type of the field's elements.
    pub closed spec fn spec_data_type(&self) -> DataType {
        self.data_type
    }

    /// The declared number of elements.
    pub closed spec fn spec_size(&self) -> Option<u32> {
        self.size
    }

    /// The number of elements read when `remaining` bytes are left.
    pub open spec fn spec_count(&self, remaining: int) -> int {
        match self.spec_size() {
            Some(n) => n as int,
            None => remaining / self.spec_data_type().spec_width(),
        }
    }

    /// The bytes that the field takes when `remaining` bytes are left.
    pub open spec fn spec_bytes(&self, remaining: int) -> int {
        self.spec_count(remaining) * self.spec_data_type().spec_width()
    }

    /// Why the field cannot be read from `rest`, if it cannot: the payload
    /// ends too early, or a text field is not valid UTF-8.
    pub open spec fn spec_parse_error(&self, rest: Seq<u8>) -> Option<MdfError> {
        let n = self.spec_bytes(rest.len() as int);
        if n > rest.len() {
            Some(MdfError::IoError)
        } else if self.spec_data_type() == DataType::CHAR && !valid_utf8(rest.subrange(0, n)) {
            Some(MdfError::DataCorrupt)
        } else {
            None
        }
    }

    /// What the field holds when read from `rest`.
    pub open spec fn spec_value(&self, rest: Seq<u8>) -> DataModel {
        self.spec_data_type().spec_decode(rest, self.spec_count(rest.len() as int) as nat)
    }

    /// The name of the field's type.
    pub fn get_data_type(&self) -> (s: String)
        ensures
            s@ == self.spec_type_name(),
    {
        match self.data_type {
            DataType::BYTE => "BYTE".to_owned(),
            DataType::CHAR => "CHAR".to_owned(),
            DataType::UINT64 => "UINT64".to_owned(),
            DataType::UINT8 => "UINT8".to_owned(),
            DataType::INT16 => "INT16".to_owned(),
            DataType::INT32 => "INT32".to_owned(),
            DataType::UINT16 => "UINT16".to_owned(),
            DataType::UINT32 => "UINT32".to_owned(),
            DataType::INT64 => "INT64".to_owned(),
            DataType::REAL => "REAL".to_owned(),
        }
    }

    /// The text that `get_data_type` returns.
    pub open spec fn spec_type_name(&self) -> Seq<char> {
        match self.spec_data_type() {
            DataType::BYTE => "BYTE"@,
            DataType::CHAR => "CHAR"@,
            DataType::UINT64 => "UINT64"@,
            DataType::UINT8 => "UINT8"@,
            DataType::INT16 => "INT16"@,
            DataType::INT32 => "INT32"@,
            DataType::UINT16 => "UINT16"@,
            DataType::UINT32 => "UINT32"@,
            DataType::INT64 => "INT64"@,
            DataType::REAL => "REAL"@,
        }
    }

    /// Reads the field at the cursor and moves the cursor past it. A field
    /// with a size takes exactly that many elements; one without takes as
    /// many whole elements as are left. On an error the cursor stays.
    pub fn try_parse_value(&self, cur: &mut ByteCursor) -> (r: Result<DataValue, MdfError>)
        requires
            old(cur).wf(),
        ensures
            final(cur).wf(),
            final(cur).buf@ == old(cur).buf@,
            match r {
                Ok(v) => {
                    &&& self.spec_parse_error(old(cur).rest()) is None
                    &&& v@ == self.spec_value(old(cur).rest())
                    &&& final(cur).pos == old(cur).pos + self.spec_bytes(old(cur).rest().len() as int)
                },
                Err(e) => {
                    &&& self.spec_parse_error(old(cur).rest()) == Some(e)
                    &&& final(cur).pos == old(cur).pos
                },
            },
    {
        let total: usize = cur.buf.len();
        let remaining: usize = cur.remaining();
        let width: usize = self.data_type.width();
        let count: u64 = match self.size {
            Some(n) => n as u64,
            None => (remaining / width) as u64,
        };
        assert(count * width <= 0x8_0000_0000 || count * width <= remaining) by (nonlinear_arith)
            requires
                1 <= width <= 8,
                count <= 0xffff_ffff || count == remaining / width,
        ;
        let wanted: u64 = count * (width as u64);
        if wanted > remaining as u64 {
            return Err(MdfError::IoError);
        }
        let n: usize = count as usize;
        let start: usize = cur.pos;
        let end: usize = start + wanted as usize;
        let whole: &[u8] = cur.buf;
        let bytes: &[u8] = &whole[start..end];
        let ghost rest = cur.rest();
        proof {
            assert(bytes@ =~= rest.subrange(0, wanted as int));
            assert(count == self.spec_count(rest.len() as int));
            assert(wanted == self.spec_bytes(rest.len() as int));
        }
        let value: DataValue = match self.data_type {
            DataType::CHAR => {
                match string_from_utf8(slice_to_vec(bytes)) {
                    Some(s) => DataValue::CHAR(s),
                    None => {
                        return Err(MdfError::DataCorrupt);
                    },
                }
            },
            DataType::UINT8 => DataValue::UINT8(slice_to_vec(bytes)),
            DataType::BYTE => DataValue::BYTE(slice_to_vec(bytes)),
            DataType::UINT64 => {
                let v = read_u64s(bytes, n);
                proof {
                    lemma_u64s_prefix(rest, bytes@, count as nat);
                }
                DataValue::UINT64(v)
            },
            DataType::INT16 => {
                let v = read_i16s(bytes, n);
                proof {
                    lemma_i16s_prefix(rest, bytes@, count as nat);
                }
                DataValue::INT16(v)
            },
            DataType::UINT16 => {
                let v = read_u16s(bytes, n);
                proof {
                    lemma_u16s_prefix(rest, bytes@, count as nat);
                }
                DataValue::UINT16(v)
            },
            DataType::INT32 => {
                let v = read_i32s(bytes, n);
                proof {
                    lemma_i32s_prefix(rest, bytes@, count as nat);
                }
                DataValue::INT32(v)
            },
            DataType::UINT32 => {
                let v = read_u32s(bytes, n);
                proof {
                    lemma_u32s_prefix(rest, bytes@, count as nat);
                }
                DataValue::UINT32(v)
            },
            DataType::INT64 => {
                let v = read_i64s(bytes, n);
                proof {
                    lemma_i64s_prefix(rest, bytes@, count as nat);
                }
                DataValue::INT64(v)
            },
            DataType::REAL => {
                let v = read_u64s(bytes, n);
                proof {
                    lemma_u64s_prefix(rest, bytes@, count as nat);
                }
                DataValue::REAL(v)
            },
        };
        cur.pos = end;
        Ok(value)
    }
}

proof fn lemma_u16s_prefix(whole: Seq<u8>, part: Seq<u8>, count: nat)
    requires
        2 * count <= whole.len(),
        part == whole.subrange(0, (2 * count) as int),
    ensures
        u16s_le(part, count) == u16s_le(whole, count),
{
    assert forall|i: int| 0 <= i < count implies u16s_le(part, count)[i] == u16s_le(whole, count)[i] by {
        assert(part.subrange(2 * i, 2 * i + 2) =~= whole.subrange(2 * i, 2 * i + 2));
    }
    assert(u16s_le(part, count) =~= u16s_le(whole, count));
}

proof fn lemma_i16s_prefix(whole: Seq<u8>, part: Seq<u8>, count: nat)
    requires
        2 * count <= whole.len(),
        part == whole.subrange(0, (2 * count) as int),
    ensures
        i16s_le(part, count) == i16s_le(whole, count),
{
    assert forall|i: int| 0 <= i < count implies i16s_le(part, count)[i] == i16s_le(whole, count)[i] by {
        assert(part.subrange(2 * i, 2 * i + 2) =~= whole.subrange(2 * i, 2 * i + 2));
    }
    assert(i16s_le(part, count) =~= i16s_le(whole, count));
}

proof fn lemma_u32s_prefix(whole: Seq<u8>, part: Seq<u8>, count: nat)
    requires
        4 * count <= whole.len(),
        part == whole.subrange(0, (4 * count) as int),
    ensures
        u32s_le(part, count) == u32s_le(whole, count),
{
    assert forall|i: int| 0 <= i < count implies u32s_le(part, count)[i] == u32s_le(whole, count)[i] by {
        assert(part.subrange(4 * i, 4 * i + 4) =~= whole.subrange(4 * i, 4 * i + 4));
    }
    assert(u32s_le(part, count) =~= u32s_le(whole, count));
}

proof fn lemma_i32s_prefix(whole: Seq<u8>, part: Seq<u8>, count: nat)
    requires
        4 * count <= whole.len(),
        part == whole.subrange(0, (4 * count) as int),
    ensures
        i32s_le(part, count) == i32s_le(whole, count),
{
    assert forall|i: int| 0 <= i < count implies i32s_le(part, count)[i] == i32s_le(whole, count)[i] by {
        assert(part.subrange(4 * i, 4 * i + 4) =~= whole.subrange(4 * i, 4 * i + 4));
    }
    assert(i32s_le(part, count) =~= i32s_le(whole, count));
}

proof fn lemma_u64s_prefix(whole: Seq<u8>, part: Seq<u8>, count: nat)
    requires
        8 * count <= whole.len(),
        part == whole.subrange(0, (8 * count) as int),
    ensures
        u64s_le(part, count) == u64s_le(whole, count),
{
    assert forall|i: int| 0 <= i < count implies u64s_le(part, count)[i] == u64s_le(whole, count)[i] by {
        assert(part.subrange(8 * i, 8 * i + 8) =~= whole.subrange(8 * i, 8 * i + 8));
    }
    assert(u64s_le(part, count) =~= u64s_le(whole, count));
}

proof fn lemma_i64s_prefix(whole: Seq<u8>, part: Seq<u8>, count: nat)
    requires
        8 * count <= whole.len(),
        part == whole.subrange(0, (8 * count) as int),
    ensures
        i64s_le(part, count) == i64s_le(whole, count),
{
    assert forall|i: int| 0 <= i < count implies i64s_le(part, count)[i] == i64s_le(whole, count)[i] by {
        assert(part.subrange(8 * i, 8 * i + 8) =~= whole.subrange(8 * i, 8 * i + 8));
    }
    assert(i64s_le(part, count) =~= i64s_le(whole, count));
}

// ---------------------------------------------------------------------------
// Entries kept in the order in which their names first came
// ---------------------------------------------------------------------------

/// The place of the entry named `k`, if there is one.
pub open spec fn key_index<V>(e: Seq<(Seq<char>, V)>, k: Seq<char>) -> Option<int>
    decreases e.len(),
{
    if e.len() == 0 {
        None
    } else {
        match key_index(e.drop_last(), k) {
            Some(i) => Some(i),
            None => if e.last().0 == k {
                Some(e.len() - 1)
            } else {
                None
            },
        }
    }
}

/// The value entered under the name `k`, if there is one.
pub open spec fn lookup<V>(e: Seq<(Seq<char>, V)>, k: Seq<char>) -> Option<V> {
    match key_index(e, k) {
        Some(i) => Some(e[i].1),
        None => None,
    }
}

/// The entries after `v` is entered under `k`: in the place of the entry
/// that had that name, or at the end where none had.
pub open spec fn entries_inserted<V>(e: Seq<(Seq<char>, V)>, k: Seq<char>, v: V) -> Seq<
    (Seq<char>, V),
> {
    match key_index(e, k) {
        Some(i) => e.update(i, (e[i].0, v)),
        None => e.push((k, v)),
    }
}

/// A place found by `key_index` lies within the entries and holds the name.
pub proof fn lemma_key_index_bounds<V>(e: Seq<(Seq<char>, V)>, k: Seq<char>)
    ensures
        match key_index(e, k) {
            Some(i) => 0 <= i < e.len() && e[i].0 == k,
            None => forall|j: int| 0 <= j < e.len() ==> e[j].0 != k,
        },
    decreases e.len(),
{
    if e.len() > 0 {
        lemma_key_index_bounds(e.drop_last(), k);
        match key_index(e.drop_last(), k) {
            Some(i) => {
                assert(e.drop_last()[i] == e[i]);
            },
            None => {
                assert forall|j: int| 0 <= j < e.len() - 1 implies e[j].0 != k by {
                    assert(e.drop_last()[j] == e[j]);
                }
            },
        }
    }
}

// ---------------------------------------------------------------------------
// The ordered maps of the `indexmap` crate
// ---------------------------------------------------------------------------

#[verifier::external_type_specification]
#[verifier::external_body]
#[verifier::reject_recursive_types(K)]
#[verifier::reject_recursive_types(V)]
#[verifier::reject_recursive_types(S)]
pub struct ExIndexMap<K, V, S>(IndexMap<K, V, S>);

/// Where a named link of a block points: to one block, or to a run of them.
#[derive(Debug)]
pub enum LinkAddr {
    Normal(u64),
    Variable(Vec<u64>),
}

/// What a `LinkAddr` holds.
pub enum LinkModel {
    Normal(u64),
    Variable(Seq<u64>),
}

impl View for LinkAddr {
    type V = LinkModel;

    open spec fn view(&self) -> LinkModel {
        match self {
            LinkAddr::Normal(x) => LinkModel::Normal(*x),
            LinkAddr::Variable(v) => LinkModel::Variable(v@),
        }
    }
}

impl Clone for LinkAddr {
    fn clone(&self) -> (r: Self)
        ensures
            r@ == self@,
    {
        match self {
            LinkAddr::Normal(x) => LinkAddr::Normal(*x),
            LinkAddr::Variable(v) => LinkAddr::Variable(v.clone()),
        }
    }
}

/// The names and values that a map of data fields holds, in its order.
pub uninterp spec fn data_entries(m: IndexMap<String, DataValue>) -> Seq<(Seq<char>, DataModel)>;

/// The names and addresses that a map of links holds, in its order.
pub uninterp spec fn link_entries(m: IndexMap<String, LinkAddr>) -> Seq<(Seq<char>, LinkModel)>;

/// `IndexMap::new`: a map without entries.
#[verifier::external_body]
pub(crate) fn data_map_new() -> (m: IndexMap<String, DataValue>)
    ensures
        data_entries(m) == Seq::<(Seq<char>, DataModel)>::empty(),
{
    IndexMap::new()
}

/// `IndexMap::insert`: the value takes the place of the one entered under
/// the same name, or comes last where the name is new.
#[verifier::external_body]
pub(crate) fn data_map_insert(m: &mut IndexMap<String, DataValue>, key: String, value: DataValue)
    ensures
        data_entries(*final(m)) == entries_inserted(data_entries(*old(m)), key@, value@),
{
    m.insert(key, value);
}

/// `IndexMap::get`: the value entered under the name, if there is one.
#[verifier::external_body]
pub(crate) fn data_map_get<'a>(m: &'a IndexMap<String, DataValue>, key: &str) -> (r: Option<
    &'a DataValue,
>)
    ensures
        match r {
            Some(v) => lookup(data_entries(*m), key@) == Some(v@),
            None => lookup(data_entries(*m), key@) is None,
        },
{
    m.get(key)
}

/// `IndexMap::new`: a map without entries.
#[verifier::external_body]
pub(crate) fn link_map_new() -> (m: IndexMap<String, LinkAddr>)
    ensures
        link_entries(m) == Seq::<(Seq<char>, LinkModel)>::empty(),
{
    IndexMap::new()
}

/// `IndexMap::insert`: the address takes the place of the one entered under
/// the same name, or comes last where the name is new.
#[verifier::external_body]
pub(crate) fn link_map_insert(m: &mut IndexMap<String, LinkAddr>, key: String, value: LinkAddr)
    ensures
        link_entries(*final(m)) == entries_inserted(link_entries(*old(m)), key@, value@),
{
    m.insert(key, value);
}

/// `IndexMap::get`: the address entered under the name, if there is one.
#[verifier::external_body]
pub(crate) fn link_map_get<'a>(m: &'a IndexMap<String, LinkAddr>, key: &str) -> (r: Option<
    &'a LinkAddr,
>)
    ensures
        match r {
            Some(v) => lookup(link_entries(*m), key@) == Some(v@),
            None => lookup(link_entries(*m), key@) is None,
        },
{
    m.get(key)
}

// ---------------------------------------------------------------------------
// A parsed block
// ---------------------------------------------------------------------------

/// The first element of a field, as the number type asked for.
pub trait FirstOf: Sized {
    /// The first element of `v`, where `v` holds elements of this type.
    spec fn spec_first(v: DataModel) -> Option<Self>;

    fn first_of(v: &DataValue) -> (r: Option<Self>)
        ensures
            r == Self::spec_first(v@),
    ;
}

impl FirstOf for u8 {
    open spec fn spec_first(v: DataModel) -> Option<u8> {
        match v {
            DataModel::Byte(s) => if s.len() > 0 {
                Some(s[0])
            } else {
                None
            },
            DataModel::U8(s) => if s.len() > 0 {
                Some(s[0])
            } else {
                None
            },
            DataModel::Char(s) => if encode_utf8(s).len() > 0 {
                Some(encode_utf8(s)[0])
            } else {
                None
            },
            _ => None,
        }
    }

    fn first_of(v: &DataValue) -> (r: Option<u8>) {
        match v {
            DataValue::BYTE(s) => if s.len() > 0 {
                Some(s[0])
            } else {
                None
            },
            DataValue::UINT8(s) => if s.len() > 0 {
                Some(s[0])
            } else {
                None
            },
            DataValue::CHAR(s) => {
                let b: &[u8] = s.as_str().as_bytes();
                if b.len() > 0 {
                    Some(b[0])
                } else {
                    None
                }
            },
            _ => None,
        }
    }
}

impl FirstOf for u16 {
    open spec fn spec_first(v: DataModel) -> Option<u16> {
        match v {
            DataModel::U16(s) => if s.len() > 0 {
                Some(s[0])
            } else {
                None
            },
            _ => None,
        }
    }

    fn first_of(v: &DataValue) -> (r: Option<u16>) {
        match v {
            DataValue::UINT16(s) => if s.len() > 0 {
                Some(s[0])
            } else {
                None
            },
            _ => None,
        }
    }
}

impl FirstOf for u32 {
    open spec fn spec_first(v: DataModel) -> Option<u32> {
        match v {
            DataModel::U32(s) => if s.len() > 0 {
                Some(s[0])
            } else {
                None
            },
            _ => None,
        }
    }

    fn first_of(v: &DataValue) -> (r: Option<u32>) {
        match v {
            DataValue::UINT32(s) => if s.len() > 0 {
                Some(s[0])
            } else {
                None
            },
            _ => None,
        }
    }
}

impl FirstOf for u64 {
    open spec fn spec_first(v: DataModel) -> Option<u64> {
        match v {
            DataModel::U64(s) => if s.len() > 0 {
                Some(s[0])
            } else {
                None
            },
            _ => None,
        }
    }

    fn first_of(v: &DataValue) -> (r: Option<u64>) {
        match v {
            DataValue::UINT64(s) => if s.len() > 0 {
                Some(s[0])
            } else {
                None
            },
            _ => None,
        }
    }
}

impl FirstOf for i16 {
    open spec fn spec_first(v: DataModel) -> Option<i16> {
        match v {
            DataModel::I16(s) => if s.len() > 0 {
                Some(s[0])
            } else {
                None
            },
            _ => None,
        }
    }

    fn first_of(v: &DataValue) -> (r: Option<i16>) {
        match v {
            DataValue::INT16(s) => if s.len() > 0 {
                Some(s[0])
            } else {
                None
            },
            _ => None,
        }
    }
}

impl FirstOf for i32 {
    open spec fn spec_first(v: DataModel) -> Option<i32> {
        match v {
            DataModel::I32(s) => if s.len() > 0 {
                Some(s[0])
            } else {
                None
            },
            _ => None,
        }
    }

    fn first_of(v: &DataValue) -> (r: Option<i32>) {
        match v {
            DataValue::INT32(s) => if s.len() > 0 {
                Some(s[0])
            } else {
                None
            },
            _ => None,
        }
    }
}

impl FirstOf for i64 {
    open spec fn spec_first(v: DataModel) -> Option<i64> {
        match v {
            DataModel::I64(s) => if s.len() > 0 {
                Some(s[0])
            } else {
                None
            },
            _ => None,
        }
    }

    fn first_of(v: &DataValue) -> (r: Option<i64>) {
        match v {
            DataValue::INT64(s) => if s.len() > 0 {
                Some(s[0])
            } else {
                None
            },
            _ => None,
        }
    }
}

/// The first element of the field named `k` among `data`, as a `T`.
pub open spec fn first_in<T: FirstOf>(data: Seq<(Seq<char>, DataModel)>, k: Seq<char>) -> Option<
    T,
> {
    match lookup(data, k) {
        Some(v) => T::spec_first(v),
        None => None,
    }
}

/// What one parse of a block gives: its tag, its links in file order, its
/// data fields by name, and its links by name.
#[derive(Debug)]
pub struct BlockInfo {
    pub links: Vec<u64>,
    pub data: IndexMap<String, DataValue>,
    pub id: String,
    link_map: IndexMap<String, LinkAddr>,
}

/// What a `BlockInfo` holds.
pub struct BlockModel {
    pub id: Seq<char>,
    pub links: Seq<u64>,
    pub data: Seq<(Seq<char>, DataModel)>,
    pub link_map: Seq<(Seq<char>, LinkModel)>,
}

impl View for BlockInfo {
    type V = BlockModel;

    closed spec fn view(&self) -> BlockModel {
        BlockModel {
            id: self.id@,
            links: self.links@,
            data: data_entries(self.data),
            link_map: link_entries(self.link_map),
        }
    }
}

/// The single address entered under `k`, if `k` names one.
pub open spec fn normal_link(links: Seq<(Seq<char>, LinkModel)>, k: Seq<char>) -> Option<u64> {
    match lookup(links, k) {
        Some(LinkModel::Normal(x)) => Some(x),
        _ => None,
    }
}

/// The run of addresses entered under `k`, if `k` names one.
pub open spec fn variable_link(links: Seq<(Seq<char>, LinkModel)>, k: Seq<char>) -> Option<
    Seq<u64>,
> {
    match lookup(links, k) {
        Some(LinkModel::Variable(s)) => Some(s),
        _ => None,
    }
}

impl BlockInfo {
    /// The block's links, in file order.
    pub fn get_links(&self) -> (r: &Vec<u64>)
        ensures
            r@ == self@.links,
    {
        &self.links
    }

    /// The address of the link named `link_name`, where that link is a
    /// single one.
    pub fn get_link_offset_normal(&self, link_name: &str) -> (r: Option<u64>)
        ensures
            r == normal_link(self@.link_map, link_name@),
    {
        match link_map_get(&self.link_map, link_name) {
            Some(LinkAddr::Normal(x)) => Some(*x),
            _ => None,
        }
    }

    /// The addresses of the link named `link_name`, where that link is a
    /// run of links.
    pub fn get_link_offset_vec(&self, link_name: &str) -> (r: Option<Vec<u64>>)
        ensures
            match r {
                Some(v) => variable_link(self@.link_map, link_name@) == Some(v@),
                None => variable_link(self@.link_map, link_name@) is None,
            },
    {
        match link_map_get(&self.link_map, link_name) {
            Some(LinkAddr::Variable(v)) => Some(v.clone()),
            _ => None,
        }
    }

    /// The data field named `data_name`.
    pub fn get_data_value(&self, data_name: &str) -> (r: Option<&DataValue>)
        ensures
            match r {
                Some(v) => lookup(self@.data, data_name@) == Some(v@),
                None => lookup(self@.data, data_name@) is None,
            },
    {
        data_map_get(&self.data, data_name)
    }

    /// A copy of the data field named `data_name`.
    pub fn get_data_value_copy(&self, data_name: &str) -> (r: Option<DataValue>)
        ensures
            match r {
                Some(v) => {
                    &&& lookup(self@.data, data_name@) is Some
                    &&& holds_model(lookup(self@.data, data_name@)->0, v)
                },
                None => lookup(self@.data, data_name@) is None,
            },
    {
        match data_map_get(&self.data, data_name) {
            Some(v) => {
                let c = clone_value(v);
                Some(c)
            },
            None => None,
        }
    }

    /// The first element of the data field named `data_name`, where the
    /// field holds elements of the type asked for.
    pub fn get_data_value_first<T: FirstOf>(&self, data_name: &str) -> (r: Option<T>)
        ensures
            r == first_in::<T>(self@.data, data_name@),
    {
        match data_map_get(&self.data, data_name) {
            Some(v) => T::first_of(v),
            None => None,
        }
    }

    /// The block's tag.
    pub fn get_id(&self) -> (r: &String)
        ensures
            r@ == self@.id,
    {
        &self.id
    }
}

// ---------------------------------------------------------------------------
// Where a block lies in the file
// ---------------------------------------------------------------------------

/// The length that the block at `off` declares, header included.
pub open spec fn block_len_at(file: Seq<u8>, off: int) -> int {
    le_u64(file.subrange(off + 8, off + 16))
}

/// The number of links that the block at `off` declares.
pub open spec fn link_count_at(file: Seq<u8>, off: int) -> int {
    le_u64(file.subrange(off + 16, off + 24))
}

/// Whether the file holds, at `off`, a header and all the bytes that the
/// header announces.
pub open spec fn block_readable(file: Seq<u8>, off: int) -> bool {
    &&& 0 <= off
    &&& off + 24 <= file.len()
    &&& 24 <= block_len_at(file, off)
    &&& off + block_len_at(file, off) <= file.len()
}

/// The bytes of the block at `off` that follow its header.
pub open spec fn payload_at(file: Seq<u8>, off: int) -> Seq<u8> {
    file.subrange(off + 24, off + block_len_at(file, off))
}

// ---------------------------------------------------------------------------
// What a schema makes of a payload
// ---------------------------------------------------------------------------

/// The position reached and the fields read once the first `k` fields of a
/// schema have been read from `payload`, starting at `start`; or the error
/// of the first field that cannot be read.
pub open spec fn fields_upto(
    fields: Seq<(Seq<char>, BlockField)>,
    payload: Seq<u8>,
    start: int,
    k: nat,
) -> Result<(int, Seq<(Seq<char>, DataModel)>), MdfError>
    decreases k,
{
    if k == 0 {
        Ok((start, Seq::empty()))
    } else {
        match fields_upto(fields, payload, start, (k - 1) as nat) {
            Err(e) => Err(e),
            Ok((pos, entries)) => {
                let f = fields[k - 1];
                let rest = payload.subrange(pos, payload.len() as int);
                match f.1.spec_parse_error(rest) {
                    Some(e) => Err(e),
                    None => Ok(
                        (
                            pos + f.1.spec_bytes(rest.len() as int),
                            entries_inserted(entries, f.0, f.1.spec_value(rest)),
                        ),
                    ),
                }
            },
        }
    }
}

/// The named links once the first `k` names of a schema are each bound to
/// the link in the same place.
pub open spec fn bind_fixed(
    entries: Seq<(Seq<char>, LinkModel)>,
    names: Seq<Seq<char>>,
    links: Seq<u64>,
    k: nat,
) -> Seq<(Seq<char>, LinkModel)>
    decreases k,
{
    if k == 0 {
        entries
    } else {
        entries_inserted(
            bind_fixed(entries, names, links, (k - 1) as nat),
            names[k - 1],
            LinkModel::Normal(links[k - 1]),
        )
    }
}

/// The named links, and the next free place, once a run of `count` links
/// from place `start` on is bound to `name`. No links: nothing is bound.
pub open spec fn bind_tail(
    entries: Seq<(Seq<char>, LinkModel)>,
    links: Seq<u64>,
    start: int,
    count: int,
    name: Seq<char>,
) -> Result<(Seq<(Seq<char>, LinkModel)>, int), MdfError> {
    if count <= 0 {
        Ok((entries, start))
    } else if start + count > links.len() {
        Err(MdfError::LinkCountMismatch)
    } else {
        Ok(
            (
                entries_inserted(
                    entries,
                    name,
                    LinkModel::Variable(links.subrange(start, start + count)),
                ),
                start + count,
            ),
        )
    }
}

/// The first element of the field named `k`, or why there is none: the
/// field is missing, or it does not hold elements of the type asked for.
pub open spec fn first_or<T: FirstOf>(data: Seq<(Seq<char>, DataModel)>, k: Seq<char>) -> Result<
    T,
    MdfError,
> {
    match lookup(data, k) {
        None => Err(MdfError::SchemaMissing),
        Some(v) => match T::spec_first(v) {
            Some(x) => Ok(x),
            None => Err(MdfError::UnsupportedDataType),
        },
    }
}

/// The number of links in the run of default-axis links of a channel block
/// with the given flags: three where bit 12 is set.
pub open spec fn default_x_count(flags: u32) -> int {
    if flags & 0x1000 == 0x1000 {
        3
    } else {
        0
    }
}

/// The named links of a block after its links are bound by the names of its
/// schema. A channel block binds, behind the fixed names, its attachments
/// and its default-axis links; a conversion block its references; array and
/// list blocks are not bound.
#[verifier::opaque]
pub open spec fn spec_bind(block: BlockModel, names: Option<Seq<Seq<char>>>) -> Result<
    Seq<(Seq<char>, LinkModel)>,
    MdfError,
> {
    if block.id == "##CA"@ || block.id == "##LD"@ {
        Err(MdfError::NotImplemented)
    } else {
        match names {
            None => Err(MdfError::SchemaMissing),
            Some(names) => {
                if block.id == "##CN"@ {
                    match first_or::<u16>(block.data, "cn_attachment_count"@) {
                        Err(e) => Err(e),
                        Ok(att) => match first_or::<u32>(block.data, "cn_flags"@) {
                            Err(e) => Err(e),
                            Ok(flags) => {
                                if names.len() > block.links.len() {
                                    Err(MdfError::LinkCountMismatch)
                                } else {
                                    let e0 = bind_fixed(
                                        block.link_map,
                                        names,
                                        block.links,
                                        names.len(),
                                    );
                                    match bind_tail(
                                        e0,
                                        block.links,
                                        names.len() as int,
                                        att as int,
                                        "cn_attachment_first"@,
                                    ) {
                                        Err(e) => Err(e),
                                        Ok((e1, next)) => match bind_tail(
                                            e1,
                                            block.links,
                                            next,
                                            default_x_count(flags),
                                            "cn_default_x"@,
                                        ) {
                                            Err(e) => Err(e),
                                            Ok((e2, _)) => Ok(e2),
                                        },
                                    }
                                }
                            },
                        },
                    }
                } else if block.id == "##CC"@ {
                    match first_or::<u16>(block.data, "cc_ref_count"@) {
                        Err(e) => Err(e),
                        Ok(refs) => {
                            if names.len() > block.links.len() {
                                Err(MdfError::LinkCountMismatch)
                            } else {
                                let e0 = bind_fixed(
                                    block.link_map,
                                    names,
                                    block.links,
                                    names.len(),
                                );
                                match bind_tail(
                                    e0,
                                    block.links,
                                    names.len() as int,
                                    refs as int,
                                    "cc_ref"@,
                                ) {
                                    Err(e) => Err(e),
                                    Ok((e1, _)) => Ok(e1),
                                }
                            }
                        },
                    }
                } else {
                    let k = if names.len() <= block.links.len() {
                        names.len()
                    } else {
                        block.links.len()
                    };
                    Ok(bind_fixed(block.link_map, names, block.links, k))
                }
            },
        }
    }
}

/// Whether the bytes are those of `id` in UTF-8.
fn same_bytes(a: &[u8], b: &[u8]) -> (r: bool)
    ensures
        r == (a@ == b@),
{
    if a.len() != b.len() {
        return false;
    }
    let n: usize = a.len();
    let mut i: usize = 0;
    while i < n
        invariant
            i <= n,
            n == a@.len(),
            n == b@.len(),
            forall|j: int| 0 <= j < i ==> a@[j] == b@[j],
        decreases n - i,
    {
        if a[i] != b[i] {
            return false;
        }
        i += 1;
    }
    assert(a@ =~= b@);
    true
}

fn copy_links(links: &Vec<u64>, start: usize, count: usize) -> (v: Vec<u64>)
    requires
        start + count <= links@.len(),
    ensures
        v@ == links@.subrange(start as int, start + count),
{
    let len: usize = links.len();
    let mut v: Vec<u64> = Vec::new();
    let mut i: usize = 0;
    while i < count
        invariant
            i <= count,
            start + count <= len,
            len == links@.len(),
            v@.len() == i,
            forall|j: int| 0 <= j < i ==> v@[j] == links@[start + j],
        decreases count - i,
    {
        v.push(links[start + i]);
        i += 1;
    }
    assert(v@ =~= links@.subrange(start as int, start + count));
    v
}

/// The schema of one kind of block: its tag, the names of its links in file
/// order with the kinds of block each may point to, and its data fields in
/// file order.
#[derive(Debug)]
pub struct BlockDesc {
    id: String,
    implemented: Option<bool>,
    link: Option<Vec<(String, Vec<String>)>>,
    data: Option<Vec<(String, BlockField)>>,
}

impl BlockDesc {
    /// A schema from its parts. `link` and `data` are `None` where the
    /// description holds no table of that name.
    pub fn new(
        id: String,
        implemented: Option<bool>,
        link: Option<Vec<(String, Vec<String>)>>,
        data: Option<Vec<(String, BlockField)>>,
    ) -> (d: Self)
        ensures
            d.spec_id() == id@,
            d.spec_implemented() == implemented,
            d.spec_link() == link,
            d.spec_data() == data,
    {
        BlockDesc { id, implemented, link, data }
    }

    /// The tag, such as `##CN`.
    pub closed spec fn spec_id(&self) -> Seq<char> {
        self.id@
    }

    /// Whether the schema says that the block is implemented.
    pub closed spec fn spec_implemented(&self) -> Option<bool> {
        self.implemented
    }

    /// The table of links.
    pub closed spec fn spec_link(&self) -> Option<Vec<(String, Vec<String>)>> {
        self.link
    }

    /// The table of data fields.
    pub closed spec fn spec_data(&self) -> Option<Vec<(String, BlockField)>> {
        self.data
    }

    /// The names of the links, in file order.
    pub open spec fn spec_link_names(&self) -> Option<Seq<Seq<char>>> {
        match self.spec_link() {
            Some(v) => Some(Seq::new(v@.len(), |i: int| v@[i].0@)),
            None => None,
        }
    }

    /// The data fields with their names, in file order. A schema without a
    /// table of data fields has none.
    pub open spec fn spec_fields(&self) -> Seq<(Seq<char>, BlockField)> {
        match self.spec_data() {
            Some(v) => Seq::new(v@.len(), |i: int| (v@[i].0@, v@[i].1)),
            None => Seq::empty(),
        }
    }

    /// The names of the data fields, in file order.
    pub fn get_data_fields(&self) -> (r: Option<Vec<&String>>)
        ensures
            r is Some <==> self.spec_data() is Some,
            r is Some ==> r->0@.len() == self.spec_fields().len(),
            r is Some ==> forall|i: int|
                0 <= i < r->0@.len() ==> (#[trigger] r->0@[i])@ == self.spec_fields()[i].0,
    {
        match &self.data {
            Some(table) => {
                let mut names: Vec<&String> = Vec::new();
                let mut i: usize = 0;
                while i < table.len()
                    invariant
                        i <= table@.len(),
                        names@.len() == i,
                        forall|j: int| 0 <= j < i ==> (#[trigger] names@[j])@ == table@[j].0@,
                    decreases table@.len() - i,
                {
                    names.push(&table[i].0);
                    i += 1;
                }
                Some(names)
            },
            None => None,
        }
    }

    /// The names of the links, in file order.
    pub fn get_link_fields(&self) -> (r: Option<Vec<&String>>)
        ensures
            r is Some <==> self.spec_link_names() is Some,
            r is Some ==> r->0@.len() == self.spec_link_names()->0.len(),
            r is Some ==> forall|i: int|
                0 <= i < r->0@.len() ==> (#[trigger] r->0@[i])@ == self.spec_link_names()->0[i],
    {
        match &self.link {
            Some(table) => {
                let mut names: Vec<&String> = Vec::new();
                let mut i: usize = 0;
                while i < table.len()
                    invariant
                        i <= table@.len(),
                        names@.len() == i,
                        forall|j: int| 0 <= j < i ==> (#[trigger] names@[j])@ == table@[j].0@,
                    decreases table@.len() - i,
                {
                    names.push(&table[i].0);
                    i += 1;
                }
                Some(names)
            },
            None => None,
        }
    }

    /// Whether the block is implemented: so, unless the schema says not.
    pub fn is_implemented(&self) -> (r: bool)
        ensures
            r == (self.spec_implemented() != Some(false)),
    {
        match self.implemented {
            Some(implemented) => implemented,
            None => true,
        }
    }

    /// Whether `id` holds the bytes of this schema's tag.
    pub fn check_id(&self, id: &[u8]) -> (r: bool)
        ensures
            r == (id@ == encode_utf8(self.spec_id())),
    {
        let own: &[u8] = self.id.as_str().as_bytes();
        same_bytes(own, id)
    }

    /// The data field named `field_name`.
    pub fn get_data_field(&self, field_name: &str) -> (r: Option<BlockField>)
        ensures
            r == lookup(self.spec_fields(), field_name@),
    {
        match &self.data {
            Some(table) => {
                let mut i: usize = 0;
                while i < table.len()
                    invariant
                        i <= table@.len(),
                        self.spec_data() == Some(*table),
                        key_index(self.spec_fields().subrange(0, i as int), field_name@) is None,
                    decreases table@.len() - i,
                {
                    proof {
                        let whole = self.spec_fields();
                        assert(whole.subrange(0, i + 1).drop_last() =~= whole.subrange(0, i as int));
                    }
                    if str_eq(table[i].0.as_str(), field_name) {
                        proof {
                            let whole = self.spec_fields();
                            lemma_key_index_prefix(whole, field_name@, i + 1);
                        }
                        return Some(table[i].1);
                    }
                    i += 1;
                }
                proof {
                    let whole = self.spec_fields();
                    assert(whole.subrange(0, i as int) =~= whole);
                }
                None
            },
            None => {
                None
            },
        }
    }
}

/// After a value is entered under a name that was there, the name is found
/// in the same place, with the new value.
pub proof fn lemma_key_index_update<V>(e: Seq<(Seq<char>, V)>, k: Seq<char>, v: V)
    requires
        key_index(e, k) is Some,
    ensures
        key_index(entries_inserted(e, k, v), k) == key_index(e, k),
        lookup(entries_inserted(e, k, v), k) == Some(v),
    decreases e.len(),
{
    lemma_key_index_bounds(e, k);
    let i = key_index(e, k)->0;
    let after = e.update(i, (e[i].0, v));
    if i < e.len() - 1 {
        lemma_key_index_update(e.drop_last(), k, v);
        assert(after.drop_last() =~= e.drop_last().update(i, (e[i].0, v)));
    } else {
        assert(after.drop_last() =~= e.drop_last());
    }
}

/// A place found among the first `n` entries is the place found among all.
pub proof fn lemma_key_index_prefix<V>(e: Seq<(Seq<char>, V)>, k: Seq<char>, n: int)
    requires
        0 <= n <= e.len(),
        key_index(e.subrange(0, n), k) is Some,
    ensures
        key_index(e, k) == key_index(e.subrange(0, n), k),
    decreases e.len() - n,
{
    if n < e.len() {
        assert(e.subrange(0, n + 1).drop_last() =~= e.subrange(0, n));
        lemma_key_index_prefix(e, k, n + 1);
    } else {
        assert(e.subrange(0, n) =~= e);
    }
}

impl BlockDesc {
    /// The kinds of block that the link named `link_name` may point to.
    pub fn get_link_block_type(&self, link_name: &str) -> (r: Option<Vec<String>>)
        ensures
            r is Some <==> self.spec_link_names() is Some && key_index(
                self.spec_link_targets(),
                link_name@,
            ) is Some,
            r is Some ==> r->0.deep_view() == lookup(self.spec_link_targets(), link_name@)->0,
    {
        match &self.link {
            Some(table) => {
                let mut i: usize = 0;
                while i < table.len()
                    invariant
                        i <= table@.len(),
                        self.spec_link() == Some(*table),
                        key_index(self.spec_link_targets().subrange(0, i as int), link_name@) is None,
                    decreases table@.len() - i,
                {
                    proof {
                        let whole = self.spec_link_targets();
                        assert(whole.subrange(0, i + 1).drop_last() =~= whole.subrange(0, i as int));
                    }
                    if str_eq(table[i].0.as_str(), link_name) {
                        proof {
                            let whole = self.spec_link_targets();
                            lemma_key_index_prefix(whole, link_name@, i + 1);
                        }
                        let kinds: Vec<String> = crate::data_serde::clone_strings(&table[i].1);
                        return Some(kinds);
                    }
                    i += 1;
                }
                proof {
                    let whole = self.spec_link_targets();
                    assert(whole.subrange(0, i as int) =~= whole);
                }
                None
            },
            None => {
                None
            },
        }
    }

    /// The links with the kinds of block each may point to, in file order.
    pub open spec fn spec_link_targets(&self) -> Seq<(Seq<char>, Seq<Seq<char>>)> {
        match self.spec_link() {
            Some(v) => Seq::new(v@.len(), |i: int| (v@[i].0@, v@[i].1.deep_view())),
            None => Seq::empty(),
        }
    }

    /// What reading the block at `offset` by this schema gives: the header
    /// is checked, the links are taken, then each data field in turn, and
    /// last the links are bound to their names. Array and list blocks keep
    /// their links unbound.
    #[verifier::opaque]
    pub open spec fn spec_parse(&self, file: Seq<u8>, offset: u64) -> Result<BlockModel, MdfError> {
        let off = offset as int;
        if off + 4 > file.len() {
            Err(MdfError::IoError)
        } else if file.subrange(off, off + 4) != encode_utf8(self.spec_id()) {
            Err(MdfError::BadBlockId)
        } else if !block_readable(file, off) {
            Err(MdfError::IoError)
        } else {
            let payload = payload_at(file, off);
            let n = link_count_at(file, off);
            if 8 * n > payload.len() {
                Err(MdfError::IoError)
            } else {
                let links = u64s_le(payload, n as nat);
                let fields = self.spec_fields();
                match fields_upto(fields, payload, 8 * n, fields.len()) {
                    Err(e) => Err(e),
                    Ok((_, data)) => {
                        let before = BlockModel {
                            id: self.spec_id(),
                            links,
                            data,
                            link_map: Seq::empty(),
                        };
                        match spec_bind(before, self.spec_link_names()) {
                            Ok(bound) => Ok(BlockModel { link_map: bound, ..before }),
                            Err(MdfError::NotImplemented) => Ok(before),
                            Err(e) => Err(e),
                        }
                    },
                }
            }
        }
    }

    /// Reads the block at `offset` of the file by this schema.
    #[verifier::loop_isolation(false)]
    pub fn try_parse_buf(&self, file: &[u8], offset: u64) -> (r: Result<BlockInfo, MdfError>)
        ensures
            match r {
                Ok(info) => self.spec_parse(file@, offset) == Ok::<BlockModel, MdfError>(info@),
                Err(e) => self.spec_parse(file@, offset) == Err::<BlockModel, MdfError>(e),
            },
    {
        reveal(BlockDesc::spec_parse);
        let flen: usize = file.len();
        if offset > flen as u64 || flen as u64 - offset < 4 {
            return Err(MdfError::IoError);
        }
        let off: usize = offset as usize;
        if !self.check_id(&file[off..off + 4]) {
            return Err(MdfError::BadBlockId);
        }
        if flen - off < 24 {
            return Err(MdfError::IoError);
        }
        let blk_len: u64 = read_u64_le(&file[off + 8..off + 16]);
        let link_count: u64 = read_u64_le(&file[off + 16..off + 24]);
        if blk_len < 24 || blk_len > (flen - off) as u64 {
            return Err(MdfError::IoError);
        }
        let payload: &[u8] = &file[off + 24..off + blk_len as usize];
        assert(payload@ == payload_at(file@, off as int));
        let plen: usize = payload.len();
        if link_count > (plen / 8) as u64 {
            return Err(MdfError::IoError);
        }
        let links: Vec<u64> = read_u64s(payload, link_count as usize);
        let mut cur = ByteCursor { buf: payload, pos: 8 * (link_count as usize) };
        let mut data: IndexMap<String, DataValue> = data_map_new();
        let ghost fields = self.spec_fields();
        match &self.data {
            Some(table) => {
                let mut i: usize = 0;
                while i < table.len()
                    invariant
                        i <= table@.len(),
                        self.spec_data() == Some(*table),
                        fields == self.spec_fields(),
                        cur.wf(),
                        cur.buf@ == payload@,
                        fields_upto(fields, payload@, 8 * link_count, i as nat) == Ok::<
                            (int, Seq<(Seq<char>, DataModel)>),
                            MdfError,
                        >((cur.pos as int, data_entries(data))),
                    decreases table@.len() - i,
                {
                    let field: BlockField = table[i].1;
                    let ghost before_pos = cur.pos as int;
                    let ghost before_entries = data_entries(data);
                    proof {
                        assert(fields[i as int] == (table@[i as int].0@, table@[i as int].1));
                        assert(cur.rest() == payload@.subrange(cur.pos as int, payload@.len() as int));
                        assert(fields_upto(fields, payload@, 8 * link_count, i as nat) == Ok::<
                            (int, Seq<(Seq<char>, DataModel)>),
                            MdfError,
                        >((before_pos, before_entries)));
                    }
                    match field.try_parse_value(&mut cur) {
                        Ok(value) => {
                            data_map_insert(&mut data, table[i].0.clone(), value);
                        },
                        Err(e) => {
                            proof {
                                assert(fields_upto(fields, payload@, 8 * link_count, (i + 1) as nat)
                                    == Err::<(int, Seq<(Seq<char>, DataModel)>), MdfError>(e));
                                lemma_fields_upto_err(
                                    fields,
                                    payload@,
                                    8 * link_count,
                                    (i + 1) as nat,
                                    fields.len(),
                                );
                            }
                            return Err(e);
                        },
                    }
                    i += 1;
                }
            },
            None => {},
        }
        let mut info = BlockInfo { links, data, id: self.id.clone(), link_map: link_map_new() };
        match info.map_links(self) {
            Ok(()) => Ok(info),
            Err(MdfError::NotImplemented) => Ok(info),
            Err(e) => Err(e),
        }
    }
}

/// Once a field cannot be read, none of the later ones changes the error.
pub proof fn lemma_fields_upto_err(
    fields: Seq<(Seq<char>, BlockField)>,
    payload: Seq<u8>,
    start: int,
    k: nat,
    n: nat,
)
    requires
        k <= n,
        fields_upto(fields, payload, start, k) is Err,
    ensures
        fields_upto(fields, payload, start, n) == fields_upto(fields, payload, start, k),
    decreases n - k,
{
    if k < n {
        lemma_fields_upto_err(fields, payload, start, k, (n - 1) as nat);
    }
}

impl BlockInfo {
    /// Binds the block's links to the names that the schema `desc` gives
    /// them. On an error nothing is bound.
    pub fn map_links(&mut self, desc: &BlockDesc) -> (r: Result<(), MdfError>)
        ensures
            final(self)@.id == old(self)@.id,
            final(self)@.links == old(self)@.links,
            final(self)@.data == old(self)@.data,
            match r {
                Ok(()) => spec_bind(old(self)@, desc.spec_link_names()) == Ok::<
                    Seq<(Seq<char>, LinkModel)>,
                    MdfError,
                >(final(self)@.link_map),
                Err(e) => {
                    &&& spec_bind(old(self)@, desc.spec_link_names()) == Err::<
                        Seq<(Seq<char>, LinkModel)>,
                        MdfError,
                    >(e)
                    &&& final(self)@.link_map == old(self)@.link_map
                },
            },
    {
        reveal(spec_bind);
        if str_eq(self.id.as_str(), "##CA") || str_eq(self.id.as_str(), "##LD") {
            return Err(MdfError::NotImplemented);
        }
        let names: Vec<&String> = match desc.get_link_fields() {
            Some(names) => names,
            None => {
                return Err(MdfError::SchemaMissing);
            },
        };
        let ghost spec_names = desc.spec_link_names()->0;
        let n_links: usize = self.links.len();
        let n_names: usize = names.len();
        if str_eq(self.id.as_str(), "##CN") {
            let att: u16 = match self.first_or_error::<u16>("cn_attachment_count") {
                Ok(x) => x,
                Err(e) => {
                    return Err(e);
                },
            };
            let flags: u32 = match self.first_or_error::<u32>("cn_flags") {
                Ok(x) => x,
                Err(e) => {
                    return Err(e);
                },
            };
            let default_x: usize = if flags & 0x1000 == 0x1000 {
                3
            } else {
                0
            };
            if n_names > n_links {
                return Err(MdfError::LinkCountMismatch);
            }
            if att as usize > n_links - n_names {
                return Err(MdfError::LinkCountMismatch);
            }
            let next: usize = n_names + att as usize;
            if default_x > n_links - next {
                return Err(MdfError::LinkCountMismatch);
            }
            self.bind_first(&names, n_names, Ghost(spec_names));
            self.bind_run(n_names, att as usize, "cn_attachment_first");
            self.bind_run(next, default_x, "cn_default_x");
            Ok(())
        } else if str_eq(self.id.as_str(), "##CC") {
            let refs: u16 = match self.first_or_error::<u16>("cc_ref_count") {
                Ok(x) => x,
                Err(e) => {
                    return Err(e);
                },
            };
            if n_names > n_links {
                return Err(MdfError::LinkCountMismatch);
            }
            if refs as usize > n_links - n_names {
                return Err(MdfError::LinkCountMismatch);
            }
            self.bind_first(&names, n_names, Ghost(spec_names));
            self.bind_run(n_names, refs as usize, "cc_ref");
            Ok(())
        } else {
            let k: usize = if n_names <= n_links {
                n_names
            } else {
                n_links
            };
            self.bind_first(&names, k, Ghost(spec_names));
            Ok(())
        }
    }

    /// The first element of the data field named `name`, or why there is
    /// none.
    pub fn first_or_error<T: FirstOf>(&self, name: &str) -> (r: Result<T, MdfError>)
        ensures
            r == first_or::<T>(self@.data, name@),
    {
        match data_map_get(&self.data, name) {
            None => Err(MdfError::SchemaMissing),
            Some(v) => match T::first_of(v) {
                Some(x) => Ok(x),
                None => Err(MdfError::UnsupportedDataType),
            },
        }
    }

    fn bind_first(&mut self, names: &Vec<&String>, k: usize, Ghost(spec_names): Ghost<Seq<Seq<char>>>)
        requires
            k <= names@.len(),
            k <= old(self)@.links.len(),
            names@.len() == spec_names.len(),
            forall|i: int| 0 <= i < names@.len() ==> (#[trigger] names@[i])@ == spec_names[i],
        ensures
            final(self)@.id == old(self)@.id,
            final(self)@.links == old(self)@.links,
            final(self)@.data == old(self)@.data,
            final(self)@.link_map == bind_fixed(
                old(self)@.link_map,
                spec_names,
                old(self)@.links,
                k as nat,
            ),
    {
        let mut i: usize = 0;
        while i < k
            invariant
                i <= k,
                k <= names@.len(),
                k <= self@.links.len(),
                names@.len() == spec_names.len(),
                forall|j: int| 0 <= j < names@.len() ==> (#[trigger] names@[j])@ == spec_names[j],
                self@.id == old(self)@.id,
                self@.links == old(self)@.links,
                self@.data == old(self)@.data,
                self@.link_map == bind_fixed(
                    old(self)@.link_map,
                    spec_names,
                    old(self)@.links,
                    i as nat,
                ),
            decreases k - i,
        {
            let addr: u64 = self.links[i];
            let name: String = names[i].clone();
            link_map_insert(&mut self.link_map, name, LinkAddr::Normal(addr));
            i += 1;
        }
    }

    fn bind_run(&mut self, start: usize, count: usize, name: &str)
        requires
            start + count <= old(self)@.links.len(),
        ensures
            final(self)@.id == old(self)@.id,
            final(self)@.links == old(self)@.links,
            final(self)@.data == old(self)@.data,
            bind_tail(old(self)@.link_map, old(self)@.links, start as int, count as int, name@)
                == Ok::<(Seq<(Seq<char>, LinkModel)>, int), MdfError>(
                (final(self)@.link_map, start + count),
            ),
    {
        if count > 0 {
            let run: Vec<u64> = copy_links(&self.links, start, count);
            link_map_insert(&mut self.link_map, name.to_owned(), LinkAddr::Variable(run));
        }
    }
}

// ---------------------------------------------------------------------------
// What holds of every parsed block
// ---------------------------------------------------------------------------

/// A block that parses carries the tag of its schema and as many links as
/// its header declares.
pub proof fn lemma_parsed_links(desc: BlockDesc, file: Seq<u8>, offset: u64)
    requires
        desc.spec_parse(file, offset) is Ok,
    ensures
        desc.spec_parse(file, offset)->Ok_0.id == desc.spec_id(),
        desc.spec_parse(file, offset)->Ok_0.links.len() == link_count_at(file, offset as int),
        block_readable(file, offset as int),
        8 * link_count_at(file, offset as int) <= payload_at(file, offset as int).len(),
{
    reveal(BlockDesc::spec_parse);
}

/// A field with a declared size takes exactly that many elements of the
/// width of its type, whatever follows it; a field without one takes as
/// many whole elements as are left.
pub proof fn lemma_field_bytes(f: BlockField, remaining: int)
    requires
        remaining >= 0,
    ensures
        f.spec_size() is Some ==> f.spec_bytes(remaining) == f.spec_size()->0
            * f.spec_data_type().spec_width(),
        f.spec_size() is None ==> remaining - f.spec_data_type().spec_width() < f.spec_bytes(
            remaining,
        ) <= remaining,
{
    let w = f.spec_data_type().spec_width();
    if f.spec_size() is None {
        assert(remaining - w < (remaining / w) * w <= remaining) by (nonlinear_arith)
            requires
                w > 0,
                remaining >= 0,
        ;
    }
}

/// Reading the fields of a schema one after the other, each field starts
/// where the one before it ended, and ends as many bytes further on as the
/// field takes.
pub proof fn lemma_field_advance(
    fields: Seq<(Seq<char>, BlockField)>,
    payload: Seq<u8>,
    start: int,
    k: nat,
)
    requires
        fields_upto(fields, payload, start, k + 1) is Ok,
    ensures
        fields_upto(fields, payload, start, k) is Ok,
        ({
            let before = fields_upto(fields, payload, start, k)->Ok_0.0;
            let after = fields_upto(fields, payload, start, k + 1)->Ok_0.0;
            let rest = payload.subrange(before, payload.len() as int);
            after == before + fields[k as int].1.spec_bytes(rest.len() as int)
        }),
{
}

} // verus!
