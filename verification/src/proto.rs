//! The messages of an ONNX model, as far as the importer reads them, and the
//! numbers that they carry.

use crate::bits::{from_bool, from_i64, narrow};
#[allow(unused_imports)]
use crate::bits::{indicator, narrowed, of_int, ZERO};
use crate::names::read_decimal;
#[allow(unused_imports)]
use crate::names::decimal_value;
use vstd::prelude::*;

verus! {

/// A tensor whose elements are part of the model, or lie in a file beside it.
#[derive(Debug)]
pub struct TensorDef {
    pub name: String,
    pub dims: Vec<i64>,
    pub data_type: i32,
    /// The elements of a tensor of single-precision numbers, as bits.
    pub float_data: Vec<u32>,
    pub int32_data: Vec<i32>,
    pub int64_data: Vec<i64>,
    /// The elements of a tensor of double-precision numbers, as bits.
    pub double_data: Vec<u64>,
    /// The elements as bytes, the least significant first.
    pub raw_data: Vec<u8>,
    /// Where the elements are if they lie in a file: keys and values.
    pub external_data: Vec<(String, String)>,
    /// 1 if the elements lie in a file.
    pub data_location: i32,
}

/// A named setting of a node.
#[derive(Debug)]
pub struct AttributeDef {
    pub name: String,
    /// A single-precision number, as bits.
    pub f: u32,
    pub i: i64,
    pub ints: Vec<i64>,
    pub t: Option<TensorDef>,
}

/// An operation of the model.
#[derive(Debug)]
pub struct NodeDef {
    pub op_type: String,
    pub input: Vec<String>,
    pub output: Vec<String>,
    pub attribute: Vec<AttributeDef>,
}

/// An input or an output of the model.
#[derive(Debug)]
pub struct ValueDef {
    pub name: String,
    /// The sizes of the axes, where the model gives a shape; a size that the
    /// model leaves open is absent.
    pub shape: Option<Vec<Option<i64>>>,
}

/// The graph of a model.
#[derive(Debug)]
pub struct GraphDef {
    pub node: Vec<NodeDef>,
    pub initializer: Vec<TensorDef>,
    pub input: Vec<ValueDef>,
    pub output: Vec<ValueDef>,
}

/// A model.
#[derive(Debug)]
pub struct ModelDef {
    pub graph: GraphDef,
}

/// Whether a string holds a given text.
pub fn text_is(a: &String, b: &str) -> (same: bool)
    ensures
        same == (a@ == b@),
{
    let text: String = String::from_str(b);
    *a == text
}

/// The first position from `from` on of an attribute called `name`.
pub open spec fn attribute_at(attributes: Seq<AttributeDef>, name: Seq<char>, from: int) -> Option<
    int,
>
    decreases attributes.len() - from,
{
    if from < 0 || from >= attributes.len() {
        None
    } else if attributes[from].name@ == name {
        Some(from)
    } else {
        attribute_at(attributes, name, from + 1)
    }
}

impl NodeDef {
    /// The first attribute called `name`.
    pub open spec fn attr(self, name: Seq<char>) -> Option<AttributeDef> {
        match attribute_at(self.attribute@, name, 0) {
            None => None,
            Some(i) => Some(self.attribute@[i]),
        }
    }

    /// The whole number of the first attribute called `name`, or a default.
    pub open spec fn int_attr(self, name: Seq<char>, default: i64) -> i64 {
        match self.attr(name) {
            None => default,
            Some(a) => a.i,
        }
    }

    /// The bits of the number of the first attribute called `name`, or a
    /// default.
    pub open spec fn float_attr(self, name: Seq<char>, default: u32) -> u32 {
        match self.attr(name) {
            None => default,
            Some(a) => a.f,
        }
    }

    /// The name of input `i`.
    pub open spec fn inp(self, i: int) -> Seq<char> {
        self.input@[i]@
    }

    /// The name of output `i`.
    pub open spec fn out(self, i: int) -> Seq<char> {
        self.output@[i]@
    }

    /// Whether there is an input `i` and its name is not empty.
    pub open spec fn has_input(self, i: int) -> bool {
        i < self.input@.len() && self.inp(i).len() > 0
    }

    /// Whether there is an input `i` and its name is not empty.
    pub fn gives_input(&self, i: usize) -> (r: bool)
        ensures
            r == self.has_input(i as int),
    {
        i < self.input.len() && !self.input[i].as_str().is_empty()
    }
}

/// The first attribute called `name`.
pub fn find_attr<'a>(node: &'a NodeDef, name: &str) -> (found: Option<&'a AttributeDef>)
    ensures
        match found {
            Some(a) => node.attr(name@) == Some(*a),
            None => node.attr(name@) is None,
        },
{
    let mut i: usize = 0;
    while i < node.attribute.len()
        invariant
            i <= node.attribute.len(),
            attribute_at(node.attribute@, name@, 0) == attribute_at(
                node.attribute@,
                name@,
                i as int,
            ),
        decreases node.attribute.len() - i,
    {
        if text_is(&node.attribute[i].name, name) {
            return Some(&node.attribute[i]);
        }
        i = i + 1;
    }
    None
}

/// The whole number of the attribute called `name`, or a default.
pub fn get_int_attr(node: &NodeDef, name: &str, default: i64) -> (value: i64)
    ensures
        value == node.int_attr(name@, default),
{
    match find_attr(node, name) {
        Some(a) => a.i,
        None => default,
    }
}

/// The bits of the number of the attribute called `name`, or a default.
pub fn get_f32_attr(node: &NodeDef, name: &str, default: u32) -> (value: u32)
    ensures
        value == node.float_attr(name@, default),
{
    match find_attr(node, name) {
        Some(a) => a.f,
        None => default,
    }
}

/// The four bytes from `at` on, the least significant first.
pub open spec fn word(raw: Seq<u8>, at: int) -> u32 {
    (raw[at] + 0x100 * raw[at + 1] + 0x1_0000 * raw[at + 2] + 0x100_0000 * raw[at + 3]) as u32
}

/// The eight bytes from `at` on, the least significant first.
pub open spec fn long_word(raw: Seq<u8>, at: int) -> u64 {
    (word(raw, at) + 0x1_0000_0000 * word(raw, at + 4)) as u64
}

/// The whole number whose two's complement in 32 bits is `w`.
pub open spec fn signed_word(w: u32) -> int {
    if w >= 0x8000_0000 {
        w - 0x1_0000_0000
    } else {
        w as int
    }
}

/// The whole number whose two's complement in 64 bits is `w`.
pub open spec fn signed_long_word(w: u64) -> int {
    if w >= 0x8000_0000_0000_0000 {
        w - 0x1_0000_0000_0000_0000
    } else {
        w as int
    }
}

/// The elements of a tensor as the bits of single-precision numbers, if its
/// element type is one that the importer reads: single precision, 64-bit and
/// 32-bit whole numbers, truth values, and double precision. Elements that are
/// not given as numbers are spelled by the bytes `raw`.
pub open spec fn values_with(t: TensorDef, raw: Seq<u8>) -> Option<Seq<u32>> {
    if t.data_type == 1 {
        if t.float_data@.len() > 0 {
            Some(t.float_data@)
        } else {
            Some(Seq::new(raw.len() / 4, |i: int| word(raw, 4 * i)))
        }
    } else if t.data_type == 7 {
        if t.int64_data@.len() > 0 {
            Some(Seq::new(t.int64_data@.len(), |i: int| of_int(t.int64_data@[i] as int)))
        } else {
            Some(
                Seq::new(
                    raw.len() / 8,
                    |i: int| of_int(signed_long_word(long_word(raw, 8 * i))),
                ),
            )
        }
    } else if t.data_type == 6 {
        if t.int32_data@.len() > 0 {
            Some(Seq::new(t.int32_data@.len(), |i: int| of_int(t.int32_data@[i] as int)))
        } else {
            Some(Seq::new(raw.len() / 4, |i: int| of_int(signed_word(word(raw, 4 * i)))))
        }
    } else if t.data_type == 9 {
        if t.int32_data@.len() > 0 {
            Some(Seq::new(t.int32_data@.len(), |i: int| indicator(t.int32_data@[i] != 0)))
        } else {
            Some(Seq::new(raw.len(), |i: int| indicator(raw[i] != 0)))
        }
    } else if t.data_type == 11 {
        if t.double_data@.len() > 0 {
            Some(Seq::new(t.double_data@.len(), |i: int| narrowed(t.double_data@[i])))
        } else {
            Some(Seq::new(raw.len() / 8, |i: int| narrowed(long_word(raw, 8 * i))))
        }
    } else {
        None
    }
}

/// The elements of a tensor that are part of the model.
pub open spec fn values_of(t: TensorDef) -> Option<Seq<u32>> {
    values_with(t, t.raw_data@)
}

fn read_word(raw: &Vec<u8>, at: usize) -> (w: u32)
    requires
        at + 4 <= raw@.len(),
    ensures
        w == word(raw@, at as int),
{
    assert(at + 4 <= raw.len());
    raw[at] as u32 + 0x100 * (raw[at + 1] as u32) + 0x1_0000 * (raw[at + 2] as u32) + 0x100_0000 * (
    raw[at + 3] as u32)
}

fn read_long_word(raw: &Vec<u8>, at: usize) -> (w: u64)
    requires
        at + 8 <= raw@.len(),
    ensures
        w == long_word(raw@, at as int),
{
    assert(at + 8 <= raw.len());
    read_word(raw, at) as u64 + 0x1_0000_0000 * (read_word(raw, at + 4) as u64)
}

fn sign_word(w: u32) -> (v: i64)
    ensures
        v == signed_word(w),
{
    if w >= 0x8000_0000 {
        w as i64 - 0x1_0000_0000
    } else {
        w as i64
    }
}

fn sign_long_word(w: u64) -> (v: i64)
    ensures
        v == signed_long_word(w),
{
    if w >= 0x8000_0000_0000_0000 {
        (w - 0x8000_0000_0000_0000) as i64 - 0x4000_0000_0000_0000 - 0x4000_0000_0000_0000
    } else {
        w as i64
    }
}

/// How the elements of a tensor lie in its raw bytes.
#[derive(Clone, Copy, PartialEq, Eq, Structural)]
enum Layout {
    Single,
    Whole32,
    Whole64,
    Truth,
    Double,
}

impl Layout {
    spec fn width(self) -> nat {
        match self {
            Layout::Single => 4,
            Layout::Whole32 => 4,
            Layout::Whole64 => 8,
            Layout::Truth => 1,
            Layout::Double => 8,
        }
    }

    spec fn element(self, raw: Seq<u8>, at: int) -> u32 {
        match self {
            Layout::Single => word(raw, at),
            Layout::Whole32 => of_int(signed_word(word(raw, at))),
            Layout::Whole64 => of_int(signed_long_word(long_word(raw, at))),
            Layout::Truth => indicator(raw[at] != 0),
            Layout::Double => narrowed(long_word(raw, at)),
        }
    }
}

/// The element that starts at byte `at`.
fn read_element(raw: &Vec<u8>, at: usize, layout: Layout) -> (bits: u32)
    requires
        at + layout.width() <= raw@.len(),
    ensures
        bits == layout.element(raw@, at as int),
{
    match layout {
        Layout::Single => read_word(raw, at),
        Layout::Whole32 => from_i64(sign_word(read_word(raw, at))),
        Layout::Whole64 => from_i64(sign_long_word(read_long_word(raw, at))),
        Layout::Truth => from_bool(raw[at] != 0),
        Layout::Double => narrow(read_long_word(raw, at)),
    }
}

/// The elements in the raw bytes; bytes that are too few for one more element
/// are left out.
fn read_raw(raw: &Vec<u8>, layout: Layout) -> (values: Vec<u32>)
    ensures
        values@ == Seq::new(
            raw@.len() / layout.width(),
            |i: int| layout.element(raw@, layout.width() * i),
        ),
{
    let width: usize = match layout {
        Layout::Single => 4,
        Layout::Whole32 => 4,
        Layout::Whole64 => 8,
        Layout::Truth => 1,
        Layout::Double => 8,
    };
    let count: usize = raw.len() / width;
    let mut values: Vec<u32> = Vec::new();
    let mut i: usize = 0;
    while i < count
        invariant
            i <= count,
            width == layout.width(),
            width > 0,
            count == raw@.len() / layout.width(),
            values@.len() == i,
            forall|k: int|
                0 <= k < i ==> #[trigger] values@[k] == layout.element(
                    raw@,
                    layout.width() * k,
                ),
        decreases count - i,
    {
        assert(width * i + width <= raw@.len()) by (nonlinear_arith)
            requires
                i < count,
                count == raw@.len() / (width as nat),
                width > 0,
        ;
        assert(width * i + width <= raw.len());
        values.push(read_element(raw, width * i, layout));
        i = i + 1;
    }
    assert(values@ =~= Seq::new(
        raw@.len() / layout.width(),
        |i: int| layout.element(raw@, layout.width() * i),
    ));
    values
}

/// A copy of a vector of bits.
pub fn copy_bits(values: &Vec<u32>) -> (copy: Vec<u32>)
    ensures
        copy@ == values@,
{
    let mut copy: Vec<u32> = Vec::new();
    let mut i: usize = 0;
    while i < values.len()
        invariant
            i <= values.len(),
            copy@ == values@.subrange(0, i as int),
        decreases values.len() - i,
    {
        copy.push(values[i]);
        i = i + 1;
    }
    copy
}

fn from_i64s(data: &Vec<i64>) -> (values: Vec<u32>)
    ensures
        values@ == Seq::new(data@.len(), |i: int| of_int(data@[i] as int)),
{
    let mut values: Vec<u32> = Vec::new();
    let mut i: usize = 0;
    while i < data.len()
        invariant
            i <= data.len(),
            values@.len() == i,
            forall|k: int| 0 <= k < i ==> #[trigger] values@[k] == of_int(data@[k] as int),
        decreases data.len() - i,
    {
        values.push(from_i64(data[i]));
        i = i + 1;
    }
    assert(values@ =~= Seq::new(data@.len(), |i: int| of_int(data@[i] as int)));
    values
}

fn from_doubles(data: &Vec<u64>) -> (values: Vec<u32>)
    ensures
        values@ == Seq::new(data@.len(), |i: int| narrowed(data@[i])),
{
    let mut values: Vec<u32> = Vec::new();
    let mut i: usize = 0;
    while i < data.len()
        invariant
            i <= data.len(),
            values@.len() == i,
            forall|k: int| 0 <= k < i ==> #[trigger] values@[k] == narrowed(data@[k]),
        decreases data.len() - i,
    {
        values.push(narrow(data[i]));
        i = i + 1;
    }
    assert(values@ =~= Seq::new(data@.len(), |i: int| narrowed(data@[i])));
    values
}

fn from_i32s(data: &Vec<i32>) -> (values: Vec<u32>)
    ensures
        values@ == Seq::new(data@.len(), |i: int| of_int(data@[i] as int)),
{
    let mut values: Vec<u32> = Vec::new();
    let mut i: usize = 0;
    while i < data.len()
        invariant
            i <= data.len(),
            values@.len() == i,
            forall|k: int| 0 <= k < i ==> #[trigger] values@[k] == of_int(data@[k] as int),
        decreases data.len() - i,
    {
        values.push(from_i64(data[i] as i64));
        i = i + 1;
    }
    assert(values@ =~= Seq::new(data@.len(), |i: int| of_int(data@[i] as int)));
    values
}

fn from_truths(data: &Vec<i32>) -> (values: Vec<u32>)
    ensures
        values@ == Seq::new(data@.len(), |i: int| indicator(data@[i] != 0)),
{
    let mut values: Vec<u32> = Vec::new();
    let mut i: usize = 0;
    while i < data.len()
        invariant
            i <= data.len(),
            values@.len() == i,
            forall|k: int| 0 <= k < i ==> #[trigger] values@[k] == indicator(data@[k] != 0),
        decreases data.len() - i,
    {
        values.push(from_bool(data[i] != 0));
        i = i + 1;
    }
    assert(values@ =~= Seq::new(data@.len(), |i: int| indicator(data@[i] != 0)));
    values
}

/// The elements of a tensor as the bits of single-precision numbers, if its
/// element type is one that the importer reads.
pub fn read_values(t: &TensorDef, raw: &Vec<u8>) -> (values: Option<Vec<u32>>)
    ensures
        match values {
            Some(v) => values_with(*t, raw@) == Some(v@),
            None => values_with(*t, raw@) is None,
        },
{
    if t.data_type == 1 {
        if !t.float_data.is_empty() {
            Some(copy_bits(&t.float_data))
        } else {
            let values = read_raw(raw, Layout::Single);
            assert(values@ =~= values_with(*t, raw@)->0);
            Some(values)
        }
    } else if t.data_type == 7 {
        if !t.int64_data.is_empty() {
            Some(from_i64s(&t.int64_data))
        } else {
            let values = read_raw(raw, Layout::Whole64);
            assert(values@ =~= values_with(*t, raw@)->0);
            Some(values)
        }
    } else if t.data_type == 6 {
        if !t.int32_data.is_empty() {
            Some(from_i32s(&t.int32_data))
        } else {
            let values = read_raw(raw, Layout::Whole32);
            assert(values@ =~= values_with(*t, raw@)->0);
            Some(values)
        }
    } else if t.data_type == 9 {
        if !t.int32_data.is_empty() {
            Some(from_truths(&t.int32_data))
        } else {
            let values = read_raw(raw, Layout::Truth);
            assert(values@ =~= values_with(*t, raw@)->0);
            Some(values)
        }
    } else if t.data_type == 11 {
        if !t.double_data.is_empty() {
            Some(from_doubles(&t.double_data))
        } else {
            let values = read_raw(raw, Layout::Double);
            assert(values@ =~= values_with(*t, raw@)->0);
            Some(values)
        }
    } else {
        None
    }
}

/// The elements of a tensor that are part of the model.
pub fn tensor_values(t: &TensorDef) -> (values: Option<Vec<u32>>)
    ensures
        match values {
            Some(v) => values_of(*t) == Some(v@),
            None => values_of(*t) is None,
        },
{
    read_values(t, &t.raw_data)
}

/// The elements of a tensor that are part of the model, if there are any.
pub open spec fn inline_values(t: TensorDef) -> Option<Seq<u32>> {
    match values_of(t) {
        Some(v) => if v.len() > 0 {
            Some(v)
        } else {
            None
        },
        None => None,
    }
}

/// The elements of a tensor that are part of the model, if there are any.
pub fn load_initializer_as_f32(t: &TensorDef) -> (values: Option<Vec<u32>>)
    ensures
        match values {
            Some(v) => inline_values(*t) == Some(v@),
            None => inline_values(*t) is None,
        },
{
    match tensor_values(t) {
        Some(v) => {
            if v.len() > 0 {
                Some(v)
            } else {
                None
            }
        },
        None => None,
    }
}

/// Whether the elements of a tensor lie in a file.
pub open spec fn is_external(t: TensorDef) -> bool {
    t.data_location == 1
}

/// The elements of a tensor, where `stored` is what was read of the file that
/// they lie in, if they lie in one.
pub open spec fn floats_of(t: TensorDef, stored: Option<Seq<u8>>) -> Option<Seq<u32>> {
    if is_external(t) {
        match stored {
            Some(raw) => values_with(t, raw),
            None => None,
        }
    } else {
        inline_values(t)
    }
}

/// The elements of a tensor, in the model or in a file.
pub fn load_tensor_floats(t: &TensorDef, stored: &Option<Vec<u8>>) -> (values: Option<Vec<u32>>)
    ensures
        match values {
            Some(v) => floats_of(*t, stored_bytes(*stored)) == Some(v@),
            None => floats_of(*t, stored_bytes(*stored)) is None,
        },
{
    if t.data_location == 1 {
        match stored {
            Some(raw) => read_values(t, raw),
            None => None,
        }
    } else {
        load_initializer_as_f32(t)
    }
}

/// What was read of a file.
pub open spec fn stored_bytes(stored: Option<Vec<u8>>) -> Option<Seq<u8>> {
    match stored {
        Some(raw) => Some(raw@),
        None => None,
    }
}

/// The part of a file that holds the elements of a tensor.
#[derive(Debug)]
pub struct Location {
    /// The path of the file, from the directory of the model on.
    pub path: String,
    /// The position of the first byte.
    pub offset: u64,
    /// The number of bytes; all that follow, if it is not given.
    pub length: Option<u64>,
}

/// The value of the first entry called `key`, from entry `from` on.
pub open spec fn entry_value(entries: Seq<(String, String)>, key: Seq<char>, from: int) -> Option<
    Seq<char>,
>
    decreases entries.len() - from,
{
    if from < 0 || from >= entries.len() {
        None
    } else if entries[from].0@ == key {
        Some(entries[from].1@)
    } else {
        entry_value(entries, key, from + 1)
    }
}

fn find_entry<'a>(entries: &'a Vec<(String, String)>, key: &str) -> (found: Option<&'a String>)
    ensures
        match found {
            Some(value) => entry_value(entries@, key@, 0) == Some(value@),
            None => entry_value(entries@, key@, 0) is None,
        },
{
    let mut i: usize = 0;
    while i < entries.len()
        invariant
            i <= entries@.len(),
            entry_value(entries@, key@, 0) == entry_value(entries@, key@, i as int),
        decreases entries.len() - i,
    {
        if text_is(&entries[i].0, key) {
            return Some(&entries[i].1);
        }
        i = i + 1;
    }
    None
}

/// Where the elements of a tensor lie: the path, the position of the first byte
/// (0, if none is given) and the number of bytes.
pub open spec fn location_of(t: TensorDef) -> Option<(Seq<char>, u64, Option<u64>)> {
    let path = entry_value(t.external_data@, "location"@, 0);
    if !is_external(t) || path is None {
        None
    } else {
        let offset = match entry_value(t.external_data@, "offset"@, 0) {
            Some(text) => decimal_value(text),
            None => Some(0),
        };
        match offset {
            None => None,
            Some(start) => match entry_value(t.external_data@, "length"@, 0) {
                None => Some((path->0, start, None)),
                Some(text) => match decimal_value(text) {
                    None => None,
                    Some(length) => Some((path->0, start, Some(length))),
                },
            },
        }
    }
}

/// Where the elements of a tensor lie, if they lie in a file.
pub fn external_location(t: &TensorDef) -> (location: Option<Location>)
    ensures
        match location {
            Some(l) => location_of(*t) == Some((l.path@, l.offset, l.length)),
            None => location_of(*t) is None,
        },
{
    if t.data_location != 1 {
        return None;
    }
    let path = match find_entry(&t.external_data, "location") {
        Some(path) => path,
        None => {
            return None;
        },
    };
    let offset: u64 = match find_entry(&t.external_data, "offset") {
        Some(text) => match read_decimal(text.as_str()) {
            Some(offset) => offset,
            None => {
                return None;
            },
        },
        None => 0,
    };
    match find_entry(&t.external_data, "length") {
        Some(text) => match read_decimal(text.as_str()) {
            Some(length) => Some(Location { path: path.clone(), offset, length: Some(length) }),
            None => None,
        },
        None => Some(Location { path: path.clone(), offset, length: None }),
    }
}

/// The number that a tensor gives to fill another one with: its first element,
/// or 0 if it has none or is of another type. There is none if the tensor is of
/// single precision and its raw bytes break off within the first element.
pub open spec fn fill_of(t: TensorDef) -> Option<u32> {
    let raw = t.raw_data@;
    if t.data_type == 1 {
        if t.float_data@.len() > 0 {
            Some(t.float_data@[0])
        } else if raw.len() >= 4 {
            Some(word(raw, 0))
        } else if raw.len() == 0 {
            Some(ZERO)
        } else {
            None
        }
    } else if t.data_type == 7 {
        if t.int64_data@.len() > 0 {
            Some(of_int(t.int64_data@[0] as int))
        } else if raw.len() >= 8 {
            Some(of_int(signed_long_word(long_word(raw, 0))))
        } else {
            Some(ZERO)
        }
    } else if t.data_type == 6 {
        if t.int32_data@.len() > 0 {
            Some(of_int(t.int32_data@[0] as int))
        } else if raw.len() >= 4 {
            Some(of_int(signed_word(word(raw, 0))))
        } else {
            Some(ZERO)
        }
    } else if t.data_type == 11 && t.double_data@.len() > 0 {
        Some(narrowed(t.double_data@[0]))
    } else if t.data_type == 11 && raw.len() >= 8 {
        Some(narrowed(long_word(raw, 0)))
    } else {
        Some(ZERO)
    }
}

/// The number that a tensor gives to fill another one with.
pub fn fill_value(t: &TensorDef) -> (fill: Option<u32>)
    ensures
        fill == fill_of(*t),
{
    if t.data_type == 1 {
        if !t.float_data.is_empty() {
            Some(t.float_data[0])
        } else if t.raw_data.len() >= 4 {
            Some(read_word(&t.raw_data, 0))
        } else if t.raw_data.is_empty() {
            Some(ZERO)
        } else {
            None
        }
    } else if t.data_type == 7 {
        if !t.int64_data.is_empty() {
            Some(from_i64(t.int64_data[0]))
        } else if t.raw_data.len() >= 8 {
            Some(from_i64(sign_long_word(read_long_word(&t.raw_data, 0))))
        } else {
            Some(ZERO)
        }
    } else if t.data_type == 6 {
        if !t.int32_data.is_empty() {
            Some(from_i64(t.int32_data[0] as i64))
        } else if t.raw_data.len() >= 4 {
            Some(from_i64(sign_word(read_word(&t.raw_data, 0))))
        } else {
            Some(ZERO)
        }
    } else if t.data_type == 11 && !t.double_data.is_empty() {
        Some(narrow(t.double_data[0]))
    } else if t.data_type == 11 && t.raw_data.len() >= 8 {
        Some(narrow(read_long_word(&t.raw_data, 0)))
    } else {
        Some(ZERO)
    }
}

/// The sizes that the model gives for an input or an output: none if it gives
/// no shape or leaves a size open.
pub open spec fn shape_of(value: ValueDef) -> Seq<usize> {
    match value.shape {
        None => Seq::empty(),
        Some(dims) => if forall|i: int| 0 <= i < dims@.len() ==> (#[trigger] dims@[i]) is Some {
            Seq::new(dims@.len(), |i: int| dims@[i]->0 as usize)
        } else {
            Seq::empty()
        },
    }
}

/// The sizes that the model gives for an input or an output: none if it gives
/// no shape or leaves a size open.
pub fn get_shape_for_onnx_value(value: &ValueDef) -> (shape: Vec<usize>)
    ensures
        shape@ == shape_of(*value),
{
    let mut shape: Vec<usize> = Vec::new();
    match &value.shape {
        None => {},
        Some(dims) => {
            let mut i: usize = 0;
            while i < dims.len()
                invariant
                    i <= dims.len(),
                    shape@.len() == i,
                    value.shape == Some(*dims),
                    forall|k: int|
                        0 <= k < i ==> (#[trigger] dims@[k]) is Some && shape@[k]
                            == dims@[k]->0 as usize,
                decreases dims.len() - i,
            {
                match dims[i] {
                    Some(size) => {
                        shape.push(size as usize);
                    },
                    None => {
                        assert(!(dims@[i as int] is Some));
                        return Vec::new();
                    },
                }
                i = i + 1;
            }
        },
    }
    assert(shape@ =~= shape_of(*value));
    shape
}

/// The sizes of a tensor of the model.
pub open spec fn tensor_sizes(t: TensorDef) -> Seq<usize> {
    Seq::new(t.dims@.len(), |i: int| t.dims@[i] as usize)
}

/// The sizes of a tensor of the model.
pub fn sizes(t: &TensorDef) -> (sizes: Vec<usize>)
    ensures
        sizes@ == tensor_sizes(*t),
{
    let mut sizes: Vec<usize> = Vec::new();
    let mut i: usize = 0;
    while i < t.dims.len()
        invariant
            i <= t.dims.len(),
            sizes@.len() == i,
            forall|k: int| 0 <= k < i ==> #[trigger] sizes@[k] == t.dims@[k] as usize,
        decreases t.dims.len() - i,
    {
        sizes.push(t.dims[i] as usize);
        i = i + 1;
    }
    assert(sizes@ =~= tensor_sizes(*t));
    sizes
}

proof fn lemma_bytes_of_word(a: u8, b: u8, c: u8, d: u8, w: int)
    requires
        w == a + 0x100 * b + 0x1_0000 * c + 0x100_0000 * d,
    ensures
        w % 0x100 == a,
        w / 0x100 % 0x100 == b,
        w / 0x1_0000 % 0x100 == c,
        w / 0x100_0000 == d,
        0 <= w < 0x1_0000_0000,
{
}

/// The bits of a single-precision tensor are what its raw bytes spell.
pub proof fn law_raw_bytes_are_the_bits(t: TensorDef, i: int)
    requires
        t.data_type == 1,
        t.float_data@.len() == 0,
        0 <= i < t.raw_data@.len() / 4,
    ensures
        values_of(t) is Some,
        values_of(t)->0.len() == t.raw_data@.len() / 4,
        values_of(t)->0[i] % 0x100 == t.raw_data@[4 * i],
        values_of(t)->0[i] / 0x100 % 0x100 == t.raw_data@[4 * i + 1],
        values_of(t)->0[i] / 0x1_0000 % 0x100 == t.raw_data@[4 * i + 2],
        values_of(t)->0[i] / 0x100_0000 == t.raw_data@[4 * i + 3],
{
    let raw = t.raw_data@;
    let w = raw[4 * i] + 0x100 * raw[4 * i + 1] + 0x1_0000 * raw[4 * i + 2] + 0x100_0000 * raw[4 * i
        + 3];
    lemma_bytes_of_word(raw[4 * i], raw[4 * i + 1], raw[4 * i + 2], raw[4 * i + 3], w);
    assert(values_of(t)->0[i] == w);
}

} // verus!
