//! Elements as they are stored, and the constants that hold them.

#[allow(unused_imports)]
use crate::bits::{as_usize, narrowed, of_int, ONE, ZERO};
#[allow(unused_imports)]
use crate::ops::constant::{constant_of_shape_step, constant_step, sizes_from};
#[allow(unused_imports)]
use crate::proto::{
    attribute_at, fill_of, floats_of, long_word, values_of, values_with, word, AttributeDef,
    NodeDef, TensorDef,
};
#[allow(unused_imports)]
use crate::shape::{bounded_product, known_dims, lemma_bounded_product, product, Dim};
#[allow(unused_imports)]
use crate::state::{Outcome, State};
#[allow(unused_imports)]
use crate::values::{lemma_number_of_int, number};
use vstd::prelude::*;

verus! {

/// Byte `k` of the two's complement of a whole number, the least significant one first.
pub open spec fn byte_of(v: int, k: nat) -> int
    decreases k,
{
    if k == 0 {
        v % 0x100
    } else {
        byte_of(v / 0x100, (k - 1) as nat)
    }
}

/// Whether the `width` bytes from `at` on are those of a whole number.
pub open spec fn spells(raw: Seq<u8>, at: int, v: int, width: nat) -> bool {
    forall|k: int| 0 <= k < width ==> #[trigger] raw[at + k] == byte_of(v, k as nat)
}

/// Four bytes and the whole number that they spell.
proof fn lemma_four_bytes(raw: Seq<u8>, at: int, v: int)
    requires
        spells(raw, at, v, 4),
    ensures
        word(raw, at) == v % 0x1_0000_0000,
{
    reveal_with_fuel(byte_of, 5);
    assert(raw[at + 0] == byte_of(v, 0));
    assert(raw[at + 1] == byte_of(v, 1));
    assert(raw[at + 2] == byte_of(v, 2));
    assert(raw[at + 3] == byte_of(v, 3));
    let a = v / 0x100;
    let b = a / 0x100;
    let c = b / 0x100;
    let d = c / 0x100;
    assert(v == 0x100 * a + v % 0x100);
    assert(a == 0x100 * b + a % 0x100);
    assert(b == 0x100 * c + b % 0x100);
    assert(c == 0x100 * d + c % 0x100);
    let low = v % 0x100 + 0x100 * (a % 0x100) + 0x1_0000 * (b % 0x100) + 0x100_0000 * (c % 0x100);
    assert(v == 0x1_0000_0000 * d + low);
    assert(0 <= low < 0x1_0000_0000);
}

/// Eight bytes and the whole number that they spell.
proof fn lemma_eight_bytes(raw: Seq<u8>, at: int, v: int)
    requires
        spells(raw, at, v, 8),
    ensures
        long_word(raw, at) == v % 0x1_0000_0000_0000_0000,
{
    reveal_with_fuel(byte_of, 9);
    let a = v / 0x100;
    let b = a / 0x100;
    let c = b / 0x100;
    let d = c / 0x100;
    assert(spells(raw, at, v, 4)) by {
        assert forall|k: int| 0 <= k < 4 implies #[trigger] raw[at + k] == byte_of(v, k as nat) by {
            assert(raw[at + k] == byte_of(v, k as nat));
        }
    }
    assert(spells(raw, at + 4, d, 4)) by {
        assert forall|k: int| 0 <= k < 4 implies #[trigger] raw[at + 4 + k] == byte_of(
            d,
            k as nat,
        ) by {
            assert(raw[at + (4 + k)] == byte_of(v, (4 + k) as nat));
        }
    }
    lemma_four_bytes(raw, at, v);
    lemma_four_bytes(raw, at + 4, d);
    assert(v == 0x100 * a + v % 0x100);
    assert(a == 0x100 * b + a % 0x100);
    assert(b == 0x100 * c + b % 0x100);
    assert(c == 0x100 * d + c % 0x100);
    let low = v % 0x1_0000_0000;
    assert(v == 0x1_0000_0000 * d + low) by {
        let l = v % 0x100 + 0x100 * (a % 0x100) + 0x1_0000 * (b % 0x100) + 0x100_0000 * (c % 0x100);
        assert(v == 0x1_0000_0000 * d + l);
        assert(0 <= l < 0x1_0000_0000);
    }
    let e = d / 0x1_0000_0000;
    let f = d % 0x1_0000_0000;
    assert(d == 0x1_0000_0000 * e + f);
    let whole = low + 0x1_0000_0000 * f;
    assert(v == 0x1_0000_0000_0000_0000 * e + whole);
    assert(0 <= whole < 0x1_0000_0000_0000_0000);
}

/// A tensor of 64-bit whole numbers whose bytes spell them, one after the other, has the
/// single-precision numbers that are nearest to them, negative ones included; and so
/// has one that lists them.
pub proof fn law_values_of_long_whole_numbers(t: TensorDef, raw: Seq<u8>, v: Seq<i64>)
    requires
        t.data_type == 7,
        if t.int64_data@.len() > 0 {
            t.int64_data@ == v
        } else {
            &&& raw.len() == 8 * v.len()
            &&& forall|i: int| 0 <= i < v.len() ==> spells(raw, 8 * i, #[trigger] v[i] as int, 8)
        },
    ensures
        values_with(t, raw) == Some(Seq::new(v.len(), |i: int| of_int(v[i] as int))),
{
    let wanted = Seq::new(v.len(), |i: int| of_int(v[i] as int));
    if t.int64_data@.len() == 0 {
        assert forall|i: int| 0 <= i < v.len() implies values_with(t, raw)->0[i] == wanted[i] by {
            assert(spells(raw, 8 * i, v[i] as int, 8));
            lemma_eight_bytes(raw, 8 * i, v[i] as int);
        }
    }
    assert(values_with(t, raw)->0 =~= wanted);
}

/// A tensor of 32-bit whole numbers whose bytes spell them, or that lists them.
pub proof fn law_values_of_whole_numbers(t: TensorDef, raw: Seq<u8>, v: Seq<i32>)
    requires
        t.data_type == 6,
        if t.int32_data@.len() > 0 {
            t.int32_data@ == v
        } else {
            &&& raw.len() == 4 * v.len()
            &&& forall|i: int| 0 <= i < v.len() ==> spells(raw, 4 * i, #[trigger] v[i] as int, 4)
        },
    ensures
        values_with(t, raw) == Some(Seq::new(v.len(), |i: int| of_int(v[i] as int))),
{
    let wanted = Seq::new(v.len(), |i: int| of_int(v[i] as int));
    if t.int32_data@.len() == 0 {
        assert forall|i: int| 0 <= i < v.len() implies values_with(t, raw)->0[i] == wanted[i] by {
            assert(spells(raw, 4 * i, v[i] as int, 4));
            lemma_four_bytes(raw, 4 * i, v[i] as int);
        }
    }
    assert(values_with(t, raw)->0 =~= wanted);
}

/// A tensor of single-precision numbers whose bytes spell their bits, or that lists
/// them, has these bits.
pub proof fn law_values_of_singles(t: TensorDef, raw: Seq<u8>, bits: Seq<u32>)
    requires
        t.data_type == 1,
        if t.float_data@.len() > 0 {
            t.float_data@ == bits
        } else {
            &&& raw.len() == 4 * bits.len()
            &&& forall|i: int|
                0 <= i < bits.len() ==> spells(raw, 4 * i, #[trigger] bits[i] as int, 4)
        },
    ensures
        values_with(t, raw) == Some(bits),
{
    if t.float_data@.len() == 0 {
        assert forall|i: int| 0 <= i < bits.len() implies values_with(t, raw)->0[i] == bits[i] by {
            assert(spells(raw, 4 * i, bits[i] as int, 4));
            lemma_four_bytes(raw, 4 * i, bits[i] as int);
        }
    }
    assert(values_with(t, raw)->0 =~= bits);
}

/// A tensor of double-precision numbers whose bytes spell their bits, or that lists
/// them, has the single-precision numbers that they are rounded to.
pub proof fn law_values_of_doubles(t: TensorDef, raw: Seq<u8>, bits: Seq<u64>)
    requires
        t.data_type == 11,
        if t.double_data@.len() > 0 {
            t.double_data@ == bits
        } else {
            &&& raw.len() == 8 * bits.len()
            &&& forall|i: int|
                0 <= i < bits.len() ==> spells(raw, 8 * i, #[trigger] bits[i] as int, 8)
        },
    ensures
        values_with(t, raw) == Some(Seq::new(bits.len(), |i: int| narrowed(bits[i]))),
{
    let wanted = Seq::new(bits.len(), |i: int| narrowed(bits[i]));
    if t.double_data@.len() == 0 {
        assert forall|i: int| 0 <= i < bits.len() implies values_with(t, raw)->0[i]
            == wanted[i] by {
            assert(spells(raw, 8 * i, bits[i] as int, 8));
            lemma_eight_bytes(raw, 8 * i, bits[i] as int);
        }
    }
    assert(values_with(t, raw)->0 =~= wanted);
}

/// A tensor of truth values has 1 for each byte, or listed number, that is not 0, and
/// 0 for the others.
pub proof fn law_values_of_truths(t: TensorDef, raw: Seq<u8>, i: int)
    requires
        t.data_type == 9,
        0 <= i < if t.int32_data@.len() > 0 {
            t.int32_data@.len()
        } else {
            raw.len()
        },
    ensures
        values_with(t, raw) is Some,
        ({
            let v = values_with(t, raw)->0;
            if t.int32_data@.len() > 0 {
                &&& v.len() == t.int32_data@.len()
                &&& v[i] == if t.int32_data@[i] == 0 {
                    ZERO
                } else {
                    ONE
                }
            } else {
                &&& v.len() == raw.len()
                &&& v[i] == if raw[i] == 0 {
                    ZERO
                } else {
                    ONE
                }
            }
        }),
{
}

/// The elements of an initializer are those that its bytes in a file spell, or those
/// in the model, and the same bytes give the same elements in both places.
pub proof fn law_values_in_files(t: TensorDef, u: TensorDef)
    requires
        t.data_location == 1,
        u.data_location != 1,
        t.data_type == u.data_type,
        t.float_data == u.float_data,
        t.int32_data == u.int32_data,
        t.int64_data == u.int64_data,
        t.double_data == u.double_data,
        values_of(u) is Some,
        values_of(u)->0.len() > 0,
    ensures
        floats_of(t, Some(u.raw_data@)) == floats_of(u, None),
        floats_of(u, None) == values_of(u),
        floats_of(t, None) is None,
{
}

/// The attribute of a name is the first one that has it.
pub proof fn law_attribute_of_a_name(
    node: NodeDef,
    name: Seq<char>,
    i: int,
    default: i64,
    other: u32,
)
    requires
        0 <= i <= node.attribute@.len(),
        forall|k: int| 0 <= k < i ==> (#[trigger] node.attribute@[k]).name@ != name,
        i < node.attribute@.len() ==> node.attribute@[i].name@ == name,
    ensures
        if i < node.attribute@.len() {
            &&& node.attr(name) == Some(node.attribute@[i])
            &&& node.int_attr(name, default) == node.attribute@[i].i
            &&& node.float_attr(name, other) == node.attribute@[i].f
        } else {
            &&& node.attr(name) is None
            &&& node.int_attr(name, default) == default
            &&& node.float_attr(name, other) == other
        },
{
    lemma_attribute_at(node.attribute@, name, 0, i);
}

proof fn lemma_attribute_at(attributes: Seq<AttributeDef>, name: Seq<char>, from: int, i: int)
    requires
        0 <= from <= i <= attributes.len(),
        forall|k: int| 0 <= k < i ==> (#[trigger] attributes[k]).name@ != name,
        i < attributes.len() ==> attributes[i].name@ == name,
    ensures
        attribute_at(attributes, name, from) == if i < attributes.len() {
            Some(i)
        } else {
            None
        },
    decreases i - from,
{
    if from < i {
        assert(attributes[from].name@ != name);
        lemma_attribute_at(attributes, name, from + 1, i);
    }
}

/// A Constant node whose attribute `value` is a tensor of a type that can be read is
/// done. Its output has the sizes of the tensor, one of the size 1 if it has none, and
/// the elements of the tensor, known and as data.
pub proof fn law_constant_node(
    node: NodeDef,
    before: State,
    after: State,
    result: Outcome,
    value: TensorDef,
    v: Seq<u32>,
)
    requires
        constant_step(node, before, after, result),
        node.output@.len() == 1,
        node.attr("value"@) is Some,
        node.attr("value"@)->0.t == Some(value),
        values_with(value, value.raw_data@) == Some(v),
    ensures
        result is Done,
        after.known == before.known.insert(node.out(0), v),
        after.weights == before.weights.push((node.out(0), v)),
        after.env[node.out(0)].dims() == if value.dims@.len() == 0 {
            seq![Dim::Known(1)]
        } else {
            Seq::new(value.dims@.len(), |i: int| Dim::Known(value.dims@[i] as usize))
        },
{
    let dims = after.env[node.out(0)].dims();
    if value.dims@.len() == 0 {
        assert(dims =~= seq![Dim::Known(1)]);
    } else {
        assert(dims =~= Seq::new(
            value.dims@.len(),
            |i: int| Dim::Known(value.dims@[i] as usize),
        ));
    }
}

/// A Constant node of 64-bit whole numbers of at most 24 bits, in whatever way they are
/// stored, has these numbers.
pub proof fn law_constant_of_whole_numbers(
    node: NodeDef,
    before: State,
    after: State,
    result: Outcome,
    value: TensorDef,
    v: Seq<i64>,
    i: int,
)
    requires
        constant_step(node, before, after, result),
        node.output@.len() == 1,
        node.attr("value"@) is Some,
        node.attr("value"@)->0.t == Some(value),
        value.data_type == 7,
        if value.int64_data@.len() > 0 {
            value.int64_data@ == v
        } else {
            &&& value.raw_data@.len() == 8 * v.len()
            &&& forall|k: int|
                0 <= k < v.len() ==> spells(value.raw_data@, 8 * k, #[trigger] v[k] as int, 8)
        },
        0 <= i < v.len(),
        -0x100_0000 <= v[i] <= 0x100_0000,
    ensures
        result is Done,
        after.known[node.out(0)].len() == v.len(),
        number(after.known[node.out(0)][i]) == v[i] as real,
{
    law_values_of_long_whole_numbers(value, value.raw_data@, v);
    lemma_number_of_int(v[i] as int);
}

/// The number that a tensor gives to fill another one with is its first element.
pub proof fn law_fill_is_first_element(t: TensorDef)
    requires
        t.data_type == 1 || t.data_type == 6 || t.data_type == 7 || t.data_type == 11,
        values_with(t, t.raw_data@) is Some,
        values_with(t, t.raw_data@)->0.len() > 0,
    ensures
        fill_of(t) == Some(values_with(t, t.raw_data@)->0[0]),
{
}

/// A ConstantOfShape node whose input is known is done. Its output has the sizes that
/// are known of the input, and as many elements as they say, known and as data, which
/// are all the number that the attribute `value` gives, 0 if it gives none.
pub proof fn law_constant_of_shape_node(
    node: NodeDef,
    before: State,
    after: State,
    result: Outcome,
    fill: u32,
)
    requires
        constant_of_shape_step(node, before, after, result),
        node.input@.len() == 1,
        node.output@.len() == 1,
        before.known.contains_key(node.inp(0)),
        bounded_product(
            Seq::new(
                before.known[node.inp(0)].len(),
                |i: int| as_usize(before.known[node.inp(0)][i]),
            ),
        ) is Some,
        if node.attr("value"@) is Some && node.attr("value"@)->0.t is Some {
            fill_of(node.attr("value"@)->0.t->0) == Some(fill)
        } else {
            fill == ZERO
        },
    ensures
        result is Done,
        ({
            let lengths = Seq::new(
                before.known[node.inp(0)].len(),
                |i: int| as_usize(before.known[node.inp(0)][i]),
            );
            let v = after.known[node.out(0)];
            &&& after.env[node.out(0)].dims() == known_dims(lengths)
            &&& v.len() == product(lengths)
            &&& forall|i: int| 0 <= i < v.len() ==> #[trigger] v[i] == fill
            &&& after.weights == before.weights.push((node.out(0), v))
        }),
{
    let lengths = Seq::new(
        before.known[node.inp(0)].len(),
        |i: int| as_usize(before.known[node.inp(0)][i]),
    );
    assert(sizes_from(before.known[node.inp(0)]) =~= lengths);
    lemma_bounded_product(lengths);
}

} // verus!
