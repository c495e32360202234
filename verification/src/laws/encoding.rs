//! The numbers in the encoding of models, the messages and groups that are nested in it,
//! and numbers in decimal.

#[allow(unused_imports)]
use crate::names::{decimal, decimal_value};
#[allow(unused_imports)]
use crate::wire::{is_shallow, number_at, number_from, scan, Kind};
use vstd::prelude::*;

verus! {

/// A number in groups of seven bits, the lowest first, each in a byte whose highest bit
/// says whether another one follows.
pub open spec fn encoded(n: nat) -> Seq<u8>
    decreases n,
{
    if n < 0x80 {
        seq![n as u8]
    } else {
        seq![(n % 0x80 + 0x80) as u8] + encoded(n / 0x80)
    }
}

/// 128 to the power `count`.
pub open spec fn unit_of(count: nat) -> nat
    decreases count,
{
    if count == 0 {
        1
    } else {
        0x80 * unit_of((count - 1) as nat)
    }
}

/// Whether some bytes hold others from a position on.
pub open spec fn holds_at(bytes: Seq<u8>, at: int, part: Seq<u8>) -> bool {
    &&& 0 <= at
    &&& at + part.len() <= bytes.len()
    &&& forall|i: int| 0 <= i < part.len() ==> #[trigger] bytes[at + i] == part[i]
}

proof fn lemma_units(count: nat)
    ensures
        count >= 10 ==> unit_of(count) >= 0x1_0000_0000_0000_0000,
        unit_of(9) == 0x8000_0000_0000_0000,
    decreases count,
{
    reveal_with_fuel(unit_of, 12);
    assert(unit_of(9) == 0x8000_0000_0000_0000);
    assert(unit_of(10) == 0x80 * unit_of(9));
    if count > 10 {
        lemma_units((count - 1) as nat);
    }
}

proof fn lemma_number(bytes: Seq<u8>, at: int, end: int, count: nat, so_far: nat, n: nat)
    requires
        holds_at(bytes, at, encoded(n)),
        at + encoded(n).len() <= end <= bytes.len(),
        n * unit_of(count) < 0x1_0000_0000_0000_0000,
        count == 0 || n > 0,
    ensures
        number_from(bytes, at, end, count, so_far, unit_of(count)) == Some(
            (so_far + n * unit_of(count), at + encoded(n).len()),
        ),
    decreases n,
{
    let unit = unit_of(count);
    lemma_units(count);
    let part = encoded(n);
    assert(part.len() > 0);
    assert(bytes[at + 0] == part[0]);
    if count >= 10 {
        assert(n * unit >= unit) by (nonlinear_arith)
            requires
                n >= 1,
        ;
    }
    if count == 9 {
        assert(n < 2) by (nonlinear_arith)
            requires
                n * unit < 0x1_0000_0000_0000_0000,
                unit == 0x8000_0000_0000_0000,
        ;
    }
    if n >= 0x80 {
        let rest = n / 0x80;
        let low = n % 0x80;
        let tail = encoded(rest);
        assert(unit_of(count + 1) == 0x80 * unit);
        assert(low * unit + rest * (0x80 * unit) == n * unit && rest * (0x80 * unit) <= n * unit)
            by (nonlinear_arith)
            requires
                n == 0x80 * rest + low,
        ;
        assert(holds_at(bytes, at + 1, tail)) by {
            assert forall|i: int| 0 <= i < tail.len() implies #[trigger] bytes[at + 1 + i]
                == tail[i] by {
                assert(bytes[at + (i + 1)] == part[i + 1]);
            }
        }
        lemma_number(bytes, at + 1, end, count + 1, so_far + low * unit, rest);
        assert(unit * 0x80 == 0x80 * unit);
    }
}

/// A number of at most 64 bits is read back from the bytes that encode it, whatever comes
/// before and behind them.
pub proof fn law_numbers_are_read_back(bytes: Seq<u8>, at: int, end: int, n: nat)
    requires
        holds_at(bytes, at, encoded(n)),
        at + encoded(n).len() <= end <= bytes.len(),
        n < 0x1_0000_0000_0000_0000,
    ensures
        number_at(bytes, at, end) == Some((n, at + encoded(n).len())),
{
    assert(unit_of(0) == 1);
    assert(n * 1 == n);
    lemma_number(bytes, at, end, 0, 0, n);
}

/// As many groups as are said, each within the one before.
pub open spec fn nested_groups(count: nat) -> Seq<u8> {
    Seq::new(
        2 * count,
        |i: int|
            if i < count {
                0x0b
            } else {
                0x0c
            },
    )
}

proof fn lemma_tag(bytes: Seq<u8>, at: int, n: nat)
    requires
        0 <= at < bytes.len(),
        n < 0x80,
        bytes[at] == n,
    ensures
        number_at(bytes, at, bytes.len() as int) == Some((n, at + 1)),
{
    assert(encoded(n) =~= seq![n as u8]);
    assert(holds_at(bytes, at, encoded(n))) by {
        assert forall|i: int| 0 <= i < encoded(n).len() implies #[trigger] bytes[at + i] == encoded(
            n,
        )[i] by {}
    }
    law_numbers_are_read_back(bytes, at, bytes.len() as int, n);
}

proof fn lemma_ends(count: nat, i: int)
    requires
        0 <= i <= count,
    ensures
        scan(
            Kind::Model,
            nested_groups(count),
            count + i,
            2 * count as int,
            (count - i) as nat,
            0,
        ) is Clear,
    decreases count - i,
{
    if i < count {
        lemma_tag(nested_groups(count), count + i, 0x0c);
        lemma_ends(count, i + 1);
    }
}

proof fn lemma_starts(count: nat, i: int)
    requires
        0 <= i <= count,
        i <= 100,
    ensures
        count > 100 <==> scan(
            Kind::Model,
            nested_groups(count),
            i,
            2 * count as int,
            i as nat,
            0,
        ) is Deep,
    decreases count - i,
{
    if i < count {
        lemma_tag(nested_groups(count), i, 0x0b);
        if i < 100 {
            lemma_starts(count, i + 1);
        }
    } else {
        lemma_ends(count, 0);
    }
}

/// Groups may be nested a hundred deep, and not more.
pub proof fn law_depth_of_groups(count: nat)
    ensures
        is_shallow(nested_groups(count)) == (count <= 100),
{
    lemma_starts(count, 0);
}

/// The message that a field holds, by the number of the field.
pub open spec fn message_in(kind: Kind, field: u32) -> Option<Kind> {
    match (kind, field) {
        (Kind::Model, 7) => Some(Kind::Graph),
        (Kind::Model, 20) => Some(Kind::TrainingInfo),
        (Kind::Model, 25) => Some(Kind::Function),
        (Kind::TrainingInfo, 1) => Some(Kind::Graph),
        (Kind::TrainingInfo, 2) => Some(Kind::Graph),
        (Kind::Function, 7) => Some(Kind::Node),
        (Kind::Function, 11) => Some(Kind::Attribute),
        (Kind::Function, 12) => Some(Kind::Value),
        (Kind::Graph, 1) => Some(Kind::Node),
        (Kind::Graph, 5) => Some(Kind::Tensor),
        (Kind::Graph, 11) => Some(Kind::Value),
        (Kind::Graph, 12) => Some(Kind::Value),
        (Kind::Graph, 13) => Some(Kind::Value),
        (Kind::Graph, 14) => Some(Kind::Annotation),
        (Kind::Graph, 15) => Some(Kind::SparseTensor),
        (Kind::Node, 5) => Some(Kind::Attribute),
        (Kind::Attribute, 5) => Some(Kind::Tensor),
        (Kind::Attribute, 6) => Some(Kind::Graph),
        (Kind::Attribute, 10) => Some(Kind::Tensor),
        (Kind::Attribute, 11) => Some(Kind::Graph),
        (Kind::Attribute, 14) => Some(Kind::Type),
        (Kind::Attribute, 15) => Some(Kind::Type),
        (Kind::Attribute, 22) => Some(Kind::SparseTensor),
        (Kind::Attribute, 23) => Some(Kind::SparseTensor),
        (Kind::SparseTensor, 1) => Some(Kind::Tensor),
        (Kind::SparseTensor, 2) => Some(Kind::Tensor),
        (Kind::Value, 2) => Some(Kind::Type),
        (Kind::Type, 1) => Some(Kind::TensorType),
        (Kind::Type, 4) => Some(Kind::ElementType),
        (Kind::Type, 5) => Some(Kind::MapType),
        (Kind::Type, 8) => Some(Kind::TensorType),
        (Kind::Type, 9) => Some(Kind::ElementType),
        (Kind::TensorType, 2) => Some(Kind::Shape),
        (Kind::ElementType, 1) => Some(Kind::Type),
        (Kind::MapType, 2) => Some(Kind::Type),
        (Kind::Model, 8) => Some(Kind::Leaf),
        (Kind::Model, 14) => Some(Kind::Leaf),
        (Kind::TrainingInfo, 3) => Some(Kind::Leaf),
        (Kind::TrainingInfo, 4) => Some(Kind::Leaf),
        (Kind::Function, 9) => Some(Kind::Leaf),
        (Kind::Function, 14) => Some(Kind::Leaf),
        (Kind::Graph, 16) => Some(Kind::Leaf),
        (Kind::Node, 9) => Some(Kind::Leaf),
        (Kind::Tensor, 3) => Some(Kind::Leaf),
        (Kind::Tensor, 13) => Some(Kind::Leaf),
        (Kind::Tensor, 16) => Some(Kind::Leaf),
        (Kind::Annotation, 2) => Some(Kind::Leaf),
        (Kind::Value, 4) => Some(Kind::Leaf),
        (Kind::Shape, 1) => Some(Kind::Leaf),
        _ => None,
    }
}

/// A group that is nested too deeply in the message of a field is so in the message that
/// has the field. The bytes of other fields are left alone, and what follows a field
/// is met as if it stood alone.
pub proof fn law_messages_in_fields(
    kind: Kind,
    field: u32,
    bytes: Seq<u8>,
    at: int,
    end: int,
    next: int,
    length: nat,
    start: int,
    level: nat,
)
    requires
        0 <= at < next < start,
        start + length <= end <= bytes.len(),
        level < 100,
        8 * field + 2 <= u32::MAX,
        number_at(bytes, at, end) == Some(((8 * field + 2) as nat, next)),
        number_at(bytes, next, end) == Some((length, start)),
    ensures
        ({
            let met = scan(kind, bytes, at, end, 0, level);
            let rest = scan(kind, bytes, start + length, end, 0, level);
            match message_in(kind, field) {
                Some(message) => {
                    let within = scan(message, bytes, start, start + length, 0, level + 1);
                    &&& within is Clear ==> met == rest
                    &&& !(within is Clear) ==> met == within
                },
                None => met == rest,
            }
        }),
{
    let tag = (8 * field + 2) as nat;
    assert(tag % 8 == 2);
}

/// A field of a number, of four or of eight bytes is passed over.
pub proof fn law_plain_fields(
    kind: Kind,
    field: u32,
    bytes: Seq<u8>,
    at: int,
    end: int,
    next: int,
    number: nat,
    rest: int,
    depth: nat,
    level: nat,
)
    requires
        0 <= at < next <= end <= bytes.len(),
        level <= 100,
    ensures
        ({
            let met = scan(kind, bytes, at, end, depth, level);
            &&& number_at(bytes, at, end) == Some(((8 * field + 1) as nat, next)) && 8 * field + 1
                <= u32::MAX && next + 8 <= end ==> met == scan(
                kind,
                bytes,
                next + 8,
                end,
                depth,
                level,
            )
            &&& number_at(bytes, at, end) == Some(((8 * field + 5) as nat, next)) && 8 * field + 5
                <= u32::MAX && next + 4 <= end ==> met == scan(
                kind,
                bytes,
                next + 4,
                end,
                depth,
                level,
            )
            &&& number_at(bytes, at, end) == Some(((8 * field) as nat, next)) && 8 * field
                <= u32::MAX && number_at(bytes, next, end) == Some((number, rest)) && next < rest
                <= end ==> met == scan(kind, bytes, rest, end, depth, level)
        }),
{
    assert((8 * field + 1) % 8 == 1 && (8 * field + 5) % 8 == 5 && (8 * field) % 8 == 0);
}

/// The digits from 0 to 9.
pub open spec fn ten_digits() -> Seq<char> {
    seq!['0', '1', '2', '3', '4', '5', '6', '7', '8', '9']
}

/// Behind the digits of a number, one more digit makes ten times the number and the
/// digit. A sign stands before the digits of negative numbers.
pub proof fn law_decimal_digits(n: nat, d: nat)
    requires
        d < 10,
    ensures
        decimal(d as int) == seq![ten_digits()[d as int]],
        n > 0 ==> decimal((10 * n + d) as int) == decimal(n as int).push(ten_digits()[d as int]),
        n > 0 ==> decimal(-n) == seq!['-'] + decimal(n as int),
{
    let m = (10 * n + d) as nat;
    assert(m / 10 == n && m % 10 == d);
}

/// One more digit behind the digits of a number is read as ten times the number and the
/// digit, if that has 64 bits at most, and nothing but digits is read.
pub proof fn law_decimal_is_read(text: Seq<char>, c: char, d: int)
    ensures
        0 <= d < 10 ==> decimal_value(seq![ten_digits()[d]]) == Some(d as u64),
        0 <= d < 10 && text.len() > 0 ==> decimal_value(text.push(ten_digits()[d])) == (
        match decimal_value(text) {
            Some(n) => if 10 * n + d < 0x1_0000_0000_0000_0000 {
                Some((10 * n + d) as u64)
            } else {
                None
            },
            None => None,
        }),
        !ten_digits().contains(c) ==> decimal_value(text.push(c)) is None,
        decimal_value(Seq::empty()) is None,
{
    if 0 <= d < 10 {
        let one = seq![ten_digits()[d]];
        assert(one.last() == ten_digits()[d] && one.len() == 1);
        assert(decimal_value(one) == Some(d as u64));
        let more = text.push(ten_digits()[d]);
        assert(more.drop_last() =~= text && more.last() == ten_digits()[d]);
    }
    let more = text.push(c);
    assert(more.drop_last() =~= text && more.last() == c);
    let all = ten_digits();
    assert(all[0] == '0' && all[1] == '1' && all[2] == '2' && all[3] == '3' && all[4] == '4');
    assert(all[5] == '5' && all[6] == '6' && all[7] == '7' && all[8] == '8' && all[9] == '9');
}

} // verus!
