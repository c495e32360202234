//! The encoding of models, as far as it says how deeply a reader descends.
//!
//! A reader of protocol buffers descends into messages, to a fixed depth, and
//! into groups, which no model needs and which it skips. This module finds out
//! how deeply groups are nested before a model is read.

use vstd::prelude::*;

verus! {

/// The messages of a model that hold other messages.
#[derive(Clone, Copy, PartialEq, Eq, Debug, Structural)]
pub enum Kind {
    Model,
    TrainingInfo,
    Function,
    Graph,
    Node,
    Attribute,
    Tensor,
    SparseTensor,
    Annotation,
    Value,
    Type,
    /// The type of tensors or of sparse tensors.
    TensorType,
    /// The type of sequences or of options.
    ElementType,
    MapType,
    Shape,
    /// A message that holds no other.
    Leaf,
}

/// The message that a field holds, by the tag of the field: its number times 8,
/// plus 2 for fields that start with their length.
pub open spec fn child(kind: Kind, tag: nat) -> Option<Kind> {
    match kind {
        Kind::Model => if tag == 58 {
            Some(Kind::Graph)
        } else if tag == 162 {
            Some(Kind::TrainingInfo)
        } else if tag == 202 {
            Some(Kind::Function)
        } else if tag == 66 || tag == 114 {
            Some(Kind::Leaf)
        } else {
            None
        },
        Kind::TrainingInfo => if tag == 10 || tag == 18 {
            Some(Kind::Graph)
        } else if tag == 26 || tag == 34 {
            Some(Kind::Leaf)
        } else {
            None
        },
        Kind::Function => if tag == 90 {
            Some(Kind::Attribute)
        } else if tag == 58 {
            Some(Kind::Node)
        } else if tag == 98 {
            Some(Kind::Value)
        } else if tag == 74 || tag == 114 {
            Some(Kind::Leaf)
        } else {
            None
        },
        Kind::Graph => if tag == 10 {
            Some(Kind::Node)
        } else if tag == 42 {
            Some(Kind::Tensor)
        } else if tag == 122 {
            Some(Kind::SparseTensor)
        } else if tag == 90 || tag == 98 || tag == 106 {
            Some(Kind::Value)
        } else if tag == 114 {
            Some(Kind::Annotation)
        } else if tag == 130 {
            Some(Kind::Leaf)
        } else {
            None
        },
        Kind::Node => if tag == 42 {
            Some(Kind::Attribute)
        } else if tag == 74 {
            Some(Kind::Leaf)
        } else {
            None
        },
        Kind::Attribute => if tag == 42 || tag == 82 {
            Some(Kind::Tensor)
        } else if tag == 50 || tag == 90 {
            Some(Kind::Graph)
        } else if tag == 178 || tag == 186 {
            Some(Kind::SparseTensor)
        } else if tag == 114 || tag == 122 {
            Some(Kind::Type)
        } else {
            None
        },
        Kind::Tensor => if tag == 26 || tag == 106 || tag == 130 {
            Some(Kind::Leaf)
        } else {
            None
        },
        Kind::SparseTensor => if tag == 10 || tag == 18 {
            Some(Kind::Tensor)
        } else {
            None
        },
        Kind::Annotation => if tag == 18 {
            Some(Kind::Leaf)
        } else {
            None
        },
        Kind::Value => if tag == 18 {
            Some(Kind::Type)
        } else if tag == 34 {
            Some(Kind::Leaf)
        } else {
            None
        },
        Kind::Type => if tag == 10 || tag == 66 {
            Some(Kind::TensorType)
        } else if tag == 34 || tag == 74 {
            Some(Kind::ElementType)
        } else if tag == 42 {
            Some(Kind::MapType)
        } else {
            None
        },
        Kind::TensorType => if tag == 18 {
            Some(Kind::Shape)
        } else {
            None
        },
        Kind::ElementType => if tag == 10 {
            Some(Kind::Type)
        } else {
            None
        },
        Kind::MapType => if tag == 18 {
            Some(Kind::Type)
        } else {
            None
        },
        Kind::Shape => if tag == 10 {
            Some(Kind::Leaf)
        } else {
            None
        },
        Kind::Leaf => None,
    }
}

/// The message that a field holds.
fn find_child(kind: Kind, tag: u64) -> (found: Option<Kind>)
    ensures
        found == child(kind, tag as nat),
{
    match (kind, tag) {
        (Kind::Model, 58) => Some(Kind::Graph),
        (Kind::Model, 162) => Some(Kind::TrainingInfo),
        (Kind::Model, 202) => Some(Kind::Function),
        (Kind::Model, 66) | (Kind::Model, 114) => Some(Kind::Leaf),
        (Kind::TrainingInfo, 10) | (Kind::TrainingInfo, 18) => Some(Kind::Graph),
        (Kind::TrainingInfo, 26) | (Kind::TrainingInfo, 34) => Some(Kind::Leaf),
        (Kind::Function, 90) => Some(Kind::Attribute),
        (Kind::Function, 58) => Some(Kind::Node),
        (Kind::Function, 98) => Some(Kind::Value),
        (Kind::Function, 74) | (Kind::Function, 114) => Some(Kind::Leaf),
        (Kind::Graph, 10) => Some(Kind::Node),
        (Kind::Graph, 42) => Some(Kind::Tensor),
        (Kind::Graph, 122) => Some(Kind::SparseTensor),
        (Kind::Graph, 90) | (Kind::Graph, 98) | (Kind::Graph, 106) => Some(Kind::Value),
        (Kind::Graph, 114) => Some(Kind::Annotation),
        (Kind::Graph, 130) => Some(Kind::Leaf),
        (Kind::Node, 42) => Some(Kind::Attribute),
        (Kind::Node, 74) => Some(Kind::Leaf),
        (Kind::Attribute, 42) | (Kind::Attribute, 82) => Some(Kind::Tensor),
        (Kind::Attribute, 50) | (Kind::Attribute, 90) => Some(Kind::Graph),
        (Kind::Attribute, 178) | (Kind::Attribute, 186) => Some(Kind::SparseTensor),
        (Kind::Attribute, 114) | (Kind::Attribute, 122) => Some(Kind::Type),
        (Kind::Tensor, 26) | (Kind::Tensor, 106) | (Kind::Tensor, 130) => Some(Kind::Leaf),
        (Kind::SparseTensor, 10) | (Kind::SparseTensor, 18) => Some(Kind::Tensor),
        (Kind::Annotation, 18) => Some(Kind::Leaf),
        (Kind::Value, 18) => Some(Kind::Type),
        (Kind::Value, 34) => Some(Kind::Leaf),
        (Kind::Type, 10) | (Kind::Type, 66) => Some(Kind::TensorType),
        (Kind::Type, 34) | (Kind::Type, 74) => Some(Kind::ElementType),
        (Kind::Type, 42) => Some(Kind::MapType),
        (Kind::TensorType, 18) => Some(Kind::Shape),
        (Kind::ElementType, 10) => Some(Kind::Type),
        (Kind::MapType, 18) => Some(Kind::Type),
        (Kind::Shape, 10) => Some(Kind::Leaf),
        _ => None,
    }
}

/// The number that starts at `at`, seven bits in a byte and the lowest first,
/// with the position behind it: there is none if it does not end before `end`,
/// or has more than 64 bits. `count` bytes of it with the value `so_far` come
/// before `at`, and the next byte counts `unit`.
pub open spec fn number_from(
    bytes: Seq<u8>,
    at: int,
    end: int,
    count: nat,
    so_far: nat,
    unit: nat,
) -> Option<(nat, int)>
    decreases 10 - count,
{
    if at < 0 || at >= end || at >= bytes.len() || count >= 10 {
        None
    } else if count == 9 && bytes[at] > 1 {
        None
    } else if bytes[at] < 0x80 {
        Some((so_far + bytes[at] as nat * unit, at + 1))
    } else {
        number_from(
            bytes,
            at + 1,
            end,
            count + 1,
            so_far + (bytes[at] - 0x80) as nat * unit,
            unit * 0x80,
        )
    }
}

/// The number that starts at `at`.
pub open spec fn number_at(bytes: Seq<u8>, at: int, end: int) -> Option<(nat, int)> {
    number_from(bytes, at, end, 0, 0, 1)
}

/// What a reader meets in a part of some bytes.
#[derive(Clone, Copy, PartialEq, Eq, Debug, Structural)]
pub enum Scan {
    /// Fields up to the end.
    Clear,
    /// A place where every reader stops with an error.
    Stops,
    /// A group that is nested too deeply.
    Deep,
}

/// The greatest depth of groups within groups. A reader has no limit for them but
/// its stack; this one is that for messages.
pub const MAX_GROUPS: usize = 100;

/// The greatest depth of messages within messages that a reader descends to.
pub const MAX_MESSAGES: usize = 100;

/// What a reader meets from `at` up to `end` in a message that is nested `level`
/// deep, within `depth` groups. It descends into the messages that fields hold,
/// though not within groups, and stops with an error where a field is cut off,
/// where a group ends that did not start, and where messages are nested too
/// deeply.
pub open spec fn scan(kind: Kind, bytes: Seq<u8>, at: int, end: int, depth: nat, level: nat) -> Scan
    decreases MAX_MESSAGES - level, end - at,
{
    if at < 0 || at >= end || level > MAX_MESSAGES {
        if depth == 0 {
            Scan::Clear
        } else {
            Scan::Stops
        }
    } else {
        match number_at(bytes, at, end) {
            None => Scan::Stops,
            Some((tag, next)) => if !(at < next <= end) || tag > u32::MAX {
                Scan::Stops
            } else if tag % 8 == 0 {
                match number_at(bytes, next, end) {
                    Some((_, rest)) if at < rest <= end => scan(kind, bytes, rest, end, depth, level),
                    _ => Scan::Stops,
                }
            } else if tag % 8 == 1 {
                if next + 8 <= end {
                    scan(kind, bytes, next + 8, end, depth, level)
                } else {
                    Scan::Stops
                }
            } else if tag % 8 == 5 {
                if next + 4 <= end {
                    scan(kind, bytes, next + 4, end, depth, level)
                } else {
                    Scan::Stops
                }
            } else if tag % 8 == 2 {
                match number_at(bytes, next, end) {
                    Some((len, start)) if at < start <= end => {
                        let stop = if start + len <= end {
                            start + len
                        } else {
                            end
                        };
                        let inner = if depth > 0 || child(kind, tag) is None {
                            Scan::Clear
                        } else if level >= MAX_MESSAGES {
                            Scan::Stops
                        } else {
                            scan(child(kind, tag)->0, bytes, start, stop, 0, level + 1)
                        };
                        if inner is Clear && start + len > end {
                            Scan::Stops
                        } else if inner is Clear {
                            scan(kind, bytes, start + len, end, depth, level)
                        } else {
                            inner
                        }
                    },
                    _ => Scan::Stops,
                }
            } else if tag % 8 == 3 {
                if depth >= MAX_GROUPS {
                    Scan::Deep
                } else {
                    scan(kind, bytes, next, end, depth + 1, level)
                }
            } else if tag % 8 == 4 && depth > 0 {
                scan(kind, bytes, next, end, (depth - 1) as nat, level)
            } else {
                Scan::Stops
            },
        }
    }
}

/// Whether a reader of a model meets no group that is nested too deeply.
pub open spec fn is_shallow(bytes: Seq<u8>) -> bool {
    !(scan(Kind::Model, bytes, 0, bytes.len() as int, 0, 0) is Deep)
}

/// The number that starts at `at`.
fn read_number(bytes: &Vec<u8>, at: usize, end: usize) -> (found: Option<(u64, usize)>)
    requires
        end <= bytes@.len(),
    ensures
        match found {
            Some((n, next)) => {
                &&& number_at(bytes@, at as int, end as int) == Some((n as nat, next as int))
                &&& at < next <= end
            },
            None => number_at(bytes@, at as int, end as int) is None,
        },
{
    let mut so_far: u64 = 0;
    let mut unit: u64 = 1;
    let mut count: usize = 0;
    let mut i: usize = at;
    while i < end && count < 10
        invariant
            end <= bytes@.len(),
            at <= i,
            i - at == count,
            at <= end ==> i <= end,
            count <= 10,
            count < 10 ==> unit == pow128(count as nat),
            count < 10 ==> so_far < unit,
            number_at(bytes@, at as int, end as int) == number_from(
                bytes@,
                i as int,
                end as int,
                count as nat,
                so_far as nat,
                pow128(count as nat),
            ),
        decreases 10 - count,
    {
        let byte: u8 = bytes[i];
        if count == 9 && byte > 1 {
            return None;
        }
        proof {
            lemma_pow128();
            lemma_fits(so_far, unit, byte, count as nat);
        }
        if byte < 0x80 {
            return Some((so_far + byte as u64 * unit, i + 1));
        }
        so_far = so_far + (byte - 0x80) as u64 * unit;
        count = count + 1;
        if count < 10 {
            unit = unit * 0x80;
        }
        i = i + 1;
    }
    None
}

/// 128 to the power `n`.
spec fn pow128(n: nat) -> nat
    decreases n,
{
    if n == 0 {
        1
    } else {
        pow128((n - 1) as nat) * 0x80
    }
}

proof fn lemma_pow128()
    ensures
        pow128(0) == 1,
        pow128(1) == 0x80,
        pow128(2) == 0x4000,
        pow128(3) == 0x20_0000,
        pow128(4) == 0x1000_0000,
        pow128(5) == 0x8_0000_0000,
        pow128(6) == 0x400_0000_0000,
        pow128(7) == 0x2_0000_0000_0000,
        pow128(8) == 0x100_0000_0000_0000,
        pow128(9) == 0x8000_0000_0000_0000,
{
    reveal_with_fuel(pow128, 10);
}

proof fn lemma_fits(so_far: u64, unit: u64, byte: u8, count: nat)
    requires
        count < 10,
        unit == pow128(count),
        so_far < unit,
        count == 9 ==> byte <= 1,
    ensures
        so_far + byte * unit <= u64::MAX || (byte >= 0x80 && count < 9),
        byte >= 0x80 ==> so_far + (byte - 0x80) * unit <= u64::MAX,
        byte >= 0x80 && count < 9 ==> so_far + (byte - 0x80) * unit < unit * 0x80 <= u64::MAX,
        unit * 0x80 == pow128(count + 1),
{
    lemma_pow128();
    if byte >= 0x80 {
        let low = byte - 0x80;
        assert(so_far + low * unit < unit * 0x80) by (nonlinear_arith)
            requires
                so_far < unit,
                0 <= low <= 0x7f,
        ;
    } else {
        assert(count < 9 ==> so_far + byte * unit < unit * 0x80) by (nonlinear_arith)
            requires
                so_far < unit,
                0 <= byte <= 0x7f,
        ;
    }
}

/// What a reader meets in a message.
fn scan_message(kind: Kind, bytes: &Vec<u8>, start: usize, end: usize, level: usize) -> (met: Scan)
    requires
        end <= bytes@.len(),
        level <= MAX_MESSAGES,
    ensures
        met == scan(kind, bytes@, start as int, end as int, 0, level as nat),
    decreases MAX_MESSAGES - level,
{
    let mut at: usize = start;
    let mut depth: usize = 0;
    while at < end
        invariant
            end <= bytes@.len(),
            level <= MAX_MESSAGES,
            depth <= MAX_GROUPS,
            scan(kind, bytes@, start as int, end as int, 0, level as nat) == scan(
                kind,
                bytes@,
                at as int,
                end as int,
                depth as nat,
                level as nat,
            ),
        decreases end - at,
    {
        let (tag, next) = match read_number(bytes, at, end) {
            Some(found) => found,
            None => {
                return Scan::Stops;
            },
        };
        if tag > 0xffff_ffff {
            return Scan::Stops;
        }
        let wire: u64 = tag % 8;
        if wire == 0 {
            match read_number(bytes, next, end) {
                Some((_, rest)) => {
                    at = rest;
                },
                None => {
                    return Scan::Stops;
                },
            }
        } else if wire == 1 {
            if end - next < 8 {
                return Scan::Stops;
            }
            at = next + 8;
        } else if wire == 5 {
            if end - next < 4 {
                return Scan::Stops;
            }
            at = next + 4;
        } else if wire == 2 {
            let (len, body) = match read_number(bytes, next, end) {
                Some(found) => found,
                None => {
                    return Scan::Stops;
                },
            };
            let whole = len <= (end - body) as u64;
            let stop: usize = if whole {
                body + len as usize
            } else {
                end
            };
            if depth == 0 {
                if let Some(inner_kind) = find_child(kind, tag) {
                    if level >= MAX_MESSAGES {
                        return Scan::Stops;
                    }
                    match scan_message(inner_kind, bytes, body, stop, level + 1) {
                        Scan::Clear => {},
                        other => {
                            return other;
                        },
                    }
                }
            }
            if !whole {
                return Scan::Stops;
            }
            at = stop;
        } else if wire == 3 {
            if depth >= MAX_GROUPS {
                return Scan::Deep;
            }
            depth = depth + 1;
            at = next;
        } else if wire == 4 && depth > 0 {
            depth = depth - 1;
            at = next;
        } else {
            return Scan::Stops;
        }
    }
    if depth == 0 {
        Scan::Clear
    } else {
        Scan::Stops
    }
}

/// Whether a reader of a model meets no group that is nested too deeply.
pub fn check_groups(bytes: &Vec<u8>) -> (shallow: bool)
    ensures
        shallow == is_shallow(bytes@),
{
    match scan_message(Kind::Model, bytes, 0, bytes.len(), 0) {
        Scan::Deep => false,
        _ => true,
    }
}

} // verus!
