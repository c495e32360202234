//! Names of tensors, the messages built from them, and maps keyed by them.

use vstd::hash_map::StringHashMap;
use vstd::prelude::*;
use vstd::string::StrSliceExecFns;

verus! {

/// `prefix` followed by `name` and `suffix`.
pub fn join(prefix: &str, name: &str, suffix: &str) -> (joined: String)
    ensures
        joined@ == prefix@ + name@ + suffix@,
{
    let mut joined: String = String::from_str(prefix);
    joined.append(name);
    joined.append(suffix);
    joined
}

/// A decimal digit.
pub open spec fn digit(d: nat) -> char {
    if d == 0 {
        '0'
    } else if d == 1 {
        '1'
    } else if d == 2 {
        '2'
    } else if d == 3 {
        '3'
    } else if d == 4 {
        '4'
    } else if d == 5 {
        '5'
    } else if d == 6 {
        '6'
    } else if d == 7 {
        '7'
    } else if d == 8 {
        '8'
    } else {
        '9'
    }
}

/// The decimal digits of a number, without leading zeros.
pub open spec fn digits(n: nat) -> Seq<char>
    decreases n,
{
    if n < 10 {
        seq![digit(n)]
    } else {
        digits(n / 10).push(digit(n % 10))
    }
}

/// A whole number in decimal.
pub open spec fn decimal(n: int) -> Seq<char> {
    if n < 0 {
        seq!['-'] + digits((-n) as nat)
    } else {
        digits(n as nat)
    }
}

fn digit_text(d: u64) -> (text: &'static str)
    requires
        d < 10,
    ensures
        text@ == seq![digit(d as nat)],
{
    proof {
        reveal_strlit("0");
        reveal_strlit("1");
        reveal_strlit("2");
        reveal_strlit("3");
        reveal_strlit("4");
        reveal_strlit("5");
        reveal_strlit("6");
        reveal_strlit("7");
        reveal_strlit("8");
        reveal_strlit("9");
    }
    let text = match d {
        0 => "0",
        1 => "1",
        2 => "2",
        3 => "3",
        4 => "4",
        5 => "5",
        6 => "6",
        7 => "7",
        8 => "8",
        _ => "9",
    };
    assert(text@ =~= seq![digit(d as nat)]);
    text
}

fn append_digits(text: &mut String, n: u64)
    ensures
        final(text)@ == old(text)@ + digits(n as nat),
    decreases n,
{
    if n >= 10 {
        append_digits(text, n / 10);
    }
    let ghost before = text@;
    text.append(digit_text(n % 10));
    assert(text@ =~= old(text)@ + digits(n as nat));
}

/// A whole number in decimal.
pub fn to_decimal(n: i64) -> (text: String)
    ensures
        text@ == decimal(n as int),
{
    if n < 0 {
        let mut text: String = String::from_str("-");
        proof {
            reveal_strlit("-");
            assert(text@ =~= seq!['-']);
        }
        let magnitude: u64 = if n == i64::MIN {
            0x8000_0000_0000_0000
        } else {
            (-n) as u64
        };
        append_digits(&mut text, magnitude);
        text
    } else {
        let mut text: String = String::new();
        append_digits(&mut text, n as u64);
        assert(text@ =~= digits(n as nat));
        text
    }
}

/// A size in decimal.
pub fn size_to_decimal(n: usize) -> (text: String)
    ensures
        text@ == decimal(n as int),
{
    let mut text: String = String::new();
    append_digits(&mut text, n as u64);
    assert(text@ =~= digits(n as nat));
    text
}

/// The digit that a character is.
pub open spec fn digit_value(c: char) -> Option<nat> {
    if c == '0' {
        Some(0)
    } else if c == '1' {
        Some(1)
    } else if c == '2' {
        Some(2)
    } else if c == '3' {
        Some(3)
    } else if c == '4' {
        Some(4)
    } else if c == '5' {
        Some(5)
    } else if c == '6' {
        Some(6)
    } else if c == '7' {
        Some(7)
    } else if c == '8' {
        Some(8)
    } else if c == '9' {
        Some(9)
    } else {
        None
    }
}

/// The number that a text spells in decimal digits, if it consists of them, and
/// the number has 64 bits at most.
pub open spec fn decimal_value(text: Seq<char>) -> Option<u64>
    decreases text.len(),
{
    if text.len() == 0 {
        None
    } else {
        let before: Option<u64> = if text.len() == 1 {
            Some(0)
        } else {
            decimal_value(text.drop_last())
        };
        match (before, digit_value(text.last())) {
            (Some(n), Some(d)) => if 10 * n + d <= u64::MAX {
                Some((10 * n + d) as u64)
            } else {
                None
            },
            _ => None,
        }
    }
}

fn read_digit(c: char) -> (d: Option<u64>)
    ensures
        match d {
            Some(v) => digit_value(c) == Some(v as nat) && v < 10,
            None => digit_value(c) is None,
        },
{
    match c {
        '0' => Some(0),
        '1' => Some(1),
        '2' => Some(2),
        '3' => Some(3),
        '4' => Some(4),
        '5' => Some(5),
        '6' => Some(6),
        '7' => Some(7),
        '8' => Some(8),
        '9' => Some(9),
        _ => None,
    }
}

/// The number that a text spells in decimal digits.
pub fn read_decimal(text: &str) -> (n: Option<u64>)
    ensures
        n == decimal_value(text@),
{
    let len: usize = text.unicode_len();
    if len == 0 {
        return None;
    }
    let mut n: u64 = 0;
    let mut i: usize = 0;
    while i < len
        invariant
            len == text@.len(),
            i <= len,
            i == 0 ==> n == 0,
            i > 0 ==> decimal_value(text@.subrange(0, i as int)) == Some(n),
        decreases len - i,
    {
        let ghost some = text@.subrange(0, i + 1);
        assert(some.drop_last() =~= text@.subrange(0, i as int));
        let next = match read_digit(text.get_char(i)) {
            Some(d) => match n.checked_mul(10) {
                Some(tens) => tens.checked_add(d),
                None => None,
            },
            None => None,
        };
        match next {
            Some(m) => {
                n = m;
            },
            None => {
                assert(decimal_value(some) is None);
                proof {
                    lemma_no_decimal(text@, i + 1);
                }
                return None;
            },
        }
        i = i + 1;
    }
    assert(text@.subrange(0, i as int) =~= text@);
    Some(n)
}

proof fn lemma_no_decimal(text: Seq<char>, n: int)
    requires
        0 < n <= text.len(),
        decimal_value(text.subrange(0, n)) is None,
    ensures
        decimal_value(text) is None,
    decreases text.len() - n,
{
    if n == text.len() {
        assert(text.subrange(0, n) =~= text);
    } else {
        assert(text.subrange(0, n + 1).drop_last() =~= text.subrange(0, n));
        lemma_no_decimal(text, n + 1);
    }
}

/// A number that is written in decimal is read back.
pub proof fn law_decimal_read_back(n: u64)
    ensures
        decimal_value(decimal(n as int)) == Some(n),
    decreases n,
{
    let text = digits(n as nat);
    if n < 10 {
        assert(text.last() == digit(n as nat));
        assert(digit_value(digit(n as nat)) == Some(n as nat));
    } else {
        law_decimal_read_back(n / 10);
        assert(text.drop_last() =~= digits(n as nat / 10));
        lemma_digits_len(n as nat / 10);
        assert(digit_value(digit(n as nat % 10)) == Some(n as nat % 10));
    }
}

proof fn lemma_digits_len(n: nat)
    ensures
        digits(n).len() > 0,
    decreases n,
{
}

/// Whether a text ends in `end`.
pub open spec fn ends_in(text: Seq<char>, end: Seq<char>) -> bool {
    text.len() >= end.len() && text.subrange(text.len() - end.len(), text.len() as int) == end
}

/// Whether a text ends in `end`.
pub fn ends_with(text: &str, end: &str) -> (r: bool)
    ensures
        r == ends_in(text@, end@),
{
    let len: usize = text.unicode_len();
    let end_len: usize = end.unicode_len();
    if len < end_len {
        return false;
    }
    let mut i: usize = 0;
    while i < end_len
        invariant
            len == text@.len(),
            end_len == end@.len(),
            end_len <= len,
            i <= end_len,
            forall|k: int| 0 <= k < i ==> text@[len - end_len + k] == #[trigger] end@[k],
        decreases end_len - i,
    {
        if text.get_char(len - end_len + i) != end.get_char(i) {
            assert(text@.subrange(len - end_len, len as int)[i as int] != end@[i as int]);
            return false;
        }
        i = i + 1;
    }
    assert(text@.subrange(len - end_len, len as int) =~= end@);
    true
}

/// The strings of a vector, as sequences of characters.
pub open spec fn texts(names: Seq<String>) -> Seq<Seq<char>> {
    names.map_values(|name: String| name@)
}

/// A map from names to values that also remembers in which order the names
/// were first given a value.
#[verifier::reject_recursive_types(V)]
pub struct NameMap<V> {
    map: StringHashMap<V>,
    order: Vec<String>,
}

impl<V> View for NameMap<V> {
    type V = Map<Seq<char>, V>;

    closed spec fn view(&self) -> Map<Seq<char>, V> {
        self.map@
    }
}

impl<V> NameMap<V> {
    /// The names in the order in which they were first given a value.
    pub closed spec fn names(&self) -> Seq<Seq<char>> {
        texts(self.order@)
    }

    /// Every name of the map stands exactly once in `names`.
    pub open spec fn wf(&self) -> bool {
        &&& self.names().no_duplicates()
        &&& self.names().to_set() == self@.dom()
    }

    /// An empty map.
    pub fn new() -> (map: Self)
        ensures
            map@ == Map::<Seq<char>, V>::empty(),
            map.names() == Seq::<Seq<char>>::empty(),
            map.wf(),
    {
        let map = NameMap { map: StringHashMap::new(), order: Vec::new() };
        assert(map.names() =~= Seq::<Seq<char>>::empty());
        assert(map.names().to_set() =~= map@.dom());
        map
    }

    /// The value of `name`, if it has one.
    pub fn get(&self, name: &str) -> (value: Option<&V>)
        ensures
            match value {
                Some(v) => self@.contains_key(name@) && *v == self@[name@],
                None => !self@.contains_key(name@),
            },
    {
        self.map.get(name)
    }

    /// Whether `name` has a value.
    pub fn contains_key(&self, name: &str) -> (found: bool)
        ensures
            found == self@.contains_key(name@),
    {
        self.map.contains_key(name)
    }

    /// Gives `name` the value `value`, in place of the one it had.
    pub fn insert(&mut self, name: &str, value: V)
        ensures
            final(self)@ == old(self)@.insert(name@, value),
            final(self).names() == if old(self)@.contains_key(name@) {
                old(self).names()
            } else {
                old(self).names().push(name@)
            },
            old(self).wf() ==> final(self).wf(),
    {
        let key: String = String::from_str(name);
        if !self.map.contains_key(name) {
            self.order.push(String::from_str(name));
            assert(self.names() =~= old(self).names().push(name@));
        }
        self.map.insert(key, value);
        proof {
            if old(self).wf() {
                if old(self)@.contains_key(name@) {
                    assert(old(self)@.dom().insert(name@) =~= old(self)@.dom());
                } else {
                    let before = old(self).names();
                    assert(!before.to_set().contains(name@));
                    assert(!before.contains(name@));
                    assert(self.names().no_duplicates());
                    assert forall|n: Seq<char>| self.names().to_set().contains(n)
                        == self@.dom().contains(n) by {
                        if before.contains(n) {
                            let i = choose|i: int| 0 <= i < before.len() && before[i] == n;
                            assert(self.names()[i] == n);
                        }
                        if n == name@ {
                            assert(self.names()[before.len() as int] == n);
                        }
                        assert(before.to_set().contains(n) == before.contains(n));
                    }
                    assert(self.names().to_set() =~= self@.dom());
                }
            }
        }
    }

    /// How many names have a value.
    pub fn len(&self) -> (count: usize)
        ensures
            count == self.names().len(),
    {
        self.order.len()
    }

    /// The name at position `i` of `names`.
    pub fn name(&self, i: usize) -> (name: &String)
        requires
            i < self.names().len(),
        ensures
            name@ == self.names()[i as int],
    {
        &self.order[i]
    }
}

} // verus!
