use vstd::prelude::*;
use crate::model::SchedulingStrategy;

verus! {

/// The character is one of the ten digits.
pub open spec fn is_digit(c: char) -> bool {
    '0' <= c <= '9'
}

/// Every character is a digit.
pub open spec fn all_digits(text: Seq<char>) -> bool {
    forall|i: int| 0 <= i < text.len() ==> is_digit(#[trigger] text[i])
}

/// The number that the digits write in base ten.
pub open spec fn decimal(digits: Seq<char>) -> nat
    decreases digits.len(),
{
    if digits.len() == 0 {
        0
    } else {
        (10 * decimal(digits.drop_last()) + (digits.last() as u32 - '0' as u32)) as nat
    }
}

/// The text without the plus sign that may lead it.
pub open spec fn unsigned(text: Seq<char>) -> Seq<char> {
    if text.len() > 0 && text[0] == '+' {
        text.drop_first()
    } else {
        text
    }
}

/// The number that `text` writes: one digit or more, after at most one plus sign, and
/// nothing else, naming a number of 32 bits. Anything else writes no number.
pub open spec fn number(text: Seq<char>) -> Option<u32> {
    let digits = unsigned(text);
    if digits.len() > 0 && all_digits(digits) && decimal(digits) <= u32::MAX {
        Some(decimal(digits) as u32)
    } else {
        None
    }
}

/// More digits never write a smaller number.
pub proof fn lemma_decimal_grows(digits: Seq<char>, n: int)
    requires
        0 <= n <= digits.len(),
        all_digits(digits),
    ensures
        decimal(digits.take(n)) <= decimal(digits),
    decreases digits.len() - n,
{
    if n < digits.len() {
        lemma_decimal_grows(digits, n + 1);
        assert(digits.take(n + 1).drop_last() =~= digits.take(n));
    } else {
        assert(digits.take(n) =~= digits);
    }
}

/// Reads a number of 32 bits.
pub fn parse_number(text: &str) -> (read: Option<u32>)
    ensures
        read == number(text@),
{
    let ghost digits = unsigned(text@);
    let ghost lead: int = text@.len() - digits.len();
    let mut value: u64 = 0;
    let ghost mut seen: int = 0;
    let mut any = false;
    let mut first = true;
    for c in it: text.chars()
        invariant
            it.seq() == text@,
            digits == unsigned(text@),
            lead == text@.len() - digits.len(),
            first <==> it.index() == 0,
            seen == if it.index() >= lead { it.index() - lead } else { 0 },
            any <==> seen > 0,
            all_digits(digits.take(seen)),
            value == decimal(digits.take(seen)),
            value <= u32::MAX,
    {
        if first && c == '+' {
            first = false;
        } else {
            first = false;
            proof {
                assert(digits[seen] == c);
                assert(digits.take(seen + 1).drop_last() =~= digits.take(seen));
            }
            if c < '0' || c > '9' {
                return None;
            }
            value = value * 10 + (c as u32 - '0' as u32) as u64;
            any = true;
            proof {
                seen = seen + 1;
            }
            if value > u32::MAX as u64 {
                proof {
                    if all_digits(digits) {
                        lemma_decimal_grows(digits, seen);
                    }
                }
                return None;
            }
        }
    }
    proof {
        assert(digits.take(seen) =~= digits);
    }
    if any {
        Some(value as u32)
    } else {
        None
    }
}

/// Whether the two texts are the same.
pub fn same_text(a: &str, b: &str) -> (same: bool)
    ensures
        same == (a@ == b@),
{
    a.to_owned() == b.to_owned()
}

impl SchedulingStrategy {
    /// Reads the name of a strategy, as `as_str` writes it.
    pub fn from_name(name: &str) -> (strategy: Option<SchedulingStrategy>)
        ensures
            strategy == SchedulingStrategy::named(name@),
    {
        if same_text(name, "importance") {
            Some(SchedulingStrategy::Importance)
        } else if same_text(name, "urgency") {
            Some(SchedulingStrategy::Urgency)
        } else {
            None
        }
    }
}

/// The properties of a task that can be changed.
#[derive(Clone, Copy, Debug, PartialEq, Eq, Structural)]
pub enum Field {
    Content,
    Deadline,
    Duration,
    Importance,
}

impl Field {
    /// The property that `name` names.
    pub open spec fn named(name: Seq<char>) -> Option<Field> {
        if name == "content"@ {
            Some(Field::Content)
        } else if name == "deadline"@ {
            Some(Field::Deadline)
        } else if name == "duration"@ {
            Some(Field::Duration)
        } else if name == "importance"@ {
            Some(Field::Importance)
        } else {
            None
        }
    }

    /// Reads the name of a property.
    pub fn from_name(name: &str) -> (field: Option<Field>)
        ensures
            field == Field::named(name@),
    {
        if same_text(name, "content") {
            Some(Field::Content)
        } else if same_text(name, "deadline") {
            Some(Field::Deadline)
        } else if same_text(name, "duration") {
            Some(Field::Duration)
        } else if same_text(name, "importance") {
            Some(Field::Importance)
        } else {
            None
        }
    }

    /// The name of the property.
    pub fn as_str(&self) -> (name: &'static str)
        ensures
            Field::named(name@) == Some(*self),
    {
        proof {
            reveal_strlit("content");
            reveal_strlit("deadline");
            reveal_strlit("duration");
            reveal_strlit("importance");
            assert("content"@.len() == 7);
            assert("deadline"@.len() == 8);
            assert("duration"@.len() == 8);
            assert("importance"@.len() == 10);
            assert("deadline"@[1] == 'e' && "duration"@[1] == 'u');
        }
        match *self {
            Field::Content => "content",
            Field::Deadline => "deadline",
            Field::Duration => "duration",
            Field::Importance => "importance",
        }
    }
}

} // verus!
