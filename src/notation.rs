//! Parsing of `<count>d<sides>` dice tokens.
use vstd::prelude::*;
use vstd::string::StringSliceAdditionalSpecFns;

verus! {

/// A group of identical dice: how many, and how many faces each has.
pub type Die = (usize, usize);

/// Why a command line could not be turned into dice.
#[derive(Debug, Clone, Copy, PartialEq, Eq, Structural)]
pub enum DiceError {
    /// A token is not of the form `<count>d<sides>`.
    InvalidDiceToken,
    /// The statistics mode was given no dice.
    MissingDice,
}

impl DiceError {
    /// The message shown to a user.
    pub fn message(&self) -> (r: &'static str) {
        match self {
            DiceError::InvalidDiceToken => "Invalid argument",
            DiceError::MissingDice => "No dice provided",
        }
    }
}

/// ASCII `0`.
pub const ZERO: u8 = 48;

/// ASCII `9`.
pub const NINE: u8 = 57;

/// ASCII `+`.
pub const PLUS: u8 = 43;

/// ASCII `d`, the separator of a dice token.
pub const SEPARATOR: u8 = 100;

pub open spec fn is_digit(b: u8) -> bool {
    ZERO <= b <= NINE
}

pub open spec fn all_digits(s: Seq<u8>) -> bool {
    forall|i: int| 0 <= i < s.len() ==> is_digit(#[trigger] s[i])
}

/// The number that a string of decimal digits denotes.
pub open spec fn digits_value(s: Seq<u8>) -> nat
    decreases s.len(),
{
    if s.len() == 0 {
        0
    } else {
        10 * digits_value(s.drop_last()) + (s.last() - ZERO) as nat
    }
}

/// The digits of a numeral: what follows an optional leading `+`.
pub open spec fn unsigned_digits(s: Seq<u8>) -> Seq<u8> {
    if s.len() > 0 && s[0] == PLUS {
        s.drop_first()
    } else {
        s
    }
}

/// The value of an unsigned decimal numeral that fits in `usize`, as Rust's
/// integer parsing reads it: an optional `+`, then one digit or more.
pub open spec fn numeral(s: Seq<u8>) -> Option<usize> {
    let d = unsigned_digits(s);
    if d.len() > 0 && all_digits(d) && digits_value(d) <= usize::MAX {
        Some(digits_value(d) as usize)
    } else {
        None
    }
}

/// Reads `bytes[lo..hi]` as an unsigned decimal numeral.
pub fn parse_numeral(bytes: &[u8], lo: usize, hi: usize) -> (r: Option<usize>)
    requires
        lo <= hi <= bytes@.len(),
    ensures
        r == numeral(bytes@.subrange(lo as int, hi as int)),
{
    let ghost s = bytes@.subrange(lo as int, hi as int);
    let mut start = lo;
    if lo < hi && bytes[lo] == PLUS {
        start = lo + 1;
    }
    let ghost d = bytes@.subrange(start as int, hi as int);
    assert(d =~= unsigned_digits(s));
    if start == hi {
        return None;
    }
    let mut value: usize = 0;
    let mut overflow = false;
    let mut i = start;
    while i < hi
        invariant
            start <= i <= hi <= bytes@.len(),
            lo <= start,
            d == bytes@.subrange(start as int, hi as int),
            d == unsigned_digits(bytes@.subrange(lo as int, hi as int)),
            all_digits(bytes@.subrange(start as int, i as int)),
            !overflow ==> value == digits_value(bytes@.subrange(start as int, i as int)),
            overflow ==> digits_value(bytes@.subrange(start as int, i as int)) > usize::MAX,
        decreases hi - i,
    {
        let b = bytes[i];
        let ghost prev = bytes@.subrange(start as int, i as int);
        let ghost next = bytes@.subrange(start as int, i + 1);
        assert(next.drop_last() =~= prev);
        if !(ZERO <= b && b <= NINE) {
            assert(d[i - start] == b);
            assert(!all_digits(d));
            return None;
        }
        assert(all_digits(next)) by {
            assert forall|j: int| 0 <= j < next.len() implies is_digit(#[trigger] next[j]) by {
                if j < prev.len() {
                    assert(next[j] == prev[j]);
                }
            }
        }
        let digit = (b - ZERO) as usize;
        if !overflow {
            if value > (usize::MAX - digit) / 10 {
                overflow = true;
            } else {
                value = value * 10 + digit;
            }
        }
        i = i + 1;
    }
    assert(bytes@.subrange(start as int, i as int) =~= d);
    if overflow {
        None
    } else {
        Some(value)
    }
}


/// `s` holds the separator at index `i` and nowhere else.
pub open spec fn sole_separator(s: Seq<u8>, i: int) -> bool {
    &&& 0 <= i < s.len()
    &&& s[i] == SEPARATOR
    &&& forall|j: int| 0 <= j < s.len() && j != i ==> s[j] != SEPARATOR
}

/// What a dice token denotes: split at its one separator, a count and a
/// positive number of sides, each a numeral; anything else is invalid.
pub open spec fn die_of(s: Seq<u8>) -> Result<Die, DiceError> {
    if exists|i: int| sole_separator(s, i) {
        let i = choose|i: int| sole_separator(s, i);
        match (numeral(s.subrange(0, i)), numeral(s.subrange(i + 1, s.len() as int))) {
            (Some(count), Some(sides)) => if sides >= 1 {
                Ok((count, sides))
            } else {
                Err(DiceError::InvalidDiceToken)
            },
            _ => Err(DiceError::InvalidDiceToken),
        }
    } else {
        Err(DiceError::InvalidDiceToken)
    }
}

/// Parses one `<count>d<sides>` token.
pub fn parse_die(token: &str) -> (r: Result<Die, DiceError>)
    ensures
        r == die_of(token.spec_bytes()),
{
    let bytes = token.as_bytes();
    let ghost s = bytes@;
    let mut first: Option<usize> = None;
    let mut more = false;
    let mut i: usize = 0;
    while i < bytes.len()
        invariant
            s == bytes@,
            i <= s.len(),
            first is None ==> forall|j: int| 0 <= j < i ==> s[j] != SEPARATOR,
            first is Some ==> first->0 < i && s[first->0 as int] == SEPARATOR,
            first is Some && !more ==> forall|j: int|
                0 <= j < i && j != first->0 ==> s[j] != SEPARATOR,
            more ==> first is Some && exists|j: int|
                0 <= j < i && j != first->0 && s[j] == SEPARATOR,
        decreases bytes.len() - i,
    {
        if bytes[i] == SEPARATOR {
            if first.is_none() {
                first = Some(i);
            } else {
                more = true;
            }
        }
        i = i + 1;
    }
    match first {
        None => {
            assert(!exists|k: int| sole_separator(s, k));
            Err(DiceError::InvalidDiceToken)
        },
        Some(k) => {
            if more {
                assert forall|m: int| !sole_separator(s, m) by {
                    if sole_separator(s, m) {
                        let j = choose|j: int| 0 <= j < i && j != k && s[j] == SEPARATOR;
                        assert(m == k && m == j);
                    }
                }
                return Err(DiceError::InvalidDiceToken);
            }
            assert(sole_separator(s, k as int));
            let ghost c = choose|m: int| sole_separator(s, m);
            assert(c == k);
            let count = parse_numeral(bytes, 0, k);
            let sides = parse_numeral(bytes, k + 1, bytes.len());
            match (count, sides) {
                (Some(count), Some(sides)) => if sides >= 1 {
                    Ok((count, sides))
                } else {
                    Err(DiceError::InvalidDiceToken)
                },
                _ => Err(DiceError::InvalidDiceToken),
            }
        },
    }
}

} // verus!
