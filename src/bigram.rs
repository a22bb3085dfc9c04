use vstd::prelude::*;

verus! {

/// A pair of adjacent symbols, as a type of its own.
#[derive(Default, Debug, PartialEq)]
pub struct Bigram {
    first: String,
    second: String,
}

/// Why a string could not become a [`Bigram`].
#[derive(Debug, PartialEq)]
pub enum BigramError {
    InvalidLength(String),
}

/// The character that stands for the decimal digit `d`.
pub open spec fn digit_char(d: nat) -> char {
    if d == 0 {
        '0'
    } else if d == 1 {
        '1'
    } else if d == 2 {
        '2'
    } else if d == 3 {
        '3'
    } else if d == 4 {
        '4'
    } else if d == 5 {
        '5'
    } else if d == 6 {
        '6'
    } else if d == 7 {
        '7'
    } else if d == 8 {
        '8'
    } else {
        '9'
    }
}

/// `n` written in decimal, without leading zeros.
pub open spec fn decimal(n: nat) -> Seq<char>
    decreases n,
{
    if n < 10 {
        seq![digit_char(n)]
    } else {
        decimal(n / 10).push(digit_char(n % 10))
    }
}

/// The message for a string `v` of `n` bytes, which is too short to be a bigram.
pub open spec fn too_short_message(v: Seq<char>, n: nat) -> Seq<char> {
    "Can not parse given string '"@ + v + "' with length "@ + decimal(n)
        + " into a bigram as it is too short."@
}

/// The message for a string `v` of `n` bytes, which is too long to be a bigram.
pub open spec fn too_long_message(v: Seq<char>, n: nat) -> Seq<char> {
    "Can not parse given string '"@ + v + "' with length "@ + decimal(n)
        + " into a bigram as it is too long."@
}

fn digit_str(d: usize) -> (r: &'static str)
    requires
        d < 10,
    ensures
        r@ == seq![digit_char(d as nat)],
{
    proof {
        reveal_strlit("0");
        reveal_strlit("1");
        reveal_strlit("2");
        reveal_strlit("3");
        reveal_strlit("4");
        reveal_strlit("5");
        reveal_strlit("6");
        reveal_strlit("7");
        reveal_strlit("8");
        reveal_strlit("9");
    }
    let r = match d {
        0 => "0",
        1 => "1",
        2 => "2",
        3 => "3",
        4 => "4",
        5 => "5",
        6 => "6",
        7 => "7",
        8 => "8",
        _ => "9",
    };
    assert(r@ =~= seq![digit_char(d as nat)]);
    r
}

/// `n` written in decimal.
pub fn decimal_string(n: usize) -> (r: String)
    ensures
        r@ == decimal(n as nat),
    decreases n,
{
    if n < 10 {
        String::from_str(digit_str(n))
    } else {
        let mut r = decimal_string(n / 10);
        r.append(digit_str(n % 10));
        r
    }
}

fn length_message(value: &str, n: usize, tail: &str) -> (r: String)
    ensures
        r@ == "Can not parse given string '"@ + value@ + "' with length "@ + decimal(n as nat)
            + tail@,
{
    let mut r = String::from_str("Can not parse given string '");
    r.append(value);
    r.append("' with length ");
    let digits = decimal_string(n);
    r.append(digits.as_str());
    r.append(tail);
    r
}

impl<'a> TryFrom<&'a str> for Bigram {
    type Error = BigramError;

    /// A bigram from a string of exactly two bytes; a shorter or longer string
    /// is refused with a message that quotes it and gives its length in bytes.
    fn try_from(value: &'a str) -> (r: Result<Bigram, BigramError>)
        ensures
            r is Ok <==> value.len() == 2,
            value.len() < 2 ==> (r matches Err(BigramError::InvalidLength(m)) && m@
                == too_short_message(value@, value.len() as nat)),
            value.len() > 2 ==> (r matches Err(BigramError::InvalidLength(m)) && m@
                == too_long_message(value@, value.len() as nat)),
    {
        let n = value.len();
        if n < 2 {
            Err(BigramError::InvalidLength(length_message(value, n, " into a bigram as it is too short.")))
        } else if n > 2 {
            Err(BigramError::InvalidLength(length_message(value, n, " into a bigram as it is too long.")))
        } else {
            Ok(Bigram { first: String::new(), second: String::new() })
        }
    }
}

impl<'a> vstd::std_specs::convert::TryFromSpecImpl<&'a str> for Bigram {
    open spec fn obeys_try_from_spec() -> bool {
        false
    }

    open spec fn try_from_spec(v: &'a str) -> Result<Bigram, BigramError> {
        arbitrary()
    }
}

} // verus!
