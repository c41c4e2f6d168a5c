//! Numbers as text: decimal and hexadecimal digits, and reading decimals back.
use super::text::owned;
use vstd::prelude::*;
use vstd::string::StringExecFns;

verus! {

broadcast use vstd::string::group_string_axioms;

/// The sixteen hexadecimal digits.
pub open spec fn digits() -> Seq<char> {
    seq!['0', '1', '2', '3', '4', '5', '6', '7', '8', '9', 'a', 'b', 'c', 'd', 'e', 'f']
}

/// The digit for `d`, which is below sixteen.
pub fn digit_text(d: u8) -> (r: &'static str)
    requires
        d < 16,
    ensures
        r@ == seq![digits()[d as int]],
{
    proof {
        reveal_strlit("0");
        reveal_strlit("1");
        reveal_strlit("2");
        reveal_strlit("3");
        reveal_strlit("4");
        reveal_strlit("5");
        reveal_strlit("6");
        reveal_strlit("7");
        reveal_strlit("8");
        reveal_strlit("9");
        reveal_strlit("a");
        reveal_strlit("b");
        reveal_strlit("c");
        reveal_strlit("d");
        reveal_strlit("e");
        reveal_strlit("f");
    }
    let r = match d {
        0 => "0",
        1 => "1",
        2 => "2",
        3 => "3",
        4 => "4",
        5 => "5",
        6 => "6",
        7 => "7",
        8 => "8",
        9 => "9",
        10 => "a",
        11 => "b",
        12 => "c",
        13 => "d",
        14 => "e",
        _ => "f",
    };
    proof {
        assert(r@ =~= seq![digits()[d as int]]);
    }
    r
}

/// The decimal digits of `n`, most significant first.
pub open spec fn decimal(n: nat) -> Seq<char>
    decreases n,
{
    if n < 10 {
        seq![digits()[n as int]]
    } else {
        decimal(n / 10).push(digits()[(n % 10) as int])
    }
}

/// `n` in decimal.
pub fn u64_text(n: u64) -> (r: String)
    ensures
        r@ == decimal(n as nat),
    decreases n,
{
    if n < 10 {
        owned(digit_text(n as u8))
    } else {
        let mut s = u64_text(n / 10);
        s.append(digit_text((n % 10) as u8));
        proof {
            assert(s@ =~= decimal(n as nat));
        }
        s
    }
}

/// Two hexadecimal digits for each byte.
pub open spec fn hex(b: Seq<u8>) -> Seq<char> {
    Seq::new(
        2 * b.len(),
        |i: int|
            if i % 2 == 0 {
                digits()[(b[i / 2] / 16) as int]
            } else {
                digits()[(b[i / 2] % 16) as int]
            },
    )
}

/// `b` in lower-case hexadecimal, two digits to a byte.
pub fn hex_text(b: &[u8]) -> (r: String)
    ensures
        r@ == hex(b@),
{
    let mut s = String::new();
    let mut i: usize = 0;
    proof {
        assert(s@ =~= hex(b@.take(0)));
    }
    while i < b.len()
        invariant
            0 <= i <= b@.len(),
            s@ == hex(b@.take(i as int)),
        decreases b@.len() - i,
    {
        s.append(digit_text(b[i] / 16));
        s.append(digit_text(b[i] % 16));
        proof {
            let before = b@.take(i as int);
            let after = b@.take(i + 1);
            assert forall|j: int| 0 <= j < 2 * i implies hex(after)[j] == hex(before)[j] by {
                assert(j / 2 < i);
            }
            assert((2 * i) / 2 == i && (2 * i) % 2 == 0);
            assert((2 * i + 1) / 2 == i && (2 * i + 1) % 2 == 1);
            assert(s@ =~= hex(after));
        }
        i += 1;
    }
    proof {
        assert(b@.take(b@.len() as int) =~= b@);
    }
    s
}

/// Whether a byte is an ASCII decimal digit.
pub open spec fn is_digit(b: u8) -> bool {
    48 <= b <= 57
}

/// The number that a string of ASCII digits stands for; nothing where another byte occurs.
pub open spec fn decimal_value(b: Seq<u8>) -> Option<nat>
    decreases b.len(),
{
    if b.len() == 0 {
        Some(0)
    } else {
        match decimal_value(b.drop_last()) {
            Some(v) => if is_digit(b.last()) {
                Some((10 * v + (b.last() - 48)) as nat)
            } else {
                None
            },
            None => None,
        }
    }
}

/// The text without one leading plus sign, unless nothing else is there.
pub open spec fn strip_plus(b: Seq<u8>) -> Seq<u8> {
    if b.len() > 1 && b[0] == 43 {
        b.skip(1)
    } else {
        b
    }
}

/// The 64-bit number that a text stands for in decimal.
pub open spec fn parse_decimal(b: Seq<u8>) -> Option<u64> {
    let d = strip_plus(b);
    match decimal_value(d) {
        Some(v) => if d.len() > 0 && v <= u64::MAX {
            Some(v as u64)
        } else {
            None
        },
        None => None,
    }
}

proof fn lemma_value_grows(b: Seq<u8>, i: int)
    requires
        0 <= i <= b.len(),
    ensures
        decimal_value(b.take(i)) is None ==> decimal_value(b) is None,
        decimal_value(b) is Some ==> decimal_value(b.take(i)) is Some && decimal_value(b)->0
            >= decimal_value(b.take(i))->0,
    decreases b.len() - i,
{
    if i < b.len() {
        lemma_value_grows(b, i + 1);
        assert(b.take(i + 1).drop_last() =~= b.take(i));
    } else {
        assert(b.take(i) =~= b);
    }
}

/// Why a text is no 64-bit decimal number.
#[derive(Debug, Clone, Copy, PartialEq, Eq, Structural)]
pub enum NumberError {
    Empty,
    InvalidDigit,
    TooLarge,
}

/// Reads a 64-bit decimal number, with an optional leading plus sign.
pub fn parse_u64(b: &[u8]) -> (r: Result<u64, NumberError>)
    ensures
        match r {
            Ok(v) => parse_decimal(b@) == Some(v),
            Err(e) => parse_decimal(b@) is None && (e == NumberError::Empty <==> b@.len() == 0),
        },
{
    let n: usize = b.len();
    if n == 0 {
        return Err(NumberError::Empty);
    }
    let start: usize = if n > 1 && b[0] == 43 {
        1
    } else {
        0
    };
    let ghost d = strip_plus(b@);
    proof {
        assert(d =~= b@.skip(start as int));
        assert(d.take(0) =~= Seq::<u8>::empty());
    }
    let mut v: u64 = 0;
    let mut i: usize = start;
    while i < n
        invariant
            start <= i <= n,
            n == b@.len(),
            d == b@.skip(start as int),
            d == strip_plus(b@),
            decimal_value(d.take(i - start)) == Some(v as nat),
        decreases n - i,
    {
        let c: u8 = b[i];
        proof {
            let k = i - start;
            assert(d.take(k + 1).drop_last() =~= d.take(k));
            assert(d.take(k + 1).last() == c);
            lemma_value_grows(d, k + 1);
        }
        if c < 48 || c > 57 {
            return Err(NumberError::InvalidDigit);
        }
        let x: u64 = (c - 48) as u64;
        if v > (u64::MAX - x) / 10 {
            proof {
                assert(10 * v + x > u64::MAX);
            }
            return Err(NumberError::TooLarge);
        }
        v = 10 * v + x;
        i += 1;
    }
    proof {
        assert(d.take(n - start) =~= d);
    }
    Ok(v)
}

/// The value read, if the text is a 64-bit decimal number.
pub fn parse_u64_opt(b: &[u8]) -> (r: Option<u64>)
    ensures
        r == parse_decimal(b@),
{
    match parse_u64(b) {
        Ok(v) => Some(v),
        Err(_) => None,
    }
}

} // verus!
