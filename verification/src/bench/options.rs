//! Reading numbers and lists out of command-line options, and what is said when that fails.
use crate::support::num_text::NumberError;
use crate::support::text::{chars_of, is_space, join2, owned, text_of};
use vstd::prelude::*;
use vstd::utf8::encode_utf8;

verus! {

/// Reads digits from the left, up to a largest number: the first digit that is none, or that
/// makes the number too large, ends it.
pub open spec fn scan_digits(d: Seq<u8>, max: u64) -> Result<nat, NumberError>
    decreases d.len(),
{
    if d.len() == 0 {
        Ok(0)
    } else {
        match scan_digits(d.drop_last(), max) {
            Err(e) => Err(e),
            Ok(v) => if d.last() < 48 || d.last() > 57 {
                Err(NumberError::InvalidDigit)
            } else if 10 * v + (d.last() - 48) > max {
                Err(NumberError::TooLarge)
            } else {
                Ok((10 * v + (d.last() - 48)) as nat)
            },
        }
    }
}

/// The number that a text stands for, with an optional plus sign in front.
pub open spec fn number_in(b: Seq<u8>, max: u64) -> Result<nat, NumberError> {
    if b.len() == 0 {
        Err(NumberError::Empty)
    } else if b.len() > 1 && b[0] == 43 {
        scan_digits(b.skip(1), max)
    } else {
        scan_digits(b, max)
    }
}

proof fn lemma_scan_stops(d: Seq<u8>, max: u64, i: int)
    requires
        0 <= i <= d.len(),
        scan_digits(d.take(i), max) is Err,
    ensures
        scan_digits(d, max) == scan_digits(d.take(i), max),
    decreases d.len() - i,
{
    if i < d.len() {
        assert(d.take(i + 1).drop_last() =~= d.take(i));
        lemma_scan_stops(d, max, i + 1);
    } else {
        assert(d.take(i) =~= d);
    }
}

/// Reads a number of at most `max`.
pub fn read_number(text: &str, max: u64) -> (r: Result<u64, NumberError>)
    ensures
        match (r, number_in(encode_utf8(text@), max)) {
            (Ok(a), Ok(b)) => a == b,
            (Err(a), Err(b)) => a == b,
            _ => false,
        },
        r matches Ok(a) ==> a <= max,
{
    let b = text.as_bytes();
    let n: usize = b.len();
    if n == 0 {
        return Err(NumberError::Empty);
    }
    let start: usize = if n > 1 && b[0] == 43 {
        1
    } else {
        0
    };
    let ghost d = b@.skip(start as int);
    proof {
        if start == 0 {
            assert(d =~= b@);
        }
        assert(d.take(0) =~= Seq::<u8>::empty());
    }
    let mut v: u64 = 0;
    let mut i: usize = start;
    while i < n
        invariant
            start <= i <= n,
            n == b@.len(),
            b@ == encode_utf8(text@),
            d == b@.skip(start as int),
            number_in(b@, max) == scan_digits(d, max),
            scan_digits(d.take(i - start), max) == Ok::<nat, NumberError>(v as nat),
            v <= max,
        decreases n - i,
    {
        let c: u8 = b[i];
        proof {
            let k = i - start;
            assert(d.take(k + 1).drop_last() =~= d.take(k));
            assert(d.take(k + 1).last() == c);
        }
        if c < 48 || c > 57 {
            proof {
                lemma_scan_stops(d, max, i - start + 1);
            }
            return Err(NumberError::InvalidDigit);
        }
        let x: u64 = (c - 48) as u64;
        if v > u64::MAX / 10 || 10 * v > u64::MAX - x || 10 * v + x > max {
            proof {
                lemma_scan_stops(d, max, i - start + 1);
            }
            return Err(NumberError::TooLarge);
        }
        v = 10 * v + x;
        i += 1;
    }
    proof {
        assert(d.take(n - start) =~= d);
    }
    Ok(v)
}

/// What is said of a number that cannot be read.
pub open spec fn fault_text(e: NumberError) -> Seq<char> {
    match e {
        NumberError::Empty => "cannot parse integer from empty string"@,
        NumberError::InvalidDigit => "invalid digit found in string"@,
        NumberError::TooLarge => "number too large to fit in target type"@,
    }
}

/// What is said of a number that cannot be read, after the name of its option.
pub fn number_fault(name: &str, e: NumberError) -> (r: String)
    ensures
        r@ == name@ + ": "@ + fault_text(e),
{
    let mut s = join2(name, ": ");
    s.append(
        match e {
            NumberError::Empty => "cannot parse integer from empty string",
            NumberError::InvalidDigit => "invalid digit found in string",
            NumberError::TooLarge => "number too large to fit in target type",
        },
    );
    s
}

/// The number that an option asks for, or what is said of it.
pub open spec fn number_value(text: Seq<char>, max: u64, name: Seq<char>) -> Result<nat, Seq<char>> {
    match number_in(encode_utf8(text), max) {
        Ok(v) => Ok(v),
        Err(e) => Err(name + ": "@ + fault_text(e)),
    }
}

/// The number that an option asks for.
pub fn number_option(text: &str, max: u64, name: &str) -> (r: Result<u64, String>)
    ensures
        match (r, number_value(text@, max, name@)) {
            (Ok(a), Ok(b)) => a == b,
            (Err(a), Err(b)) => a@ == b,
            _ => false,
        },
        r matches Ok(a) ==> a <= max,
{
    match read_number(text, max) {
        Ok(v) => Ok(v),
        Err(e) => Err(number_fault(name, e)),
    }
}

/// A text without the white space at its ends.
pub open spec fn trimmed(s: Seq<char>) -> Seq<char>
    decreases s.len(),
{
    if s.len() == 0 {
        s
    } else if is_space(s[0]) {
        trimmed(s.skip(1))
    } else if is_space(s.last()) {
        trimmed(s.drop_last())
    } else {
        s
    }
}

proof fn lemma_trim_front(s: Seq<char>, a: int)
    requires
        0 <= a <= s.len(),
        forall|i: int| 0 <= i < a ==> is_space(#[trigger] s[i]),
    ensures
        trimmed(s) == trimmed(s.skip(a)),
    decreases a,
{
    if a > 0 {
        assert(is_space(s[0]));
        let t = s.skip(1);
        assert forall|i: int| 0 <= i < a - 1 implies is_space(#[trigger] t[i]) by {
            assert(t[i] == s[i + 1]);
        }
        lemma_trim_front(t, a - 1);
        assert(t.skip(a - 1) =~= s.skip(a));
    } else {
        assert(s.skip(0) =~= s);
    }
}

proof fn lemma_trim_back(s: Seq<char>, b: int)
    requires
        0 <= b <= s.len(),
        s.len() == 0 || b == 0 || !is_space(s[0]),
        b > 0 || s.len() == 0,
        forall|i: int| b <= i < s.len() ==> is_space(#[trigger] s[i]),
    ensures
        trimmed(s) == trimmed(s.take(b)),
    decreases s.len() - b,
{
    if b < s.len() {
        let t = s.drop_last();
        assert(is_space(s.last()));
        assert forall|i: int| b <= i < t.len() implies is_space(#[trigger] t[i]) by {
            assert(t[i] == s[i]);
        }
        assert(t[0] == s[0]);
        lemma_trim_back(t, b);
        assert(t.take(b) =~= s.take(b));
    } else {
        assert(s.take(b) =~= s);
    }
}

/// The characters from `from` to `to` without the white space at their ends.
pub fn trim_range(chars: &Vec<char>, from: usize, to: usize) -> (r: String)
    requires
        from <= to <= chars@.len(),
    ensures
        r@ == trimmed(chars@.subrange(from as int, to as int)),
{
    let ghost s = chars@.subrange(from as int, to as int);
    let mut a: usize = from;
    let mut more = true;
    while more && a < to
        invariant
            from <= a <= to <= chars@.len(),
            forall|i: int| from <= i < a ==> is_space(#[trigger] chars@[i]),
            !more ==> a < to && !is_space(chars@[a as int]),
        decreases to - a, (if more { 1int } else { 0 }),
    {
        if chars[a].is_whitespace() {
            a += 1;
        } else {
            more = false;
        }
    }
    let mut b: usize = to;
    let mut back = true;
    while back && b > a
        invariant
            from <= a <= b <= to <= chars@.len(),
            forall|i: int| b <= i < to ==> is_space(#[trigger] chars@[i]),
            !back ==> b > a && !is_space(chars@[b - 1]),
        decreases b - a, (if back { 1int } else { 0 }),
    {
        if chars[b - 1].is_whitespace() {
            b -= 1;
        } else {
            back = false;
        }
    }
    proof {
        let t = s.skip(a - from);
        assert forall|i: int| 0 <= i < a - from implies is_space(#[trigger] s[i]) by {
            assert(s[i] == chars@[from + i]);
        }
        lemma_trim_front(s, a - from);
        assert(t =~= chars@.subrange(a as int, to as int));
        if a == to {
            assert(t.len() == 0);
            assert(chars@.subrange(a as int, b as int) =~= t);
        } else {
            assert(!is_space(t[0]));
            if b == a {
                assert(is_space(chars@[a as int]));
            }
            let keep = (b - a) as int;
            assert forall|i: int| keep <= i < t.len() implies is_space(#[trigger] t[i]) by {
                assert(t[i] == chars@[a + i]);
            }
            lemma_trim_back(t, keep);
            let u = t.take(keep);
            assert(u =~= chars@.subrange(a as int, b as int));
            assert(u[0] == t[0]);
            assert(u.last() == chars@[b - 1]);
            assert(trimmed(u) == u);
        }
    }
    text_of(chars, a, b)
}

/// A text without the white space at its ends.
pub fn trim_text(text: &str) -> (r: String)
    ensures
        r@ == trimmed(text@),
{
    let chars = chars_of(text);
    proof {
        assert(chars@.subrange(0, chars@.len() as int) =~= text@);
    }
    trim_range(&chars, 0, chars.len())
}

/// The position of the first comma from `k` on, or the end.
pub open spec fn comma_from(s: Seq<char>, k: int) -> int
    decreases s.len() - k,
{
    if k < 0 || k >= s.len() {
        s.len() as int
    } else if s[k] == ',' {
        k
    } else {
        comma_from(s, k + 1)
    }
}

proof fn lemma_comma(s: Seq<char>, k: int)
    requires
        0 <= k <= s.len(),
    ensures
        k <= comma_from(s, k) <= s.len(),
    decreases s.len() - k,
{
    if k < s.len() && s[k] != ',' {
        lemma_comma(s, k + 1);
    }
}

/// The numbers between the commas of a text from `k` on, each at least `least`; blank parts
/// are passed over.
pub open spec fn list_from(s: Seq<char>, k: int, least: u64, name: Seq<char>) -> Result<Seq<u64>, Seq<char>>
    decreases s.len() - k,
{
    let c = comma_from(s, k);
    if k < 0 || k > s.len() || c < k {
        Ok(Seq::empty())
    } else {
        let part = trimmed(s.subrange(k, c));
        let rest: Result<Seq<u64>, Seq<char>> = if c >= s.len() {
            Ok(Seq::empty())
        } else {
            list_from(s, c + 1, least, name)
        };
        if part.len() == 0 {
            rest
        } else {
            match number_value(part, u64::MAX, name) {
                Err(e) => Err(e),
                Ok(v) => match rest {
                    Err(e) => Err(e),
                    Ok(l) => Ok(
                        seq![
                            if v < least {
                                least
                            } else {
                                v as u64
                            },
                        ] + l,
                    ),
                },
            }
        }
    }
}

/// The numbers of a comma-separated list, each at least `least`.
pub fn read_list(text: &str, least: u64, name: &str) -> (r: Result<Vec<u64>, String>)
    ensures
        match (r, list_from(text@, 0, least, name@)) {
            (Ok(a), Ok(b)) => a@ == b,
            (Err(a), Err(b)) => a@ == b,
            _ => false,
        },
{
    let chars = chars_of(text);
    let n: usize = chars.len();
    let ghost s = text@;
    let mut out: Vec<u64> = Vec::new();
    let mut k: usize = 0;
    let mut done = false;
    proof {
        match list_from(s, 0, least, name@) {
            Ok(l) => {
                assert(Seq::<u64>::empty() + l =~= l);
            },
            Err(_) => {},
        }
    }
    while !done
        invariant
            chars@ == s,
            s == text@,
            n == s.len(),
            k <= n,
            !done ==> (match (list_from(s, 0, least, name@), list_from(s, k as int, least, name@)) {
                (Ok(all), Ok(rest)) => all == out@ + rest,
                (Err(a), Err(b)) => a == b,
                _ => false,
            }),
            done ==> list_from(s, 0, least, name@) == Ok::<Seq<u64>, Seq<char>>(out@),
        decreases n - k, (if done { 0int } else { 1 }),
    {
        let mut c: usize = k;
        while c < n && chars[c] != ','
            invariant
                chars@ == s,
                n == s.len(),
                k <= c <= n,
                comma_from(s, k as int) == comma_from(s, c as int),
            decreases n - c,
        {
            c += 1;
        }
        proof {
            lemma_comma(s, k as int);
            assert(c == comma_from(s, k as int));
        }
        let part = trim_range(&chars, k, c);
        let ghost before = out@;
        let ghost rest: Result<Seq<u64>, Seq<char>> = if c >= n {
            Ok(Seq::empty())
        } else {
            list_from(s, c + 1, least, name@)
        };
        let blank = part.as_str().is_empty();
        if !blank {
            match number_option(part.as_str(), u64::MAX, name) {
                Ok(v) => {
                    let w: u64 = if v < least {
                        least
                    } else {
                        v
                    };
                    out.push(w);
                    proof {
                        if let Ok(l) = rest {
                            assert(before + (seq![w] + l) =~= out@ + l);
                        }
                    }
                },
                Err(e) => {
                    return Err(e);
                },
            }
        }
        if c >= n {
            proof {
                assert(out@ + Seq::<u64>::empty() =~= out@);
            }
            done = true;
        } else {
            k = c + 1;
        }
    }
    Ok(out)
}

/// The text of the argument at a position, or what is said where there is none.
pub fn value_at<'a>(args: &'a Vec<String>, at: usize, missing: &str) -> (r: Result<&'a String, String>)
    ensures
        match r {
            Ok(v) => at < args@.len() && v@ == args@[at as int]@,
            Err(e) => at >= args@.len() && e@ == missing@,
        },
{
    if at < args.len() {
        Ok(&args[at])
    } else {
        Err(owned(missing))
    }
}

/// Trimming twice is trimming once.
pub proof fn law_trimming_is_idempotent(s: Seq<char>)
    ensures
        trimmed(trimmed(s)) == trimmed(s),
    decreases s.len(),
{
    if s.len() > 0 {
        if is_space(s[0]) {
            law_trimming_is_idempotent(s.skip(1));
        } else if is_space(s.last()) {
            law_trimming_is_idempotent(s.drop_last());
        }
    }
}

} // verus!
