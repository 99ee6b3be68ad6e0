//! Character classes and decimal number text shared by the lexer and the interpreter.
use vstd::prelude::*;

verus! {

broadcast use vstd::string::group_string_axioms;

/// `c` is one of the ASCII digits `0` to `9`.
pub open spec fn is_digit(c: char) -> bool {
    '0' <= c && c <= '9'
}

/// The numeric value of an ASCII digit.
pub open spec fn digit_value(c: char) -> int {
    (c as int) - ('0' as int)
}

/// `c` has the Unicode `White_Space` property (what `char::is_whitespace` tests).
pub open spec fn is_space(c: char) -> bool {
    let n = c as int;
    ||| 0x09 <= n <= 0x0D
    ||| n == 0x20
    ||| n == 0x85
    ||| n == 0xA0
    ||| n == 0x1680
    ||| 0x2000 <= n <= 0x200A
    ||| n == 0x2028
    ||| n == 0x2029
    ||| n == 0x202F
    ||| n == 0x205F
    ||| n == 0x3000
}

/// `b` is ASCII white space as `u8::is_ascii_whitespace` defines it:
/// space, tab, line feed, form feed or carriage return.
pub open spec fn is_ascii_space(b: u8) -> bool {
    b == 0x20u8 || b == 0x09u8 || b == 0x0Au8 || b == 0x0Cu8 || b == 0x0Du8
}

/// Tests `is_digit`.
pub fn char_is_digit(c: char) -> (r: bool)
    ensures
        r == is_digit(c),
{
    '0' <= c && c <= '9'
}

/// Tests `is_space`.
pub fn char_is_space(c: char) -> (r: bool)
    ensures
        r == is_space(c),
{
    let n = c as u32;
    (0x09 <= n && n <= 0x0D) || n == 0x20 || n == 0x85 || n == 0xA0 || n == 0x1680 || (0x2000
        <= n && n <= 0x200A) || n == 0x2028 || n == 0x2029 || n == 0x202F || n == 0x205F || n
        == 0x3000
}

/// Tests `is_ascii_space`.
pub fn byte_is_space(b: u8) -> (r: bool)
    ensures
        r == is_ascii_space(b),
{
    b == 0x20u8 || b == 0x09u8 || b == 0x0Au8 || b == 0x0Cu8 || b == 0x0Du8
}

/// The characters of a string slice, one element per Unicode scalar value.
pub fn chars_of(input: &str) -> (v: Vec<char>)
    ensures
        v@ == input@,
{
    let mut v: Vec<char> = Vec::new();
    for c in it: input.chars()
        invariant
            it.seq() == input@,
            v@ == it.seq().take(it.index() as int),
    {
        v.push(c);
    }
    v
}

/// The value of the decimal numeral `s` (most significant digit first).
pub open spec fn numeral_value(s: Seq<u8>) -> int
    decreases s.len(),
{
    if s.len() == 0 {
        0
    } else {
        numeral_value(s.drop_last()) * 10 + (s.last() as int - 48)
    }
}

/// `s` is a non-empty run of ASCII digit bytes.
pub open spec fn is_numeral(s: Seq<u8>) -> bool {
    s.len() > 0 && forall|i: int| 0 <= i < s.len() ==> 48 <= #[trigger] s[i] <= 57
}

/// The shortest decimal numeral of the natural number `n`.
pub open spec fn decimal_digits(n: nat) -> Seq<u8>
    decreases n,
{
    if n < 10 {
        seq![(48 + n) as u8]
    } else {
        decimal_digits(n / 10).push((48 + n % 10) as u8)
    }
}

/// What `i64::from_str` accepts: an optional `+` or `-` followed by at least one ASCII
/// digit, whose value fits in `i64`. Any other text is rejected.
pub open spec fn parse_i64_spec(s: Seq<u8>) -> Option<i64> {
    if s.len() > 0 && s[0] == 45u8 {
        let v = -numeral_value(s.skip(1));
        if is_numeral(s.skip(1)) && i64::MIN <= v {
            Some(v as i64)
        } else {
            None
        }
    } else if s.len() > 0 && s[0] == 43u8 {
        let v = numeral_value(s.skip(1));
        if is_numeral(s.skip(1)) && v <= i64::MAX {
            Some(v as i64)
        } else {
            None
        }
    } else {
        let v = numeral_value(s);
        if is_numeral(s) && v <= i64::MAX {
            Some(v as i64)
        } else {
            None
        }
    }
}

proof fn lemma_numeral_value_monotone(s: Seq<u8>, k: int)
    requires
        0 <= k <= s.len(),
        forall|i: int| 0 <= i < s.len() ==> 48 <= #[trigger] s[i] <= 57,
    ensures
        0 <= numeral_value(s.take(k)) <= numeral_value(s),
    decreases s.len(),
{
    if s.len() == 0 {
        assert(s.take(k) =~= s);
    } else if k == s.len() {
        assert(s.take(k) =~= s);
        lemma_numeral_value_monotone(s.drop_last(), 0);
        assert(s.drop_last().take(0) =~= s.take(0));
    } else {
        assert(s.take(k) =~= s.drop_last().take(k));
        lemma_numeral_value_monotone(s.drop_last(), k);
    }
}

/// Reads the numeral `s[from..]` (all ASCII digits) as an `i64` magnitude that may be
/// negated: `None` when its value exceeds `limit`.
fn numeral_upto(s: &Vec<u8>, from: usize, limit: u64) -> (r: Option<u64>)
    requires
        from <= s@.len(),
        9 <= limit <= 9223372036854775808u64,
        forall|i: int| from <= i < s@.len() ==> 48 <= #[trigger] s@[i] <= 57,
    ensures
        r == (if numeral_value(s@.skip(from as int)) <= limit {
            Some(numeral_value(s@.skip(from as int)) as u64)
        } else {
            None::<u64>
        }),
        r matches Some(m) ==> m as int == numeral_value(s@.skip(from as int)),
{
    let ghost d = s@.skip(from as int);
    let mut acc: u64 = 0;
    let mut i: usize = from;
    while i < s.len()
        invariant
            from <= i <= s@.len(),
            d == s@.skip(from as int),
            9 <= limit <= 9223372036854775808u64,
            forall|k: int| from <= k < s@.len() ==> 48 <= #[trigger] s@[k] <= 57,
            acc == numeral_value(d.take(i - from)),
            acc <= limit,
        decreases s@.len() - i,
    {
        let digit = (s[i] - 48) as u64;
        assert(d.take(i + 1 - from).drop_last() =~= d.take(i - from));
        assert(d[i - from] == s@[i as int]);
        if acc > (limit - digit) / 10 {
            proof {
                assert(numeral_value(d.take(i + 1 - from)) == acc * 10 + digit);
                assert(acc * 10 + digit > limit) by (nonlinear_arith)
                    requires
                        acc > (limit - digit) / 10,
                        digit <= limit || digit <= 9,
                        digit <= 9,
                ;
                assert forall|k: int| 0 <= k < d.len() implies 48 <= #[trigger] d[k] <= 57 by {
                    assert(d[k] == s@[k + from]);
                }
                lemma_numeral_value_monotone(d, i + 1 - from);
            }
            return None;
        }
        proof {
            assert(acc * 10 + digit <= limit) by (nonlinear_arith)
                requires
                    acc <= (limit - digit) / 10,
                    digit <= 9,
            ;
        }
        acc = acc * 10 + digit;
        i = i + 1;
    }
    assert(d.take(i - from) =~= d);
    assert(acc as int == numeral_value(d));
    Some(acc)
}

/// Parses the bytes of a word as `i64::from_str` does.
pub fn parse_i64(s: &Vec<u8>) -> (r: Option<i64>)
    ensures
        r == parse_i64_spec(s@),
{
    let mut start: usize = 0;
    let mut negative = false;
    if s.len() > 0 && (s[0] == 45u8 || s[0] == 43u8) {
        negative = s[0] == 45u8;
        start = 1;
    }
    assert(s@.skip(0) =~= s@);
    if start >= s.len() {
        assert(s@.skip(start as int).len() == 0);
        return None;
    }
    let mut i = start;
    while i < s.len()
        invariant
            start <= i <= s@.len(),
            forall|k: int| start <= k < i ==> 48 <= #[trigger] s@[k] <= 57,
            start == 1 <==> (s@.len() > 0 && (s@[0] == 45u8 || s@[0] == 43u8)),
            start == 0 || start == 1,
            negative <==> (s@.len() > 0 && s@[0] == 45u8),
            s@.skip(0) == s@,
        decreases s@.len() - i,
    {
        if s[i] < 48u8 || s[i] > 57u8 {
            assert(!is_numeral(s@.skip(start as int))) by {
                assert(s@.skip(start as int)[i - start] == s@[i as int]);
            }
            return None;
        }
        i = i + 1;
    }
    assert(is_numeral(s@.skip(start as int))) by {
        assert forall|k: int| 0 <= k < s@.skip(start as int).len() implies 48
            <= #[trigger] s@.skip(start as int)[k] <= 57 by {
            assert(s@.skip(start as int)[k] == s@[k + start]);
        }
    }
    if negative {
        match numeral_upto(s, start, 9223372036854775808u64) {
            Some(m) => {
                assert(m as int == numeral_value(s@.skip(start as int)));
                if m == 9223372036854775808u64 {
                    Some(i64::MIN)
                } else {
                    Some(-(m as i64))
                }
            },
            None => None,
        }
    } else {
        match numeral_upto(s, start, 9223372036854775807u64) {
            Some(m) => {
                assert(m as int == numeral_value(s@.skip(start as int)));
                Some(m as i64)
            },
            None => None,
        }
    }
}

/// The decimal numeral of `n`, as `u64`'s `Display` writes it.
pub fn decimal_of(n: u64) -> (r: Vec<u8>)
    ensures
        r@ == decimal_digits(n as nat),
    decreases n,
{
    if n < 10 {
        let mut v: Vec<u8> = Vec::new();
        v.push((48 + n) as u8);
        assert(v@ =~= seq![(48 + n) as u8]);
        v
    } else {
        let mut v = decimal_of(n / 10);
        v.push((48 + n % 10) as u8);
        v
    }
}

} // verus!
