//! Signed arbitrary-precision token amounts, their decimal text form, and
//! the arithmetic the library needs on them.

use vstd::prelude::*;
use vstd::string::StringExecFns;

verus! {

/// A signed integer of any size, held as its two's complement bytes in
/// little-endian order (the empty sequence stands for zero).
pub struct Amount {
    pub twos_complement_le: Vec<u8>,
}

/// Unsigned little-endian value of a byte sequence.
pub open spec fn le_unsigned(b: Seq<u8>) -> nat
    decreases b.len(),
{
    if b.len() == 0 {
        0
    } else {
        (b[0] as nat) + 256 * le_unsigned(b.drop_first())
    }
}

/// 256 to the power `n`.
pub open spec fn pow256(n: nat) -> nat
    decreases n,
{
    if n == 0 {
        1
    } else {
        256 * pow256((n - 1) as nat)
    }
}

/// Signed value of little-endian two's complement bytes.
pub open spec fn le_signed(b: Seq<u8>) -> int {
    if b.len() > 0 && b.last() >= 128 {
        le_unsigned(b) - pow256(b.len())
    } else {
        le_unsigned(b) as int
    }
}

impl Amount {
    /// The integer this amount stands for.
    pub open spec fn value(&self) -> int {
        le_signed(self.twos_complement_le@)
    }

    /// Zero.
    pub fn zero() -> (r: Amount)
        ensures
            r.value() == 0,
    {
        Amount { twos_complement_le: Vec::new() }
    }
}

/// The character of a decimal digit.
pub open spec fn digit_char(d: nat) -> char {
    (48 + d) as char
}

/// Decimal digits of a natural number, most significant first, without
/// leading zeros ("0" for zero).
pub open spec fn nat_digits(n: nat) -> Seq<char>
    decreases n,
{
    if n < 10 {
        seq![digit_char(n)]
    } else {
        nat_digits(n / 10).push(digit_char(n % 10))
    }
}

/// Decimal text of an integer: a '-' before the digits of a negative one.
pub open spec fn decimal_string(v: int) -> Seq<char> {
    if v < 0 {
        seq!['-'] + nat_digits((-v) as nat)
    } else {
        nat_digits(v as nat)
    }
}

/// A character that a decimal body may hold: a digit or an underscore.
pub open spec fn is_digit_or_underscore(c: char) -> bool {
    ('0' <= c && c <= '9') || c == '_'
}

/// Value of a run of digits and underscores, the underscores skipped.
pub open spec fn digits_value(s: Seq<char>) -> nat
    decreases s.len(),
{
    if s.len() == 0 {
        0
    } else if s.last() == '_' {
        digits_value(s.drop_last())
    } else {
        digits_value(s.drop_last()) * 10 + ((s.last() as int - 48) as nat)
    }
}

/// The text after one leading '+' is dropped, where a second '+' does not
/// follow it.
pub open spec fn strip_plus(s: Seq<char>) -> Seq<char> {
    if s.len() > 0 && s[0] == '+' && !(s.len() > 1 && s[1] == '+') {
        s.drop_first()
    } else {
        s
    }
}

/// The unsigned part of decimal parsing: one optional '+', then a non-empty
/// run of digits and underscores that does not start with an underscore.
pub open spec fn parse_unsigned_decimal(s: Seq<char>) -> Option<nat> {
    if strip_plus(s).len() == 0 || strip_plus(s)[0] == '_' || !(forall|i: int|
        0 <= i < strip_plus(s).len() ==> is_digit_or_underscore(#[trigger] strip_plus(s)[i])) {
        None
    } else {
        Some(digits_value(strip_plus(s)))
    }
}

/// What decimal parsing of a big integer gives: an optional '-' (not
/// followed by '+'), then the unsigned part.
pub open spec fn parse_decimal(s: Seq<char>) -> Option<int> {
    if s.len() > 0 && s[0] == '-' {
        if s.len() > 1 && s[1] == '+' {
            None
        } else {
            match parse_unsigned_decimal(s.drop_first()) {
                Some(v) => Some(-(v as int)),
                None => None,
            }
        }
    } else {
        match parse_unsigned_decimal(s) {
            Some(v) => Some(v as int),
            None => None,
        }
    }
}

/// Parsed value of a decimal text, or zero where it does not parse.
pub open spec fn parse_decimal_or_zero(s: Seq<char>) -> int {
    match parse_decimal(s) {
        Some(v) => v,
        None => 0,
    }
}

/// `substreams::scalar::BigInt::from_str` (decimal parsing by
/// `num_bigint::BigInt::from_str_radix` with radix 10), taken to two's
/// complement bytes: the claim is that it accepts exactly the texts that
/// `parse_decimal` accepts and yields the same value.
#[verifier::external_body]
fn bigint_from_str(s: &str) -> (r: Option<Amount>)
    ensures
        match parse_decimal(s@) {
            Some(v) => r is Some && r->0.value() == v,
            None => r is None,
        },
{
    match <substreams::scalar::BigInt as std::str::FromStr>::from_str(s) {
        Ok(x) => Some(Amount { twos_complement_le: x.to_signed_bytes_le() }),
        Err(_) => None,
    }
}

/// `substreams::scalar::BigInt` addition: the claim is that the sum of the
/// two values comes back.
#[verifier::external_body]
fn bigint_add(a: &Amount, b: &Amount) -> (r: Amount)
    ensures
        r.value() == a.value() + b.value(),
{
    let x = substreams::scalar::BigInt::from_signed_bytes_le(&a.twos_complement_le);
    let y = substreams::scalar::BigInt::from_signed_bytes_le(&b.twos_complement_le);
    Amount { twos_complement_le: (x + y).to_signed_bytes_le() }
}

/// `ToString` of `substreams::scalar::BigInt` (the `Display` of
/// `num_bigint::BigInt`): the claim is that it writes `decimal_string` of
/// the value.
#[verifier::external_body]
fn bigint_to_string(a: &Amount) -> (r: String)
    ensures
        r@ == decimal_string(a.value()),
{
    substreams::scalar::BigInt::from_signed_bytes_le(&a.twos_complement_le).to_string()
}

impl Amount {
    /// Parses a decimal text as a big integer does; `None` where it does not
    /// parse.
    pub fn parse(s: &str) -> (r: Option<Amount>)
        ensures
            match parse_decimal(s@) {
                Some(v) => r is Some && r->0.value() == v,
                None => r is None,
            },
    {
        bigint_from_str(s)
    }

    /// Parses a decimal text, zero where it does not parse.
    pub fn parse_or_zero(s: &str) -> (r: Amount)
        ensures
            r.value() == parse_decimal_or_zero(s@),
    {
        match bigint_from_str(s) {
            Some(a) => a,
            None => Amount::zero(),
        }
    }

    /// The sum of two amounts.
    pub fn add(&self, other: &Amount) -> (r: Amount)
        ensures
            r.value() == self.value() + other.value(),
    {
        bigint_add(self, other)
    }

    /// The decimal text of this amount.
    pub fn to_decimal_string(&self) -> (r: String)
        ensures
            r@ == decimal_string(self.value()),
    {
        bigint_to_string(self)
    }
}

/// Every character of `nat_digits(n)` is a digit, and reading them back
/// gives `n`.
pub proof fn lemma_nat_digits_read_back(n: nat)
    ensures
        nat_digits(n).len() >= 1,
        forall|i: int| 0 <= i < nat_digits(n).len() ==> '0' <= #[trigger] nat_digits(n)[i] <= '9',
        digits_value(nat_digits(n)) == n,
    decreases n,
{
    if n < 10 {
        assert(nat_digits(n) =~= seq![digit_char(n)]);
        assert(seq![digit_char(n)].drop_last() =~= Seq::<char>::empty());
        assert(digit_char(n) as int == 48 + n);
        assert(digits_value(seq![digit_char(n)]) == digits_value(Seq::<char>::empty()) * 10 + (n as int));
    } else {
        lemma_nat_digits_read_back(n / 10);
        let s = nat_digits(n);
        assert(s.drop_last() =~= nat_digits(n / 10));
        assert(s.last() == digit_char(n % 10));
        assert(digit_char(n % 10) as int == 48 + n % 10);
        assert((n / 10) * 10 + n % 10 == n);
        assert(s.last() != '_');
        assert(digits_value(s) == digits_value(s.drop_last()) * 10 + ((s.last() as int - 48) as nat));
    }
}

/// Decimal text read back: parsing `decimal_string(v)` gives `v`.
pub proof fn lemma_decimal_round_trip(v: int)
    ensures
        parse_decimal(decimal_string(v)) == Some(v),
{
    if v < 0 {
        let m = (-v) as nat;
        lemma_nat_digits_read_back(m);
        let s = decimal_string(v);
        assert(s.drop_first() =~= nat_digits(m));
        assert(s[1] == nat_digits(m)[0]);
    } else {
        lemma_nat_digits_read_back(v as nat);
        assert(nat_digits(v as nat)[0] != '-');
    }
}

/// A '-' put before the decimal text of a non-negative value parses to the
/// negated value.
pub proof fn lemma_negated_decimal_round_trip(v: int)
    requires
        v >= 0,
    ensures
        parse_decimal(seq!['-'] + decimal_string(v)) == Some(-v),
{
    lemma_nat_digits_read_back(v as nat);
    let s = seq!['-'] + decimal_string(v);
    assert(s.drop_first() =~= nat_digits(v as nat));
    assert(s[1] == nat_digits(v as nat)[0]);
}

/// The text of one decimal digit.
fn digit_str(d: u64) -> (s: &'static str)
    requires
        d < 10,
    ensures
        s@ == seq![digit_char(d as nat)],
{
    proof {
        reveal_strlit("0");
        reveal_strlit("1");
        reveal_strlit("2");
        reveal_strlit("3");
        reveal_strlit("4");
        reveal_strlit("5");
        reveal_strlit("6");
        reveal_strlit("7");
        reveal_strlit("8");
        reveal_strlit("9");
    }
    match d {
        0 => "0",
        1 => "1",
        2 => "2",
        3 => "3",
        4 => "4",
        5 => "5",
        6 => "6",
        7 => "7",
        8 => "8",
        _ => "9",
    }
}

/// Appends the decimal digits of `n` to `out`.
fn append_digits(out: &mut String, n: u64)
    ensures
        final(out)@ == old(out)@ + nat_digits(n as nat),
    decreases n,
{
    if n >= 10 {
        append_digits(out, n / 10);
    }
    out.append(digit_str(n % 10));
    proof {
        if n >= 10 {
            assert(old(out)@ + nat_digits(n as nat) =~= old(out)@ + nat_digits((n / 10) as nat)
                + seq![digit_char((n % 10) as nat)]);
        } else {
            assert(nat_digits(n as nat) == seq![digit_char(n as nat)]);
        }
    }
}

/// The decimal text of an unsigned 64-bit number.
pub fn u64_to_decimal(n: u64) -> (r: String)
    ensures
        r@ == decimal_string(n as int),
{
    let mut out = String::new();
    append_digits(&mut out, n);
    out
}

/// The decimal text of a signed 64-bit number.
pub fn i64_to_decimal(n: i64) -> (r: String)
    ensures
        r@ == decimal_string(n as int),
{
    let mut out = String::new();
    if n < 0 {
        proof {
            reveal_strlit("-");
        }
        out.append("-");
        let m: u64 = if n == i64::MIN {
            9223372036854775808u64
        } else {
            (-n) as u64
        };
        append_digits(&mut out, m);
        assert(out@ =~= seq!['-'] + nat_digits((-n) as nat));
    } else {
        append_digits(&mut out, n as u64);
        assert(out@ =~= nat_digits(n as nat));
    }
    out
}

/// A non-empty run of decimal digits: an unsigned decimal text.
pub open spec fn is_unsigned_decimal(s: Seq<char>) -> bool {
    s.len() > 0 && forall|i: int| 0 <= i < s.len() ==> '0' <= #[trigger] s[i] <= '9'
}

/// The decimal text of a non-negative value is unsigned, and a '-' put
/// before it gives a text that parses to the negated value.
pub proof fn lemma_unsigned_decimal_shape(v: int)
    requires
        v >= 0,
    ensures
        is_unsigned_decimal(decimal_string(v)),
        parse_decimal(seq!['-'] + decimal_string(v)) == Some(-v),
{
    lemma_nat_digits_read_back(v as nat);
    lemma_negated_decimal_round_trip(v);
}

} // verus!
