//! Non-negative whole numbers of any size as a value type over a digit vector,
//! and the text forms that such a number is read from and written to.

use crate::digits::{
    canon, canonical, digits_of, is_digits, lemma_canon, lemma_digits_of, value,
};
use crate::oper::{add_vec, lemma_value_single, mul_vec, product_digits, sqr, sum_digits};
use vstd::prelude::*;
use vstd::slice::{slice_subrange, slice_to_vec};
use vstd::string::StringSliceAdditionalSpecFns;
use vstd::utf8::{encode_utf8, is_ascii_chars, is_ascii_chars_encode_utf8};

verus! {

/// Why a text was not accepted as a number.
#[derive(Clone, Copy, Debug, PartialEq, Eq, Structural)]
pub enum ParseError {
    /// Nothing stands before the `*` of a repetition.
    EmptyBase,
    /// A character of the number is not a decimal digit.
    NotADigit,
    /// What follows the `*` is not a count that fits in 64 bits.
    BadCount,
}

/// `b` is the ASCII code of a decimal digit.
pub open spec fn is_digit_byte(b: u8) -> bool {
    48 <= b <= 57
}

/// Every byte of `s` is the ASCII code of a decimal digit.
pub open spec fn all_digit_bytes(s: Seq<u8>) -> bool {
    forall|i: int| 0 <= i < s.len() ==> is_digit_byte(#[trigger] s[i])
}

/// Every byte of `s` is the ASCII code of the digit zero.
pub open spec fn all_zero_bytes(s: Seq<u8>) -> bool {
    forall|i: int| 0 <= i < s.len() ==> #[trigger] s[i] == 48
}

/// The digit vector of a decimal text: its digits in reverse order, the last
/// character first.
pub open spec fn text_digits(s: Seq<u8>) -> Seq<u8> {
    Seq::new(s.len(), |i: int| (s[s.len() - 1 - i] - 48) as u8)
}

/// The number that a decimal text stands for, the first character weighing
/// most.
pub open spec fn text_value(s: Seq<u8>) -> nat
    decreases s.len(),
{
    if s.len() == 0 {
        0
    } else {
        10 * text_value(s.drop_last()) + (s.last() - 48) as nat
    }
}

/// How many zero characters `s` ends with.
pub open spec fn trailing_zeros(s: Seq<u8>) -> nat
    decreases s.len(),
{
    if s.len() > 0 && s.last() == 48 {
        1 + trailing_zeros(s.drop_last())
    } else {
        0
    }
}

/// The index of the first `*` in `s`, or the length of `s` where it has none.
pub open spec fn first_star(s: Seq<u8>) -> int
    decreases s.len(),
{
    if s.len() == 0 || s[0] == 42 {
        0
    } else {
        1 + first_star(s.drop_first())
    }
}

/// The count that a text stands for: decimal digits, at least one, after an
/// optional `+`, that make a number which fits in 64 bits.
pub open spec fn count_of(s: Seq<u8>) -> Option<u64> {
    let body = if s.len() > 0 && s[0] == 43 {
        s.drop_first()
    } else {
        s
    };
    if body.len() > 0 && all_digit_bytes(body) && text_value(body) <= u64::MAX {
        Some(text_value(body) as u64)
    } else {
        None
    }
}

/// `n` copies of `s` in a row.
pub open spec fn repeated(s: Seq<u8>, n: nat) -> Seq<u8>
    decreases n,
{
    if n == 0 {
        Seq::empty()
    } else {
        repeated(s, (n - 1) as nat) + s
    }
}

/// What a repetition with the given base and count text stands for.
///
/// An empty base, a base with a character that is not a digit and a count that
/// is none are errors, in this order. A base of zeros only and a count of zero
/// give the single digit zero; otherwise the digits of the base are repeated
/// as often as the count says.
pub open spec fn repetition_digits(base: Seq<u8>, count: Seq<u8>) -> Result<Seq<u8>, ParseError> {
    if base.len() == 0 {
        Err(ParseError::EmptyBase)
    } else if !all_digit_bytes(base) {
        Err(ParseError::NotADigit)
    } else {
        match count_of(count) {
            None => Err(ParseError::BadCount),
            Some(c) => Ok(
                if all_zero_bytes(base) || c == 0 {
                    seq![0u8]
                } else {
                    repeated(text_digits(base), c as nat)
                },
            ),
        }
    }
}

/// What a text stands for: without a `*` the digits of a decimal number, with
/// one the repetition of what stands before the first `*` by the count that
/// follows it.
pub open spec fn expression_digits(s: Seq<u8>) -> Result<Seq<u8>, ParseError> {
    let i = first_star(s);
    if i == s.len() {
        decimal_digits(s)
    } else {
        repetition_digits(s.subrange(0, i), s.subrange(i + 1, s.len() as int))
    }
}

/// What a decimal text stands for: its digits in reverse order, or an error
/// where a character is not a digit.
pub open spec fn decimal_digits(s: Seq<u8>) -> Result<Seq<u8>, ParseError> {
    if all_digit_bytes(s) {
        Ok(text_digits(s))
    } else {
        Err(ParseError::NotADigit)
    }
}

/// The decimal text of a digit vector: its digits as characters, the most
/// significant first.
pub open spec fn digits_text(d: Seq<u8>) -> Seq<char> {
    Seq::new(d.len(), |i: int| digit_char(d[d.len() - 1 - i]))
}

/// The character of the digit `d`.
pub open spec fn digit_char(d: u8) -> char {
    (d + 48) as char
}

/// The digits of a decimal text are digits.
pub proof fn lemma_text_digits(s: Seq<u8>)
    requires
        all_digit_bytes(s),
    ensures
        is_digits(text_digits(s)),
        text_digits(s).len() == s.len(),
        all_zero_bytes(s) ==> forall|i: int| 0 <= i < s.len() ==> text_digits(s)[i] == 0,
{
    let d = text_digits(s);
    assert forall|i: int| 0 <= i < d.len() implies #[trigger] d[i] <= 9 by {
        assert(is_digit_byte(s[s.len() - 1 - i]));
    }
    if all_zero_bytes(s) {
        assert forall|i: int| 0 <= i < s.len() implies text_digits(s)[i] == 0 by {
            assert(s[s.len() - 1 - i] == 48);
        }
    }
}

/// Reading the text that a digit vector is written as gives the digit vector
/// back.
pub proof fn lemma_text_round_trip(d: Seq<u8>)
    requires
        is_digits(d),
    ensures
        decimal_digits(encode_utf8(digits_text(d))) == Ok::<Seq<u8>, ParseError>(d),
{
    let chars = digits_text(d);
    let bytes = encode_utf8(chars);
    assert(is_ascii_chars(chars)) by {
        assert forall|i: int| 0 <= i < chars.len() implies '\0' <= #[trigger] chars[i]
            <= '\u{7f}' by {
            assert(d[d.len() - 1 - i] <= 9);
        }
    }
    is_ascii_chars_encode_utf8(chars);
    assert forall|i: int| 0 <= i < bytes.len() implies is_digit_byte(#[trigger] bytes[i]) by {
        assert(d[d.len() - 1 - i] <= 9);
        assert(chars[i] as u8 == bytes[i]);
    }
    assert forall|i: int| 0 <= i < d.len() implies text_digits(bytes)[i] == d[i] by {
        let j = d.len() - 1 - i;
        assert(d[i] <= 9);
        assert(chars[j] as u8 == bytes[j]);
        assert(chars[j] == digit_char(d[i]));
    }
    assert(text_digits(bytes) =~= d);
}

/// The first `*` is where a scan from the front meets one, or the end.
proof fn lemma_first_star(s: Seq<u8>, i: int)
    requires
        0 <= i <= s.len(),
        forall|j: int| 0 <= j < i ==> s[j] != 42,
        i == s.len() || s[i] == 42,
    ensures
        first_star(s) == i,
    decreases s.len(),
{
    if i > 0 {
        let t = s.drop_first();
        assert forall|j: int| 0 <= j < i - 1 implies t[j] != 42 by {
            assert(t[j] == s[j + 1]);
        }
        lemma_first_star(t, i - 1);
    }
}

/// A text ends with as many zeros as it is long exactly where it holds zeros
/// only.
proof fn lemma_trailing_zeros(s: Seq<u8>)
    ensures
        trailing_zeros(s) <= s.len(),
        trailing_zeros(s) == s.len() <==> all_zero_bytes(s),
    decreases s.len(),
{
    if s.len() > 0 {
        let t = s.drop_last();
        lemma_trailing_zeros(t);
        if s.last() == 48 {
            if all_zero_bytes(t) {
                assert forall|i: int| 0 <= i < s.len() implies #[trigger] s[i] == 48 by {
                    if i < t.len() {
                        assert(t[i] == 48);
                    }
                }
            }
            if all_zero_bytes(s) {
                assert forall|i: int| 0 <= i < t.len() implies #[trigger] t[i] == 48 by {
                    assert(s[i] == 48);
                }
            }
        } else {
            assert(s[s.len() - 1] != 48);
        }
    }
}

/// A longer text of digits stands for no smaller number than its beginning.
proof fn lemma_text_value_grows(s: Seq<u8>, i: int)
    requires
        all_digit_bytes(s),
        0 <= i <= s.len(),
    ensures
        text_value(s.subrange(0, i)) <= text_value(s),
    decreases s.len() - i,
{
    if i < s.len() {
        let t = s.subrange(0, i + 1);
        assert(t.drop_last() =~= s.subrange(0, i));
        assert(is_digit_byte(s[i]));
        lemma_text_value_grows(s, i + 1);
    } else {
        assert(s.subrange(0, i) =~= s);
    }
}

/// The first `*` of `bytes`, if there is one.
fn find_star(bytes: &[u8]) -> (r: Option<usize>)
    ensures
        match r {
            Some(i) => i < bytes.len() && first_star(bytes@) == i,
            None => first_star(bytes@) == bytes.len(),
        },
{
    let mut i: usize = 0;
    while i < bytes.len()
        invariant
            i <= bytes.len(),
            forall|j: int| 0 <= j < i ==> bytes@[j] != 42,
        decreases bytes.len() - i,
    {
        if bytes[i] == 42 {
            proof {
                lemma_first_star(bytes@, i as int);
            }
            return Some(i);
        }
        i = i + 1;
    }
    proof {
        lemma_first_star(bytes@, i as int);
    }
    None
}

/// The digit vector of the decimal text `bytes`.
fn digits_from_text(bytes: &[u8]) -> (r: Result<Vec<u8>, ParseError>)
    ensures
        match r {
            Ok(v) => decimal_digits(bytes@) == Ok::<Seq<u8>, ParseError>(v@),
            Err(e) => decimal_digits(bytes@) == Err::<Seq<u8>, ParseError>(e),
        },
{
    let n = bytes.len();
    let mut res: Vec<u8> = Vec::new();
    let mut i: usize = 0;
    while i < n
        invariant
            i <= n,
            n == bytes.len(),
            res.len() == i,
            forall|j: int| n - i <= j < n ==> is_digit_byte(#[trigger] bytes@[j]),
            forall|j: int| 0 <= j < i ==> #[trigger] res@[j] == (bytes@[n - 1 - j] - 48) as u8,
        decreases n - i,
    {
        let b = bytes[n - 1 - i];
        if b < 48 || b > 57 {
            assert(!is_digit_byte(bytes@[n - 1 - i]));
            return Err(ParseError::NotADigit);
        }
        res.push(b - 48);
        i = i + 1;
    }
    assert(res@ =~= text_digits(bytes@));
    Ok(res)
}

/// How many zero characters `bytes` ends with.
fn count_trailing_zeros(bytes: &[u8]) -> (r: usize)
    ensures
        r == trailing_zeros(bytes@),
{
    let n = bytes.len();
    let mut i: usize = 0;
    assert(bytes@.subrange(0, n as int) =~= bytes@);
    while i < n && bytes[n - 1 - i] == 48
        invariant
            i <= n,
            n == bytes.len(),
            trailing_zeros(bytes@) == i + trailing_zeros(bytes@.subrange(0, n - i)),
        decreases n - i,
    {
        proof {
            let t = bytes@.subrange(0, n - i);
            assert(t.last() == 48);
            assert(t.drop_last() =~= bytes@.subrange(0, n - i - 1));
        }
        i = i + 1;
    }
    proof {
        let t = bytes@.subrange(0, n - i);
        if i < n {
            assert(t.last() != 48);
        }
        assert(bytes@.subrange(0, n as int) =~= bytes@);
    }
    i
}

/// The count that the text `bytes` stands for.
fn parse_count(bytes: &[u8]) -> (r: Option<u64>)
    ensures
        r == count_of(bytes@),
{
    let n = bytes.len();
    let start: usize = if n > 0 && bytes[0] == 43 {
        1
    } else {
        0
    };
    let ghost body = bytes@.subrange(start as int, n as int);
    proof {
        if start == 1 {
            assert(body =~= bytes@.drop_first());
        } else {
            assert(body =~= bytes@);
        }
    }
    if start == n {
        return None;
    }
    let mut acc: u64 = 0;
    let mut i: usize = start;
    proof {
        assert(body.subrange(0, 0) =~= Seq::<u8>::empty());
    }
    while i < n
        invariant
            start <= i <= n,
            n == bytes.len(),
            body == bytes@.subrange(start as int, n as int),
            body == (if bytes@.len() > 0 && bytes@[0] == 43 {
                bytes@.drop_first()
            } else {
                bytes@
            }),
            forall|j: int| 0 <= j < i - start ==> is_digit_byte(#[trigger] body[j]),
            acc == text_value(body.subrange(0, i - start)),
        decreases n - i,
    {
        let b = bytes[i];
        assert(body[i - start] == b);
        if b < 48 || b > 57 {
            assert(!is_digit_byte(body[i - start]));
            assert(!all_digit_bytes(body));
            return None;
        }
        let d: u64 = (b - 48) as u64;
        let ghost next = body.subrange(0, i - start + 1);
        proof {
            assert(next.drop_last() =~= body.subrange(0, i - start));
            assert(next.last() == b);
        }
        if acc > (u64::MAX - d) / 10 {
            proof {
                assert(text_value(next) == 10 * acc + d);
                assert(text_value(next) > u64::MAX);
                if all_digit_bytes(body) {
                    lemma_text_value_grows(body, i - start + 1);
                    assert(text_value(body) > u64::MAX);
                }
                assert(count_of(bytes@).is_none());
            }
            return None;
        }
        acc = acc * 10 + d;
        i = i + 1;
    }
    proof {
        assert(body.subrange(0, n - start) =~= body);
        assert(all_digit_bytes(body));
    }
    Some(acc)
}

/// `count` copies of `digits` in a row.
fn repeat_digits(digits: &Vec<u8>, count: u64) -> (res: Vec<u8>)
    ensures
        res@ == repeated(digits@, count as nat),
{
    let mut res: Vec<u8> = Vec::new();
    let mut c: u64 = 0;
    assert(res@ =~= repeated(digits@, 0));
    while c < count
        invariant
            c <= count,
            res@ == repeated(digits@, c as nat),
        decreases count - c,
    {
        let ghost before = res@;
        let mut j: usize = 0;
        while j < digits.len()
            invariant
                j <= digits.len(),
                res@ == before + digits@.subrange(0, j as int),
            decreases digits.len() - j,
        {
            res.push(digits[j]);
            j = j + 1;
            assert(res@ =~= before + digits@.subrange(0, j as int));
        }
        assert(digits@.subrange(0, digits.len() as int) =~= digits@);
        c = c + 1;
    }
    res
}

/// The digit vector of a decimal text: the digits of `s` in reverse order.
///
/// Fails where a byte of `s` is not a decimal digit. The empty text gives the
/// empty digit vector.
pub fn to_vec(s: &str) -> (r: Result<Vec<u8>, ParseError>)
    ensures
        match r {
            Ok(v) => decimal_digits(s.spec_bytes()) == Ok::<Seq<u8>, ParseError>(v@),
            Err(e) => decimal_digits(s.spec_bytes()) == Err::<Seq<u8>, ParseError>(e),
        },
{
    digits_from_text(s.as_bytes())
}

/// The length of the longest run of zero characters that `s` ends with.
pub fn null_substring(s: &str) -> (r: usize)
    ensures
        r == trailing_zeros(s.spec_bytes()),
{
    count_trailing_zeros(s.as_bytes())
}

/// Reads a repetition: the bytes of `s` before `index` are the base, those
/// after `index` the count.
pub fn parse_str(s: &str, index: usize) -> (r: Result<BigDecimal, ParseError>)
    requires
        index < s.spec_bytes().len(),
    ensures
        match r {
            Ok(n) => repetition_digits(
                s.spec_bytes().subrange(0, index as int),
                s.spec_bytes().subrange(index + 1, s.spec_bytes().len() as int),
            ) == Ok::<Seq<u8>, ParseError>(n.digits@) && n.wf(),
            Err(e) => repetition_digits(
                s.spec_bytes().subrange(0, index as int),
                s.spec_bytes().subrange(index + 1, s.spec_bytes().len() as int),
            ) == Err::<Seq<u8>, ParseError>(e),
        },
{
    parse_repetition(s.as_bytes(), index)
}

/// Reads a repetition from the bytes of a text: those before `index` are the
/// base, those after it the count.
fn parse_repetition(bytes: &[u8], index: usize) -> (r: Result<BigDecimal, ParseError>)
    requires
        index < bytes.len(),
    ensures
        match r {
            Ok(n) => repetition_digits(
                bytes@.subrange(0, index as int),
                bytes@.subrange(index + 1, bytes.len() as int),
            ) == Ok::<Seq<u8>, ParseError>(n.digits@) && n.wf(),
            Err(e) => repetition_digits(
                bytes@.subrange(0, index as int),
                bytes@.subrange(index + 1, bytes.len() as int),
            ) == Err::<Seq<u8>, ParseError>(e),
        },
{
    if index == 0 {
        return Err(ParseError::EmptyBase);
    }
    let base = slice_subrange(bytes, 0, index);
    let tail = slice_subrange(bytes, index + 1, bytes.len());
    let digits = match digits_from_text(base) {
        Ok(d) => d,
        Err(e) => {
            return Err(e);
        },
    };
    let rep = match parse_count(tail) {
        Some(c) => c,
        None => {
            return Err(ParseError::BadCount);
        },
    };
    proof {
        lemma_trailing_zeros(base@);
        lemma_text_digits(base@);
    }
    let null_s = count_trailing_zeros(base);
    if null_s == index || rep == 0 {
        return Ok(BigDecimal::zero());
    }
    let res = repeat_digits(&digits, rep);
    proof {
        lemma_repeated_digits(digits@, rep as nat);
    }
    Ok(BigDecimal { digits: res })
}

/// Copies of digits in a row are digits.
proof fn lemma_repeated_digits(d: Seq<u8>, n: nat)
    requires
        is_digits(d),
    ensures
        is_digits(repeated(d, n)),
        repeated(d, n).len() == n * d.len(),
    decreases n,
{
    if n > 0 {
        lemma_repeated_digits(d, (n - 1) as nat);
        let r = repeated(d, (n - 1) as nat);
        assert forall|i: int| 0 <= i < (r + d).len() implies #[trigger] (r + d)[i] <= 9 by {
            if i < r.len() {
                assert((r + d)[i] == r[i]);
            } else {
                assert((r + d)[i] == d[i - r.len()]);
            }
        }
        assert(n * d.len() == (n - 1) * d.len() + d.len()) by (nonlinear_arith)
            requires
                n >= 1,
        ;
    } else {
        assert(0 * d.len() == 0);
    }
}

/// It makes no difference at which end a further copy is put.
proof fn lemma_repeated_front(s: Seq<u8>, n: nat)
    ensures
        s + repeated(s, n) == repeated(s, n) + s,
    decreases n,
{
    if n == 0 {
        assert(s + repeated(s, 0) =~= repeated(s, 0) + s);
    } else {
        let r = repeated(s, (n - 1) as nat);
        lemma_repeated_front(s, (n - 1) as nat);
        assert(s + (r + s) =~= (s + r) + s);
    }
}

/// The digits of two texts in a row are the digits of the second, then those
/// of the first.
proof fn lemma_text_digits_concat(x: Seq<u8>, y: Seq<u8>)
    ensures
        text_digits(x + y) == text_digits(y) + text_digits(x),
{
    let whole = text_digits(x + y);
    let parts = text_digits(y) + text_digits(x);
    assert forall|i: int| 0 <= i < whole.len() implies whole[i] == parts[i] by {
        let j = (x + y).len() - 1 - i;
        if i < y.len() {
            assert((x + y)[j] == y[j - x.len()]);
        } else {
            assert((x + y)[j] == x[j]);
        }
    }
    assert(whole =~= parts);
}

/// A repetition stands for the number whose text is the base written out as
/// often as the count says: the digits of the repeated text are the repeated
/// digits of the base.
pub proof fn lemma_repetition_written_out(base: Seq<u8>, n: nat)
    ensures
        text_digits(repeated(base, n)) == repeated(text_digits(base), n),
    decreases n,
{
    if n == 0 {
        assert(text_digits(repeated(base, 0)) =~= repeated(text_digits(base), 0));
    } else {
        let before = repeated(base, (n - 1) as nat);
        lemma_repetition_written_out(base, (n - 1) as nat);
        lemma_text_digits_concat(before, base);
        lemma_repeated_front(text_digits(base), (n - 1) as nat);
    }
}

/// Appends `c` to `s`. Trusted: `String::push` of the standard library, which
/// adds the one character at the end and leaves the rest as it was.
#[verifier::external_body]
pub(crate) fn push_char(s: &mut String, c: char)
    ensures
        final(s)@ == old(s)@.push(c),
{
    s.push(c)
}

/// A non-negative whole number of any size. Its digits stand least significant
/// first.
pub struct BigDecimal {
    pub digits: Vec<u8>,
}

impl View for BigDecimal {
    type V = nat;

    /// The number that the digits stand for.
    open spec fn view(&self) -> nat {
        value(self.digits@)
    }
}

/// What the conversion gives is stated on `from` itself; no spec
/// function stands in for it.
impl<'a> vstd::std_specs::convert::FromSpecImpl<&'a [u8]> for BigDecimal {
    open spec fn obeys_from_spec() -> bool {
        false
    }

    open spec fn from_spec(v: &'a [u8]) -> BigDecimal {
        arbitrary()
    }
}

impl<'a> From<&'a [u8]> for BigDecimal {
    /// The number with the given digits, least significant first.
    fn from(value: &'a [u8]) -> (r: BigDecimal)
        ensures
            r.digits@ == value@,
    {
        BigDecimal::from_digits(value)
    }
}

/// What `+` asks of its operands. What it gives is stated on the operator's
/// own function; no spec function stands in for it.
impl vstd::std_specs::ops::AddSpecImpl for BigDecimal {
    open spec fn obeys_add_spec() -> bool {
        false
    }

    open spec fn add_req(self, rhs: BigDecimal) -> bool {
        self.wf() && rhs.wf()
    }

    open spec fn add_spec(self, rhs: BigDecimal) -> BigDecimal {
        self
    }
}

impl core::ops::Add for BigDecimal {
    type Output = BigDecimal;

    /// The sum of two numbers.
    fn add(self, rhs: BigDecimal) -> (r: BigDecimal)
        ensures
            r.digits@ == sum_digits(self.digits@, rhs.digits@),
            r.wf(),
            r@ == self@ + rhs@,
            self.is_canonical() && rhs.is_canonical() ==> r.is_canonical(),
    {
        self.plus(&rhs)
    }
}

/// What `*` asks of its operands. What it gives is stated on the operator's
/// own function; no spec function stands in for it.
impl vstd::std_specs::ops::MulSpecImpl for BigDecimal {
    open spec fn obeys_mul_spec() -> bool {
        false
    }

    open spec fn mul_req(self, rhs: BigDecimal) -> bool {
        self.wf() && rhs.wf()
    }

    open spec fn mul_spec(self, rhs: BigDecimal) -> BigDecimal {
        self
    }
}

impl core::ops::Mul for BigDecimal {
    type Output = BigDecimal;

    /// The product of two numbers.
    fn mul(self, rhs: BigDecimal) -> (r: BigDecimal)
        ensures
            r.digits@ == product_digits(self.digits@, rhs.digits@),
            r.wf(),
            r@ == self@ * rhs@,
            self.is_canonical() && rhs.is_canonical() ==> r.is_canonical(),
    {
        self.times(&rhs)
    }
}

impl BigDecimal {
    /// Every element of the digit vector is a decimal digit.
    pub open spec fn wf(&self) -> bool {
        is_digits(self.digits@)
    }

    /// The digit vector is in canonical form.
    pub open spec fn is_canonical(&self) -> bool {
        canonical(self.digits@)
    }

    /// The number zero.
    pub fn zero() -> (r: Self)
        ensures
            r.digits@ == seq![0u8],
            r.wf(),
            r.is_canonical(),
            r@ == 0,
    {
        let digits: Vec<u8> = vec![0u8];
        proof {
            assert(digits@ =~= seq![0u8]);
            lemma_value_single(0);
        }
        Self { digits }
    }

    /// The number one.
    pub fn one() -> (r: Self)
        ensures
            r.digits@ == seq![1u8],
            r.wf(),
            r.is_canonical(),
            r@ == 1,
    {
        let digits: Vec<u8> = vec![1u8];
        proof {
            assert(digits@ =~= seq![1u8]);
            lemma_value_single(1);
        }
        Self { digits }
    }

    /// The square of the number.
    pub fn sqr(&self) -> (r: Self)
        requires
            self.wf(),
        ensures
            r.digits@ == product_digits(self.digits@, self.digits@),
            r.wf(),
            r@ == self@ * self@,
            self.is_canonical() ==> r.is_canonical(),
    {
        Self { digits: sqr(self.digits.as_slice()) }
    }

    /// The sum of two numbers.
    pub fn plus(&self, rhs: &Self) -> (r: Self)
        requires
            self.wf(),
            rhs.wf(),
        ensures
            r.digits@ == sum_digits(self.digits@, rhs.digits@),
            r.wf(),
            r@ == self@ + rhs@,
            self.is_canonical() && rhs.is_canonical() ==> r.is_canonical(),
    {
        Self { digits: add_vec(self.digits.as_slice(), rhs.digits.as_slice()) }
    }

    /// The product of two numbers.
    pub fn times(&self, rhs: &Self) -> (r: Self)
        requires
            self.wf(),
            rhs.wf(),
        ensures
            r.digits@ == product_digits(self.digits@, rhs.digits@),
            r.wf(),
            r@ == self@ * rhs@,
            self.is_canonical() && rhs.is_canonical() ==> r.is_canonical(),
    {
        Self { digits: mul_vec(self.digits.as_slice(), rhs.digits.as_slice()) }
    }

    /// Adds `rhs` to the number.
    pub fn add_assign(&mut self, rhs: Self)
        requires
            old(self).wf(),
            rhs.wf(),
        ensures
            final(self).digits@ == sum_digits(old(self).digits@, rhs.digits@),
            final(self).wf(),
            final(self)@ == old(self)@ + rhs@,
            old(self).is_canonical() && rhs.is_canonical() ==> final(self).is_canonical(),
    {
        self.digits = add_vec(self.digits.as_slice(), rhs.digits.as_slice());
    }

    /// Multiplies the number by `rhs`.
    pub fn mul_assign(&mut self, rhs: Self)
        requires
            old(self).wf(),
            rhs.wf(),
        ensures
            final(self).digits@ == product_digits(old(self).digits@, rhs.digits@),
            final(self).wf(),
            final(self)@ == old(self)@ * rhs@,
            old(self).is_canonical() && rhs.is_canonical() ==> final(self).is_canonical(),
    {
        self.digits = mul_vec(self.digits.as_slice(), rhs.digits.as_slice());
    }

    /// The number with the given digits, least significant first.
    pub fn from_digits(value: &[u8]) -> (r: Self)
        ensures
            r.digits@ == value@,
    {
        Self { digits: slice_to_vec(value) }
    }

    /// The number `number` in canonical form.
    pub fn from_integer(number: u128) -> (r: Self)
        ensures
            r.digits@ == canon(number as nat),
            r.wf(),
            r.is_canonical(),
            r@ == number,
    {
        let mut digits: Vec<u8> = Vec::new();
        let mut rest: u128 = number;
        proof {
            lemma_canon(number as nat);
            lemma_digits_of(number as nat);
        }
        if rest == 0 {
            digits.push(0);
            assert(digits@ =~= seq![0u8]);
            return Self { digits };
        }
        while rest > 0
            invariant
                digits_of(number as nat) == digits@ + digits_of(rest as nat),
            decreases rest,
        {
            let ghost before = digits@;
            digits.push((rest % 10) as u8);
            proof {
                assert(digits_of(rest as nat) == seq![(rest % 10) as u8] + digits_of(
                    (rest / 10) as nat,
                ));
                assert(digits@ + digits_of((rest / 10) as nat) =~= before + digits_of(rest as nat));
            }
            rest = rest / 10;
        }
        assert(digits@ =~= digits@ + digits_of(0));
        Self { digits }
    }

    /// Reads a decimal number: the digits of `value`, the most significant
    /// first. Fails where a character is not a decimal digit.
    pub fn from_decimal_string(value: &str) -> (r: Result<Self, ParseError>)
        ensures
            match r {
                Ok(n) => decimal_digits(value.spec_bytes()) == Ok::<Seq<u8>, ParseError>(n.digits@)
                    && n.wf(),
                Err(e) => decimal_digits(value.spec_bytes()) == Err::<Seq<u8>, ParseError>(e),
            },
    {
        match to_vec(value) {
            Ok(digits) => {
                proof {
                    lemma_text_digits(value.spec_bytes());
                }
                Ok(Self { digits })
            },
            Err(e) => Err(e),
        }
    }

    /// Reads a decimal number, or a repetition `base*count`, which stands for
    /// the digits of `base` written `count` times in a row.
    ///
    /// In a repetition a base of zeros only, and a count of zero, give the
    /// number zero. An empty base, a count that is no number and a character
    /// that is not a digit are errors.
    pub fn from_repetition_expression(value: &str) -> (r: Result<Self, ParseError>)
        ensures
            match r {
                Ok(n) => expression_digits(value.spec_bytes()) == Ok::<Seq<u8>, ParseError>(
                    n.digits@,
                ) && n.wf(),
                Err(e) => expression_digits(value.spec_bytes()) == Err::<Seq<u8>, ParseError>(e),
            },
    {
        let bytes = value.as_bytes();
        match find_star(bytes) {
            Some(index) => parse_repetition(bytes, index),
            None => match digits_from_text(bytes) {
                Ok(digits) => {
                    proof {
                        lemma_text_digits(bytes@);
                    }
                    Ok(Self { digits })
                },
                Err(e) => Err(e),
            },
        }
    }

    /// The decimal text of the number, the most significant digit first.
    pub fn to_string(&self) -> (s: String)
        requires
            self.wf(),
        ensures
            s@ == digits_text(self.digits@),
    {
        let n = self.digits.len();
        let mut s = String::new();
        let mut i: usize = 0;
        while i < n
            invariant
                i <= n,
                n == self.digits.len(),
                self.wf(),
                s@ == digits_text(self.digits@).subrange(0, i as int),
            decreases n - i,
        {
            let d = self.digits[n - 1 - i];
            assert(d <= 9) by {
                assert(self.digits@[n - 1 - i] <= 9);
            }
            let ghost before = s@;
            push_char(&mut s, (d + 48) as char);
            i = i + 1;
            assert(s@ =~= digits_text(self.digits@).subrange(0, i as int));
        }
        assert(digits_text(self.digits@).subrange(0, n as int) =~= digits_text(self.digits@));
        s
    }
}

} // verus!
