use vstd::prelude::*;
use vstd::string::StringExecFns;

verus! {

/// One parcel identifier: borough, block and lot.
///
/// The three fields are caller-trusted: `new` performs no validation.  The
/// canonical ten-character text form (one borough digit, five block digits,
/// four lot digits, zero-padded) is produced by `format` and accepted by
/// `parse`.
#[derive(Debug, PartialEq, Eq, Structural, PartialOrd, Ord, Hash, Clone, Copy)]
pub struct BBL {
    pub boro: u8,
    pub block: u32,
    pub lot: u16,
}

/// Why a piece of text is not a canonical BBL: wrong length, or a
/// non-digit where a digit belongs.
#[derive(Debug, PartialEq, Eq, Structural, Clone, Copy)]
pub enum BBLParseError {
    InvalidInt,
    InvalidLength,
}

/// Strict total order on BBLs: lexicographic by borough, then block, then lot.
pub open spec fn bbl_lt(a: BBL, b: BBL) -> bool {
    ||| a.boro < b.boro
    ||| (a.boro == b.boro && a.block < b.block)
    ||| (a.boro == b.boro && a.block == b.block && a.lot < b.lot)
}

/// Non-strict counterpart of `bbl_lt`.
pub open spec fn bbl_le(a: BBL, b: BBL) -> bool {
    bbl_lt(a, b) || a == b
}

/// `bbl_lt` is a strict total order: any two BBLs are comparable, never in
/// both directions, and equal triples are equal values.
pub proof fn lemma_bbl_order_total(a: BBL, b: BBL)
    ensures
        bbl_lt(a, b) || bbl_lt(b, a) || a == b,
        !(bbl_lt(a, b) && bbl_lt(b, a)),
        a == b ==> !bbl_lt(a, b),
{
    if a.boro == b.boro && a.block == b.block && a.lot == b.lot {
        assert(a == b);
    }
}

/// `bbl_lt` is transitive.
pub proof fn lemma_bbl_lt_trans(a: BBL, b: BBL, c: BBL)
    requires
        bbl_lt(a, b),
        bbl_lt(b, c),
    ensures
        bbl_lt(a, c),
{
}

/// Executable comparison agreeing with the `bbl_lt` order.
pub fn bbl_before(a: &BBL, b: &BBL) -> (r: bool)
    ensures
        r == bbl_lt(*a, *b),
{
    if a.boro != b.boro {
        a.boro < b.boro
    } else if a.block != b.block {
        a.block < b.block
    } else {
        a.lot < b.lot
    }
}

/// A decimal digit character.
pub open spec fn is_digit(c: char) -> bool {
    48 <= c as int <= 57
}

/// The numeric value of a decimal digit character.
pub open spec fn digit_val(c: char) -> int {
    c as int - 48
}

/// Every character of the sequence is a decimal digit.
pub open spec fn all_digits(s: Seq<char>) -> bool {
    forall|i: int| 0 <= i < s.len() ==> is_digit(#[trigger] s[i])
}

/// The digit character for a value between 0 and 9.
pub open spec fn digit_char(d: int) -> char {
    if d == 0 {
        '0'
    } else if d == 1 {
        '1'
    } else if d == 2 {
        '2'
    } else if d == 3 {
        '3'
    } else if d == 4 {
        '4'
    } else if d == 5 {
        '5'
    } else if d == 6 {
        '6'
    } else if d == 7 {
        '7'
    } else if d == 8 {
        '8'
    } else {
        '9'
    }
}

pub proof fn lemma_digit_char_val(d: int)
    requires
        0 <= d <= 9,
    ensures
        is_digit(digit_char(d)),
        digit_val(digit_char(d)) == d,
{
}

pub proof fn lemma_digit_char_of_val(c: char)
    requires
        is_digit(c),
    ensures
        digit_char(digit_val(c)) == c,
{
}

/// The five digit characters of a block number, zero-padded.
pub open spec fn block_chars(n: int) -> Seq<char> {
    seq![
        digit_char(n / 10000),
        digit_char((n / 1000) % 10),
        digit_char((n / 100) % 10),
        digit_char((n / 10) % 10),
        digit_char(n % 10),
    ]
}

/// The four digit characters of a lot number, zero-padded.
pub open spec fn lot_chars(n: int) -> Seq<char> {
    seq![digit_char(n / 1000), digit_char((n / 100) % 10), digit_char((n / 10) % 10), digit_char(n % 10)]
}

impl BBL {
    /// All three fields fit their decimal field widths, so that the
    /// canonical ten-character form can represent the value.
    pub open spec fn in_width(self) -> bool {
        self.boro <= 9 && self.block <= 99999 && self.lot <= 9999
    }

    /// The canonical ten-character form, as a character sequence.
    pub open spec fn spec_format(self) -> Seq<char> {
        seq![digit_char(self.boro as int)] + block_chars(self.block as int) + lot_chars(
            self.lot as int,
        )
    }

    pub fn new(boro: u8, block: u32, lot: u16) -> (r: BBL)
        ensures
            r == (BBL { boro, block, lot }),
    {
        BBL { boro, block, lot }
    }
}

/// What `BBL::parse` returns for any character sequence: the only accepted
/// input is the canonical ten-character all-digit form.
pub open spec fn spec_parse(s: Seq<char>) -> Result<BBL, BBLParseError> {
    if s.len() != 10 {
        Err(BBLParseError::InvalidLength)
    } else if !all_digits(s) {
        Err(BBLParseError::InvalidInt)
    } else {
        Ok(
            BBL {
                boro: digit_val(s[0]) as u8,
                block: (digit_val(s[1]) * 10000 + digit_val(s[2]) * 1000 + digit_val(s[3]) * 100
                    + digit_val(s[4]) * 10 + digit_val(s[5])) as u32,
                lot: (digit_val(s[6]) * 1000 + digit_val(s[7]) * 100 + digit_val(s[8]) * 10
                    + digit_val(s[9])) as u16,
            },
        )
    }
}

/// Append one digit character to the string.
fn push_digit(out: &mut String, d: u8)
    requires
        d <= 9,
    ensures
        final(out)@ == old(out)@.push(digit_char(d as int)),
{
    let s: &str = if d == 0 {
        "0"
    } else if d == 1 {
        "1"
    } else if d == 2 {
        "2"
    } else if d == 3 {
        "3"
    } else if d == 4 {
        "4"
    } else if d == 5 {
        "5"
    } else if d == 6 {
        "6"
    } else if d == 7 {
        "7"
    } else if d == 8 {
        "8"
    } else {
        "9"
    };
    proof {
        reveal_strlit("0");
        reveal_strlit("1");
        reveal_strlit("2");
        reveal_strlit("3");
        reveal_strlit("4");
        reveal_strlit("5");
        reveal_strlit("6");
        reveal_strlit("7");
        reveal_strlit("8");
        reveal_strlit("9");
        assert(s@ =~= Seq::<char>::empty().push(digit_char(d as int)));
    }
    out.append(s);
    proof {
        assert(out@ =~= old(out)@.push(digit_char(d as int)));
    }
}

/// Append the five zero-padded digits of a block number.
pub(crate) fn append_block5(out: &mut String, n: u32)
    requires
        n <= 99999,
    ensures
        final(out)@ == old(out)@ + block_chars(n as int),
{
    assert(n / 10000 <= 9);
    push_digit(out, (n / 10000) as u8);
    push_digit(out, ((n / 1000) % 10) as u8);
    push_digit(out, ((n / 100) % 10) as u8);
    push_digit(out, ((n / 10) % 10) as u8);
    push_digit(out, (n % 10) as u8);
    proof {
        assert(out@ =~= old(out)@ + block_chars(n as int));
    }
}

/// Append the four zero-padded digits of a lot number.
pub(crate) fn append_lot4(out: &mut String, n: u16)
    requires
        n <= 9999,
    ensures
        final(out)@ == old(out)@ + lot_chars(n as int),
{
    assert(n / 1000 <= 9);
    push_digit(out, (n / 1000) as u8);
    push_digit(out, ((n / 100) % 10) as u8);
    push_digit(out, ((n / 10) % 10) as u8);
    push_digit(out, (n % 10) as u8);
    proof {
        assert(out@ =~= old(out)@ + lot_chars(n as int));
    }
}

/// Append the single borough digit.
pub(crate) fn append_boro1(out: &mut String, n: u8)
    requires
        n <= 9,
    ensures
        final(out)@ == old(out)@ + seq![digit_char(n as int)],
{
    push_digit(out, n);
    proof {
        assert(out@ =~= old(out)@ + seq![digit_char(n as int)]);
    }
}

impl BBL {
    /// The canonical ten-character text form: one borough digit, five block
    /// digits and four lot digits, zero-padded.
    pub fn format(&self) -> (r: String)
        requires
            self.in_width(),
        ensures
            r@ == self.spec_format(),
    {
        let mut out = String::new();
        append_boro1(&mut out, self.boro);
        append_block5(&mut out, self.block);
        append_lot4(&mut out, self.lot);
        proof {
            assert(out@ =~= self.spec_format());
        }
        out
    }

    /// Parse the canonical ten-character form; any other length is rejected
    /// as `InvalidLength`, and any non-digit character as `InvalidInt`.
    pub fn parse(s: &str) -> (r: Result<BBL, BBLParseError>)
        ensures
            r == spec_parse(s@),
    {
        if s.unicode_len() != 10 {
            return Err(BBLParseError::InvalidLength);
        }
        let mut digits: Vec<u8> = Vec::new();
        let mut i: usize = 0;
        while i < 10
            invariant
                s@.len() == 10,
                i <= 10,
                digits@.len() == i as int,
                forall|j: int| 0 <= j < i ==> is_digit(#[trigger] s@[j]),
                forall|j: int| 0 <= j < i ==> #[trigger] digits@[j] == digit_val(s@[j]),
            decreases 10 - i,
        {
            let c = s.get_char(i);
            let u = c as u32;
            if u < 48 || u > 57 {
                proof {
                    assert(!is_digit(s@[i as int]));
                }
                return Err(BBLParseError::InvalidInt);
            }
            let d: u8 = (u - 48) as u8;
            proof {
                assert(c == s@[i as int]);
                assert(c as int == u as int);
                assert(is_digit(s@[i as int]));
                assert(d as int == digit_val(s@[i as int]));
            }
            let ghost pre = digits@;
            digits.push(d);
            proof {
                assert forall|j: int| 0 <= j < i + 1 implies #[trigger] digits@[j] == digit_val(
                    s@[j],
                ) by {
                    if j == i as int {
                        assert(digits@[j] == d);
                    } else {
                        assert(digits@[j] == pre[j]);
                    }
                }
            }
            i += 1;
        }
        let boro: u8 = digits[0];
        let block: u32 = digits[1] as u32 * 10000 + digits[2] as u32 * 1000 + digits[3] as u32
            * 100 + digits[4] as u32 * 10 + digits[5] as u32;
        let lot: u16 = digits[6] as u16 * 1000 + digits[7] as u16 * 100 + digits[8] as u16 * 10
            + digits[9] as u16;
        Ok(BBL { boro, block, lot })
    }
}

impl core::str::FromStr for BBL {
    type Err = BBLParseError;

    fn from_str(s: &str) -> Result<BBL, BBLParseError> {
        BBL::parse(s)
    }
}

/// A value below 100000 is recomposed exactly from its five decimal digits.
proof fn lemma_recompose5(n: int)
    requires
        0 <= n <= 99999,
    ensures
        (n / 10000) * 10000 + ((n / 1000) % 10) * 1000 + ((n / 100) % 10) * 100 + ((n / 10) % 10)
            * 10 + n % 10 == n,
{
    assert((n / 10000) * 10000 + ((n / 1000) % 10) * 1000 + ((n / 100) % 10) * 100 + ((n / 10)
        % 10) * 10 + n % 10 == n) by (nonlinear_arith)
        requires
            0 <= n <= 99999,
    ;
}

/// A value below 10000 is recomposed exactly from its four decimal digits.
proof fn lemma_recompose4(n: int)
    requires
        0 <= n <= 9999,
    ensures
        (n / 1000) * 1000 + ((n / 100) % 10) * 100 + ((n / 10) % 10) * 10 + n % 10 == n,
{
    assert((n / 1000) * 1000 + ((n / 100) % 10) * 100 + ((n / 10) % 10) * 10 + n % 10 == n)
        by (nonlinear_arith)
        requires
            0 <= n <= 9999,
    ;
}

/// The decimal digits of a five-digit polynomial are its coefficients.
proof fn lemma_digits5(d4: int, d3: int, d2: int, d1: int, d0: int)
    requires
        0 <= d4 <= 9,
        0 <= d3 <= 9,
        0 <= d2 <= 9,
        0 <= d1 <= 9,
        0 <= d0 <= 9,
    ensures
        ({
            let n = d4 * 10000 + d3 * 1000 + d2 * 100 + d1 * 10 + d0;
            n / 10000 == d4 && (n / 1000) % 10 == d3 && (n / 100) % 10 == d2 && (n / 10) % 10 == d1
                && n % 10 == d0
        }),
{
    let n = d4 * 10000 + d3 * 1000 + d2 * 100 + d1 * 10 + d0;
    assert(n / 10000 == d4 && (n / 1000) % 10 == d3 && (n / 100) % 10 == d2 && (n / 10) % 10 == d1
        && n % 10 == d0) by (nonlinear_arith)
        requires
            0 <= d4 <= 9,
            0 <= d3 <= 9,
            0 <= d2 <= 9,
            0 <= d1 <= 9,
            0 <= d0 <= 9,
            n == d4 * 10000 + d3 * 1000 + d2 * 100 + d1 * 10 + d0,
    ;
}

/// The decimal digits of a four-digit polynomial are its coefficients.
proof fn lemma_digits4(d3: int, d2: int, d1: int, d0: int)
    requires
        0 <= d3 <= 9,
        0 <= d2 <= 9,
        0 <= d1 <= 9,
        0 <= d0 <= 9,
    ensures
        ({
            let n = d3 * 1000 + d2 * 100 + d1 * 10 + d0;
            n / 1000 == d3 && (n / 100) % 10 == d2 && (n / 10) % 10 == d1 && n % 10 == d0
        }),
{
    let n = d3 * 1000 + d2 * 100 + d1 * 10 + d0;
    assert(n / 1000 == d3 && (n / 100) % 10 == d2 && (n / 10) % 10 == d1 && n % 10 == d0)
        by (nonlinear_arith)
        requires
            0 <= d3 <= 9,
            0 <= d2 <= 9,
            0 <= d1 <= 9,
            0 <= d0 <= 9,
            n == d3 * 1000 + d2 * 100 + d1 * 10 + d0,
    ;
}

/// Round trip, first half: parsing the canonical form of any in-width BBL
/// yields that BBL back.
pub proof fn lemma_parse_of_format(b: BBL)
    requires
        b.in_width(),
    ensures
        spec_parse(b.spec_format()) == Ok::<BBL, BBLParseError>(b),
{
    let s = b.spec_format();
    assert(s.len() == 10);
    assert forall|i: int| 0 <= i < 10 implies is_digit(#[trigger] s[i]) by {
        lemma_digit_char_val(b.boro as int);
        lemma_digit_char_val(b.block as int / 10000);
        lemma_digit_char_val((b.block as int / 1000) % 10);
        lemma_digit_char_val((b.block as int / 100) % 10);
        lemma_digit_char_val((b.block as int / 10) % 10);
        lemma_digit_char_val(b.block as int % 10);
        lemma_digit_char_val(b.lot as int / 1000);
        lemma_digit_char_val((b.lot as int / 100) % 10);
        lemma_digit_char_val((b.lot as int / 10) % 10);
        lemma_digit_char_val(b.lot as int % 10);
    }
    lemma_digit_char_val(b.boro as int);
    lemma_digit_char_val(b.block as int / 10000);
    lemma_digit_char_val((b.block as int / 1000) % 10);
    lemma_digit_char_val((b.block as int / 100) % 10);
    lemma_digit_char_val((b.block as int / 10) % 10);
    lemma_digit_char_val(b.block as int % 10);
    lemma_digit_char_val(b.lot as int / 1000);
    lemma_digit_char_val((b.lot as int / 100) % 10);
    lemma_digit_char_val((b.lot as int / 10) % 10);
    lemma_digit_char_val(b.lot as int % 10);
    lemma_recompose5(b.block as int);
    lemma_recompose4(b.lot as int);
    let parsed = spec_parse(s);
    assert(parsed is Ok);
    assert(parsed->Ok_0.boro == b.boro);
    assert(parsed->Ok_0.block == b.block);
    assert(parsed->Ok_0.lot == b.lot);
    assert(parsed->Ok_0 == b);
}

/// Round trip, second half: any ten-character all-digit string parses to an
/// in-width BBL whose canonical form is the string itself.
pub proof fn lemma_format_of_parse(s: Seq<char>)
    requires
        s.len() == 10,
        all_digits(s),
    ensures
        spec_parse(s) is Ok,
        spec_parse(s)->Ok_0.in_width(),
        spec_parse(s)->Ok_0.spec_format() == s,
{
    let b = spec_parse(s)->Ok_0;
    lemma_digits5(digit_val(s[1]), digit_val(s[2]), digit_val(s[3]), digit_val(s[4]), digit_val(s[5]));
    lemma_digits4(digit_val(s[6]), digit_val(s[7]), digit_val(s[8]), digit_val(s[9]));
    assert forall|i: int| 0 <= i < 10 implies digit_char(digit_val(s[i])) == s[i] by {
        lemma_digit_char_of_val(s[i]);
    }
    assert(b.spec_format() =~= s);
}

} // verus!
