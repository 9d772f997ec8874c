//! The alphabet codec: bidirectional conversion between unsigned integers and
//! strings over a custom 32-symbol alphabet, together with the error type
//! shared by the short- and long-code parsers.

use vstd::prelude::*;
use vstd::arithmetic::power::pow;
use vstd::arithmetic::power::lemma_pow_adds;
use vstd::arithmetic::power::lemma_pow0;
use vstd::arithmetic::power::lemma_pow1;
use vstd::arithmetic::div_mod::lemma_div_denominator;
use vstd::arithmetic::div_mod::lemma_fundamental_div_mod;

pub mod crc;
pub mod long;
pub mod short;

verus! {

/// NUM_ROWS defines how many rows are on the chart. Adding more rows would
/// also require modifying the short and long code serialisation and
/// deserialisation methods, because their conversion to user-facing codes
/// always assumes that 5 rows are present.
pub const NUM_ROWS: usize = 5;

/// The number of optotypes across all rows (2 on the top row, 4 on each of
/// the other four rows).
pub const TOTAL_OPTOTYPES: usize = 18;

/// Width (optotype count) of a row, indexed from the top of the chart: the
/// top row holds 2 optotypes and every other row holds 4.
pub open spec fn spec_row_width(row: int) -> int {
    if row == 0 {
        2
    } else {
        4
    }
}

/// The number of optotypes shown on the given row, counted from the top of
/// the chart.
pub fn num_optotypes_on_row(row: usize) -> (w: usize)
    requires
        row < NUM_ROWS,
    ensures
        w == spec_row_width(row as int),
{
    if row == 0 {
        2
    } else {
        4
    }
}

/// The value of each character in the custom base-32 alphabet. Characters
/// absent from the alphabet (such as 'O' and '0', excluded because they are
/// easily confused) take the value -1.
pub open spec fn char_value(c: char) -> int {
    if c == 'A' {
        0
    } else if c == 'B' {
        1
    } else if c == 'C' {
        2
    } else if c == 'D' {
        3
    } else if c == 'E' {
        4
    } else if c == 'F' {
        5
    } else if c == 'G' {
        6
    } else if c == 'H' {
        7
    } else if c == 'J' {
        8
    } else if c == 'K' {
        9
    } else if c == 'L' {
        10
    } else if c == 'M' {
        11
    } else if c == 'N' {
        12
    } else if c == 'P' {
        13
    } else if c == 'Q' {
        14
    } else if c == 'R' {
        15
    } else if c == 'S' {
        16
    } else if c == 'T' {
        17
    } else if c == 'U' {
        18
    } else if c == 'V' {
        19
    } else if c == 'W' {
        20
    } else if c == 'X' {
        21
    } else if c == 'Y' {
        22
    } else if c == 'Z' {
        23
    } else if c == '2' {
        24
    } else if c == '3' {
        25
    } else if c == '4' {
        26
    } else if c == '5' {
        27
    } else if c == '6' {
        28
    } else if c == '7' {
        29
    } else if c == '8' {
        30
    } else if c == '9' {
        31
    } else {
        -1
    }
}

/// The character standing for each value 0..31 of the custom base-32
/// alphabet; the inverse of `char_value`.
pub open spec fn base_char(v: int) -> char {
    if v == 0 {
        'A'
    } else if v == 1 {
        'B'
    } else if v == 2 {
        'C'
    } else if v == 3 {
        'D'
    } else if v == 4 {
        'E'
    } else if v == 5 {
        'F'
    } else if v == 6 {
        'G'
    } else if v == 7 {
        'H'
    } else if v == 8 {
        'J'
    } else if v == 9 {
        'K'
    } else if v == 10 {
        'L'
    } else if v == 11 {
        'M'
    } else if v == 12 {
        'N'
    } else if v == 13 {
        'P'
    } else if v == 14 {
        'Q'
    } else if v == 15 {
        'R'
    } else if v == 16 {
        'S'
    } else if v == 17 {
        'T'
    } else if v == 18 {
        'U'
    } else if v == 19 {
        'V'
    } else if v == 20 {
        'W'
    } else if v == 21 {
        'X'
    } else if v == 22 {
        'Y'
    } else if v == 23 {
        'Z'
    } else if v == 24 {
        '2'
    } else if v == 25 {
        '3'
    } else if v == 26 {
        '4'
    } else if v == 27 {
        '5'
    } else if v == 28 {
        '6'
    } else if v == 29 {
        '7'
    } else if v == 30 {
        '8'
    } else {
        '9'
    }
}

/// `base_char` and `char_value` are mutually inverse on the alphabet, and the
/// alphabet never contains the cosmetic separator '-'.
pub proof fn lemma_base_char_value(v: int)
    requires
        0 <= v < 32,
    ensures
        char_value(base_char(v)) == v,
        base_char(v) != '-',
{
}

/// True of a character sequence whose every character belongs to the base-32
/// alphabet.
pub open spec fn all_base_chars(s: Seq<char>) -> bool {
    forall|i: int| 0 <= i < s.len() ==> char_value(s[i]) >= 0
}

/// The character sequence with every cosmetic separator '-' removed.
pub open spec fn strip_separators(s: Seq<char>) -> Seq<char>
    decreases s.len(),
{
    if s.len() == 0 {
        Seq::empty()
    } else if s.last() == '-' {
        strip_separators(s.drop_last())
    } else {
        strip_separators(s.drop_last()).push(s.last())
    }
}

/// Appending one character either extends the stripped sequence by that
/// character or (for a separator) leaves it unchanged.
pub proof fn lemma_strip_push(s: Seq<char>, c: char)
    ensures
        strip_separators(s.push(c)) == if c != '-' {
            strip_separators(s).push(c)
        } else {
            strip_separators(s)
        },
{
    assert(s.push(c).drop_last() =~= s);
    assert(s.push(c).last() == c);
}

/// A non-separator character of `s` also occurs in the stripped sequence.
pub proof fn lemma_strip_contains(s: Seq<char>, i: int)
    requires
        0 <= i < s.len(),
        s[i] != '-',
    ensures
        exists|j: int| 0 <= j < strip_separators(s).len() && strip_separators(s)[j] == s[i],
    decreases s.len(),
{
    if i == s.len() - 1 {
        assert(strip_separators(s) == strip_separators(s.drop_last()).push(s[i]));
        let t = strip_separators(s);
        assert(t[t.len() - 1] == s[i]);
    } else {
        lemma_strip_contains(s.drop_last(), i);
        let t0 = strip_separators(s.drop_last());
        let j = choose|j: int| 0 <= j < t0.len() && t0[j] == s.drop_last()[i];
        if s.last() == '-' {
            assert(strip_separators(s)[j] == s[i]);
        } else {
            assert(strip_separators(s)[j] == s[i]);
        }
    }
}

/// The unsigned integer encoded by a character sequence over the base-32
/// alphabet, most significant character first.
pub open spec fn code_value(s: Seq<char>) -> int
    decreases s.len(),
{
    if s.len() == 0 {
        0
    } else {
        code_value(s.drop_last()) * 32 + char_value(s.last())
    }
}

/// A sequence of alphabet characters encodes a value between 0 and
/// 32^length.
pub proof fn lemma_code_value_bounds(s: Seq<char>)
    requires
        all_base_chars(s),
    ensures
        0 <= code_value(s) < pow(32, s.len()),
    decreases s.len(),
{
    if s.len() == 0 {
        lemma_pow0(32);
    } else {
        assert(all_base_chars(s.drop_last()));
        lemma_code_value_bounds(s.drop_last());
        assert(char_value(s.last()) >= 0);
        assert(char_value(s.last()) < 32);
        let p = pow(32, (s.len() - 1) as nat);
        assert(pow(32, s.len()) == 32 * p) by {
            lemma_pow1(32);
            lemma_pow_adds(32, 1, (s.len() - 1) as nat);
        };
        assert(code_value(s.drop_last()) <= p - 1);
        assert(code_value(s.drop_last()) * 32 <= (p - 1) * 32) by (nonlinear_arith)
            requires
                code_value(s.drop_last()) <= p - 1,
        ;
    }
}

/// The digit of `x` at base-32 position `j` (position 0 being least
/// significant).
pub open spec fn nth_base32_digit(x: int, j: nat) -> int {
    (x / pow(32, j)) % 32
}

/// The base-32 rendering of `x` as `len` alphabet characters, most
/// significant digit first, zero-padded on the left.
pub open spec fn code_chars(x: int, len: nat) -> Seq<char> {
    Seq::new(len, |i: int| base_char(nth_base32_digit(x, (len - 1 - i) as nat)))
}

/// The rendering of a value that fits in the requested length consists of
/// alphabet characters only and decodes back to the same value.
pub proof fn lemma_code_chars_value(x: int, len: nat)
    requires
        0 <= x < pow(32, len),
    ensures
        all_base_chars(code_chars(x, len)),
        strip_separators(code_chars(x, len)) == code_chars(x, len),
        code_value(code_chars(x, len)) == x,
    decreases len,
{
    vstd::arithmetic::div_mod::lemma_mod_bound(x, pow(32, len));
    let s = code_chars(x, len);
    assert forall|i: int| 0 <= i < s.len() implies char_value(s[i]) >= 0 by {
        let j = (len - 1 - i) as nat;
        lemma_pow_pos(j);
        vstd::arithmetic::div_mod::lemma_mod_bound(x / pow(32, j), 32);
        vstd::arithmetic::div_mod::lemma_div_pos_is_pos(x, pow(32, j));
        lemma_base_char_value(nth_base32_digit(x, j));
    };
    if len == 0 {
        assert(pow(32, 0) == 1) by {
            lemma_pow0(32);
        };
        assert(s =~= Seq::<char>::empty());
    } else {
        let x1 = x / 32;
        assert(pow(32, len) == 32 * pow(32, (len - 1) as nat)) by {
            lemma_pow1(32);
            lemma_pow_adds(32, 1, (len - 1) as nat);
        };
        assert(x1 < pow(32, (len - 1) as nat)) by {
            vstd::arithmetic::div_mod::lemma_multiply_divide_lt(x, 32, pow(32, (len - 1) as nat));
        };
        assert(x1 >= 0) by {
            vstd::arithmetic::div_mod::lemma_div_pos_is_pos(x, 32);
        };
        lemma_code_chars_value(x1, (len - 1) as nat);
        let s1 = code_chars(x1, (len - 1) as nat);
        assert(s.drop_last() =~= s1) by {
            assert forall|i: int| 0 <= i < len - 1 implies s[i] == s1[i] by {
                let j = (len - 1 - i) as nat;
                let j1 = (len - 2 - i) as nat;
                assert(pow(32, j) == 32 * pow(32, j1)) by {
                    lemma_pow1(32);
                    lemma_pow_adds(32, 1, j1);
                };
                lemma_pow_pos(j1);
                lemma_div_denominator(x, 32, pow(32, j1));
                assert(x / 32 / pow(32, j1) == x / (32 * pow(32, j1)));
            };
        };
        assert(s.last() == base_char(nth_base32_digit(x, 0)));
        assert(pow(32, 0) == 1) by {
            lemma_pow0(32);
        };
        assert(x / 1 == x) by {
            vstd::arithmetic::div_mod::lemma_div_basics_1(x);
        };
        assert(s.last() == base_char(x % 32));
        vstd::arithmetic::div_mod::lemma_mod_bound(x, 32);
        lemma_base_char_value(x % 32);
        lemma_fundamental_div_mod(x, 32);
        assert(code_value(s) == code_value(s1) * 32 + char_value(s.last()));
        assert(code_value(s) == x1 * 32 + x % 32);
        lemma_strip_push(s1, s.last());
        assert(s =~= s1.push(s.last()));
    }
}

/// pow(32, e) is positive.
pub proof fn lemma_pow_pos(e: nat)
    ensures
        pow(32, e) > 0,
{
    vstd::arithmetic::power::lemma_pow_positive(32, e);
}

/// Convert a code string into the number it encodes. Separator characters
/// '-' are ignored wherever they occur. Returns `None` if any remaining
/// character is absent from the base-32 alphabet, or if the encoded value
/// does not fit in a `u128` - this is the single input-validation gate for
/// all code parsing.
pub fn get_number_from_code(code: String) -> (r: Option<u128>)
    ensures
        match r {
            Some(v) => all_base_chars(strip_separators(code@)) && v == code_value(
                strip_separators(code@),
            ),
            None => !(all_base_chars(strip_separators(code@)) && code_value(
                strip_separators(code@),
            ) <= u128::MAX),
        },
{
    let text = code.as_str();
    let n = text.unicode_len();
    let mut sum: u128 = 0;
    let mut too_big = false;
    let mut i: usize = 0;
    while i < n
        invariant
            0 <= i <= n,
            n == text@.len(),
            text@ == code@,
            all_base_chars(strip_separators(code@.take(i as int))),
            !too_big ==> sum == code_value(strip_separators(code@.take(i as int))),
            too_big ==> code_value(strip_separators(code@.take(i as int))) > u128::MAX,
        decreases n - i,
    {
        let c = text.get_char(i);
        proof {
            assert(code@.take(i + 1).drop_last() =~= code@.take(i as int));
            assert(code@.take(i + 1).last() == code@[i as int]);
            lemma_strip_push(code@.take(i as int), code@[i as int]);
        }
        if c != '-' {
            let v: usize = match get_character_value(c) {
                Some(v) => v,
                None => {
                    proof {
                        lemma_strip_contains(code@, i as int);
                    }
                    return None;
                },
            };
            let ghost prev = strip_separators(code@.take(i as int));
            let ghost prev_value = code_value(prev);
            proof {
                assert(strip_separators(code@.take(i + 1)) == prev.push(c));
                assert(prev.push(c).drop_last() =~= prev);
                assert(code_value(prev.push(c)) == prev_value * 32 + v);
                if too_big {
                    assert(prev_value * 32 >= prev_value) by (nonlinear_arith)
                        requires
                            prev_value > u128::MAX,
                    ;
                }
            }
            if !too_big {
                match sum.checked_mul(32) {
                    Some(m) => {
                        match m.checked_add(v as u128) {
                            Some(t) => {
                                sum = t;
                            },
                            None => {
                                too_big = true;
                            },
                        }
                    },
                    None => {
                        too_big = true;
                    },
                }
            }
        }
        i = i + 1;
    }
    proof {
        assert(code@.take(n as int) =~= code@);
    }
    if too_big {
        None
    } else {
        Some(sum)
    }
}

/// Whether the text holds any non-separator character outside the base-32
/// alphabet. The parsers use this to tell an unreadable code apart from
/// one that merely encodes too large a value.
pub fn contains_invalid_character(code: &str) -> (b: bool)
    ensures
        b == !all_base_chars(strip_separators(code@)),
{
    let n = code.unicode_len();
    let mut i: usize = 0;
    while i < n
        invariant
            0 <= i <= n,
            n == code@.len(),
            all_base_chars(strip_separators(code@.take(i as int))),
        decreases n - i,
    {
        let c = code.get_char(i);
        proof {
            assert(code@.take(i + 1).drop_last() =~= code@.take(i as int));
            assert(code@.take(i + 1).last() == code@[i as int]);
            lemma_strip_push(code@.take(i as int), code@[i as int]);
        }
        if c != '-' && get_character_value(c).is_none() {
            proof {
                lemma_strip_contains(code@, i as int);
            }
            return true;
        }
        proof {
            if c != '-' {
                let prev = strip_separators(code@.take(i as int));
                assert(prev.push(c).drop_last() =~= prev);
            }
        }
        i = i + 1;
    }
    proof {
        assert(code@.take(n as int) =~= code@);
    }
    false
}

/// Convert a number into the characters of its base-32 representation,
/// zero-padded on the left to exactly `len` characters. The caller must
/// guarantee the value fits in `len` base-32 digits; any higher digits are
/// silently dropped, as the contract's digit-by-digit statement records.
pub fn get_code_from_number(x: u128, len: usize) -> (r: Vec<char>)
    ensures
        r@ == code_chars(x as int, len as nat),
{
    let mut remaining = x;
    let mut little_endian: Vec<char> = Vec::new();
    let mut i: usize = 0;
    proof {
        lemma_pow0(32);
        vstd::arithmetic::div_mod::lemma_div_basics_1(x as int);
    }
    while i < len
        invariant
            0 <= i <= len,
            remaining == (x as int) / pow(32, i as nat),
            little_endian@.len() == i,
            forall|j: int|
                0 <= j < i ==> little_endian@[j] == base_char(nth_base32_digit(x as int, j as nat)),
        decreases len - i,
    {
        proof {
            lemma_pow_pos(i as nat);
            vstd::arithmetic::div_mod::lemma_mod_bound(remaining as int, 32);
            assert(pow(32, (i + 1) as nat) == 32 * pow(32, i as nat)) by {
                lemma_pow1(32);
                lemma_pow_adds(32, 1, i as nat);
            };
            lemma_div_denominator(x as int, pow(32, i as nat), 32);
            assert((x as int) / pow(32, i as nat) / 32 == (x as int) / (pow(32, i as nat) * 32));
        }
        let digit = (remaining % 32) as u8;
        little_endian.push(character_for_value(digit));
        remaining = remaining / 32;
        i = i + 1;
    }
    let mut result: Vec<char> = Vec::new();
    let mut j: usize = 0;
    while j < len
        invariant
            0 <= j <= len,
            little_endian@.len() == len,
            forall|k: int|
                0 <= k < len ==> little_endian@[k] == base_char(
                    nth_base32_digit(x as int, k as nat),
                ),
            result@.len() == j,
            forall|k: int|
                0 <= k < j ==> result@[k] == base_char(
                    nth_base32_digit(x as int, (len - 1 - k) as nat),
                ),
        decreases len - j,
    {
        result.push(little_endian[len - 1 - j]);
        j = j + 1;
    }
    proof {
        assert(result@ =~= code_chars(x as int, len as nat));
    }
    result
}

/// Finds the value of a particular character in the custom base-32 alphabet.
pub fn get_character_value(character: char) -> (r: Option<usize>)
    ensures
        char_value(character) >= 0 ==> r == Some(char_value(character) as usize),
        char_value(character) < 0 ==> r is None,
{
    match character {
        'A' => Some(0),
        'B' => Some(1),
        'C' => Some(2),
        'D' => Some(3),
        'E' => Some(4),
        'F' => Some(5),
        'G' => Some(6),
        'H' => Some(7),
        'J' => Some(8),
        'K' => Some(9),
        'L' => Some(10),
        'M' => Some(11),
        'N' => Some(12),
        'P' => Some(13),
        'Q' => Some(14),
        'R' => Some(15),
        'S' => Some(16),
        'T' => Some(17),
        'U' => Some(18),
        'V' => Some(19),
        'W' => Some(20),
        'X' => Some(21),
        'Y' => Some(22),
        'Z' => Some(23),
        '2' => Some(24),
        '3' => Some(25),
        '4' => Some(26),
        '5' => Some(27),
        '6' => Some(28),
        '7' => Some(29),
        '8' => Some(30),
        '9' => Some(31),
        _ => None,
    }
}

/// The alphabet character standing for a base-32 digit value.
pub fn character_for_value(v: u8) -> (c: char)
    requires
        v < 32,
    ensures
        c == base_char(v as int),
{
    match v {
        0 => 'A',
        1 => 'B',
        2 => 'C',
        3 => 'D',
        4 => 'E',
        5 => 'F',
        6 => 'G',
        7 => 'H',
        8 => 'J',
        9 => 'K',
        10 => 'L',
        11 => 'M',
        12 => 'N',
        13 => 'P',
        14 => 'Q',
        15 => 'R',
        16 => 'S',
        17 => 'T',
        18 => 'U',
        19 => 'V',
        20 => 'W',
        21 => 'X',
        22 => 'Y',
        23 => 'Z',
        24 => '2',
        25 => '3',
        26 => '4',
        27 => '5',
        28 => '6',
        29 => '7',
        30 => '8',
        _ => '9',
    }
}

/// Stripping leaves a sequence of alphabet characters unchanged.
pub proof fn lemma_strip_all_base(s: Seq<char>)
    requires
        all_base_chars(s),
    ensures
        strip_separators(s) == s,
    decreases s.len(),
{
    if s.len() == 0 {
        assert(strip_separators(s) =~= s);
    } else {
        assert(all_base_chars(s.drop_last())) by {
            assert(forall|i: int|
                0 <= i < s.len() - 1 ==> s.drop_last()[i] == s[i] && char_value(s[i]) >= 0);
        };
        lemma_strip_all_base(s.drop_last());
        assert(char_value(s.last()) >= 0);
        assert(s.last() != '-');
        assert(strip_separators(s) =~= s);
    }
}

/// Stripping distributes over concatenation.
pub proof fn lemma_strip_concat(a: Seq<char>, b: Seq<char>)
    ensures
        strip_separators(a + b) == strip_separators(a) + strip_separators(b),
    decreases b.len(),
{
    if b.len() == 0 {
        assert(a + b =~= a);
        assert(strip_separators(a) + strip_separators(b) =~= strip_separators(a));
    } else {
        lemma_strip_concat(a, b.drop_last());
        assert((a + b).drop_last() =~= a + b.drop_last());
        assert((a + b).last() == b.last());
        if b.last() == '-' {
        } else {
            assert(strip_separators(a) + strip_separators(b) =~= (strip_separators(a)
                + strip_separators(b.drop_last())).push(b.last()));
        }
    }
}

/// The decimal digit character for a value 0..9.
pub open spec fn dec_digit_char(d: int) -> char {
    if d == 0 {
        '0'
    } else if d == 1 {
        '1'
    } else if d == 2 {
        '2'
    } else if d == 3 {
        '3'
    } else if d == 4 {
        '4'
    } else if d == 5 {
        '5'
    } else if d == 6 {
        '6'
    } else if d == 7 {
        '7'
    } else if d == 8 {
        '8'
    } else {
        '9'
    }
}

/// The usual decimal rendering of a non-negative number, most significant
/// digit first, with no leading zeros.
pub open spec fn dec_chars(n: nat) -> Seq<char>
    decreases n,
{
    if n < 10 {
        seq![dec_digit_char(n as int)]
    } else {
        dec_chars(n / 10).push(dec_digit_char((n % 10) as int))
    }
}

/// Append one decimal digit character to a string.
fn append_dec_digit(s: &mut String, d: u8)
    requires
        d < 10,
    ensures
        final(s)@ == old(s)@.push(dec_digit_char(d as int)),
{
    proof {
        reveal_strlit("0");
        reveal_strlit("1");
        reveal_strlit("2");
        reveal_strlit("3");
        reveal_strlit("4");
        reveal_strlit("5");
        reveal_strlit("6");
        reveal_strlit("7");
        reveal_strlit("8");
        reveal_strlit("9");
    }
    match d {
        0 => s.append("0"),
        1 => s.append("1"),
        2 => s.append("2"),
        3 => s.append("3"),
        4 => s.append("4"),
        5 => s.append("5"),
        6 => s.append("6"),
        7 => s.append("7"),
        8 => s.append("8"),
        _ => s.append("9"),
    }
    proof {
        assert(final(s)@ =~= old(s)@.push(dec_digit_char(d as int)));
    }
}

/// Append the decimal rendering of `n` to a string.
pub fn append_decimal(s: &mut String, n: u64)
    ensures
        final(s)@ == old(s)@ + dec_chars(n as nat),
    decreases n,
{
    if n < 10 {
        append_dec_digit(s, n as u8);
        proof {
            assert(final(s)@ =~= old(s)@ + dec_chars(n as nat));
        }
    } else {
        append_decimal(s, n / 10);
        append_dec_digit(s, (n % 10) as u8);
        proof {
            assert(final(s)@ =~= old(s)@ + dec_chars(n as nat));
        }
    }
}

/// Append one character of a rendered code - an alphabet character or the
/// separator '-' - to a string.
pub fn append_code_char(s: &mut String, c: char)
    requires
        char_value(c) >= 0 || c == '-',
    ensures
        final(s)@ == old(s)@.push(c),
{
    proof {
        reveal_strlit("A");
        reveal_strlit("B");
        reveal_strlit("C");
        reveal_strlit("D");
        reveal_strlit("E");
        reveal_strlit("F");
        reveal_strlit("G");
        reveal_strlit("H");
        reveal_strlit("J");
        reveal_strlit("K");
        reveal_strlit("L");
        reveal_strlit("M");
        reveal_strlit("N");
        reveal_strlit("P");
        reveal_strlit("Q");
        reveal_strlit("R");
        reveal_strlit("S");
        reveal_strlit("T");
        reveal_strlit("U");
        reveal_strlit("V");
        reveal_strlit("W");
        reveal_strlit("X");
        reveal_strlit("Y");
        reveal_strlit("Z");
        reveal_strlit("2");
        reveal_strlit("3");
        reveal_strlit("4");
        reveal_strlit("5");
        reveal_strlit("6");
        reveal_strlit("7");
        reveal_strlit("8");
        reveal_strlit("9");
        reveal_strlit("-");
    }
    match c {
        'A' => s.append("A"),
        'B' => s.append("B"),
        'C' => s.append("C"),
        'D' => s.append("D"),
        'E' => s.append("E"),
        'F' => s.append("F"),
        'G' => s.append("G"),
        'H' => s.append("H"),
        'J' => s.append("J"),
        'K' => s.append("K"),
        'L' => s.append("L"),
        'M' => s.append("M"),
        'N' => s.append("N"),
        'P' => s.append("P"),
        'Q' => s.append("Q"),
        'R' => s.append("R"),
        'S' => s.append("S"),
        'T' => s.append("T"),
        'U' => s.append("U"),
        'V' => s.append("V"),
        'W' => s.append("W"),
        'X' => s.append("X"),
        'Y' => s.append("Y"),
        'Z' => s.append("Z"),
        '2' => s.append("2"),
        '3' => s.append("3"),
        '4' => s.append("4"),
        '5' => s.append("5"),
        '6' => s.append("6"),
        '7' => s.append("7"),
        '8' => s.append("8"),
        '9' => s.append("9"),
        _ => s.append("-"),
    }
    proof {
        assert(final(s)@ =~= old(s)@.push(c));
    }
}

/// This struct is used to represent errors when parsing codes given by
/// users. The contained string is the human-readable description of the
/// failure.
#[derive(Debug)]
pub struct CodeError(pub String);

impl CodeError {
    /// The printable form of the error, as shown to a user.
    pub fn message(&self) -> (r: String)
        ensures
            r@ == "Error: "@ + self.0@,
    {
        let mut s = String::from_str("Error: ");
        s.append(self.0.as_str());
        s
    }
}

} // verus!
