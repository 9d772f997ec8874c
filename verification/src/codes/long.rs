//! The long-code codec. Long codes can represent any possible chart, at
//! the cost of length: the 80-bit value is rendered as 16 base-32
//! characters in four blocks of four.
//!
//! The serialized text is XXXX-XXYY-YYYY-HEAD: two 30-bit body blocks
//! (each encoding nine optotype indices as decimal digits of one number)
//! followed by the header, which is textually last even though logically
//! it is parsed first. Numerically the body (60 bits) occupies the high
//! bits, the header without checksum (version 2 bits + optotype id 2 bits)
//! the next 4 bits, and the CRC-16 checksum the low 16 bits.

use crate::codes::CodeError;
use crate::codes::all_base_chars;
use crate::codes::append_decimal;
use crate::codes::append_code_char;
use crate::codes::char_value;
use crate::codes::code_chars;
use crate::codes::code_value;
use crate::codes::dec_chars;
use crate::codes::get_code_from_number;
use crate::codes::get_number_from_code;
use crate::codes::lemma_base_char_value;
use crate::codes::nth_base32_digit;
use crate::codes::strip_separators;
use crate::codes::crc::spec_crc16;
use crate::codes::crc::compute_crc16;
use crate::optotypes::OptotypeDefinition;
use crate::optotypes::is_catalog_definition;
use crate::optotypes::is_definition;
use crate::optotypes::lemma_catalog_definition;
use crate::optotypes::spec_definition_id;
use crate::rng::draw_distinct;
use vstd::prelude::*;
use vstd::arithmetic::power::pow;
use vstd::arithmetic::power::lemma_pow0;
use vstd::arithmetic::power::lemma_pow1;
use vstd::arithmetic::power::lemma_pow_adds;
use vstd::arithmetic::power::lemma_pow_positive;
use vstd::arithmetic::div_mod::lemma_fundamental_div_mod;
use vstd::arithmetic::div_mod::lemma_fundamental_div_mod_converse;
use vstd::arithmetic::div_mod::lemma_mod_bound;
use vstd::arithmetic::div_mod::lemma_div_denominator;
use vstd::arithmetic::div_mod::lemma_div_pos_is_pos;
use vstd::arithmetic::div_mod::lemma_multiply_divide_lt;

verus! {

/// Represents the data encoded in a long code: the version, the optotype
/// set, and the exact optotypes shown on the chart as a flat list starting
/// at the bottom row and reading each row left to right.
#[derive(Debug, PartialEq)]
pub struct LongCode {
    /// The version determines in which format the information within the
    /// code is encoded. At present only version 0 is implemented, so the
    /// field is carried but otherwise ignored.
    pub version: u8,
    /// The set of potential optotypes encoded by this code.
    pub optotype_definition: OptotypeDefinition,
    /// The exact optotypes shown on the chart: a flat list of indices into
    /// the optotype definition, starting at the bottom row of the chart and
    /// going left to right, then wrapping up to the next row.
    pub optotypes: Vec<u8>,
}

/// The number encoded by a sequence of decimal digits, most significant
/// digit first.
pub open spec fn block_value(s: Seq<u8>) -> int
    decreases s.len(),
{
    if s.len() == 0 {
        0
    } else {
        block_value(s.drop_last()) * 10 + s.last()
    }
}

/// A sequence of decimal digits encodes a value between 0 and 10^length.
pub proof fn lemma_block_value_bounds(s: Seq<u8>)
    requires
        forall|i: int| 0 <= i < s.len() ==> s[i] <= 9,
    ensures
        0 <= block_value(s) < pow(10, s.len()),
    decreases s.len(),
{
    if s.len() == 0 {
        lemma_pow0(10);
    } else {
        lemma_block_value_bounds(s.drop_last());
        let p = pow(10, (s.len() - 1) as nat);
        assert(pow(10, s.len()) == 10 * p) by {
            lemma_pow1(10);
            lemma_pow_adds(10, 1, (s.len() - 1) as nat);
        };
        assert(block_value(s.drop_last()) * 10 <= (p - 1) * 10) by (nonlinear_arith)
            requires
                block_value(s.drop_last()) <= p - 1,
        ;
    }
}

/// The decimal digits of `b`, most significant digit first, zero-padded to
/// `k` digits.
pub open spec fn digits_msd(b: int, k: nat) -> Seq<u8> {
    Seq::new(k, |j: int| ((b / pow(10, (k - 1 - j) as nat)) % 10) as u8)
}

/// The zero-padded digit rendering of a value below 10^k consists of
/// decimal digits and encodes that value back.
pub proof fn lemma_digits_msd_value(b: int, k: nat)
    requires
        0 <= b < pow(10, k),
    ensures
        forall|j: int| 0 <= j < k ==> digits_msd(b, k)[j] <= 9,
        block_value(digits_msd(b, k)) == b,
    decreases k,
{
    let s = digits_msd(b, k);
    assert forall|j: int| 0 <= j < k implies s[j] <= 9 by {
        lemma_pow_positive(10, (k - 1 - j) as nat);
        lemma_mod_bound(b / pow(10, (k - 1 - j) as nat), 10);
    };
    if k == 0 {
        lemma_pow0(10);
        assert(s =~= Seq::<u8>::empty());
    } else {
        let b1 = b / 10;
        assert(pow(10, k) == 10 * pow(10, (k - 1) as nat)) by {
            lemma_pow1(10);
            lemma_pow_adds(10, 1, (k - 1) as nat);
        };
        assert(b1 < pow(10, (k - 1) as nat)) by {
            lemma_multiply_divide_lt(b, 10, pow(10, (k - 1) as nat));
        };
        lemma_div_pos_is_pos(b, 10);
        lemma_digits_msd_value(b1, (k - 1) as nat);
        assert(s.drop_last() =~= digits_msd(b1, (k - 1) as nat)) by {
            assert forall|j: int| 0 <= j < k - 1 implies s[j] == digits_msd(b1, (k - 1) as nat)[j]
                by {
                let e = (k - 2 - j) as nat;
                assert(pow(10, (k - 1 - j) as nat) == 10 * pow(10, e)) by {
                    lemma_pow1(10);
                    lemma_pow_adds(10, 1, e);
                };
                lemma_pow_positive(10, e);
                lemma_div_denominator(b, 10, pow(10, e));
            };
        };
        assert(s.last() == ((b / pow(10, 0)) % 10) as u8);
        lemma_pow0(10);
        vstd::arithmetic::div_mod::lemma_div_basics_1(b);
        lemma_mod_bound(b, 10);
        lemma_fundamental_div_mod(b, 10);
        assert(block_value(s) == block_value(s.drop_last()) * 10 + s.last());
    }
}

/// The embedded checksum field: the low 16 bits of a long code's value.
pub open spec fn field_long_crc(num: int) -> int {
    num % 0x10000
}

/// The optotype-id field: two bits above the checksum.
pub open spec fn field_long_id(num: int) -> int {
    (num / 0x10000) % 4
}

/// The version field: two bits above the optotype id.
pub open spec fn field_long_version(num: int) -> int {
    (num / 0x40000) % 4
}

/// The low 30-bit body block, holding the nine optotypes nearest the end
/// of the flat list.
pub open spec fn field_block0(num: int) -> int {
    (num / 0x100000) % 0x40000000
}

/// The high 30-bit body block, holding the nine optotypes at the start of
/// the flat list.
pub open spec fn field_block1(num: int) -> int {
    num / 0x4000000000000
}

/// An 80-bit value decomposes exactly into the long-code fields.
pub proof fn lemma_long_fields(num: int)
    requires
        0 <= num < 0x100000000000000000000,
    ensures
        num == ((field_block1(num) * 0x40000000 + field_block0(num)) * 16 + field_long_version(num)
            * 4 + field_long_id(num)) * 0x10000 + field_long_crc(num),
        num / 0x100000 == field_block1(num) * 0x40000000 + field_block0(num),
        0 <= field_long_crc(num) < 0x10000,
        0 <= field_long_id(num) < 4,
        0 <= field_long_version(num) < 4,
        0 <= field_block0(num) < 0x40000000,
        0 <= field_block1(num) < 0x40000000,
{
    lemma_fundamental_div_mod(num, 0x10000);
    lemma_mod_bound(num, 0x10000);
    let h = num / 0x10000;
    lemma_div_pos_is_pos(num, 0x10000);
    lemma_fundamental_div_mod(h, 4);
    lemma_mod_bound(h, 4);
    let h2 = num / 0x40000;
    assert(h / 4 == h2) by {
        lemma_div_denominator(num, 0x10000, 4);
    };
    lemma_div_pos_is_pos(num, 0x40000);
    lemma_fundamental_div_mod(h2, 4);
    lemma_mod_bound(h2, 4);
    let body = num / 0x100000;
    assert(h2 / 4 == body) by {
        lemma_div_denominator(num, 0x40000, 4);
    };
    lemma_div_pos_is_pos(num, 0x100000);
    lemma_fundamental_div_mod(body, 0x40000000);
    lemma_mod_bound(body, 0x40000000);
    let b1 = num / 0x4000000000000;
    assert(body / 0x40000000 == b1) by {
        lemma_div_denominator(num, 0x100000, 0x40000000);
    };
    lemma_div_pos_is_pos(num, 0x4000000000000);
    assert(b1 < 0x40000000) by {
        lemma_multiply_divide_lt(num, 0x4000000000000, 0x40000000);
    };
}

impl LongCode {
    /// The 4-bit header without its checksum: two version bits above two
    /// optotype-id bits.
    pub open spec fn spec_header(self) -> int {
        self.version * 4 + self.optotype_definition.id
    }

    /// The 60-bit body: two 30-bit blocks, each the nine optotype indices
    /// of its half of the flat list packed as decimal digits.
    pub open spec fn spec_body(self) -> int {
        block_value(self.optotypes@.take(9)) * 0x40000000 + block_value(self.optotypes@.skip(9))
    }

    /// The CRC-16/ARC of the binary text of body and header: 60 body
    /// digits followed by 4 header digits, i.e. the 64-digit rendering of
    /// body and header as one value.
    pub open spec fn spec_crc(self) -> int {
        spec_crc16(self.spec_body() * 16 + self.spec_header(), 64) as int
    }

    /// The full 80-bit value: body, then header, then checksum.
    pub open spec fn spec_numerical(self) -> int {
        self.spec_body() * 0x100000 + self.spec_header() * 0x10000 + self.spec_crc()
    }

    /// Well-formedness: the version fits its two bits, the definition is a
    /// catalog entry, and the flat list holds one decimal digit for each of
    /// the chart's 18 optotype positions.
    pub open spec fn wf(self) -> bool {
        &&& self.version <= 3
        &&& is_catalog_definition(self.optotype_definition)
        &&& self.optotypes@.len() == 18
        &&& forall|i: int| 0 <= i < 18 ==> self.optotypes@[i] <= 9
    }

    /// The header without the checksum, as a 4-bit value.
    pub fn get_header_without_crc(&self) -> (r: u8)
        requires
            self.wf(),
        ensures
            r == self.spec_header(),
            r < 16,
    {
        proof {
            lemma_catalog_definition(self.optotype_definition);
        }
        self.version * 4 + self.optotype_definition.id
    }

    /// Obtain the body of the long code: the part that encodes the
    /// optotypes shown on the page, as a 60-bit value.
    pub fn get_body(&self) -> (r: u64)
        requires
            self.wf(),
        ensures
            r == self.spec_body(),
            r < 0x1000000000000000,
    {
        proof {
            reveal_with_fuel(pow, 10);
        }
        let mut block1: u64 = 0;
        let mut j: usize = 0;
        while j < 9
            invariant
                j <= 9,
                self.wf(),
                block1 == block_value(self.optotypes@.take(j as int)),
                block1 < 0x40000000,
            decreases 9 - j,
        {
            proof {
                assert(self.optotypes@.take(j + 1).drop_last() =~= self.optotypes@.take(j as int));
                assert(self.optotypes@.take(j + 1).last() == self.optotypes@[j as int]);
                assert(forall|i: int|
                    0 <= i < j + 1 ==> #[trigger] self.optotypes@.take(j + 1)[i] <= 9);
                lemma_block_value_bounds(self.optotypes@.take(j + 1));
                reveal_with_fuel(pow, 10);
            }
            block1 = block1 * 10 + self.optotypes[j] as u64;
            j = j + 1;
        }
        let mut block0: u64 = 0;
        let mut k: usize = 9;
        while k < 18
            invariant
                9 <= k <= 18,
                self.wf(),
                block0 == block_value(self.optotypes@.subrange(9, k as int)),
                block0 < 0x40000000,
            decreases 18 - k,
        {
            proof {
                assert(self.optotypes@.subrange(9, k + 1).drop_last() =~= self.optotypes@.subrange(
                    9,
                    k as int,
                ));
                assert(self.optotypes@.subrange(9, k + 1).last() == self.optotypes@[k as int]);
                assert(forall|i: int|
                    0 <= i < k + 1 - 9 ==> #[trigger] self.optotypes@.subrange(9, k + 1)[i] <= 9);
                lemma_block_value_bounds(self.optotypes@.subrange(9, k + 1));
                reveal_with_fuel(pow, 10);
            }
            block0 = block0 * 10 + self.optotypes[k] as u64;
            k = k + 1;
        }
        proof {
            assert(self.optotypes@.subrange(9, 18) =~= self.optotypes@.skip(9));
        }
        block1 * 0x40000000 + block0
    }

    /// This is a CRC-16/ARC of the body (optotypes) and the header of the
    /// long code, computed over their textual binary representation for
    /// compatibility with previously issued codes.
    pub fn get_crc(&self) -> (r: u16)
        requires
            self.wf(),
        ensures
            r == self.spec_crc(),
    {
        let body = self.get_body();
        let header = self.get_header_without_crc();
        compute_crc16(body * 16 + header as u64)
    }

    /// The canonical rendering: sixteen base-32 digits in four blocks of
    /// four, separated by '-'.
    pub open spec fn spec_code_text(self) -> Seq<char> {
        long_partial(code_chars(self.spec_numerical(), 16), 16)
    }

    /// The full 80-bit value stays below 2^80 for well-formed codes.
    pub proof fn lemma_numerical_bound(self)
        requires
            self.wf(),
        ensures
            0 <= self.spec_body() < 0x1000000000000000,
            0 <= self.spec_header() < 16,
            0 <= self.spec_numerical() < 0x100000000000000000000,
    {
        assert(forall|i: int| 0 <= i < 9 ==> #[trigger] self.optotypes@.take(9)[i] <= 9);
        assert(forall|i: int| 0 <= i < 9 ==> #[trigger] self.optotypes@.skip(9)[i] <= 9);
        lemma_block_value_bounds(self.optotypes@.take(9));
        lemma_block_value_bounds(self.optotypes@.skip(9));
        assert(pow(10, 9) == 1000000000) by {
            reveal_with_fuel(pow, 10);
        };
        lemma_catalog_definition(self.optotype_definition);
        assert(0 <= spec_crc16(self.spec_body() * 16 + self.spec_header(), 64) < 0x10000);
    }

    /// Serialises the long code: the fields joined into one 80-bit value
    /// and rendered as four blocks of four base-32 digits, which are easier
    /// to check when typing the code in.
    pub fn to_string(&self) -> (r: String)
        requires
            self.wf(),
        ensures
            r@ == self.spec_code_text(),
    {
        proof {
            self.lemma_numerical_bound();
        }
        let body = self.get_body();
        let header = self.get_header_without_crc();
        let crc = self.get_crc();
        let num: u128 = (body as u128) * 0x100000 + (header as u128) * 0x10000 + crc as u128;
        let digits = get_code_from_number(num, 16);
        let mut s = String::new();
        let mut i: usize = 0;
        while i < 16
            invariant
                i <= 16,
                digits@ == code_chars(self.spec_numerical(), 16),
                digits@.len() == 16,
                s@ == long_partial(digits@, i as int),
            decreases 16 - i,
        {
            proof {
                let j = (15 - i) as nat;
                crate::codes::lemma_pow_pos(j);
                lemma_mod_bound(self.spec_numerical() / pow(32, j), 32);
                lemma_base_char_value(nth_base32_digit(self.spec_numerical(), j));
            }
            if i == 4 || i == 8 || i == 12 {
                append_code_char(&mut s, '-');
            }
            append_code_char(&mut s, digits[i]);
            proof {
                if i == 4 || i == 8 || i == 12 {
                    assert(s@ =~= long_partial(digits@, i as int) + seq!['-', digits@[i as int]]);
                } else {
                    assert(s@ =~= long_partial(digits@, i as int) + seq![digits@[i as int]]);
                }
            }
            i = i + 1;
        }
        s
    }

    /// Parses a long code and extracts the fields it encodes. Parsing is
    /// agnostic to '-' characters: a user may enter as many or as few as
    /// they wish. Returns an error if the text contains characters outside
    /// the base-32 alphabet (or encodes a value too large to handle), if
    /// the value exceeds 80 bits, if a body block carries more than nine
    /// decimal digits of optotype information, or if the embedded checksum
    /// disagrees with the recomputed one.
    pub fn from_str(code: &str) -> (r: Result<LongCode, CodeError>)
        ensures
            ({
                let t = strip_separators(code@);
                let num = code_value(t);
                match r {
                    Ok(lc) => lc.wf() && parse_long_ok(code@, lc),
                    Err(e) => {
                        if !all_base_chars(t) {
                            e.0@ == spec_long_invalid_characters_message()
                        } else if num > 0xFFFFFFFFFFFFFFFFFFFF {
                            e.0@ == spec_long_range_message()
                        } else if field_block0(num) >= 1000000000 || field_block1(num)
                            >= 1000000000 {
                            e.0@ == spec_long_unexpected_value_message()
                        } else {
                            &&& field_long_crc(num) != spec_decoded_long_crc(num)
                            &&& e.0@ == spec_long_crc_mismatch_message(
                                field_long_crc(num) as nat,
                                spec_decoded_long_crc(num) as nat,
                            )
                        }
                    },
                }
            }),
    {
        let num = match get_number_from_code(code.to_owned()) {
            Some(binary) => binary,
            None => {
                // Tell an unreadable code apart from one that merely
                // encodes too large a value for any integer width.
                if crate::codes::contains_invalid_character(code) {
                    return Err(
                        CodeError(
                            String::from_str(
                                "Failed to parse long code. It may have contained invalid characters.",
                            ),
                        ),
                    );
                }
                proof {
                    crate::codes::lemma_code_value_bounds(strip_separators(code@));
                }
                return Err(
                    CodeError(
                        String::from_str(
                            "The long code encoded a value which was outside the allowed range.",
                        ),
                    ),
                );
            },
        };
        // Check the number encoded: it must fit in 80 bits.
        if num > 0xFFFFFFFFFFFFFFFFFFFF {
            return Err(
                CodeError(
                    String::from_str(
                        "The long code encoded a value which was outside the allowed range.",
                    ),
                ),
            );
        }
        proof {
            lemma_long_fields(num as int);
            reveal_with_fuel(pow, 10);
        }
        // Take out the header fields.
        let version = ((num / 0x40000) % 4) as u8;
        let id = ((num / 0x10000) % 4) as u8;
        let optotype_definition = OptotypeDefinition::from(id as u32);
        proof {
            lemma_catalog_definition(optotype_definition);
        }
        let num_possible_optotypes = optotype_definition.optotypes.len() as u128;
        // Take out the two 30-bit body blocks and unpack each into nine
        // optotype indices, least significant digit first.
        let body = num / 0x100000;
        let ghost b0 = field_block0(num as int);
        let ghost b1 = field_block1(num as int);
        let mut block0: u128 = body % 0x40000000;
        let mut block1: u128 = body / 0x40000000;
        let mut optotype_list: Vec<u8> = Vec::new();
        let mut d: usize = 0;
        while d < 9
            invariant
                d <= 9,
                num_possible_optotypes == 10,
                b0 == field_block0(num as int),
                0 <= b0 < 0x40000000,
                block0 == b0 / pow(10, d as nat),
                optotype_list@.len() == d,
                forall|j: int|
                    0 <= j < d ==> optotype_list@[j] == ((b0 / pow(10, j as nat)) % 10) as u8,
            decreases 9 - d,
        {
            proof {
                lemma_pow_positive(10, d as nat);
                lemma_mod_bound(block0 as int, 10);
                assert(pow(10, (d + 1) as nat) == pow(10, d as nat) * 10) by {
                    lemma_pow1(10);
                    lemma_pow_adds(10, d as nat, 1);
                };
                lemma_div_denominator(b0, pow(10, d as nat), 10);
            }
            optotype_list.push((block0 % num_possible_optotypes) as u8);
            block0 = block0 / num_possible_optotypes;
            d = d + 1;
        }
        proof {
            lemma_leftover_zero(b0);
        }
        if block0 != 0 {
            return Err(
                CodeError(
                    String::from_str(
                        "An unexpected value was encountered when decoding the optotypes encoded by this code.",
                    ),
                ),
            );
        }
        let mut d1: usize = 0;
        while d1 < 9
            invariant
                d1 <= 9,
                num_possible_optotypes == 10,
                b1 == field_block1(num as int),
                0 <= b1 < 0x40000000,
                block1 == b1 / pow(10, d1 as nat),
                optotype_list@.len() == 9 + d1,
                forall|j: int|
                    0 <= j < 9 ==> optotype_list@[j] == ((b0 / pow(10, j as nat)) % 10) as u8,
                forall|j: int|
                    9 <= j < 9 + d1 ==> optotype_list@[j] == ((b1 / pow(10, (j - 9) as nat))
                        % 10) as u8,
            decreases 9 - d1,
        {
            proof {
                lemma_pow_positive(10, d1 as nat);
                lemma_mod_bound(block1 as int, 10);
                assert(pow(10, (d1 + 1) as nat) == pow(10, d1 as nat) * 10) by {
                    lemma_pow1(10);
                    lemma_pow_adds(10, d1 as nat, 1);
                };
                lemma_div_denominator(b1, pow(10, d1 as nat), 10);
            }
            optotype_list.push((block1 % num_possible_optotypes) as u8);
            block1 = block1 / num_possible_optotypes;
            d1 = d1 + 1;
        }
        proof {
            lemma_leftover_zero(b1);
        }
        if block1 != 0 {
            return Err(
                CodeError(
                    String::from_str(
                        "An unexpected value was encountered when decoding the optotypes encoded by this code.",
                    ),
                ),
            );
        }
        // The digits were pushed least significant first, per block: restore
        // the reading order of the flat list.
        let mut optotypes: Vec<u8> = Vec::new();
        let mut k: usize = 0;
        while k < 18
            invariant
                k <= 18,
                optotype_list@.len() == 18,
                optotypes@.len() == k,
                forall|j: int| 0 <= j < k ==> optotypes@[j] == optotype_list@[17 - j],
            decreases 18 - k,
        {
            optotypes.push(optotype_list[17 - k]);
            k = k + 1;
        }
        proof {
            assert forall|j: int| 0 <= j < 9 implies optotypes@[j] == digits_msd(b1, 9)[j] by {
                assert(optotypes@[j] == optotype_list@[17 - j]);
            };
            assert forall|j: int| 9 <= j < 18 implies optotypes@[j] == digits_msd(b0, 9)[j - 9]
                by {
                assert(optotypes@[j] == optotype_list@[17 - j]);
            };
            assert(optotypes@ =~= digits_msd(b1, 9) + digits_msd(b0, 9));
            lemma_digits_msd_value(b0, 9);
            lemma_digits_msd_value(b1, 9);
        }
        // Store all the fields.
        let processed_code = LongCode { version, optotype_definition, optotypes };
        proof {
            assert(processed_code.optotypes@.take(9) =~= digits_msd(b1, 9));
            assert(processed_code.optotypes@.skip(9) =~= digits_msd(b0, 9));
            assert(processed_code.spec_body() == (num as int) / 0x100000);
        }
        // Check the CRC is correct: the checksum is the low 16 bits of the
        // value.
        let message_crc = (num % 0x10000) as u16;
        let calculated_crc = processed_code.get_crc();
        if message_crc != calculated_crc {
            let mut m = String::from_str(
                "The long code was entered incorrectly (CRC mismatch. Code contained CRC ",
            );
            append_decimal(&mut m, message_crc as u64);
            m.append(", but the calculated value was ");
            append_decimal(&mut m, calculated_crc as u64);
            m.append(").");
            return Err(CodeError(m));
        }
        Ok(processed_code)
    }

    /// Generates a random new long code for the specified optotypes: for
    /// each row of the chart, indices drawn uniformly without replacement,
    /// so that no row repeats an optotype (repeats across rows are
    /// allowed).
    pub fn generate_random(optotypes: OptotypeDefinition) -> (r: LongCode)
        requires
            4 <= optotypes.optotypes@.len() <= 255,
        ensures
            r.version == 0,
            r.optotype_definition == optotypes,
            r.optotypes@.len() == 18,
            forall|i: int| 0 <= i < 18 ==> r.optotypes@[i] < optotypes.optotypes@.len(),
            rows_duplicate_free(r.optotypes@),
            is_catalog_definition(optotypes) ==> r.wf(),
    {
        proof {
            if is_catalog_definition(optotypes) {
                lemma_catalog_definition(optotypes);
            }
        }
        let size = optotypes.optotypes.len();
        // The flat list reads from the bottom row upward: four rows of
        // four optotypes, then the two-optotype top row.
        let mut list = draw_distinct(4, size);
        let ghost g4 = list@;
        let mut row3 = draw_distinct(4, size);
        let ghost g3 = row3@;
        list.append(&mut row3);
        let mut row2 = draw_distinct(4, size);
        let ghost g2 = row2@;
        list.append(&mut row2);
        let mut row1 = draw_distinct(4, size);
        let ghost g1 = row1@;
        list.append(&mut row1);
        let mut row0 = draw_distinct(2, size);
        let ghost g0 = row0@;
        list.append(&mut row0);
        proof {
            assert(list@ == g4 + g3 + g2 + g1 + g0);
            assert(list@.subrange(0, 4) =~= g4);
            assert(list@.subrange(4, 8) =~= g3);
            assert(list@.subrange(8, 12) =~= g2);
            assert(list@.subrange(12, 16) =~= g1);
            assert(list@.subrange(16, 18) =~= g0);
        }
        LongCode { version: 0, optotype_definition: optotypes, optotypes: list }
    }
}

impl LongCode {
    /// Convert an OptotypeArrangement into the long code which encodes
    /// it. Every possible arrangement has a corresponding long code, so
    /// this is always possible - unlike for the short ("telephone") codes,
    /// which can only represent a subset of the possible arrangements. The
    /// rows are flattened bottom row first, each row left to right.
    pub fn from(optotype_arrangement: crate::optotypes::OptotypeArrangement) -> (r: LongCode)
        requires
            optotype_arrangement.wf(),
        ensures
            r.version == 0,
            r.optotype_definition == optotype_arrangement.optotype_definition,
            r.optotypes@ == optotype_arrangement.rows@[4].optotypes@
                + optotype_arrangement.rows@[3].optotypes@
                + optotype_arrangement.rows@[2].optotypes@
                + optotype_arrangement.rows@[1].optotypes@
                + optotype_arrangement.rows@[0].optotypes@,
            r.wf(),
    {
        let mut optotype_list: Vec<u8> = Vec::new();
        push_all(&mut optotype_list, &optotype_arrangement.rows[4].optotypes);
        push_all(&mut optotype_list, &optotype_arrangement.rows[3].optotypes);
        push_all(&mut optotype_list, &optotype_arrangement.rows[2].optotypes);
        push_all(&mut optotype_list, &optotype_arrangement.rows[1].optotypes);
        push_all(&mut optotype_list, &optotype_arrangement.rows[0].optotypes);
        proof {
            crate::optotypes::lemma_catalog_definition(
                optotype_arrangement.optotype_definition,
            );
        }
        LongCode {
            version: 0,
            optotype_definition: optotype_arrangement.optotype_definition,
            optotypes: optotype_list,
        }
    }
}

/// Append every element of `src` to `dst`, in order.
fn push_all(dst: &mut Vec<u8>, src: &Vec<u8>)
    ensures
        final(dst)@ == old(dst)@ + src@,
{
    let mut j: usize = 0;
    while j < src.len()
        invariant
            j <= src@.len(),
            dst@ == old(dst)@ + src@.take(j as int),
        decreases src@.len() - j,
    {
        dst.push(src[j]);
        proof {
            assert(old(dst)@ + src@.take(j + 1) =~= (old(dst)@ + src@.take(j as int)).push(
                src@[j as int],
            ));
        }
        j = j + 1;
    }
    proof {
        assert(src@.take(src@.len() as int) =~= src@);
        assert(dst@ =~= old(dst)@ + src@);
    }
}

/// A value has no digits left after nine extractions exactly when it is
/// below 10^9.
proof fn lemma_leftover_zero(b: int)
    requires
        0 <= b,
    ensures
        (b / pow(10, 9) == 0) <==> (b < 1000000000),
{
    assert(pow(10, 9) == 1000000000) by {
        reveal_with_fuel(pow, 10);
    };
    if b < 1000000000 {
        vstd::arithmetic::div_mod::lemma_basic_div(b, 1000000000);
    } else {
        vstd::arithmetic::div_mod::lemma_div_is_ordered(1000000000, b, 1000000000);
        vstd::arithmetic::div_mod::lemma_div_by_self(1000000000);
    }
}

/// The flat optotype list of a chart, split into its per-row slices
/// (bottom row first), has no duplicate inside any row.
pub open spec fn rows_duplicate_free(optotypes: Seq<u8>) -> bool {
    &&& optotypes.subrange(0, 4).no_duplicates()
    &&& optotypes.subrange(4, 8).no_duplicates()
    &&& optotypes.subrange(8, 12).no_duplicates()
    &&& optotypes.subrange(12, 16).no_duplicates()
    &&& optotypes.subrange(16, 18).no_duplicates()
}

/// The text rendered for the first `i` of the sixteen base-32 digits, with
/// a separator before the fifth, ninth and thirteenth digit.
pub open spec fn long_partial(digits: Seq<char>, i: int) -> Seq<char>
    decreases i,
{
    if i <= 0 {
        Seq::empty()
    } else if i - 1 == 4 || i - 1 == 8 || i - 1 == 12 {
        long_partial(digits, i - 1) + seq!['-', digits[i - 1]]
    } else {
        long_partial(digits, i - 1) + seq![digits[i - 1]]
    }
}

/// This function is a helper to calculate the number of body blocks (each
/// storing 9 optotypes) needed to hold the optotypes of every row: the
/// total count across the rows divided by nine, rounded to the nearest
/// integer.
pub fn get_num_body_blocks() -> (r: usize)
    ensures
        r == 2,
{
    let mut total: usize = 0;
    let mut row: usize = 0;
    while row < crate::codes::NUM_ROWS
        invariant
            row <= 5,
            total == if row == 0 {
                0int
            } else {
                2 + 4 * (row - 1)
            },
        decreases crate::codes::NUM_ROWS - row,
    {
        total = total + crate::codes::num_optotypes_on_row(row);
        row = row + 1;
    }
    (2 * total + 9) / 18
}

/// The checksum that a parser recomputes for the 80-bit value `num`: the
/// CRC-16 of the decoded body and the header rebuilt from the decoded
/// version and the catalog id that the raw id field denotes.
pub open spec fn spec_decoded_long_crc(num: int) -> int {
    spec_crc16(
        (field_block1(num) * 0x40000000 + field_block0(num)) * 16 + field_long_version(num) * 4
            + spec_definition_id(field_long_id(num)),
        64,
    ) as int
}

/// The conditions under which parsing succeeds on the text `s` and yields
/// the long code `lc`: every non-separator character belongs to the
/// alphabet, the encoded value fits 80 bits, each body block fits nine
/// decimal digits, the fields of `lc` are the value's fields, and the
/// embedded checksum equals the checksum of those fields.
pub open spec fn parse_long_ok(s: Seq<char>, lc: LongCode) -> bool {
    let t = strip_separators(s);
    let num = code_value(t);
    &&& all_base_chars(t)
    &&& num <= 0xFFFFFFFFFFFFFFFFFFFF
    &&& field_block0(num) < 1000000000
    &&& field_block1(num) < 1000000000
    &&& lc.version == field_long_version(num)
    &&& is_definition(lc.optotype_definition, spec_definition_id(field_long_id(num)))
    &&& lc.optotypes@ == digits_msd(field_block1(num), 9) + digits_msd(field_block0(num), 9)
    &&& lc.spec_crc() == field_long_crc(num)
}

/// The error text for characters outside the alphabet.
pub open spec fn spec_long_invalid_characters_message() -> Seq<char> {
    "Failed to parse long code. It may have contained invalid characters."@
}

/// The error text for values beyond 80 bits.
pub open spec fn spec_long_range_message() -> Seq<char> {
    "The long code encoded a value which was outside the allowed range."@
}

/// The error text for a body block beyond nine decimal digits.
pub open spec fn spec_long_unexpected_value_message() -> Seq<char> {
    "An unexpected value was encountered when decoding the optotypes encoded by this code."@
}

/// The error text for a checksum disagreement, naming both the embedded
/// and the recomputed value.
pub open spec fn spec_long_crc_mismatch_message(embedded: nat, computed: nat) -> Seq<char> {
    "The long code was entered incorrectly (CRC mismatch. Code contained CRC "@ + dec_chars(
        embedded,
    ) + ", but the calculated value was "@ + dec_chars(computed) + ")."@
}

/// Two equal-length sequences of decimal digits encoding the same value
/// are the same sequence.
pub proof fn lemma_block_value_unique(s1: Seq<u8>, s2: Seq<u8>)
    requires
        s1.len() == s2.len(),
        forall|i: int| 0 <= i < s1.len() ==> s1[i] <= 9,
        forall|i: int| 0 <= i < s2.len() ==> s2[i] <= 9,
        block_value(s1) == block_value(s2),
    ensures
        s1 == s2,
    decreases s1.len(),
{
    if s1.len() == 0 {
        assert(s1 =~= s2);
    } else {
        assert(forall|i: int| 0 <= i < s1.len() - 1 ==> #[trigger] s1.drop_last()[i] <= 9);
        assert(forall|i: int| 0 <= i < s2.len() - 1 ==> #[trigger] s2.drop_last()[i] <= 9);
        lemma_block_value_bounds(s1.drop_last());
        lemma_block_value_bounds(s2.drop_last());
        let v = block_value(s1);
        lemma_fundamental_div_mod_converse(v, 10, block_value(s1.drop_last()), s1.last() as int);
        lemma_fundamental_div_mod_converse(v, 10, block_value(s2.drop_last()), s2.last() as int);
        lemma_block_value_unique(s1.drop_last(), s2.drop_last());
        assert(s1.last() == v % 10 && s2.last() == v % 10);
        assert forall|i: int| 0 <= i < s1.len() implies s1[i] == s2[i] by {
            if i < s1.len() - 1 {
                assert(s1[i] == s1.drop_last()[i]);
                assert(s2[i] == s2.drop_last()[i]);
            } else {
                assert(s1[i] == s1.last() && s2[i] == s2.last());
            }
        };
        assert(s1 =~= s2);
    }
}

/// Stripping the separators from a partially rendered long code leaves the
/// rendered digits.
proof fn lemma_long_partial_strip(digits: Seq<char>, i: int)
    requires
        all_base_chars(digits),
        0 <= i <= digits.len(),
    ensures
        strip_separators(long_partial(digits, i)) == digits.take(i),
    decreases i,
{
    if i == 0 {
        assert(strip_separators(Seq::<char>::empty()) =~= Seq::<char>::empty());
        assert(digits.take(0) =~= Seq::<char>::empty());
    } else {
        lemma_long_partial_strip(digits, i - 1);
        let c = digits[i - 1];
        assert(char_value(c) >= 0);
        assert(c != '-');
        assert(strip_separators(seq![c]) =~= seq![c]) by {
            assert(seq![c].drop_last() =~= Seq::<char>::empty());
            assert(strip_separators(Seq::<char>::empty()) =~= Seq::<char>::empty());
        };
        assert(strip_separators(seq!['-', c]) =~= seq![c]) by {
            assert(seq!['-', c].last() == c);
            assert(seq!['-', c].drop_last() =~= seq!['-']);
            assert(seq!['-'].drop_last() =~= Seq::<char>::empty());
            assert(seq!['-'].last() == '-');
            assert(strip_separators(Seq::<char>::empty()) =~= Seq::<char>::empty());
            assert(strip_separators(seq!['-']) =~= Seq::<char>::empty());
        };
        if i - 1 == 4 || i - 1 == 8 || i - 1 == 12 {
            crate::codes::lemma_strip_concat(long_partial(digits, i - 1), seq!['-', c]);
        } else {
            crate::codes::lemma_strip_concat(long_partial(digits, i - 1), seq![c]);
        }
        assert(strip_separators(long_partial(digits, i)) =~= digits.take(i));
    }
}

/// Round trip: rendering any well-formed long code and parsing the
/// rendered text back succeeds and recovers exactly the fields of the
/// original code.
pub proof fn lemma_long_round_trip(lc: LongCode)
    requires
        lc.wf(),
    ensures
        parse_long_ok(lc.spec_code_text(), lc),
{
    lc.lemma_numerical_bound();
    let num = lc.spec_numerical();
    let body = lc.spec_body();
    let header = lc.spec_header();
    let crc = lc.spec_crc();
    let version = lc.version as int;
    let id = lc.optotype_definition.id as int;
    lemma_catalog_definition(lc.optotype_definition);
    let digits = code_chars(num, 16);
    let text = lc.spec_code_text();
    assert(num < pow(32, 16)) by {
        reveal_with_fuel(pow, 17);
    };
    crate::codes::lemma_code_chars_value(num, 16);
    lemma_long_partial_strip(digits, 16);
    assert(digits.take(16) =~= digits);
    assert(code_value(strip_separators(text)) == num);
    // The fields of the rendered value are the fields of the code.
    let b1 = block_value(lc.optotypes@.take(9));
    let b0 = block_value(lc.optotypes@.skip(9));
    assert(forall|i: int| 0 <= i < 9 ==> #[trigger] lc.optotypes@.take(9)[i] <= 9);
    assert(forall|i: int| 0 <= i < 9 ==> #[trigger] lc.optotypes@.skip(9)[i] <= 9);
    lemma_block_value_bounds(lc.optotypes@.take(9));
    lemma_block_value_bounds(lc.optotypes@.skip(9));
    assert(pow(10, 9) == 1000000000) by {
        reveal_with_fuel(pow, 10);
    };
    lemma_fundamental_div_mod_converse(num, 0x10000, body * 16 + header, crc);
    lemma_fundamental_div_mod_converse(num / 0x10000, 4, body * 4 + version, id);
    lemma_div_denominator(num, 0x10000, 4);
    lemma_fundamental_div_mod_converse(num / 0x40000, 4, body, version);
    lemma_div_denominator(num, 0x40000, 4);
    lemma_fundamental_div_mod_converse(body, 0x40000000, b1, b0);
    lemma_div_denominator(num, 0x100000, 0x40000000);
    assert(field_long_crc(num) == crc);
    assert(field_long_id(num) == id);
    assert(field_long_version(num) == version);
    assert(field_block0(num) == b0);
    assert(field_block1(num) == b1);
    // The digits of the blocks are the optotypes of the code.
    lemma_digits_msd_value(b1, 9);
    lemma_digits_msd_value(b0, 9);
    lemma_block_value_unique(lc.optotypes@.take(9), digits_msd(b1, 9));
    lemma_block_value_unique(lc.optotypes@.skip(9), digits_msd(b0, 9));
    assert(lc.optotypes@ =~= digits_msd(b1, 9) + digits_msd(b0, 9));
    assert(is_definition(lc.optotype_definition, spec_definition_id(field_long_id(num))));
}

/// The parsed fields are a function of the text alone: two long codes that
/// both satisfy the parsing contract for the same text agree on every
/// field.
/// The deterministic half of checksum sensitivity: a text whose raw id
/// field names a catalog entry parses to a given long code only if it
/// encodes exactly that code's 80-bit value, checksum included. A
/// transcription error that changes the encoded value therefore never
/// silently re-parses to the same code - it is either rejected or yields a
/// different code. (Raw ids 2 and 3 fall back to the default catalog
/// entry, so for those the reconstructed header differs from the encoded
/// one by design; and that a changed value is rejected rather than
/// accepted as a different code rests on the checksum and holds only with
/// high probability, so neither is stated here.)
pub proof fn lemma_parse_long_recovers_value(s: Seq<char>, lc: LongCode)
    requires
        parse_long_ok(s, lc),
    ensures
        lc.optotype_definition.id == spec_definition_id(
            field_long_id(code_value(strip_separators(s))),
        ),
        field_long_id(code_value(strip_separators(s))) <= 1 ==> code_value(strip_separators(s))
            == lc.spec_numerical(),
{
    let t = strip_separators(s);
    let num = code_value(t);
    crate::codes::lemma_code_value_bounds(t);
    lemma_long_fields(num);
    let b1 = field_block1(num);
    let b0 = field_block0(num);
    // The definition's own id is the catalog entry that the raw id bits
    // denote.
    if spec_definition_id(field_long_id(num)) == 0 {
        assert(is_definition(lc.optotype_definition, 0));
    } else {
        assert(is_definition(lc.optotype_definition, spec_definition_id(field_long_id(num))));
    }
    // The optotype digits reassemble into the body blocks.
    assert(pow(10, 9) == 1000000000) by {
        reveal_with_fuel(pow, 10);
    };
    lemma_digits_msd_value(b1, 9);
    lemma_digits_msd_value(b0, 9);
    assert(lc.optotypes@.take(9) =~= digits_msd(b1, 9));
    assert(lc.optotypes@.skip(9) =~= digits_msd(b0, 9));
    assert(lc.spec_body() == num / 0x100000);
    if field_long_id(num) <= 1 {
        assert(lc.spec_header() == field_long_version(num) * 4 + field_long_id(num));
    }
}

pub proof fn lemma_parse_long_determined(s: Seq<char>, a: LongCode, b: LongCode)
    requires
        parse_long_ok(s, a),
        parse_long_ok(s, b),
    ensures
        a.version == b.version,
        a.optotypes@ == b.optotypes@,
        a.optotype_definition.id == b.optotype_definition.id,
        a.optotype_definition.name@ == b.optotype_definition.name@,
        a.optotype_definition.optotypes@ == b.optotype_definition.optotypes@,
{
    let num = code_value(strip_separators(s));
    if spec_definition_id(field_long_id(num)) == 0 {
        assert(is_definition(a.optotype_definition, 0));
        assert(is_definition(b.optotype_definition, 0));
    } else {
        assert(is_definition(a.optotype_definition, spec_definition_id(field_long_id(num))));
        assert(is_definition(b.optotype_definition, spec_definition_id(field_long_id(num))));
    }
}

} // verus!
