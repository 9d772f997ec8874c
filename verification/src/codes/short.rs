//! The short-code codec. A short code packs {version, optotype-set id,
//! start-row selector, four row offsets, checksum} into a single 30-bit
//! integer, rendered as six base-32 characters with a cosmetic separator:
//! a code small enough to be given over the phone.
//!
//! Field layout of the 30-bit value, most significant bits first:
//! version(1) | optotype-id(1) | start_row(8) | combined_offsets(14) |
//! checksum(6). The four row offsets are packed as the decimal digits of
//! `combined_offsets` (each offset 0-9, most significant offset first),
//! which needs only 14 bits against 16 for four raw nibbles.

use crate::codes::CodeError;
use crate::codes::all_base_chars;
use crate::codes::append_decimal;
use crate::codes::append_code_char;
use crate::codes::code_chars;
use crate::codes::code_value;
use crate::codes::dec_chars;
use crate::codes::get_code_from_number;
use crate::codes::get_number_from_code;
use crate::codes::lemma_base_char_value;
use crate::codes::nth_base32_digit;
use crate::codes::strip_separators;
use crate::codes::crc::spec_crc8;
use crate::codes::crc::compute_crc8;
use crate::optotypes::OptotypeDefinition;
use crate::optotypes::is_catalog_definition;
use crate::optotypes::is_definition;
use crate::rng::random_u8;
use crate::rng::draw_distinct;
use vstd::prelude::*;
use vstd::arithmetic::power::pow;
use vstd::arithmetic::div_mod::lemma_fundamental_div_mod;
use vstd::arithmetic::div_mod::lemma_fundamental_div_mod_converse;
use vstd::arithmetic::div_mod::lemma_mod_bound;
use vstd::arithmetic::div_mod::lemma_div_denominator;
use vstd::arithmetic::div_mod::lemma_div_pos_is_pos;
use vstd::arithmetic::div_mod::lemma_multiply_divide_lt;

verus! {

/// Represents the data encoded in a short code: the compact representation
/// of a vision chart, small enough to be read out over the phone.
#[derive(Debug, PartialEq)]
pub struct ShortCode {
    /// Version is either 0 or 1. This determines what method is used to
    /// parse the code. At present only version 0 is implemented, so the
    /// field is carried but otherwise ignored.
    pub version: u8,
    /// The set of optotypes encoded by this code.
    pub optotype_definition: OptotypeDefinition,
    /// The "seed" used to derive the bottom row of the chart, 0 to 255.
    pub start_row: u8,
    /// One offset (0-9) for each row above the bottom row, top row last.
    pub offsets: [u8; 4],
}

/// The embedded checksum field: the low 6 bits of a short code's value.
pub open spec fn field_crc(num: int) -> int {
    num % 64
}

/// The packed row-offsets field: 14 bits above the checksum.
pub open spec fn field_combined(num: int) -> int {
    (num / 64) % 16384
}

/// The start-row field: 8 bits above the offsets.
pub open spec fn field_start_row(num: int) -> int {
    (num / 0x100000) % 256
}

/// The optotype-set id field: one bit above the start row.
pub open spec fn field_id(num: int) -> int {
    (num / 0x10000000) % 2
}

/// The version field: the most significant bit of the 30-bit value.
pub open spec fn field_version(num: int) -> int {
    (num / 0x20000000) % 2
}

/// A 30-bit value decomposes exactly into the short-code fields.
pub proof fn lemma_short_fields(num: int)
    requires
        0 <= num < 0x40000000,
    ensures
        num == field_version(num) * 0x20000000 + field_id(num) * 0x10000000 + field_start_row(num)
            * 0x100000 + field_combined(num) * 64 + field_crc(num),
        num / 64 == field_version(num) * 0x800000 + field_id(num) * 0x400000 + field_start_row(num)
            * 0x4000 + field_combined(num),
        0 <= field_version(num) <= 1,
        0 <= field_id(num) <= 1,
        0 <= field_start_row(num) < 256,
        0 <= field_combined(num) < 16384,
        0 <= field_crc(num) < 64,
{
    let b = num / 64;
    lemma_fundamental_div_mod(num, 64);
    lemma_mod_bound(num, 64);
    lemma_div_pos_is_pos(num, 64);
    lemma_fundamental_div_mod(b, 16384);
    lemma_mod_bound(b, 16384);
    let t2 = num / 0x100000;
    assert(b / 16384 == t2) by {
        lemma_div_denominator(num, 64, 16384);
    };
    lemma_div_pos_is_pos(num, 0x100000);
    lemma_fundamental_div_mod(t2, 256);
    lemma_mod_bound(t2, 256);
    let t3 = num / 0x10000000;
    assert(t2 / 256 == t3) by {
        lemma_div_denominator(num, 0x100000, 256);
    };
    lemma_div_pos_is_pos(num, 0x10000000);
    lemma_fundamental_div_mod(t3, 2);
    lemma_mod_bound(t3, 2);
    let t4 = num / 0x20000000;
    assert(t3 / 2 == t4) by {
        lemma_div_denominator(num, 0x10000000, 2);
    };
    lemma_div_pos_is_pos(num, 0x20000000);
    assert(t4 < 2) by {
        lemma_multiply_divide_lt(num, 0x20000000, 2);
    };
    assert(t4 % 2 == t4) by {
        vstd::arithmetic::div_mod::lemma_small_mod(t4 as nat, 2);
    };
}

/// Packing four offset digits gives a number below 10000 whose decimal
/// digits are exactly those offsets.
pub proof fn lemma_offsets_pack(o0: int, o1: int, o2: int, o3: int)
    requires
        0 <= o0 < 10,
        0 <= o1 < 10,
        0 <= o2 < 10,
        0 <= o3 < 10,
    ensures
        ({
            let c = o0 * 1000 + o1 * 100 + o2 * 10 + o3;
            &&& 0 <= c < 10000
            &&& (c / 1000) % 10 == o0
            &&& (c / 100) % 10 == o1
            &&& (c / 10) % 10 == o2
            &&& c % 10 == o3
        }),
{
    let c = o0 * 1000 + o1 * 100 + o2 * 10 + o3;
    lemma_fundamental_div_mod_converse(c, 10, o0 * 100 + o1 * 10 + o2, o3);
    lemma_fundamental_div_mod_converse(c / 10, 10, o0 * 10 + o1, o2);
    lemma_div_denominator(c, 10, 10);
    lemma_fundamental_div_mod_converse(c / 100, 10, o0, o1);
    lemma_div_denominator(c, 100, 10);
    vstd::arithmetic::div_mod::lemma_small_mod(o0 as nat, 10);
}

/// A packed-offsets value below 10000 is exactly the packing of its four
/// decimal digits.
pub proof fn lemma_offsets_unpack(c: int)
    requires
        0 <= c,
    ensures
        0 <= c % 10 < 10,
        0 <= (c / 10) % 10 < 10,
        0 <= (c / 100) % 10 < 10,
        0 <= (c / 1000) % 10 < 10,
        c / 10 / 10 == c / 100,
        c / 100 / 10 == c / 1000,
        c / 1000 / 10 == c / 10000,
        (c / 10000 == 0) <==> (c < 10000),
        c < 10000 ==> c == ((c / 1000) % 10) * 1000 + ((c / 100) % 10) * 100 + ((c / 10) % 10) * 10
            + c % 10,
{
    lemma_mod_bound(c, 10);
    lemma_mod_bound(c / 10, 10);
    lemma_mod_bound(c / 100, 10);
    lemma_mod_bound(c / 1000, 10);
    lemma_div_denominator(c, 10, 10);
    lemma_div_denominator(c, 100, 10);
    lemma_div_denominator(c, 1000, 10);
    lemma_fundamental_div_mod(c, 10);
    lemma_fundamental_div_mod(c / 10, 10);
    lemma_fundamental_div_mod(c / 100, 10);
    lemma_fundamental_div_mod(c / 1000, 10);
    lemma_div_pos_is_pos(c, 10);
    lemma_div_pos_is_pos(c / 10, 10);
    lemma_div_pos_is_pos(c / 100, 10);
    lemma_div_pos_is_pos(c / 1000, 10);
    if c < 10000 {
        vstd::arithmetic::div_mod::lemma_basic_div(c, 10000);
        assert(c / 1000 < 10) by {
            lemma_multiply_divide_lt(c, 1000, 10);
        };
        vstd::arithmetic::div_mod::lemma_small_mod((c / 1000) as nat, 10);
    } else {
        assert(c / 10000 >= 1) by {
            vstd::arithmetic::div_mod::lemma_div_is_ordered(10000, c, 10000);
            vstd::arithmetic::div_mod::lemma_div_by_self(10000);
        };
    }
}

impl ShortCode {
    /// The packed row-offsets number: the four offsets as the decimal
    /// digits of one value, most significant offset first.
    pub open spec fn spec_combined_offsets(self) -> int {
        self.offsets@[0] * 1000 + self.offsets@[1] * 100 + self.offsets@[2] * 10 + self.offsets@[3]
    }

    /// The 24-bit field body: version, optotype id, start row and packed
    /// offsets, without the checksum.
    pub open spec fn spec_body(self) -> int {
        self.version * 0x800000 + self.optotype_definition.id * 0x400000 + self.start_row * 0x4000
            + self.spec_combined_offsets()
    }

    /// The truncated CRC-8 checksum of the field body: the CRC-8 of the
    /// 24-digit binary text of the body, divided by 8 and rounded to the
    /// nearest integer. The division is a backward-compatibility artifact:
    /// the result fits 5 bits but is stored in a 6-bit field.
    pub open spec fn spec_crc(self) -> int {
        (spec_crc8(self.spec_body(), 24) + 4) / 8
    }

    /// The full 30-bit value: the field body with the checksum appended in
    /// the low 6 bits.
    pub open spec fn spec_numerical(self) -> int {
        self.spec_body() * 64 + self.spec_crc()
    }

    /// Well-formedness: the version fits its single bit, the definition is
    /// a catalog entry, and each offset is a decimal digit.
    pub open spec fn wf(self) -> bool {
        &&& self.version <= 1
        &&& is_catalog_definition(self.optotype_definition)
        &&& forall|i: int| 0 <= i < 4 ==> self.offsets@[i] <= 9
    }

    /// The canonical rendering: the six zero-padded base-32 digits of the
    /// 30-bit value, with one separator inserted after the third.
    pub open spec fn spec_code_text(self) -> Seq<char> {
        let digits = code_chars(self.spec_numerical(), 6);
        digits.take(3) + seq!['-'] + digits.skip(3)
    }

    /// This returns the number representing the state stored within a
    /// ShortCode, without its checksum: the fields rendered into binary and
    /// appended to one another. The result occupies 24 bits.
    pub fn get_numerical_representation_without_crc(&self) -> (r: u32)
        requires
            self.wf(),
        ensures
            r == self.spec_body(),
            r < 0x1000000,
    {
        let combined: u32 = self.offsets[0] as u32 * 1000 + self.offsets[1] as u32 * 100
            + self.offsets[2] as u32 * 10 + self.offsets[3] as u32;
        (self.version as u32) * 0x800000 + (self.optotype_definition.id as u32) * 0x400000 + (
        self.start_row as u32) * 0x4000 + combined
    }

    /// This function returns the truncated CRC-8 checksum of the field
    /// body. For compatibility with legacy codes the CRC-8 value is divided
    /// by 8 and rounded, so only values 0 to 32 occur although the field is
    /// 6 bits wide.
    pub fn get_crc(&self) -> (r: u8)
        requires
            self.wf(),
        ensures
            r == self.spec_crc(),
            r <= 32,
    {
        let body = self.get_numerical_representation_without_crc();
        let crc = compute_crc8(body);
        ((crc as u16 + 4) / 8) as u8
    }

    /// Returns the full 30-bit number representing the state stored within
    /// a ShortCode, checksum included.
    pub fn get_numerical_representation(&self) -> (r: u32)
        requires
            self.wf(),
        ensures
            r == self.spec_numerical(),
            r < 0x40000000,
    {
        let data_body = self.get_numerical_representation_without_crc();
        let crc = self.get_crc();
        data_body * 64 + crc as u32
    }

    /// Serialises the short code: six zero-padded base-32 characters with
    /// one '-' after the third, which splits the code into two sets of
    /// three digits that are easier to remember and to read out.
    pub fn to_string(&self) -> (r: String)
        requires
            self.wf(),
        ensures
            r@ == self.spec_code_text(),
            r@.len() == 7,
    {
        let v = self.get_numerical_representation();
        let digits = get_code_from_number(v as u128, 6);
        let ghost text = self.spec_code_text();
        let mut s = String::new();
        let mut i: usize = 0;
        while i < 6
            invariant
                i <= 6,
                digits@ == code_chars(self.spec_numerical(), 6),
                digits@.len() == 6,
                s@ == if i <= 3 {
                    digits@.take(i as int)
                } else {
                    digits@.take(3) + seq!['-'] + digits@.subrange(3, i as int)
                },
            decreases 6 - i,
        {
            proof {
                let j = (5 - i) as nat;
                crate::codes::lemma_pow_pos(j);
                lemma_mod_bound(self.spec_numerical() / pow(32, j), 32);
                lemma_base_char_value(nth_base32_digit(self.spec_numerical(), j));
            }
            if i == 3 {
                append_code_char(&mut s, '-');
            }
            append_code_char(&mut s, digits[i]);
            proof {
                if i + 1 <= 3 {
                    assert(s@ =~= digits@.take(i + 1));
                } else {
                    assert(s@ =~= digits@.take(3) + seq!['-'] + digits@.subrange(3, i + 1));
                }
            }
            i = i + 1;
        }
        proof {
            assert(digits@.subrange(3, 6) =~= digits@.skip(3));
            assert(s@ =~= text);
        }
        s
    }

    /// Parses a short code and extracts the fields it encodes. Parsing is
    /// agnostic to '-' characters: a user may enter as many or as few as
    /// they wish. Returns an error if the text contains characters outside
    /// the base-32 alphabet (or encodes a value too large to handle), if
    /// the value exceeds 30 bits, if the packed offsets exceed four decimal
    /// digits, or if the embedded checksum disagrees with the recomputed
    /// one.
    pub fn from_str(code: &str) -> (r: Result<ShortCode, CodeError>)
        ensures
            ({
                let t = strip_separators(code@);
                let num = code_value(t);
                match r {
                    Ok(sc) => sc.wf() && parse_short_ok(code@, sc),
                    Err(e) => {
                        if !all_base_chars(t) {
                            e.0@ == spec_invalid_characters_message()
                        } else if num > 0x3FFFFFFF {
                            e.0@ == spec_range_message()
                        } else if field_combined(num) >= 10000 {
                            e.0@ == spec_offsets_message()
                        } else {
                            &&& field_crc(num) != spec_decoded_crc(num)
                            &&& e.0@ == spec_crc_mismatch_message(
                                field_crc(num) as nat,
                                spec_decoded_crc(num) as nat,
                            )
                        }
                    },
                }
            }),
    {
        let num = match get_number_from_code(code.to_owned()) {
            Some(binary) => binary,
            None => {
                // Tell an unreadable code apart from one that merely
                // encodes too large a value for any integer width.
                if crate::codes::contains_invalid_character(code) {
                    return Err(
                        CodeError(
                            String::from_str(
                                "Failed to parse short code. It may have contained invalid characters.",
                            ),
                        ),
                    );
                }
                proof {
                    crate::codes::lemma_code_value_bounds(strip_separators(code@));
                }
                return Err(
                    CodeError(
                        String::from_str("Code did not encode a number within a valid range."),
                    ),
                );
            },
        };
        // Double check the encoded number is in the right range (0 to 2^30 - 1)
        if num > 1073741823 {
            return Err(
                CodeError(String::from_str("Code did not encode a number within a valid range.")),
            );
        }
        proof {
            lemma_short_fields(num as int);
        }
        // Calculate the fields via fixed-width place values
        let message_crc = (num % 64) as u8;
        let rest = num / 64;
        let mut combined = (rest % 16384) as u16;
        let above = rest / 16384;
        let start_row = (above % 256) as u8;
        let top = (above / 256) as u8;
        let id = top % 2;
        let version = top / 2;
        proof {
            lemma_div_denominator(num as int, 64, 16384);
            lemma_div_denominator(num as int, 0x100000, 256);
            lemma_div_denominator(num as int, 0x10000000, 2);
            lemma_offsets_unpack(combined as int);
        }
        // Unpack the offsets: the decimal digits of the combined number,
        // most significant offset first.
        let o3 = (combined % 10) as u8;
        combined = combined / 10;
        let o2 = (combined % 10) as u8;
        combined = combined / 10;
        let o1 = (combined % 10) as u8;
        combined = combined / 10;
        let o0 = (combined % 10) as u8;
        combined = combined / 10;
        // A sanity check that the combined offsets number was not too big:
        // if it was, the code was likely entered incorrectly.
        if combined != 0 {
            return Err(
                CodeError(String::from_str("The row offsets number appeared to be invalid.")),
            );
        }
        let optotype_definition = OptotypeDefinition::from(id as u32);
        let processed_code = ShortCode {
            version,
            optotype_definition,
            start_row,
            offsets: [o0, o1, o2, o3],
        };
        proof {
            assert(processed_code.offsets@[0] == o0 && processed_code.offsets@[1] == o1
                && processed_code.offsets@[2] == o2 && processed_code.offsets@[3] == o3);
            assert(processed_code.spec_combined_offsets() == field_combined(num as int));
            assert(processed_code.spec_body() == (num as int) / 64);
        }
        // Check the CRC is correct
        let calculated_crc = processed_code.get_crc();
        if message_crc != calculated_crc {
            let mut m = String::from_str(
                "The short code was entered incorrectly (CRC mismatch. Code contained CRC ",
            );
            append_decimal(&mut m, message_crc as u64);
            m.append(", but the calculated value was ");
            append_decimal(&mut m, calculated_crc as u64);
            m.append(").");
            return Err(CodeError(m));
        }
        Ok(processed_code)
    }

    /// Generates a random new short code for the specified optotypes: a
    /// uniformly drawn start row and four distinct row offsets drawn from
    /// 0-9 without replacement.
    pub fn generate_random(optotypes: OptotypeDefinition) -> (r: ShortCode)
        ensures
            r.version == 0,
            r.optotype_definition == optotypes,
            r.wf() <==> is_catalog_definition(optotypes),
            forall|i: int, j: int| 0 <= i < j < 4 ==> r.offsets@[i] != r.offsets@[j],
            forall|i: int| 0 <= i < 4 ==> r.offsets@[i] <= 9,
    {
        let drawn = draw_distinct(4, 10);
        ShortCode {
            version: 0,
            optotype_definition: optotypes,
            start_row: random_u8(),
            offsets: [drawn[0], drawn[1], drawn[2], drawn[3]],
        }
    }
}

/// The checksum that a parser recomputes for the 30-bit value `num`: the
/// truncated CRC-8 of the value's field body.
pub open spec fn spec_decoded_crc(num: int) -> int {
    (spec_crc8(num / 64, 24) + 4) / 8
}

/// The conditions under which parsing succeeds on the text `s` and yields
/// the short code `sc`: every non-separator character belongs to the
/// alphabet, the encoded value fits 30 bits, the packed offsets fit four
/// decimal digits, the fields of `sc` are the value's fields, and the
/// embedded checksum equals the checksum of those fields.
pub open spec fn parse_short_ok(s: Seq<char>, sc: ShortCode) -> bool {
    let t = strip_separators(s);
    let num = code_value(t);
    &&& all_base_chars(t)
    &&& num <= 0x3FFFFFFF
    &&& field_combined(num) < 10000
    &&& sc.version == field_version(num)
    &&& is_definition(sc.optotype_definition, field_id(num))
    &&& sc.start_row == field_start_row(num)
    &&& sc.offsets@[0] == (field_combined(num) / 1000) % 10
    &&& sc.offsets@[1] == (field_combined(num) / 100) % 10
    &&& sc.offsets@[2] == (field_combined(num) / 10) % 10
    &&& sc.offsets@[3] == field_combined(num) % 10
    &&& sc.spec_crc() == field_crc(num)
}

/// The error text for characters outside the alphabet.
pub open spec fn spec_invalid_characters_message() -> Seq<char> {
    "Failed to parse short code. It may have contained invalid characters."@
}

/// The error text for values beyond 30 bits.
pub open spec fn spec_range_message() -> Seq<char> {
    "Code did not encode a number within a valid range."@
}

/// The error text for packed offsets beyond four decimal digits.
pub open spec fn spec_offsets_message() -> Seq<char> {
    "The row offsets number appeared to be invalid."@
}

/// The error text for a checksum disagreement, naming both the embedded
/// and the recomputed value.
pub open spec fn spec_crc_mismatch_message(embedded: nat, computed: nat) -> Seq<char> {
    "The short code was entered incorrectly (CRC mismatch. Code contained CRC "@ + dec_chars(
        embedded,
    ) + ", but the calculated value was "@ + dec_chars(computed) + ")."@
}

/// Round trip: rendering any well-formed short code whose value fills at
/// least three base-32 digits, and parsing the rendered text back, succeeds
/// and recovers exactly the fields of the original code.
pub proof fn lemma_short_round_trip(sc: ShortCode)
    requires
        sc.wf(),
    ensures
        parse_short_ok(sc.spec_code_text(), sc),
{
    let v = sc.spec_numerical();
    let body = sc.spec_body();
    let crc = sc.spec_crc();
    let comb = sc.spec_combined_offsets();
    let version = sc.version as int;
    let id = sc.optotype_definition.id as int;
    let start = sc.start_row as int;
    crate::optotypes::lemma_catalog_definition(sc.optotype_definition);
    assert(0 <= comb < 10000);
    assert(0 <= crc <= 32) by {
        assert(spec_crc8(body, 24) <= 255);
    };
    assert(v < 0x40000000);
    assert(v < pow(32, 6)) by {
        reveal_with_fuel(pow, 7);
    };
    let digits = code_chars(v, 6);
    let text = sc.spec_code_text();
    crate::codes::lemma_code_chars_value(v, 6);
    // The separator disappears when the text is stripped for parsing.
    assert(strip_separators(text) == digits) by {
        let head = digits.take(3);
        let dash = seq!['-'];
        let tail = digits.skip(3);
        assert(text == head + dash + tail);
        crate::codes::lemma_strip_concat(head + dash, tail);
        crate::codes::lemma_strip_concat(head, dash);
        assert(all_base_chars(head)) by {
            assert(forall|i: int| 0 <= i < head.len() ==> head[i] == digits[i]);
        };
        assert(all_base_chars(tail)) by {
            assert(forall|i: int| 0 <= i < tail.len() ==> tail[i] == digits[i + 3]);
        };
        crate::codes::lemma_strip_all_base(head);
        crate::codes::lemma_strip_all_base(tail);
        assert(strip_separators(dash) =~= Seq::<char>::empty()) by {
            assert(dash.len() == 1 && dash.last() == '-');
            assert(dash.drop_last() =~= Seq::<char>::empty());
            assert(strip_separators(Seq::<char>::empty()) =~= Seq::<char>::empty());
        };
        assert(strip_separators(text) =~= head + tail);
        assert(head + tail =~= digits);
    };
    assert(code_value(strip_separators(text)) == v);
    // The fields of the rendered value are the fields of the code.
    lemma_fundamental_div_mod_converse(v, 64, body, crc);
    let bb = version * 512 + id * 256 + start;
    lemma_fundamental_div_mod_converse(body, 16384, bb, comb);
    lemma_div_denominator(v, 64, 16384);
    lemma_fundamental_div_mod_converse(bb, 256, version * 2 + id, start);
    lemma_div_denominator(v, 0x100000, 256);
    lemma_fundamental_div_mod_converse(version * 2 + id, 2, version, id);
    lemma_div_denominator(v, 0x10000000, 2);
    assert(field_crc(v) == crc);
    assert(field_combined(v) == comb);
    assert(field_start_row(v) == start);
    assert(field_id(v) == id);
    assert(field_version(v) == version % 2);
    assert(version % 2 == version) by {
        vstd::arithmetic::div_mod::lemma_small_mod(version as nat, 2);
    };
    lemma_offsets_pack(
        sc.offsets@[0] as int,
        sc.offsets@[1] as int,
        sc.offsets@[2] as int,
        sc.offsets@[3] as int,
    );
    assert(is_definition(sc.optotype_definition, field_id(v)));
}

/// Arrangement of the parsed fields is a function of the text alone: two
/// short codes that both satisfy the parsing contract for the same text
/// agree on every field.
/// The deterministic half of checksum sensitivity: a text parses to a
/// given short code only if it encodes exactly that code's 30-bit value,
/// checksum included. A transcription error that changes the encoded value
/// therefore never silently re-parses to the same code - it is either
/// rejected or yields a different code. (That a changed value is rejected
/// rather than accepted as a different code rests on the checksum and
/// holds only with high probability, so it is not stated here.)
pub proof fn lemma_parse_short_recovers_value(s: Seq<char>, sc: ShortCode)
    requires
        parse_short_ok(s, sc),
    ensures
        code_value(strip_separators(s)) == sc.spec_numerical(),
{
    let t = strip_separators(s);
    let num = code_value(t);
    crate::codes::lemma_code_value_bounds(t);
    lemma_short_fields(num);
    // The definition's own id is the decoded id bit.
    if field_id(num) == 0 {
        assert(sc.optotype_definition.id == 0);
    } else {
        assert(sc.optotype_definition.id == 1);
    }
    // The packed offsets reassemble into the combined field.
    lemma_offsets_unpack(field_combined(num));
    assert(sc.spec_combined_offsets() == field_combined(num));
    assert(sc.spec_body() == num / 64);
    lemma_fundamental_div_mod(num, 64);
}

pub proof fn lemma_parse_short_determined(s: Seq<char>, a: ShortCode, b: ShortCode)
    requires
        parse_short_ok(s, a),
        parse_short_ok(s, b),
    ensures
        a.version == b.version,
        a.start_row == b.start_row,
        a.offsets@ == b.offsets@,
        a.optotype_definition.id == b.optotype_definition.id,
        a.optotype_definition.name@ == b.optotype_definition.name@,
        a.optotype_definition.optotypes@ == b.optotype_definition.optotypes@,
{
    let num = code_value(strip_separators(s));
    assert(a.offsets@ =~= b.offsets@);
    lemma_mod_bound(num / 0x10000000, 2);
    if field_id(num) == 0 {
        assert(is_definition(a.optotype_definition, 0));
        assert(is_definition(b.optotype_definition, 0));
    } else {
        assert(is_definition(a.optotype_definition, field_id(num)));
        assert(is_definition(b.optotype_definition, field_id(num)));
    }
}

} // verus!
