//! The optotype catalog and the chart arrangement deriver: the data model
//! for what is printed on a chart, and the deterministic algorithm that
//! expands a code's compact fields into the full row-by-row optotype layout.

use vstd::prelude::*;

verus! {

/// Stores the name, numeric ID, and possible optotypes for a particular
/// group of optotypes. The catalog is fixed: id 0 is the "aukland" digit
/// set and id 1 the "sloan" letter set; unknown ids fall back to the
/// default set.
#[derive(Debug, PartialEq)]
pub struct OptotypeDefinition {
    pub name: String,
    pub id: u8,
    pub optotypes: Vec<char>,
}

/// Defines the ID of the default optotypes (used if a code specifies an
/// optotype ID which is not in the catalog).
pub const DEFAULT_OPTOTYPES: u32 = 1;

/// The symbols of the "aukland" optotype set.
pub open spec fn aukland_chars() -> Seq<char> {
    seq!['0', '1', '2', '3', '4', '5', '6', '7', '8', '9']
}

/// The symbols of the "sloan" optotype set.
pub open spec fn sloan_chars() -> Seq<char> {
    seq!['C', 'D', 'H', 'K', 'N', 'O', 'R', 'S', 'V', 'Z']
}

/// The catalog entry that a numeric id denotes: id 0 is the aukland set and
/// every other id falls back to the default sloan set.
pub open spec fn spec_definition_id(id: int) -> int {
    if id == 0 {
        0
    } else {
        1
    }
}

/// True when `d` holds exactly the catalog entry with the given id (0 or 1).
pub open spec fn is_definition(d: OptotypeDefinition, id: int) -> bool {
    if id == 0 {
        d.name@ == "aukland"@ && d.id == 0 && d.optotypes@ == aukland_chars()
    } else {
        d.name@ == "sloan"@ && d.id == 1 && d.optotypes@ == sloan_chars()
    }
}

/// True when `d` is one of the two catalog entries.
pub open spec fn is_catalog_definition(d: OptotypeDefinition) -> bool {
    is_definition(d, 0) || is_definition(d, 1)
}

/// Every catalog entry has exactly ten optotypes and an id matching its
/// position in the catalog.
pub proof fn lemma_catalog_definition(d: OptotypeDefinition)
    requires
        is_catalog_definition(d),
    ensures
        d.optotypes@.len() == 10,
        d.id <= 1,
        is_definition(d, d.id as int),
{
}

impl OptotypeDefinition {
    /// Obtains the optotype definition from the numeric ID of that set.
    /// Unknown IDs fall back to the default (sloan) optotypes, since those
    /// are the most commonly used; the alternative of refusing the ID was
    /// deliberately not taken.
    pub fn from(id: u32) -> (d: OptotypeDefinition)
        ensures
            is_definition(d, spec_definition_id(id as int)),
            d.id == spec_definition_id(id as int),
    {
        if id == 0 {
            let mut optotypes: Vec<char> = Vec::new();
            optotypes.push('0');
            optotypes.push('1');
            optotypes.push('2');
            optotypes.push('3');
            optotypes.push('4');
            optotypes.push('5');
            optotypes.push('6');
            optotypes.push('7');
            optotypes.push('8');
            optotypes.push('9');
            proof {
                assert(optotypes@ =~= aukland_chars());
            }
            OptotypeDefinition { name: String::from_str("aukland"), id: 0, optotypes }
        } else {
            let mut optotypes: Vec<char> = Vec::new();
            optotypes.push('C');
            optotypes.push('D');
            optotypes.push('H');
            optotypes.push('K');
            optotypes.push('N');
            optotypes.push('O');
            optotypes.push('R');
            optotypes.push('S');
            optotypes.push('V');
            optotypes.push('Z');
            proof {
                assert(optotypes@ =~= sloan_chars());
            }
            OptotypeDefinition { name: String::from_str("sloan"), id: 1, optotypes }
        }
    }
}

/// An OptotypeRow defines a given row of the chart: the relative display
/// scale of the row and the optotypes shown on it. The text size runs from
/// 5 on the large top row down to 1 on the bottom row; the border drawn
/// around each optotype is a fifth of the text size, so it needs no field
/// of its own.
#[derive(Debug, PartialEq)]
pub struct OptotypeRow {
    /// The relative display scale of the row's optotypes.
    pub text_size: u8,
    /// Indices into the active optotype definition's symbol list, left to
    /// right.
    pub optotypes: Vec<u8>,
}

/// The OptotypeArrangement defines a given chart uniquely: a row for each
/// position from the top of the chart to the bottom, the code string that
/// regenerates the chart, and the optotype definition in use.
#[derive(Debug, PartialEq)]
pub struct OptotypeArrangement {
    /// The rows of the chart, largest (top) first.
    pub rows: Vec<OptotypeRow>,
    /// The canonical code string that reproduces this chart.
    pub code: String,
    /// The definition of the optotypes used for this chart.
    pub optotype_definition: OptotypeDefinition,
}

/// The mathematical factorial function.
pub open spec fn spec_factorial(n: nat) -> nat
    decreases n,
{
    if n == 0 {
        1
    } else {
        n * spec_factorial((n - 1) as nat)
    }
}

/// Factorials are positive and grow monotonically.
pub proof fn lemma_factorial_bounds(a: nat, b: nat)
    requires
        a <= b,
    ensures
        1 <= spec_factorial(a) <= spec_factorial(b),
    decreases b,
{
    if b == 0 {
    } else if a == b {
        lemma_factorial_bounds((b - 1) as nat, (b - 1) as nat);
        assert(spec_factorial(b) == b * spec_factorial((b - 1) as nat));
        assert(b * spec_factorial((b - 1) as nat) >= spec_factorial((b - 1) as nat))
            by (nonlinear_arith)
            requires
                b >= 1,
                spec_factorial((b - 1) as nat) >= 1,
        ;
    } else {
        lemma_factorial_bounds(a, (b - 1) as nat);
        assert(b * spec_factorial((b - 1) as nat) >= spec_factorial((b - 1) as nat))
            by (nonlinear_arith)
            requires
                b >= 1,
                spec_factorial((b - 1) as nat) >= 1,
        ;
    }
}

/// A simple implementation of the factorial function, used to count the
/// possible optotype combinations on a row. The bound keeps the result
/// within a 32-bit integer.
pub fn factorial(n: u32) -> (r: u32)
    requires
        n <= 12,
    ensures
        r == spec_factorial(n as nat),
    decreases n,
{
    proof {
        lemma_factorial_bounds(n as nat, 12);
        assert(spec_factorial(0) == 1);
        assert(spec_factorial(1) == 1);
        assert(spec_factorial(2) == 2);
        assert(spec_factorial(3) == 6);
        assert(spec_factorial(4) == 24);
        assert(spec_factorial(5) == 120);
        assert(spec_factorial(6) == 720);
        assert(spec_factorial(7) == 5040);
        assert(spec_factorial(8) == 40320);
        assert(spec_factorial(9) == 362880);
        assert(spec_factorial(10) == 3628800);
        assert(spec_factorial(11) == 39916800);
        assert(spec_factorial(12) == 479001600);
    }
    if n == 0 {
        1
    } else {
        n * factorial(n - 1)
    }
}

/// The digit of `i` at the given base-10 position (position 0 being least
/// significant): one cell of the candidate bottom-row tuple that `i`
/// stands for.
pub open spec fn tuple_digit(i: int, pos: int) -> int {
    if pos == 0 {
        i % 10
    } else if pos == 1 {
        (i / 10) % 10
    } else if pos == 2 {
        (i / 100) % 10
    } else {
        (i / 1000) % 10
    }
}

/// True of candidate tuples whose four cells are pairwise distinct: the
/// tuples that may stand as a bottom row.
pub open spec fn is_valid_tuple(i: int) -> bool {
    &&& tuple_digit(i, 0) != tuple_digit(i, 1)
    &&& tuple_digit(i, 0) != tuple_digit(i, 2)
    &&& tuple_digit(i, 0) != tuple_digit(i, 3)
    &&& tuple_digit(i, 1) != tuple_digit(i, 2)
    &&& tuple_digit(i, 1) != tuple_digit(i, 3)
    &&& tuple_digit(i, 2) != tuple_digit(i, 3)
}

/// How many valid (duplicate-free) tuples lie in the range `lo..hi`.
pub open spec fn count_valid(lo: int, hi: int) -> int
    decreases hi - lo,
{
    if hi <= lo {
        0
    } else {
        count_valid(lo, hi - 1) + if is_valid_tuple(hi - 1) {
            1int
        } else {
            0int
        }
    }
}

/// Valid-tuple counts are non-negative.
pub proof fn lemma_count_valid_nonneg(lo: int, hi: int)
    ensures
        count_valid(lo, hi) >= 0,
    decreases hi - lo,
{
    if hi > lo {
        lemma_count_valid_nonneg(lo, hi - 1);
    }
}

/// Valid-tuple counts add up over adjacent ranges.
pub proof fn lemma_count_valid_split(a: int, b: int, c: int)
    requires
        a <= b <= c,
    ensures
        count_valid(a, c) == count_valid(a, b) + count_valid(b, c),
    decreases c - b,
{
    if c == b {
    } else {
        lemma_count_valid_split(a, b, c - 1);
    }
}

/// The `k`-th valid tuple: a valid candidate preceded by exactly `k` valid
/// candidates. The start-row selector of a short code picks a bottom row
/// this way.
pub open spec fn is_bottom_choice(k: int, v: int) -> bool {
    &&& 0 <= v < 9999
    &&& is_valid_tuple(v)
    &&& count_valid(0, v) == k
}

/// At most one candidate is the `k`-th valid tuple.
pub proof fn lemma_bottom_choice_unique(k: int, v1: int, v2: int)
    requires
        is_bottom_choice(k, v1),
        is_bottom_choice(k, v2),
    ensures
        v1 == v2,
{
    if v1 < v2 {
        lemma_count_valid_split(0, v1, v2);
        lemma_count_valid_split(v1, v1 + 1, v2);
        lemma_count_valid_nonneg(v1 + 1, v2);
        assert(count_valid(v1, v1 + 1) == count_valid(v1, v1) + 1int);
        assert(count_valid(0, v2) >= count_valid(0, v1) + 1);
    } else if v2 < v1 {
        lemma_count_valid_split(0, v2, v1);
        lemma_count_valid_split(v2, v2 + 1, v1);
        lemma_count_valid_nonneg(v2 + 1, v1);
        assert(count_valid(v2, v2 + 1) == count_valid(v2, v2) + 1int);
        assert(count_valid(0, v1) >= count_valid(0, v2) + 1);
    }
}

/// A bottom row drawn from the candidate `v`: the four cells of the tuple
/// in reverse order (a legacy ordering convention preserved so that
/// previously issued codes keep deriving the same charts).
pub open spec fn bottom_row_matches(row: Seq<u8>, v: int) -> bool {
    &&& row.len() == 4
    &&& forall|j: int| 0 <= j < 4 ==> row[j] == tuple_digit(v, 3 - j)
}

/// Search out the `k`-th valid bottom-row tuple by enumerating every
/// candidate in increasing numeric order and skipping those with repeated
/// cells. The bound on `k` guarantees the search succeeds.
fn derive_bottom_row(k: u32) -> (row: Vec<u8>)
    requires
        k < count_valid(0, 9999),
    ensures
        exists|v: int| #[trigger] is_bottom_choice(k as int, v) && bottom_row_matches(row@, v),
        row@.len() == 4,
        forall|j: int| 0 <= j < 4 ==> row@[j] <= 9,
        row@.no_duplicates(),
{
    let mut cnt: u32 = 0;
    let mut i: u32 = 0;
    while i < 9999
        invariant
            i <= 9999,
            cnt == count_valid(0, i as int),
            cnt <= k,
            k < count_valid(0, 9999),
        decreases 9999 - i,
    {
        let mut t = i;
        let d0 = (t % 10) as u8;
        t = t / 10;
        let d1 = (t % 10) as u8;
        t = t / 10;
        let d2 = (t % 10) as u8;
        t = t / 10;
        let d3 = (t % 10) as u8;
        proof {
            vstd::arithmetic::div_mod::lemma_div_denominator(i as int, 10, 10);
            vstd::arithmetic::div_mod::lemma_div_denominator(i as int, 100, 10);
            assert(d0 == tuple_digit(i as int, 0));
            assert(d1 == tuple_digit(i as int, 1));
            assert(d2 == tuple_digit(i as int, 2));
            assert(d3 == tuple_digit(i as int, 3));
        }
        let valid = d0 != d1 && d0 != d2 && d0 != d3 && d1 != d2 && d1 != d3 && d2 != d3;
        assert(valid == is_valid_tuple(i as int));
        if valid {
            if cnt == k {
                let mut row: Vec<u8> = Vec::new();
                row.push(d3);
                row.push(d2);
                row.push(d1);
                row.push(d0);
                proof {
                    assert(is_bottom_choice(k as int, i as int));
                    assert(bottom_row_matches(row@, i as int));
                }
                return row;
            }
            cnt = cnt + 1;
        }
        i = i + 1;
        proof {
            assert(count_valid(0, i as int) == count_valid(0, i - 1) + if is_valid_tuple(
                i - 1,
            ) {
                1int
            } else {
                0int
            });
        }
    }
    proof {
        assert(false);
    }
    Vec::new()
}

/// The scale that stretches the 0-255 start-row selector over the whole
/// span of valid bottom-row tuples: the count of ordered draws of four
/// cells from the definition's symbols, divided by 255 and rounded to the
/// nearest integer.
pub open spec fn spec_scale(size: nat) -> int {
    (2 * (spec_factorial(size) / spec_factorial((size - 4) as nat)) as int + 255) / 510
}

/// The selector value that a short code's start row picks.
pub open spec fn spec_selected(sc: crate::codes::short::ShortCode) -> int {
    sc.start_row * spec_scale(sc.optotype_definition.optotypes@.len())
}

/// The concrete value of the selector scale for the catalog's ten-symbol
/// definitions.
proof fn lemma_scale_value()
    ensures
        spec_scale(10) == 20,
{
    lemma_factorial_values();
    assert(spec_factorial(10) / spec_factorial(6) == 5040nat);
    assert(spec_scale(10) == (2int * 5040 + 255) / 510);
}

/// The concrete factorial values that the scale computation rests on.
proof fn lemma_factorial_values()
    ensures
        spec_factorial(6) == 720,
        spec_factorial(10) == 3628800,
        spec_factorial(12) == 479001600,
{
    assert(spec_factorial(0) == 1);
    assert(spec_factorial(1) == 1);
    assert(spec_factorial(2) == 2);
    assert(spec_factorial(3) == 6);
    assert(spec_factorial(4) == 24);
    assert(spec_factorial(5) == 120);
    assert(spec_factorial(6) == 720);
    assert(spec_factorial(7) == 5040);
    assert(spec_factorial(8) == 40320);
    assert(spec_factorial(9) == 362880);
    assert(spec_factorial(10) == 3628800);
    assert(spec_factorial(11) == 39916800);
    assert(spec_factorial(12) == 479001600);
}

/// Adding one offset to two distinct digits and wrapping keeps them
/// distinct.
proof fn lemma_shift_distinct(a: int, b: int, o: int)
    requires
        0 <= a <= 9,
        0 <= b <= 9,
        0 <= o <= 9,
        a != b,
    ensures
        (a + o) % 10 != (b + o) % 10,
{
    vstd::arithmetic::div_mod::lemma_fundamental_div_mod(a + o, 10);
    vstd::arithmetic::div_mod::lemma_fundamental_div_mod(b + o, 10);
    vstd::arithmetic::div_mod::lemma_multiply_divide_lt(a + o, 10, 2);
    vstd::arithmetic::div_mod::lemma_multiply_divide_lt(b + o, 10, 2);
    vstd::arithmetic::div_mod::lemma_div_pos_is_pos(a + o, 10);
    vstd::arithmetic::div_mod::lemma_div_pos_is_pos(b + o, 10);
}

/// The scale that the selector is multiplied by, for the catalog's
/// ten-symbol definitions.
fn selector_scale(size: u32) -> (r: u32)
    requires
        size == 10,
    ensures
        r as int == spec_scale(size as nat),
        r == 20,
{
    proof {
        lemma_factorial_values();
        lemma_scale_value();
    }
    (2 * (factorial(size) / factorial(size - 4)) + 255) / 510
}

/// What it means for an arrangement to be the chart that a short code
/// describes: the code's definition and canonical text are carried over,
/// the bottom row is the start-row selector's pick from the valid tuples,
/// and every other row is the bottom row shifted by that row's offset.
pub open spec fn is_short_arrangement(
    sc: crate::codes::short::ShortCode,
    arr: OptotypeArrangement,
) -> bool {
    &&& arr.optotype_definition == sc.optotype_definition
    &&& arr.code@ == sc.spec_code_text()
    &&& arr.rows@.len() == 5
    &&& (forall|r: int| 0 <= r < 5 ==> (#[trigger] arr.rows@[r]).text_size == 5 - r)
    &&& (forall|r: int|
        0 <= r < 5 ==> (#[trigger] arr.rows@[r]).optotypes@.len() == crate::codes::spec_row_width(
            r,
        ))
    &&& (exists|v: int|
        #[trigger] is_bottom_choice(spec_selected(sc), v) && bottom_row_matches(
            arr.rows@[4].optotypes@,
            v,
        ))
    &&& (forall|r: int, j: int|
        0 <= r < 4 && 0 <= j < crate::codes::spec_row_width(r)
            ==> #[trigger] arr.rows@[r].optotypes@[j] == (arr.rows@[4].optotypes@[j]
            + sc.offsets@[3 - r]) % 10)
}

/// Well-formedness of an arrangement: a catalog definition, one row per
/// chart position with the width the format fixes for it, and every index
/// within the definition's symbol list.
impl OptotypeArrangement {
    /// Well-formedness: five rows whose widths match the chart layout and
    /// whose indices all point into the catalog definition's symbol list.
    pub open spec fn wf(self) -> bool {
        &&& is_catalog_definition(self.optotype_definition)
        &&& self.rows@.len() == 5
        &&& (forall|r: int|
            0 <= r < 5 ==> (#[trigger] self.rows@[r]).optotypes@.len()
                == crate::codes::spec_row_width(r))
        &&& (forall|r: int, j: int|
            0 <= r < 5 && 0 <= j < self.rows@[r].optotypes@.len()
                ==> #[trigger] self.rows@[r].optotypes@[j]
                < self.optotype_definition.optotypes@.len())
    }

    /// Whether the start-row selector of a short code falls within the
    /// span of valid bottom-row tuples, so that an arrangement can be
    /// derived from it. Selectors beyond the span (the largest few values
    /// of the 0-255 range) describe no chart.
    pub fn can_derive(short_code: &crate::codes::short::ShortCode) -> (b: bool)
        requires
            short_code.wf(),
        ensures
            b == (spec_selected(*short_code) < count_valid(0, 9999)),
    {
        proof {
            lemma_catalog_definition(short_code.optotype_definition);
        }
        let size = short_code.optotype_definition.optotypes.len() as u32;
        let scale = selector_scale(size);
        let k = short_code.start_row as u32 * scale;
        let mut cnt: u32 = 0;
        let mut i: u32 = 0;
        while i < 9999
            invariant
                i <= 9999,
                cnt == count_valid(0, i as int),
                cnt <= i,
            decreases 9999 - i,
        {
            let mut t = i;
            let d0 = (t % 10) as u8;
            t = t / 10;
            let d1 = (t % 10) as u8;
            t = t / 10;
            let d2 = (t % 10) as u8;
            t = t / 10;
            let d3 = (t % 10) as u8;
            proof {
                vstd::arithmetic::div_mod::lemma_div_denominator(i as int, 10, 10);
                vstd::arithmetic::div_mod::lemma_div_denominator(i as int, 100, 10);
            }
            if d0 != d1 && d0 != d2 && d0 != d3 && d1 != d2 && d1 != d3 && d2 != d3 {
                cnt = cnt + 1;
            }
            i = i + 1;
        }
        k < cnt
    }

    /// Convert a short code into the optotype arrangement it describes.
    /// The bottom row is selected from the duplicate-free tuples by the
    /// start-row selector; each other row shifts the bottom row by its own
    /// offset, wrapping around the definition's symbol count. Rows come
    /// out top (largest) first.
    pub fn from_short_code(short_code: crate::codes::short::ShortCode) -> (arr:
        OptotypeArrangement)
        requires
            short_code.wf(),
            spec_selected(short_code) < count_valid(0, 9999),
        ensures
            arr.wf(),
            is_short_arrangement(short_code, arr),
            forall|r: int| 0 <= r < 5 ==> (#[trigger] arr.rows@[r]).optotypes@.no_duplicates(),
    {
        proof {
            lemma_catalog_definition(short_code.optotype_definition);
        }
        let code = short_code.to_string();
        let size = short_code.optotype_definition.optotypes.len() as u32;
        // The scale stretches the 0-255 selector over the whole span of
        // valid bottom-row tuples.
        let scale = selector_scale(size);
        let k = short_code.start_row as u32 * scale;
        let bottom = derive_bottom_row(k);
        let ghost v = choose|v: int|
            #[trigger] is_bottom_choice(k as int, v) && bottom_row_matches(bottom@, v);
        let mut rows: Vec<OptotypeRow> = Vec::new();
        let mut r: usize = 0;
        while r < 5
            invariant
                r <= 5,
                short_code.wf(),
                bottom@.len() == 4,
                forall|j: int| 0 <= j < 4 ==> bottom@[j] <= 9,
                bottom@.no_duplicates(),
                rows@.len() == r,
                forall|rr: int| 0 <= rr < r ==> (#[trigger] rows@[rr]).text_size == 5 - rr,
                forall|rr: int|
                    0 <= rr < r ==> (#[trigger] rows@[rr]).optotypes@.len()
                        == crate::codes::spec_row_width(rr),
                forall|rr: int, j: int|
                    0 <= rr < r && rr < 4 && 0 <= j < crate::codes::spec_row_width(rr)
                        ==> #[trigger] rows@[rr].optotypes@[j] == (bottom@[j]
                        + short_code.offsets@[3 - rr]) % 10,
                r > 4 ==> rows@[4].optotypes@ == bottom@,
                forall|rr: int| 0 <= rr < r ==> (#[trigger] rows@[rr]).optotypes@.no_duplicates(),
                forall|rr: int, j: int|
                    0 <= rr < r && 0 <= j < rows@[rr].optotypes@.len()
                        ==> #[trigger] rows@[rr].optotypes@[j] <= 9,
            decreases 5 - r,
        {
            let width = crate::codes::num_optotypes_on_row(r);
            let mut opts: Vec<u8> = Vec::new();
            if r == 4 {
                let mut j: usize = 0;
                while j < 4
                    invariant
                        j <= 4,
                        bottom@.len() == 4,
                        opts@.len() == j,
                        forall|jj: int| 0 <= jj < j ==> opts@[jj] == bottom@[jj],
                    decreases 4 - j,
                {
                    opts.push(bottom[j]);
                    j = j + 1;
                }
                proof {
                    assert(opts@ =~= bottom@);
                }
            } else {
                let off = short_code.offsets[3 - r];
                let mut j: usize = 0;
                while j < width
                    invariant
                        j <= width,
                        width == crate::codes::spec_row_width(r as int),
                        r < 4,
                        off == short_code.offsets@[3 - r],
                        off <= 9,
                        bottom@.len() == 4,
                        forall|jj: int| 0 <= jj < 4 ==> bottom@[jj] <= 9,
                        opts@.len() == j,
                        forall|jj: int|
                            0 <= jj < j ==> opts@[jj] == (bottom@[jj] + off) % 10,
                    decreases width - j,
                {
                    opts.push((bottom[j] + off) % 10);
                    j = j + 1;
                }
                proof {
                    assert forall|j1: int, j2: int|
                        0 <= j1 < opts@.len() && 0 <= j2 < opts@.len() && j1 != j2 implies opts@[j1]
                        != opts@[j2] by {
                        lemma_shift_distinct(bottom@[j1] as int, bottom@[j2] as int, off as int);
                    };
                }
            }
            rows.push(OptotypeRow { text_size: (5 - r) as u8, optotypes: opts });
            r = r + 1;
        }
        let arr = OptotypeArrangement {
            rows,
            code,
            optotype_definition: short_code.optotype_definition,
        };
        proof {
            assert(bottom_row_matches(arr.rows@[4].optotypes@, v));
            assert(is_bottom_choice(spec_selected(short_code), v));
            assert(is_short_arrangement(short_code, arr));
        }
        arr
    }

    /// Convert a long code into the optotype arrangement it describes:
    /// the indices are stored directly per row, bottom row first, so the
    /// rows are emitted by walking the flat list backwards.
    pub fn from_long_code(long_code: crate::codes::long::LongCode) -> (arr: OptotypeArrangement)
        requires
            long_code.wf(),
        ensures
            arr.wf(),
            is_long_arrangement(long_code, arr),
    {
        proof {
            lemma_catalog_definition(long_code.optotype_definition);
        }
        let code = long_code.to_string();
        let mut rows: Vec<OptotypeRow> = Vec::new();
        let mut r: usize = 0;
        while r < 5
            invariant
                r <= 5,
                long_code.wf(),
                rows@.len() == r,
                forall|rr: int| 0 <= rr < r ==> (#[trigger] rows@[rr]).text_size == 5 - rr,
                forall|rr: int|
                    0 <= rr < r ==> (#[trigger] rows@[rr]).optotypes@ == long_code.optotypes@
                        .subrange(
                        long_row_start(rr),
                        long_row_start(rr) + crate::codes::spec_row_width(rr),
                    ),
            decreases 5 - r,
        {
            let start: usize = if r == 0 {
                16
            } else {
                (4 - r) * 4
            };
            let width = crate::codes::num_optotypes_on_row(r);
            let mut opts: Vec<u8> = Vec::new();
            let mut j: usize = 0;
            while j < width
                invariant
                    j <= width,
                    long_code.optotypes@.len() == 18,
                    start == long_row_start(r as int),
                    width == crate::codes::spec_row_width(r as int),
                    start + width <= 18,
                    opts@.len() == j,
                    forall|jj: int|
                        0 <= jj < j ==> opts@[jj] == long_code.optotypes@[start + jj],
                decreases width - j,
            {
                opts.push(long_code.optotypes[start + j]);
                j = j + 1;
            }
            proof {
                assert(opts@ =~= long_code.optotypes@.subrange(
                    long_row_start(r as int),
                    long_row_start(r as int) + crate::codes::spec_row_width(r as int),
                ));
            }
            rows.push(OptotypeRow { text_size: (5 - r) as u8, optotypes: opts });
            r = r + 1;
        }
        let arr = OptotypeArrangement {
            rows,
            code,
            optotype_definition: long_code.optotype_definition,
        };
        arr
    }
}

/// Where each chart row's indices begin in a long code's flat list: the
/// list reads from the bottom row upward, so the top row sits at the end.
pub open spec fn long_row_start(r: int) -> int {
    if r == 0 {
        16
    } else {
        (4 - r) * 4
    }
}

/// What it means for an arrangement to be the chart that a long code
/// describes: the code's definition and canonical text are carried over
/// and each row holds its slice of the flat optotype list, top row last in
/// the list.
pub open spec fn is_long_arrangement(
    lc: crate::codes::long::LongCode,
    arr: OptotypeArrangement,
) -> bool {
    &&& arr.optotype_definition == lc.optotype_definition
    &&& arr.code@ == lc.spec_code_text()
    &&& arr.rows@.len() == 5
    &&& (forall|r: int| 0 <= r < 5 ==> (#[trigger] arr.rows@[r]).text_size == 5 - r)
    &&& (forall|r: int|
        0 <= r < 5 ==> (#[trigger] arr.rows@[r]).optotypes@ == lc.optotypes@.subrange(
            long_row_start(r),
            long_row_start(r) + crate::codes::spec_row_width(r),
        ))
}

/// Arrangement rows inherit freedom from duplicates: when no row of the
/// long code's flat list repeats an index, no row of the derived
/// arrangement does either.
pub proof fn lemma_long_arrangement_rows_unique(
    lc: crate::codes::long::LongCode,
    arr: OptotypeArrangement,
)
    requires
        lc.wf(),
        is_long_arrangement(lc, arr),
        crate::codes::long::rows_duplicate_free(lc.optotypes@),
    ensures
        forall|r: int| 0 <= r < 5 ==> (#[trigger] arr.rows@[r]).optotypes@.no_duplicates(),
{
    assert forall|r: int| 0 <= r < 5 implies (#[trigger] arr.rows@[r]).optotypes@.no_duplicates()
        by {
        if r == 0 {
            assert(arr.rows@[0].optotypes@ == lc.optotypes@.subrange(16, 18));
        } else if r == 1 {
            assert(arr.rows@[1].optotypes@ == lc.optotypes@.subrange(12, 16));
        } else if r == 2 {
            assert(arr.rows@[2].optotypes@ == lc.optotypes@.subrange(8, 12));
        } else if r == 3 {
            assert(arr.rows@[3].optotypes@ == lc.optotypes@.subrange(4, 8));
        } else {
            assert(arr.rows@[4].optotypes@ == lc.optotypes@.subrange(0, 4));
        }
    };
}

/// Deriving an arrangement from a short code is deterministic: any two
/// arrangements that the derivation contract admits for the same code
/// agree on every row, the code text, and the definition.
pub proof fn lemma_short_arrangement_determined(
    sc: crate::codes::short::ShortCode,
    a1: OptotypeArrangement,
    a2: OptotypeArrangement,
)
    requires
        is_short_arrangement(sc, a1),
        is_short_arrangement(sc, a2),
    ensures
        a1.code@ == a2.code@,
        a1.optotype_definition == a2.optotype_definition,
        a1.rows@.len() == a2.rows@.len(),
        forall|r: int| 0 <= r < 5 ==> (#[trigger] a1.rows@[r]).text_size == a2.rows@[r].text_size,
        forall|r: int|
            0 <= r < 5 ==> (#[trigger] a1.rows@[r]).optotypes@ == a2.rows@[r].optotypes@,
{
    let k = spec_selected(sc);
    let v1 = choose|v: int|
        #[trigger] is_bottom_choice(k, v) && bottom_row_matches(a1.rows@[4].optotypes@, v);
    let v2 = choose|v: int|
        #[trigger] is_bottom_choice(k, v) && bottom_row_matches(a2.rows@[4].optotypes@, v);
    lemma_bottom_choice_unique(k, v1, v2);
    assert(a1.rows@[4].optotypes@ =~= a2.rows@[4].optotypes@);
    assert forall|r: int| 0 <= r < 5 implies (#[trigger] a1.rows@[r]).optotypes@
        == a2.rows@[r].optotypes@ by {
        if r < 4 {
            assert forall|j: int|
                0 <= j < a1.rows@[r].optotypes@.len() implies a1.rows@[r].optotypes@[j]
                == a2.rows@[r].optotypes@[j] by {
                assert(a1.rows@[r].optotypes@[j] == (a1.rows@[4].optotypes@[j] + sc.offsets@[3
                    - r]) % 10);
                assert(a2.rows@[r].optotypes@[j] == (a2.rows@[4].optotypes@[j] + sc.offsets@[3
                    - r]) % 10);
            };
            assert(a1.rows@[r].optotypes@ =~= a2.rows@[r].optotypes@);
        }
    };
}

/// Deriving an arrangement from a long code is deterministic: any two
/// arrangements that the derivation contract admits for the same code
/// agree on every row, the code text, and the definition.
pub proof fn lemma_long_arrangement_determined(
    lc: crate::codes::long::LongCode,
    a1: OptotypeArrangement,
    a2: OptotypeArrangement,
)
    requires
        is_long_arrangement(lc, a1),
        is_long_arrangement(lc, a2),
    ensures
        a1.code@ == a2.code@,
        a1.optotype_definition == a2.optotype_definition,
        a1.rows@.len() == a2.rows@.len(),
        forall|r: int| 0 <= r < 5 ==> (#[trigger] a1.rows@[r]).text_size == a2.rows@[r].text_size,
        forall|r: int|
            0 <= r < 5 ==> (#[trigger] a1.rows@[r]).optotypes@ == a2.rows@[r].optotypes@,
{
}

} // verus!
