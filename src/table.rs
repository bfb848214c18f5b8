//! Truth tables as bitmasks: the input columns, the validity mask, and
//! reading a table written as a string of binary digits.
use vstd::prelude::*;
use vstd::arithmetic::power2::{pow2, lemma_pow2_unfold, lemma_pow2_strictly_increases, lemma2_to64};

verus! {

/// Bit `k` of `x`.
pub open spec fn bit(x: u64, k: u64) -> bool {
    (x >> k) & 1 == 1
}

/// Number of rows of a table over `n` inputs.
pub open spec fn row_count(n: u64) -> u64 {
    1u64 << n
}

/// Value of input `i` at row `k` of a table over `n` inputs: input 0 is the
/// most significant digit of the row's position in the written table, and
/// the row's bit position `k` counts from the last written digit.
pub open spec fn input_at(n: u64, i: u64, k: u64) -> bool {
    !bit(k, (n - 1 - i) as u64)
}

/// The mask with the low `s` bits set, for `s < 64`.
pub open spec fn low_ones(s: u64) -> u64 {
    ((1u64 << s) - 1) as u64
}

/// A column pattern of width `s` copied into the next `s` bits.
pub open spec fn widen(iv: u64, s: u64) -> u64 {
    iv | (iv << s)
}

/// The input columns for `n` inputs, built by recursive doubling.
pub open spec fn input_masks(n: nat) -> Seq<u64>
    decreases n,
{
    if n == 0 {
        Seq::empty()
    } else {
        let s = row_count((n - 1) as u64);
        seq![low_ones(s)] + input_masks((n - 1) as nat).map_values(|iv: u64| widen(iv, s))
    }
}

proof fn lemma_low_ones_bit(s: u64, k: u64)
    by (bit_vector)
    requires
        1 <= s <= 32,
        k < 64,
    ensures
        bit(low_ones(s), k) == (k < s),
{
}

proof fn lemma_widen_bit(iv: u64, s: u64, k: u64)
    by (bit_vector)
    requires
        1 <= s <= 32,
        k < 64,
    ensures
        bit(widen(iv, s), k) == (bit(iv, k) || (k >= s && bit(iv, (k - s) as u64))),
{
}

proof fn lemma_top_input(m: u64, k: u64)
    by (bit_vector)
    requires
        m < 6,
        k < 2 * (1u64 << m),
    ensures
        (k < (1u64 << m)) == !bit(k, m),
{
}

proof fn lemma_drop_top_bit(m: u64, j: u64, k: u64)
    by (bit_vector)
    requires
        m < 6,
        j < m,
        (1u64 << m) <= k < 2 * (1u64 << m),
    ensures
        bit((k - (1u64 << m)) as u64, j) == bit(k, j),
{
}

proof fn lemma_row_count_step(n: u64)
    by (bit_vector)
    requires
        1 <= n <= 6,
    ensures
        row_count(n) == 2 * row_count((n - 1) as u64),
        1 <= row_count((n - 1) as u64) <= 32,
{
}

/// The columns for `n` inputs hold, at every row, the inputs of that row,
/// and no bit beyond the table's width.
pub proof fn lemma_input_mask_bits(n: nat)
    requires
        n <= 6,
    ensures
        input_masks(n).len() == n,
        forall|i: int, k: u64|
            0 <= i < n && k < 64 ==> #[trigger] bit(input_masks(n)[i], k) == (k < row_count(
                n as u64,
            ) && input_at(n as u64, i as u64, k)),
    decreases n,
{
    if n > 0 {
        let m = (n - 1) as nat;
        let s = row_count(m as u64);
        lemma_input_mask_bits(m);
        lemma_row_count_step(n as u64);
        let prev = input_masks(m);
        assert forall|i: int, k: u64| 0 <= i < n && k < 64 implies #[trigger] bit(
            input_masks(n)[i],
            k,
        ) == (k < row_count(n as u64) && input_at(n as u64, i as u64, k)) by {
            if i == 0 {
                lemma_low_ones_bit(s, k);
                if k < row_count(n as u64) {
                    lemma_top_input(m as u64, k);
                }
            } else {
                let iv = prev[i - 1];
                assert(input_masks(n)[i] == widen(iv, s));
                lemma_widen_bit(iv, s, k);
                assert(bit(iv, k) == (k < s && input_at(m as u64, (i - 1) as u64, k)));
                if k >= s && k < 2 * s {
                    let k2 = (k - s) as u64;
                    assert(bit(iv, k2) == input_at(m as u64, (i - 1) as u64, k2));
                    lemma_drop_top_bit(m as u64, (n - 1 - i) as u64, k);
                }
            }
        }
    }
}

/// The mask with exactly the low `row_count(n)` bits set.
pub open spec fn table_mask(n: u64) -> u64 {
    if n >= 6 {
        u64::MAX
    } else {
        low_ones(row_count(n))
    }
}

pub proof fn lemma_table_mask_bit(n: u64, k: u64)
    by (bit_vector)
    requires
        n <= 6,
        k < 64,
    ensures
        bit(table_mask(n), k) == (k < row_count(n)),
{
}

/// The input columns for `ninputs` inputs: column `i` holds, at bit `k`,
/// the value of input `i` in row `k`.
pub fn tabulate_inputs(ninputs: usize) -> (r: Vec<u64>)
    requires
        ninputs <= 6,
    ensures
        r@ == input_masks(ninputs as nat),
        r@.len() == ninputs,
        forall|i: int, k: u64|
            0 <= i < ninputs && k < 64 ==> #[trigger] bit(r@[i], k) == (k < row_count(
                ninputs as u64,
            ) && input_at(ninputs as u64, i as u64, k)),
    decreases ninputs,
{
    proof {
        lemma_input_mask_bits(ninputs as nat);
    }
    if ninputs == 0 {
        Vec::new()
    } else {
        proof {
            lemma_row_count_step(ninputs as u64);
        }
        let shift: u64 = 1u64 << ((ninputs - 1) as u64);
        let ivs = tabulate_inputs(ninputs - 1);
        let mut v: Vec<u64> = Vec::new();
        assert(1u64 << shift >= 1) by (bit_vector)
            requires
                1 <= shift <= 32,
        ;
        let v0: u64 = (1u64 << shift) - 1;
        v.push(v0);
        let ghost widened = ivs@.map_values(|iv: u64| widen(iv, shift));
        let mut j: usize = 0;
        while j < ivs.len()
            invariant
                j <= ivs@.len(),
                ivs@.len() == ninputs - 1,
                shift == row_count((ninputs - 1) as u64),
                1 <= shift <= 32,
                widened == ivs@.map_values(|iv: u64| widen(iv, shift)),
                v@ == seq![low_ones(shift)] + widened.subrange(0, j as int),
            decreases ivs@.len() - j,
        {
            let iv = ivs[j];
            v.push(iv | (iv << shift));
            assert(widened.subrange(0, j + 1) == widened.subrange(0, j as int).push(widened[j as int]));
            j += 1;
        }
        assert(widened.subrange(0, j as int) == widened);
        v
    }
}

/// The validity mask of a table over `ninputs` inputs.
pub fn validity_mask(ninputs: usize) -> (r: u64)
    requires
        ninputs <= 6,
    ensures
        r == table_mask(ninputs as u64),
        forall|k: u64| k < 64 ==> #[trigger] bit(r, k) == (k < row_count(ninputs as u64)),
{
    proof {
        assert forall|k: u64| k < 64 implies #[trigger] bit(table_mask(ninputs as u64), k) == (k
            < row_count(ninputs as u64)) by {
            lemma_table_mask_bit(ninputs as u64, k);
        }
    }
    let n = ninputs as u64;
    if n >= 6 {
        u64::MAX
    } else {
        let width: u64 = 1u64 << n;
        assert(1 <= width <= 32) by (bit_vector)
            requires
                width == 1u64 << n,
                n < 6,
        ;
        assert(table_mask(n) == low_ones(width));
        assert(1u64 << width >= 1) by (bit_vector)
            requires
                1 <= width <= 32,
        ;
        (1u64 << width) - 1
    }
}

/// A truth table as the search reads it: the target column and the number
/// of inputs.
#[derive(Clone, Copy, Debug, PartialEq, Eq, Structural)]
pub struct Table {
    pub wanted: u64,
    pub ninputs: usize,
}

/// Why a written truth table was refused.
#[derive(Clone, Copy, Debug, PartialEq, Eq, Structural)]
pub enum TableError {
    /// The length is not `2^n` for an `n` from 0 to 6.
    BadLength,
    /// A character other than `0` or `1`.
    BadDigit,
}

/// The digits, most significant first, read as a binary numeral: the first
/// digit is the row where every input is 0, and it lands on the highest bit.
pub open spec fn table_value(digits: Seq<u8>) -> nat
    decreases digits.len(),
{
    if digits.len() == 0 {
        0
    } else {
        2 * table_value(digits.drop_last()) + if digits.last() == 49u8 {
            1nat
        } else {
            0nat
        }
    }
}

/// The length of a table over some `n` from 0 to 6 inputs.
pub open spec fn valid_length(len: nat) -> bool {
    exists|n: u64| n <= 6 && len == #[trigger] row_count(n)
}

/// Every character is `0` or `1`.
pub open spec fn all_binary(digits: Seq<u8>) -> bool {
    forall|j: int| 0 <= j < digits.len() ==> #[trigger] digits[j] == 48u8 || digits[j] == 49u8
}

proof fn lemma_row_count_values()
    ensures
        row_count(0) == 1,
        row_count(1) == 2,
        row_count(2) == 4,
        row_count(3) == 8,
        row_count(4) == 16,
        row_count(5) == 32,
        row_count(6) == 64,
{
    assert(row_count(0) == 1) by (bit_vector);
    assert(row_count(1) == 2) by (bit_vector);
    assert(row_count(2) == 4) by (bit_vector);
    assert(row_count(3) == 8) by (bit_vector);
    assert(row_count(4) == 16) by (bit_vector);
    assert(row_count(5) == 32) by (bit_vector);
    assert(row_count(6) == 64) by (bit_vector);
}

/// Reads a truth table written as `2^n` binary digits, first row first.
pub fn parse_table(digits: &[u8]) -> (r: Result<Table, TableError>)
    ensures
        !valid_length(digits@.len()) <==> r == Err::<Table, TableError>(TableError::BadLength),
        valid_length(digits@.len()) && !all_binary(digits@) <==> r == Err::<Table, TableError>(
            TableError::BadDigit,
        ),
        r is Ok ==> r->Ok_0.ninputs <= 6 && digits@.len() == row_count(r->Ok_0.ninputs as u64)
            && r->Ok_0.wanted == table_value(digits@),
{
    proof {
        lemma_row_count_values();
    }
    let len = digits.len();
    let mut n: usize = 0;
    let mut width: usize = 1;
    while n <= 6 && width != len
        invariant
            n <= 7,
            n <= 6 ==> width == row_count(n as u64),
            forall|m: u64| m < n ==> len != #[trigger] row_count(m),
        decreases 7 - n,
    {
        n += 1;
        if n <= 6 {
            proof {
                lemma_row_count_step(n as u64);
            }
            width = width * 2;
        }
    }
    if n > 6 {
        proof {
            assert(!valid_length(len as nat));
        }
        return Err(TableError::BadLength);
    }
    proof {
        assert(valid_length(len as nat)) by {
            assert(len == row_count(n as u64));
        }
        lemma2_to64();
    }
    let mut acc: u64 = 0;
    let mut i: usize = 0;
    while i < len
        invariant
            i <= len,
            len == digits@.len(),
            len <= 64,
            pow2(64) == 0x10000000000000000,
            valid_length(len as nat),
            acc as nat == table_value(digits@.subrange(0, i as int)),
            acc < pow2(i as nat),
            all_binary(digits@.subrange(0, i as int)),
        decreases len - i,
    {
        let d = digits[i];
        if d != 48u8 && d != 49u8 {
            proof {
                assert(!all_binary(digits@)) by {
                    assert(digits@[i as int] == d);
                }
            }
            return Err(TableError::BadDigit);
        }
        proof {
            lemma_pow2_unfold((i + 1) as nat);
            if i + 1 < 64 {
                lemma_pow2_strictly_increases((i + 1) as nat, 64);
            }
            assert(digits@.subrange(0, i + 1).drop_last() =~= digits@.subrange(0, i as int));
            assert(all_binary(digits@.subrange(0, i + 1))) by {
                assert forall|j: int| 0 <= j < i + 1 implies #[trigger] digits@.subrange(0, i + 1)[j]
                    == 48u8 || digits@.subrange(0, i + 1)[j] == 49u8 by {
                    if j < i {
                        assert(digits@.subrange(0, i + 1)[j] == digits@.subrange(0, i as int)[j]);
                    }
                }
            }
        }
        acc = acc * 2 + if d == 49u8 {
            1
        } else {
            0
        };
        i += 1;
    }
    proof {
        assert(digits@.subrange(0, len as int) =~= digits@);
    }
    Ok(Table { wanted: acc, ninputs: n })
}

/// The inputs of row `k`, read across the columns.
pub open spec fn row_of(masks: Seq<u64>, k: u64) -> Seq<bool> {
    Seq::new(masks.len(), |i: int| bit(masks[i], k))
}

/// The row whose inputs are `b`: input 0 is the most significant digit,
/// and a digit is set where its input is 0.
pub open spec fn row_index(b: Seq<bool>) -> u64
    decreases b.len(),
{
    if b.len() == 0 {
        0
    } else {
        ((row_index(b.drop_last()) << 1u64) | if b.last() {
            0u64
        } else {
            1u64
        }) as u64
    }
}

proof fn lemma_shift_in(c: u64, e: u64, m: u64, j: u64)
    by (bit_vector)
    requires
        e <= 1,
        m < 6,
        c < (1u64 << m),
        j < 63,
    ensures
        ((c << 1u64) | e) < (1u64 << (m + 1) as u64),
        bit((c << 1u64) | e, 0) == (e == 1),
        bit((c << 1u64) | e, (j + 1) as u64) == bit(c, j),
{
}

proof fn lemma_row_index(b: Seq<bool>)
    requires
        b.len() <= 6,
    ensures
        row_index(b) < row_count(b.len() as u64),
        forall|j: u64| j < b.len() ==> #[trigger] bit(row_index(b), j) == !b[b.len() - 1 - j],
    decreases b.len(),
{
    let len = b.len();
    if len == 0 {
        assert(row_count(0) == 1) by (bit_vector);
    } else {
        let rest = b.drop_last();
        lemma_row_index(rest);
        let c = row_index(rest);
        let e: u64 = if b.last() {
            0
        } else {
            1
        };
        assert forall|j: u64| j < len implies #[trigger] bit(row_index(b), j) == !b[len - 1 - j] by {
            lemma_shift_in(c, e, (len - 1) as u64, 0);
            if j > 0 {
                lemma_shift_in(c, e, (len - 1) as u64, (j - 1) as u64);
                assert(bit(c, (j - 1) as u64) == !rest[rest.len() - 1 - (j - 1)]);
            }
        }
        lemma_shift_in(c, e, (len - 1) as u64, 0);
    }
}

proof fn lemma_low_bit(k1: u64, k2: u64)
    by (bit_vector)
    requires
        k1 != k2,
        bit(k1, 0) == bit(k2, 0),
    ensures
        (k1 >> 1u64) != (k2 >> 1u64),
{
}

proof fn lemma_shift_out(k: u64, m: u64, j: u64)
    by (bit_vector)
    requires
        m < 6,
        k < (1u64 << (m + 1) as u64),
        j < 63,
    ensures
        (k >> 1u64) < (1u64 << m),
        bit(k >> 1u64, j) == bit(k, (j + 1) as u64),
{
}

proof fn lemma_below_one(k: u64)
    by (bit_vector)
    requires
        k < (1u64 << 0u64),
    ensures
        k == 0,
{
}

/// A digit in which two different rows differ.
proof fn lemma_differing_bit(n: u64, k1: u64, k2: u64) -> (j: u64)
    requires
        n <= 6,
        k1 < row_count(n),
        k2 < row_count(n),
        k1 != k2,
    ensures
        j < n,
        bit(k1, j) != bit(k2, j),
    decreases n,
{
    if n == 0 {
        lemma_below_one(k1);
        lemma_below_one(k2);
        0
    } else if bit(k1, 0) != bit(k2, 0) {
        0
    } else {
        lemma_low_bit(k1, k2);
        let m = (n - 1) as u64;
        lemma_shift_out(k1, m, 0);
        lemma_shift_out(k2, m, 0);
        let j = lemma_differing_bit(m, k1 >> 1u64, k2 >> 1u64);
        lemma_shift_out(k1, m, j);
        lemma_shift_out(k2, m, j);
        (j + 1) as u64
    }
}

/// The columns for `n` inputs give every combination of `n` input values at
/// exactly one row: two different rows never carry the same inputs, and every
/// combination is the inputs of some row.
pub proof fn lemma_rows_enumerate_combinations(n: nat)
    requires
        n <= 6,
    ensures
        forall|k1: u64, k2: u64|
            k1 < row_count(n as u64) && k2 < row_count(n as u64) && k1 != k2 ==> #[trigger] row_of(
                input_masks(n),
                k1,
            ) != #[trigger] row_of(input_masks(n), k2),
        forall|b: Seq<bool>|
            b.len() == n ==> exists|k: u64|
                k < row_count(n as u64) && #[trigger] row_of(input_masks(n), k) == b,
{
    lemma_input_mask_bits(n);
    lemma_row_count_values();
    let masks = input_masks(n);
    assert forall|k1: u64, k2: u64|
        k1 < row_count(n as u64) && k2 < row_count(n as u64) && k1 != k2 implies #[trigger] row_of(
        masks,
        k1,
    ) != #[trigger] row_of(masks, k2) by {
        let j = lemma_differing_bit(n as u64, k1, k2);
        let i = n - 1 - j;
        assert(row_of(masks, k1)[i] == bit(masks[i], k1));
        assert(row_of(masks, k2)[i] == bit(masks[i], k2));
    }
    assert forall|b: Seq<bool>| b.len() == n implies exists|k: u64|
        k < row_count(n as u64) && #[trigger] row_of(masks, k) == b by {
        lemma_row_index(b);
        let k = row_index(b);
        assert forall|i: int| 0 <= i < n implies row_of(masks, k)[i] == b[i] by {
            assert(bit(k, (n - 1 - i) as u64) == !b[n - 1 - (n - 1 - i)]);
        }
        assert(row_of(masks, k) =~= b);
    }
}

} // verus!
