//! Bitmask-based truth tables for formulas over at most 5 booleans.
//!
//! A truth table is a plain `u32`. For booleans (p, q, r), bit 7 holds the
//! value at p=T,q=T,r=T; bit 6 at p=T,q=T,r=F; and so on down to bit 0 at
//! p=F,q=F,r=F: row `b`'s bit pattern encodes the assignment, with the first
//! boolean mapped to the highest-order bit of the row number.
use vstd::prelude::*;
use vstd::pervasive::VecAdditionalExecFns;
use crate::html_text::{HtmlGenerator, HtmlGeneratorModel, dec_digits};
use crate::logic::{
    LogicNodeModel, SimpleLogicNode, lit_index, lit_positive, lits_in_range, views_of_nodes,
    lemma_views_of_nodes, NEGATIVITY_FLAG, VARIABLE_INDEX_MASK,
};

verus! {

/// Whether bit `b` of a truth table is set.
pub open spec fn tt_bit(tt: u32, b: u32) -> bool {
    (tt >> b) & 1 == 1
}

/// The number of assignment rows for `n` booleans.
pub open spec fn num_rows(n: u32) -> u32
    recommends
        n <= 5,
{
    1u32 << n
}


/// The empty truth table: no bit of zero is set, and zero stays zero under
/// any shift.
pub proof fn lemma_zero_table()
    ensures
        forall|b: u32| b < 32 ==> !tt_bit(0u32, b),
        forall|w: u32| w < 32 ==> (0u32 >> w) == 0,
{
    assert((forall|b: u32| b < 32 ==> ((0u32 >> b) & 1) == 0) && (forall|w: u32|
        w < 32 ==> (0u32 >> w) == 0)) by (bit_vector);
}

/// Whether boolean `index` (numbered from 1) is assigned true in row `b` of a
/// table over `n` booleans: the first boolean sits in the highest-order bit
/// of the row number.
pub open spec fn row_var_true(b: u32, n: u32, index: u32) -> bool
    recommends
        1 <= index <= n <= 5,
{
    (b >> (n - index) as u32) & 1 == 1
}

/// A formula the evaluator accepts: every literal names a boolean between 1
/// and `n`, and no conjunction is empty.
pub open spec fn wf_formula(m: LogicNodeModel, n: u32) -> bool
    decreases m,
{
    match m {
        LogicNodeModel::False => true,
        LogicNodeModel::True => true,
        LogicNodeModel::Literal(lit) => 1 <= lit_index(lit) <= n,
        LogicNodeModel::Conjunction(operands) => operands.len() >= 1 && forall|i: int|
            0 <= i < operands.len() ==> wf_formula(operands[i], n),
        LogicNodeModel::Disjunction(operands) => forall|i: int|
            0 <= i < operands.len() ==> wf_formula(operands[i], n),
    }
}

/// Well-formedness of an operator node passes to each of its operands.
pub proof fn lemma_wf_formula_children(m: LogicNodeModel, n: u32)
    requires
        wf_formula(m, n),
    ensures
        m matches LogicNodeModel::Conjunction(operands) ==> operands.len() >= 1 && forall|i: int|
            0 <= i < operands.len() ==> wf_formula(#[trigger] operands[i], n),
        m matches LogicNodeModel::Disjunction(operands) ==> forall|i: int|
            0 <= i < operands.len() ==> wf_formula(#[trigger] operands[i], n),
{
    match m {
        LogicNodeModel::Conjunction(operands) => {
            assert(forall|i: int|
                0 <= i < operands.len() ==> wf_formula(#[trigger] operands[i], n));
        },
        LogicNodeModel::Disjunction(operands) => {
            assert(forall|i: int|
                0 <= i < operands.len() ==> wf_formula(#[trigger] operands[i], n));
        },
        _ => (),
    }
}


/// A formula the evaluator accepts can also be rendered against any name
/// list that covers its booleans: its literal indexes all lie in range.
pub proof fn lemma_wf_formula_lits_in_range(m: LogicNodeModel, n: u32, k: int)
    requires
        wf_formula(m, n),
        n <= k,
    ensures
        lits_in_range(m, k),
    decreases m,
{
    lemma_wf_formula_children(m, n);
    match m {
        LogicNodeModel::Conjunction(operands) => {
            assert forall|i: int| 0 <= i < operands.len() implies lits_in_range(
                #[trigger] operands[i],
                k,
            ) by {
                lemma_wf_formula_lits_in_range(operands[i], n, k);
            }
        },
        LogicNodeModel::Disjunction(operands) => {
            assert forall|i: int| 0 <= i < operands.len() implies lits_in_range(
                #[trigger] operands[i],
                k,
            ) by {
                lemma_wf_formula_lits_in_range(operands[i], n, k);
            }
        },
        _ => (),
    }
}

/// The value of a formula in assignment row `b` of a table over `n`
/// booleans: a conjunction is true when every operand is, a disjunction when
/// some operand is.
pub open spec fn eval_row(m: LogicNodeModel, n: u32, b: u32) -> bool
    decreases m,
{
    match m {
        LogicNodeModel::False => false,
        LogicNodeModel::True => true,
        LogicNodeModel::Literal(lit) => if lit_positive(lit) {
            row_var_true(b, n, lit_index(lit))
        } else {
            !row_var_true(b, n, lit_index(lit))
        },
        LogicNodeModel::Conjunction(operands) => eval_row_all(operands, n, b),
        LogicNodeModel::Disjunction(operands) => eval_row_any(operands, n, b),
    }
}

/// Whether every formula in the sequence is true in row `b`.
pub open spec fn eval_row_all(s: Seq<LogicNodeModel>, n: u32, b: u32) -> bool
    decreases s,
{
    if s.len() == 0 {
        true
    } else {
        eval_row_all(s.subrange(0, s.len() - 1), n, b) && eval_row(s.last(), n, b)
    }
}

/// Whether some formula in the sequence is true in row `b`.
pub open spec fn eval_row_any(s: Seq<LogicNodeModel>, n: u32, b: u32) -> bool
    decreases s,
{
    if s.len() == 0 {
        false
    } else {
        eval_row_any(s.subrange(0, s.len() - 1), n, b) || eval_row(s.last(), n, b)
    }
}

/// What the truth table of a formula holds, bit by bit: the rows of the
/// table where the formula is true, and nothing above them.
pub open spec fn is_truth_table_of(tt: u32, m: LogicNodeModel, n: u32) -> bool {
    forall|b: u32| b < 32 ==> (#[trigger] tt_bit(tt, b) <==> (b < num_rows(n) && eval_row(m, n, b)))
}

/// The bitmask of rows where boolean `index` is true, for a table over `n`
/// booleans.
pub open spec fn positive_mask_ok(mask: u32, n: u32, index: u32) -> bool {
    forall|b: u32|
        b < 32 ==> (#[trigger] tt_bit(mask, b) <==> (b < num_rows(n) && row_var_true(b, n, index)))
}

/// The bitmask of rows where boolean `index` is false, for a table over `n`
/// booleans.
pub open spec fn negative_mask_ok(mask: u32, n: u32, index: u32) -> bool {
    forall|b: u32|
        b < 32 ==> (#[trigger] tt_bit(mask, b) <==> (b < num_rows(n) && !row_var_true(b, n, index)))
}

/// A mask over `width` low bits whose set bits are the rows `b` with bit `j`
/// of `b` set: the mask of the boolean that sits `j` places from the right.
pub open spec fn rev_mask_ok(mask: u32, width: u32, j: u32) -> bool {
    forall|b: u32|
        b < 32 ==> (#[trigger] tt_bit(mask, b) <==> (b < width && (b >> j) & 1 == 1))
}


/// A formula's truth table is unique: two tables that both record the
/// formula's rows are the same word, so no formula can be filed under two
/// different indexes.
pub proof fn lemma_truth_table_unique(t1: u32, t2: u32, m: LogicNodeModel, n: u32)
    requires
        is_truth_table_of(t1, m, n),
        is_truth_table_of(t2, m, n),
    ensures
        t1 == t2,
{
    assert forall|b: u32| b < 32 implies (((t1 >> b) & 1 == 1) <==> ((t2 >> b) & 1 == 1)) by {
        assert(tt_bit(t1, b) <==> (b < num_rows(n) && eval_row(m, n, b)));
        assert(tt_bit(t2, b) <==> (b < num_rows(n) && eval_row(m, n, b)));
    }
    assert(t1 == t2) by (bit_vector)
        requires
            ((t1 >> 0u32) & 1 == 1 <==> (t2 >> 0u32) & 1 == 1) && ((t1 >> 1u32) & 1 == 1 <==> (t2
                >> 1u32) & 1 == 1) && ((t1 >> 2u32) & 1 == 1 <==> (t2 >> 2u32) & 1 == 1) && ((t1
                >> 3u32) & 1 == 1 <==> (t2 >> 3u32) & 1 == 1) && ((t1 >> 4u32) & 1 == 1 <==> (t2
                >> 4u32) & 1 == 1) && ((t1 >> 5u32) & 1 == 1 <==> (t2 >> 5u32) & 1 == 1) && ((t1
                >> 6u32) & 1 == 1 <==> (t2 >> 6u32) & 1 == 1) && ((t1 >> 7u32) & 1 == 1 <==> (t2
                >> 7u32) & 1 == 1),
            ((t1 >> 8u32) & 1 == 1 <==> (t2 >> 8u32) & 1 == 1) && ((t1 >> 9u32) & 1 == 1 <==> (t2
                >> 9u32) & 1 == 1) && ((t1 >> 10u32) & 1 == 1 <==> (t2 >> 10u32) & 1 == 1) && ((t1
                >> 11u32) & 1 == 1 <==> (t2 >> 11u32) & 1 == 1) && ((t1 >> 12u32) & 1 == 1 <==> (
            t2 >> 12u32) & 1 == 1) && ((t1 >> 13u32) & 1 == 1 <==> (t2 >> 13u32) & 1 == 1) && ((t1
                >> 14u32) & 1 == 1 <==> (t2 >> 14u32) & 1 == 1) && ((t1 >> 15u32) & 1 == 1 <==> (
            t2 >> 15u32) & 1 == 1),
            ((t1 >> 16u32) & 1 == 1 <==> (t2 >> 16u32) & 1 == 1) && ((t1 >> 17u32) & 1 == 1 <==> (
            t2 >> 17u32) & 1 == 1) && ((t1 >> 18u32) & 1 == 1 <==> (t2 >> 18u32) & 1 == 1) && ((t1
                >> 19u32) & 1 == 1 <==> (t2 >> 19u32) & 1 == 1) && ((t1 >> 20u32) & 1 == 1 <==> (
            t2 >> 20u32) & 1 == 1) && ((t1 >> 21u32) & 1 == 1 <==> (t2 >> 21u32) & 1 == 1) && ((t1
                >> 22u32) & 1 == 1 <==> (t2 >> 22u32) & 1 == 1) && ((t1 >> 23u32) & 1 == 1 <==> (
            t2 >> 23u32) & 1 == 1),
            ((t1 >> 24u32) & 1 == 1 <==> (t2 >> 24u32) & 1 == 1) && ((t1 >> 25u32) & 1 == 1 <==> (
            t2 >> 25u32) & 1 == 1) && ((t1 >> 26u32) & 1 == 1 <==> (t2 >> 26u32) & 1 == 1) && ((t1
                >> 27u32) & 1 == 1 <==> (t2 >> 27u32) & 1 == 1) && ((t1 >> 28u32) & 1 == 1 <==> (
            t2 >> 28u32) & 1 == 1) && ((t1 >> 29u32) & 1 == 1 <==> (t2 >> 29u32) & 1 == 1) && ((t1
                >> 30u32) & 1 == 1 <==> (t2 >> 30u32) & 1 == 1) && ((t1 >> 31u32) & 1 == 1 <==> (
            t2 >> 31u32) & 1 == 1),
    ;
}


/// The truth table of a formula over `n` booleans: the unique word whose
/// bits record the rows where the formula is true.
pub open spec fn table_of(m: LogicNodeModel, n: u32) -> u32 {
    choose|t: u32| is_truth_table_of(t, m, n)
}

/// Any word that records a formula's rows is `table_of` that formula.
pub proof fn lemma_table_of(t: u32, m: LogicNodeModel, n: u32)
    requires
        is_truth_table_of(t, m, n),
    ensures
        table_of(m, n) == t,
{
    assert(is_truth_table_of(table_of(m, n), m, n));
    lemma_truth_table_unique(table_of(m, n), t, m, n);
}

/// This struct computes truth tables of formulas with 5 or fewer booleans.
pub struct TruthTableSize5Computer {
    positive_bitmask_vec: Vec<u32>,
    negative_bitmask_vec: Vec<u32>,
}

impl TruthTableSize5Computer {
    /// The number of booleans this computer was built for.
    pub closed spec fn spec_num_booleans(&self) -> u32 {
        self.positive_bitmask_vec@.len() as u32
    }

    /// The bitmask tables hold, for each boolean, the rows where it is true
    /// and the rows where it is false.
    pub closed spec fn wf(&self) -> bool {
        let n = self.spec_num_booleans();
        &&& 1 <= n <= 5
        &&& self.negative_bitmask_vec@.len() == n
        &&& forall|j: int|
            0 <= j < n ==> positive_mask_ok(
                #[trigger] self.positive_bitmask_vec@[j],
                n,
                (j + 1) as u32,
            )
        &&& forall|j: int|
            0 <= j < n ==> negative_mask_ok(
                #[trigger] self.negative_bitmask_vec@[j],
                n,
                (j + 1) as u32,
            )
    }

    /// The boolean count of a well-formed computer is in the supported
    /// range.
    pub proof fn lemma_wf_bounds(&self)
        requires
            self.wf(),
        ensures
            1 <= self.spec_num_booleans() <= 5,
    {
    }

    /// Creates a computer for formulas over `num_booleans` booleans,
    /// building one positive and one negative row bitmask per boolean.
    pub fn new(num_booleans: u32) -> (computer: TruthTableSize5Computer)
        requires
            1 <= num_booleans <= 5,
        ensures
            computer.wf(),
            computer.spec_num_booleans() == num_booleans,
    {
        let two_to_n_minus_1: u32 = 1u32 << (num_booleans - 1);

        // Build the positive bitmasks, in backwards order: entry j is the
        // mask of the boolean that sits j places from the right.
        let mut positive_rev: Vec<u32> = Vec::with_capacity(num_booleans as usize);
        if num_booleans == 1 {
            // The bitmask for 1 boolean.
            positive_rev.push(0b10);
            proof {
                assert((forall|b: u32|
                    b < 32 ==> (((0b10u32 >> b) & 1 == 1) <==> (b < 2 && (b >> 0u32) & 1 == 1)))
                    && (1u32 << 1u32) == 2) by (bit_vector);
                assert(rev_mask_ok(0b10u32, 2, 0));
                assert(rev_mask_ok(positive_rev@[0], num_rows(1), 0));
            }
        } else {
            // The bitmasks for 2 booleans.
            positive_rev.push(0b1010);
            positive_rev.push(0b1100);
            proof {
                assert((forall|b: u32|
                    b < 32 ==> (((0b1010u32 >> b) & 1 == 1) <==> (b < 4 && (b >> 0u32) & 1 == 1)))
                    && (forall|b: u32|
                    b < 32 ==> (((0b1100u32 >> b) & 1 == 1) <==> (b < 4 && (b >> 1u32) & 1
                        == 1)))) by (bit_vector);
                assert(rev_mask_ok(0b1010u32, 4, 0));
                assert(rev_mask_ok(0b1100u32, 4, 1));
            }

            // For each boolean past the 2nd, double the width of every
            // existing bitmask by duplicating it into both halves of the
            // wider word, then add a mask covering the upper half.
            let mut num_bits: u32 = 4;
            proof {
                assert(4u32 == 1u32 << 2u32) by (bit_vector);
            }
            let mut i: u32 = 3;
            while i <= num_booleans
                invariant
                    3 <= i <= num_booleans + 1,
                    num_booleans <= 5,
                    num_bits == 1u32 << (i - 1) as u32,
                    positive_rev@.len() == i - 1,
                    forall|j: int|
                        0 <= j < i - 1 ==> rev_mask_ok(
                            #[trigger] positive_rev@[j],
                            num_bits,
                            j as u32,
                        ),
                decreases num_booleans + 1 - i,
            {
                let ghost s = num_bits;
                let ghost s2 = s << 1u32;
                let ghost k = (i - 1) as u32;
                proof {
                    assert((1u32 << (i - 1) as u32) == 4 || (1u32 << (i - 1) as u32) == 8 || (1u32
                        << (i - 1) as u32) == 16) by (bit_vector)
                        requires
                            2 <= (i - 1) as u32 <= 4,
                    ;
                }

                // Duplicate each bitmask within itself.
                let vec_len = positive_rev.len();
                let mut j: usize = 0;
                while j < vec_len
                    invariant
                        vec_len == positive_rev@.len(),
                        vec_len == i - 1,
                        vec_len == k,
                        0 <= j <= vec_len,
                        s == num_bits,
                        s == 4 || s == 8 || s == 16,
                        s == 1u32 << k,
                        s2 == s << 1u32,
                        k == 2 || k == 3 || k == 4,
                        num_bits == 1u32 << (i - 1) as u32,
                        forall|j2: int|
                            0 <= j2 < j ==> rev_mask_ok(
                                #[trigger] positive_rev@[j2],
                                s2,
                                j2 as u32,
                            ),
                        forall|j2: int|
                            j <= j2 < vec_len ==> rev_mask_ok(
                                #[trigger] positive_rev@[j2],
                                s,
                                j2 as u32,
                            ),
                    decreases vec_len - j,
                {
                    let bitmask = positive_rev[j];
                    positive_rev.set(j, (bitmask << num_bits) | bitmask);
                    proof {
                        lemma_double_mask(bitmask, s, k, j as u32);
                        assert(rev_mask_ok(positive_rev@[j as int], s2, j as u32));
                    }
                    j = j + 1;
                }

                // Add the new bitmask: all ones in the upper half.
                let mut new_bitmask: u32 = 0b111;
                let mut bit_count: u32 = 4;
                proof {
                    assert(0b111u32 == (1u32 << 3) - 1) by (bit_vector);
                }
                while bit_count <= num_bits
                    invariant
                        4 <= bit_count <= num_bits + 1,
                        num_bits == s,
                        s == 4 || s == 8 || s == 16,
                        new_bitmask == (1u32 << (bit_count - 1) as u32) - 1,
                    decreases num_bits + 1 - bit_count,
                {
                    new_bitmask = (new_bitmask << 1) | 1;
                    proof {
                        let t = (bit_count - 1) as u32;
                        assert((((((1u32 << t) - 1) as u32) << 1) | 1) == (1u32 << (t + 1) as u32) - 1)
                            by (bit_vector)
                            requires
                                1 <= t <= 30,
                        ;
                    }
                    bit_count = bit_count + 1;
                }
                positive_rev.push(new_bitmask << num_bits);
                proof {
                    lemma_new_upper_mask(s, k);
                    assert(new_bitmask == (1u32 << s) - 1);
                    assert(rev_mask_ok(positive_rev@[vec_len as int], s2, k));
                }

                // Double the number of bits for the next boolean.
                proof {
                    assert(((1u32 << (i - 1) as u32) << 1u32) == 1u32 << i) by (bit_vector)
                        requires
                            2 <= (i - 1) as u32 <= 4,
                    ;
                }
                num_bits = num_bits << 1;
                i = i + 1;
            }
        }

        // Reverse the order, so that entry 0 belongs to the first boolean.
        let ghost n = num_booleans;
        proof {
            assert((1u32 << 1u32) == 2 && (1u32 << 2u32) == 4 && (1u32 << 3u32) == 8 && (1u32
                << 4u32) == 16 && (1u32 << 5u32) == 32) by (bit_vector);
            assert(forall|j: int|
                0 <= j < n ==> rev_mask_ok(#[trigger] positive_rev@[j], num_rows(n), j as u32));
        }
        let mut positive_bitmask_vec: Vec<u32> = Vec::with_capacity(num_booleans as usize);
        let mut idx: usize = 0;
        while idx < positive_rev.len()
            invariant
                positive_rev@.len() == n,
                idx <= positive_rev@.len(),
                1 <= n <= 5,
                forall|j: int|
                    0 <= j < n ==> rev_mask_ok(#[trigger] positive_rev@[j], num_rows(n), j as u32),
                positive_bitmask_vec@.len() == idx,
                forall|j: int|
                    0 <= j < idx ==> positive_mask_ok(
                        #[trigger] positive_bitmask_vec@[j],
                        n,
                        (j + 1) as u32,
                    ),
            decreases positive_rev@.len() - idx,
        {
            let mask = positive_rev[positive_rev.len() - 1 - idx];
            positive_bitmask_vec.push(mask);
            proof {
                let j = idx as int;
                assert(rev_mask_ok(mask, num_rows(n), (n - 1 - j) as u32));
                assert(positive_mask_ok(mask, n, (j + 1) as u32));
            }
            idx = idx + 1;
        }

        // Create the negative bitmasks: the complement of the positive ones
        // within the table's rows.
        let mut negative_bitmask_vec: Vec<u32> = Vec::with_capacity(num_booleans as usize);
        if num_booleans == 1 {
            // The bitmask for 1 boolean.
            negative_bitmask_vec.push(0b01);
            proof {
                assert(forall|b: u32|
                    b < 32 ==> (((0b01u32 >> b) & 1 == 1) <==> (b < 2 && !((b >> 0u32) & 1 == 1))))
                    by (bit_vector);
                assert(negative_mask_ok(0b01u32, 1, 1));
            }
        } else {
            // The first negative bitmask is the first positive one shifted
            // down into the lower half.
            let first_positive_bitmask = positive_bitmask_vec[0];
            let first_negative_bitmask = first_positive_bitmask >> two_to_n_minus_1;
            negative_bitmask_vec.push(first_negative_bitmask);
            proof {
                lemma_first_negative_mask(first_positive_bitmask, num_booleans);
            }

            // A bitmask encompassing every row of the table.
            let total_bitmask = first_positive_bitmask | first_negative_bitmask;
            proof {
                lemma_or_bits(first_positive_bitmask, first_negative_bitmask);
                assert(forall|b: u32|
                    b < 32 ==> (#[trigger] tt_bit(total_bitmask, b) <==> b < num_rows(n)));
            }
            let num_bitmasks = positive_bitmask_vec.len();
            let mut mi: usize = 1;
            while mi < num_bitmasks
                invariant
                    num_bitmasks == positive_bitmask_vec@.len(),
                    positive_bitmask_vec@.len() == n,
                    1 <= n <= 5,
                    n == num_booleans,
                    forall|b: u32|
                        b < 32 ==> (#[trigger] tt_bit(total_bitmask, b) <==> b < num_rows(n)),
                    forall|j: int|
                        0 <= j < n ==> positive_mask_ok(
                            #[trigger] positive_bitmask_vec@[j],
                            n,
                            (j + 1) as u32,
                        ),
                    1 <= mi <= num_bitmasks,
                    negative_bitmask_vec@.len() == mi,
                    forall|j: int|
                        0 <= j < mi ==> negative_mask_ok(
                            #[trigger] negative_bitmask_vec@[j],
                            n,
                            (j + 1) as u32,
                        ),
                decreases num_bitmasks - mi,
            {
                let positive = positive_bitmask_vec[mi];
                negative_bitmask_vec.push(!positive & total_bitmask);
                proof {
                    lemma_negate_mask(positive, total_bitmask, n, (mi + 1) as u32);
                }
                mi = mi + 1;
            }
        }

        TruthTableSize5Computer { positive_bitmask_vec, negative_bitmask_vec }
    }
}

/// Duplicating a width-`s` mask into both halves of a width-`2s` word keeps
/// its row pattern, which depends only on row bits below `k`, where
/// `s == 2^k` is the current table width.
proof fn lemma_double_mask(m: u32, s: u32, k: u32, j: u32)
    requires
        k == 2 || k == 3 || k == 4,
        s == 1u32 << k,
        j < k,
        rev_mask_ok(m, s, j),
    ensures
        rev_mask_ok((m << s) | m, s << 1u32, j),
{
    assert(s == 4 || s == 8 || s == 16) by (bit_vector)
        requires
            s == 1u32 << k,
            k == 2 || k == 3 || k == 4,
    ;
    let s2 = s << 1u32;
    assert forall|b: u32| b < 32 implies (#[trigger] tt_bit((m << s) | m, b) <==> (b < s2 && (b
        >> j) & 1 == 1)) by {
        let c = (b - s) as u32;
        assert(tt_bit((m << s) | m, b) <==> (tt_bit(m, b) || (s <= b && tt_bit(m, c))))
            by (bit_vector)
            requires
                b < 32,
                c == (b - s) as u32,
                s == 4 || s == 8 || s == 16,
        ;
        assert(tt_bit(m, b) <==> (b < s && (b >> j) & 1 == 1));
        if s <= b {
            assert(tt_bit(m, c) <==> (c < s && (c >> j) & 1 == 1));
            assert((c < s <==> b < (s << 1u32)) && ((c >> j) & 1) == ((b >> j) & 1))
                by (bit_vector)
                requires
                    s == 1u32 << k,
                    k == 2 || k == 3 || k == 4,
                    j < k,
                    s <= b,
                    b < 32,
                    c == (b - s) as u32,
            ;
        } else {
            assert(b < (s << 1u32)) by (bit_vector)
                requires
                    b < s,
                    s == 4 || s == 8 || s == 16,
            ;
        }
    }
}

/// The mask of the boolean being added when the table doubles from width
/// `s == 2^k` to `2s`: all ones in the upper half.
proof fn lemma_new_upper_mask(s: u32, k: u32)
    requires
        s == 1u32 << k,
        k == 2 || k == 3 || k == 4,
    ensures
        rev_mask_ok((((1u32 << s) - 1) as u32) << s, s << 1u32, k),
{
    assert forall|b: u32| b < 32 implies (#[trigger] tt_bit((((1u32 << s) - 1) as u32) << s, b)
        <==> (b < (s << 1u32) && (b >> k) & 1 == 1)) by {
        assert(tt_bit((((1u32 << s) - 1) as u32) << s, b) <==> (b < (s << 1u32) && (b >> k) & 1
            == 1)) by (bit_vector)
            requires
                b < 32,
                s == 1u32 << k,
                k == 2 || k == 3 || k == 4,
        ;
    }
}

/// Bit `b` of a bitwise or is the disjunction of the two bits `b`.
proof fn lemma_or_bits(x: u32, y: u32)
    ensures
        forall|b: u32|
            b < 32 ==> (#[trigger] tt_bit(x | y, b) <==> (tt_bit(x, b) || tt_bit(y, b))),
{
    assert(forall|b: u32|
        b < 32 ==> (#[trigger] tt_bit(x | y, b) <==> (tt_bit(x, b) || tt_bit(y, b))))
        by (bit_vector);
}

/// Bit `b` of a bitwise and is the conjunction of the two bits `b`.
proof fn lemma_and_bits(x: u32, y: u32)
    ensures
        forall|b: u32|
            b < 32 ==> (#[trigger] tt_bit(x & y, b) <==> (tt_bit(x, b) && tt_bit(y, b))),
{
    assert(forall|b: u32|
        b < 32 ==> (#[trigger] tt_bit(x & y, b) <==> (tt_bit(x, b) && tt_bit(y, b))))
        by (bit_vector);
}

/// Shifting the first boolean's positive mask down by half the table gives
/// its negative mask: the rows with the top row bit clear.
proof fn lemma_first_negative_mask(p: u32, n: u32)
    requires
        2 <= n <= 5,
        positive_mask_ok(p, n, 1),
    ensures
        negative_mask_ok(p >> (1u32 << (n - 1) as u32), n, 1),
{
    let h = 1u32 << ((n - 1) as u32);
    assert forall|b: u32| b < 32 implies (#[trigger] tt_bit(p >> h, b) <==> (b < num_rows(n)
        && !row_var_true(b, n, 1))) by {
        let c = (b + h) as u32;
        assert(tt_bit(p >> h, b) <==> (c < 32 && tt_bit(p, c))) by (bit_vector)
            requires
                b < 32,
                c == (b + h) as u32,
                h == 1u32 << ((n - 1) as u32),
                2 <= n <= 5,
        ;
        if c < 32 {
            assert(tt_bit(p, c) <==> (c < num_rows(n) && row_var_true(c, n, 1)));
        }
        assert((c < 32 && (c < (1u32 << n) && ((c >> ((n - 1) as u32)) & 1 == 1))) <==> (b < (1u32
            << n) && !((b >> ((n - 1) as u32)) & 1 == 1))) by (bit_vector)
            requires
                b < 32,
                c == (b + h) as u32,
                h == 1u32 << ((n - 1) as u32),
                2 <= n <= 5,
        ;
    }
}

/// The complement of a boolean's positive mask within the table's rows is
/// its negative mask.
proof fn lemma_negate_mask(p: u32, total: u32, n: u32, index: u32)
    requires
        1 <= n <= 5,
        1 <= index <= n,
        positive_mask_ok(p, n, index),
        forall|b: u32| b < 32 ==> (#[trigger] tt_bit(total, b) <==> b < num_rows(n)),
    ensures
        negative_mask_ok(!p & total, n, index),
{
    assert forall|b: u32| b < 32 implies (#[trigger] tt_bit(!p & total, b) <==> (b < num_rows(n)
        && !row_var_true(b, n, index))) by {
        assert(tt_bit(!p & total, b) <==> (!tt_bit(p, b) && tt_bit(total, b))) by (bit_vector)
            requires
                b < 32,
        ;
        assert(tt_bit(p, b) <==> (b < num_rows(n) && row_var_true(b, n, index)));
        assert(tt_bit(total, b) <==> b < num_rows(n));
    }
}


/// The rendering of one truth value: `T` or `F`.
pub open spec fn tf_text(value: bool) -> Seq<char> {
    if value {
        "T"@
    } else {
        "F"@
    }
}

/// The header cells naming the first `k` booleans of the table.
pub open spec fn name_header_cells(names: Seq<Seq<char>>, k: int) -> Seq<char>
    decreases k,
{
    if k <= 0 {
        Seq::empty()
    } else {
        name_header_cells(names, k - 1) + "<th "@ + ">"@ + names[k - 1] + "\n"@
    }
}

/// The data cells of one table row: the values of booleans `count` down to
/// 1 in assignment row `v`, first boolean first.
pub open spec fn row_value_cells(v: u32, count: u32) -> Seq<char>
    decreases count,
{
    if count == 0 {
        Seq::empty()
    } else {
        "<td "@ + ">"@ + tf_text((v >> (count - 1) as u32) & 1 == 1) + "\n"@ + row_value_cells(
            v,
            (count - 1) as u32,
        )
    }
}

/// One rendered table row: the booleans' values in assignment row `v`, then
/// the conclusion's value there.
pub open spec fn truth_row_text(conclusion: u32, count: u32, v: u32) -> Seq<char> {
    "<tr "@ + ">\n"@ + row_value_cells(v, count) + "<td "@ + ">"@ + tf_text(tt_bit(conclusion, v))
        + "\n"@
}

/// The rendered rows for assignment values `hi` down to `lo`.
pub open spec fn truth_rows_text(conclusion: u32, count: u32, hi: int, lo: int) -> Seq<char>
    decreases hi + 1 - lo,
{
    if lo > hi {
        Seq::empty()
    } else {
        truth_row_text(conclusion, count, hi as u32) + truth_rows_text(conclusion, count, hi - 1, lo)
    }
}


/// Peeling the last row off a rendered block of rows.
proof fn lemma_truth_rows_split(conclusion: u32, count: u32, hi: int, lo: int)
    requires
        0 <= lo <= hi,
    ensures
        truth_rows_text(conclusion, count, hi, lo) == truth_rows_text(conclusion, count, hi, lo + 1)
            + truth_row_text(conclusion, count, lo as u32),
    decreases hi - lo,
{
    if lo == hi {
        assert(truth_rows_text(conclusion, count, hi - 1, hi) == Seq::<char>::empty());
        assert(truth_rows_text(conclusion, count, hi, hi + 1) == Seq::<char>::empty());
        assert(truth_rows_text(conclusion, count, hi, lo) =~= truth_rows_text(
            conclusion,
            count,
            hi,
            lo + 1,
        ) + truth_row_text(conclusion, count, lo as u32));
    } else {
        lemma_truth_rows_split(conclusion, count, hi - 1, lo);
        assert(truth_rows_text(conclusion, count, hi, lo) =~= truth_rows_text(
            conclusion,
            count,
            hi,
            lo + 1,
        ) + truth_row_text(conclusion, count, lo as u32));
    }
}

/// The full table a call adds to the page body: a header line with the
/// title, then the bordered truth table with one column per boolean, one
/// for the conclusion, and one row per assignment, from all-true down to
/// all-false.
pub open spec fn truth_table_html_text(
    conclusion: u32,
    title: Seq<char>,
    names: Seq<Seq<char>>,
) -> Seq<char> {
    let count = names.len() as u32;
    "<h"@ + dec_digits(3) + ">"@ + title + "</h"@ + dec_digits(3) + ">\n\n"@ + "<table "@ + (
    "border=\""@ + dec_digits(1) + "\""@) + ">\n"@ + "<tr "@ + ">\n"@ + name_header_cells(
        names,
        names.len() as int,
    ) + "<th "@ + ">"@ + title + "\n"@ + truth_rows_text(
        conclusion,
        count,
        (num_rows(count) - 1) as int,
        0,
    ) + "</table>\n"@
}

/// The error message for a name list that a 32-bit truth table cannot
/// cover.
pub open spec fn too_many_booleans_text(count: nat, title: Seq<char>) -> Seq<char> {
    "INTERNAL ERROR: Too many booleans "@ + dec_digits(count) + " for table "@ + title
        + " in get_html_for_truth_table_size_5"@
}

/// Adds the html for a truth table of size at most 5 to an HtmlGenerator:
/// the title as a header, then the table itself. A name list longer than 5
/// only gets the header, and an error message is returned instead.
#[verifier::rlimit(100)]
pub fn add_html_for_truth_table_size_5(
    html_generator: &mut HtmlGenerator,
    table_conclusion: u32,
    table_title: &str,
    boolean_name_list: &Vec<String>,
) -> (result: Result<(), String>)
    requires
        1 <= boolean_name_list@.len(),
    ensures
        result is Ok <==> boolean_name_list@.len() <= 5,
        boolean_name_list@.len() <= 5 ==> final(html_generator)@ == (HtmlGeneratorModel {
            body: old(html_generator)@.body + truth_table_html_text(
                table_conclusion,
                table_title@,
                crate::logic::name_views(boolean_name_list@),
            ),
            table: Seq::<char>::empty(),
            ..old(html_generator)@
        }),
        boolean_name_list@.len() > 5 ==> final(html_generator)@ == (HtmlGeneratorModel {
            body: old(html_generator)@.body + "<h"@ + dec_digits(3) + ">"@ + table_title@ + "</h"@
                + dec_digits(3) + ">\n\n"@,
            ..old(html_generator)@
        }),
        boolean_name_list@.len() > 5 ==> (result matches Err(message) && message@
            == too_many_booleans_text(boolean_name_list@.len(), table_title@)),
{
    let ghost names = crate::logic::name_views(boolean_name_list@);
    let ghost entry_model = html_generator@;
    proof {
        reveal_strlit("");
    }

    // Add the header.
    html_generator.add_header(table_title, 3);

    let num_booleans: usize = boolean_name_list.len();
    if num_booleans > 5 {
        let mut message = String::new();
        message.append("INTERNAL ERROR: Too many booleans ");
        append_usize_decimal(&mut message, num_booleans);
        message.append(" for table ");
        message.append(table_title);
        message.append(" in get_html_for_truth_table_size_5");
        proof {
            assert(message@ =~= too_many_booleans_text(boolean_name_list@.len(), table_title@));
        }
        return Err(message);
    }
    let ghost count = names.len() as u32;

    // Create the table's header row.
    html_generator.table_create_with_border(1);
    html_generator.table_add_row("");
    let ghost after_row = html_generator@;
    let ghost base_table = html_generator@.table;
    proof {
        assert(name_header_cells(names, 0) == Seq::<char>::empty());
        assert(html_generator@ =~= (HtmlGeneratorModel {
            table: base_table + name_header_cells(names, 0),
            ..after_row
        }));
    }
    let mut i: usize = 0;
    while i < num_booleans
        invariant
            num_booleans == boolean_name_list@.len(),
            names == crate::logic::name_views(boolean_name_list@),
            0 <= i <= num_booleans,
            html_generator@ == (HtmlGeneratorModel {
                table: base_table + name_header_cells(names, i as int),
                ..after_row
            }),
        decreases num_booleans - i,
    {
        html_generator.table_add_header("", boolean_name_list[i].as_str());
        proof {
            reveal_strlit("");
            assert(names[i as int] == boolean_name_list@[i as int]@);
            assert(html_generator@.table =~= base_table + name_header_cells(names, i + 1));
            assert(html_generator@ =~= (HtmlGeneratorModel {
                table: base_table + name_header_cells(names, i + 1),
                ..after_row
            }));
        }
        i = i + 1;
    }
    html_generator.table_add_header("", table_title);

    // The bitmask for reading the conclusion of each row out of the table
    // conclusion. 1 << num_booleans is pow(2, num_booleans); the top row's
    // bit is one below that.
    let num_booleans_u32: u32 = num_booleans as u32;
    proof {
        assert(num_booleans_u32 != 5 ==> (1u32 << num_booleans_u32) <= 16 && (1u32
            << num_booleans_u32) >= 2) by (bit_vector)
            requires
                1 <= num_booleans_u32 <= 5,
        ;
    }
    let mut bitmask: u32 = if num_booleans_u32 == 5 {
        1u32 << 31
    } else {
        1u32 << ((1u32 << num_booleans_u32) - 1)
    };

    // This variable holds the current values of each boolean: the last
    // boolean in the least significant bit, walking down from every boolean
    // true to every boolean false.
    let mut current_boolean_value: u32 = 1;
    let mut j: usize = 1;
    proof {
        assert(1u32 == ((1u32 << 1u32) - 1) as u32) by (bit_vector);
    }
    while j < num_booleans
        invariant
            1 <= num_booleans <= 5,
            1 <= j <= num_booleans,
            current_boolean_value == ((1u32 << (j as u32)) - 1) as u32,
        decreases num_booleans - j,
    {
        let ghost jj = j as u32;
        proof {
            assert((1u32 << jj) <= 16 && (((1u32 << jj) - 1) as u32 | (1u32 << jj)) == ((1u32 << (
            jj + 1) as u32) - 1) as u32) by (bit_vector)
                requires
                    1 <= jj <= 4,
            ;
        }
        current_boolean_value = current_boolean_value | (1u32 << (j as u32));
        j = j + 1;
    }
    proof {
        let c = count;
        assert(current_boolean_value == ((1u32 << c) - 1) as u32);
        assert(bitmask == 1u32 << current_boolean_value) by {
            if num_booleans_u32 == 5 {
                assert(((1u32 << 5u32) - 1) as u32 == 31) by (bit_vector);
            }
        }
        assert((1u32 << c) <= 32) by (bit_vector)
            requires
                1 <= c <= 5,
        ;
        assert(current_boolean_value <= (num_rows(count) - 1) as u32);
    }

    let ghost header_done = html_generator@;
    let ghost top = (num_rows(count) - 1) as int;
    proof {
        assert(truth_rows_text(table_conclusion, count, top, top + 1) == Seq::<char>::empty());
        assert(html_generator@ =~= (HtmlGeneratorModel {
            table: header_done.table + truth_rows_text(table_conclusion, count, top, top + 1),
            ..header_done
        }));
    }
    loop
        invariant_except_break
            html_generator@ == (HtmlGeneratorModel {
                table: header_done.table + truth_rows_text(
                    table_conclusion,
                    count,
                    top,
                    current_boolean_value + 1,
                ),
                ..header_done
            }),
        invariant
            top == num_rows(count) - 1,
            1 <= count <= 5,
            count == num_booleans as u32,
            num_booleans <= 5,
            num_booleans == boolean_name_list@.len(),
            names == crate::logic::name_views(boolean_name_list@),
            current_boolean_value <= (num_rows(count) - 1) as u32,
            bitmask == 1u32 << current_boolean_value,
        ensures
            html_generator@ == (HtmlGeneratorModel {
                table: header_done.table + truth_rows_text(table_conclusion, count, top, 0),
                ..header_done
            }),
        decreases current_boolean_value + 1,
    {
        let ghost v = current_boolean_value;
        let ghost row_start = html_generator@.table;
        html_generator.table_add_row("");

        // Add the columns identifying the booleans' values.
        let mut k: usize = 0;
        let ghost cells_base = html_generator@.table;
        while k < num_booleans
            invariant
                num_booleans == boolean_name_list@.len(),
                num_booleans <= 5,
                count == num_booleans as u32,
                1 <= count <= 5,
                0 <= k <= num_booleans,
                v == current_boolean_value,
                cells_base + row_value_cells(v, count) == html_generator@.table + row_value_cells(
                    v,
                    (count - k as u32) as u32,
                ),
                html_generator@ == (HtmlGeneratorModel { table: html_generator@.table, ..header_done }),
            decreases num_booleans - k,
        {
            let shift = (num_booleans - 1 - k) as u32;
            let t_or_f_value: &str = if current_boolean_value & (1u32 << shift) > 0 {
                "T"
            } else {
                "F"
            };
            let ghost before_cell = html_generator@.table;
            html_generator.table_add_data("", t_or_f_value);
            proof {
                reveal_strlit("");
                let rem = (count - k as u32) as u32;
                assert(shift == (rem - 1) as u32);
                assert(((v & (1u32 << ((rem - 1) as u32))) > 0) <==> ((v >> ((rem - 1) as u32)) & 1 == 1))
                    by (bit_vector)
                    requires
                        1 <= rem <= 5,
                ;
                assert(row_value_cells(v, rem) == "<td "@ + ">"@ + tf_text((v >> (rem - 1) as u32)
                    & 1 == 1) + "\n"@ + row_value_cells(v, (rem - 1) as u32));
                assert(before_cell + ("<td "@ + ">"@ + tf_text((v >> (rem - 1) as u32) & 1 == 1)
                    + "\n"@) =~= html_generator@.table);
                assert(cells_base + row_value_cells(v, count) =~= html_generator@.table
                    + row_value_cells(v, (rem - 1) as u32));
            }
            k = k + 1;
        }

        // Add the conclusion column.
        let t_or_f_conclusion = if table_conclusion & bitmask > 0 {
            "T"
        } else {
            "F"
        };
        html_generator.table_add_data("", t_or_f_conclusion);
        proof {
            reveal_strlit("");
            assert(2 <= (1u32 << count) <= 32 && (v < 32 ==> (((table_conclusion & (1u32 << v))
                > 0) <==> ((table_conclusion >> v) & 1 == 1)))) by (bit_vector)
                requires
                    1 <= count <= 5,
            ;
            assert(num_rows(count) == 1u32 << count);
            assert(v < 32);
            assert(count - num_booleans as u32 == 0);
            assert(row_value_cells(v, 0u32) == Seq::<char>::empty());
            assert(html_generator@.table =~= row_start + truth_row_text(table_conclusion, count, v));
            assert(top == num_rows(count) - 1);
            assert(v as int <= top);
            lemma_truth_rows_split(table_conclusion, count, top, v as int);
            assert(html_generator@.table =~= header_done.table + truth_rows_text(
                table_conclusion,
                count,
                top,
                v as int,
            ));
        }

        // Update the loop condition.
        if current_boolean_value == 0 {
            break ;
        }
        current_boolean_value = current_boolean_value - 1;

        // Adjust the bitmask to get the next line of the table.
        bitmask = bitmask >> 1;
        proof {
            assert((1u32 << v) >> 1 == 1u32 << ((v - 1) as u32)) by (bit_vector)
                requires
                    1 <= v < 32,
            ;
        }
    }

    // Finish the table.
    html_generator.table_end();
    proof {
        assert(html_generator@.body =~= old(html_generator)@.body + truth_table_html_text(
            table_conclusion,
            table_title@,
            names,
        ));
        assert(html_generator@ =~= (HtmlGeneratorModel {
            body: old(html_generator)@.body + truth_table_html_text(
                table_conclusion,
                table_title@,
                names,
            ),
            table: Seq::<char>::empty(),
            ..old(html_generator)@
        }));
    }
    Ok(())
}

/// Appends the decimal rendering of a count to a string.
fn append_usize_decimal(text: &mut String, value: usize)
    ensures
        final(text)@ == old(text)@ + dec_digits(value as nat),
{
    crate::html_text::append_decimal(text, value as u64);
}


/// A truth table confined to the table's rows: no bit at or above `width`
/// is set. A full 32-bit table is always confined.
pub open spec fn mask_in_window(mask: u32, width: u32) -> bool {
    width < 32 ==> (mask >> width) == 0
}

/// A confined truth table, read as a number, is below the count of possible
/// tables.
pub proof fn lemma_confined_value(mask: u32, width: u32)
    requires
        mask_in_window(mask, width),
    ensures
        width < 32 ==> (mask as u64) < (1u64 << width),
        (mask as u64) < 0x1_0000_0000u64,
{
    assert(((width < 32 && (mask >> width) == 0) ==> (mask as u64) < (1u64 << width)) && (
    mask as u64) < 0x1_0000_0000u64) by (bit_vector);
}

/// Bitwise or keeps tables confined.
proof fn lemma_or_window(x: u32, y: u32, width: u32)
    requires
        mask_in_window(x, width),
        mask_in_window(y, width),
    ensures
        mask_in_window(x | y, width),
{
    if width < 32 {
        assert((x >> width) == 0 && (y >> width) == 0 ==> ((x | y) >> width) == 0) by (bit_vector)
            requires
                width < 32,
        ;
    }
}

/// Bitwise and with a confined table is confined.
proof fn lemma_and_window(x: u32, y: u32, width: u32)
    requires
        mask_in_window(y, width),
    ensures
        mask_in_window(x & y, width),
{
    if width < 32 {
        assert((y >> width) == 0 ==> ((x & y) >> width) == 0) by (bit_vector)
            requires
                width < 32,
        ;
    }
}

/// A table whose set bits all lie below `width` is confined to `width`.
pub proof fn lemma_bits_confined(mask: u32, width: u32)
    requires
        width < 32,
        forall|b: u32| width <= b < 32 ==> !(#[trigger] tt_bit(mask, b)),
    ensures
        mask_in_window(mask, width),
{
    assert forall|b: u32| b < 32 implies !(((mask >> width) >> b) & 1 == 1) by {
        assert(((mask >> width) >> b) & 1 == 1 ==> ((mask >> ((b + width) as u32)) & 1 == 1 && ((b
            + width) as u32) < 32)) by (bit_vector)
            requires
                width < 32,
                b < 32,
        ;
        if ((mask >> width) >> b) & 1 == 1 {
            assert(tt_bit(mask, (b + width) as u32) && width <= ((b + width) as u32) < 32);
        }
    }
    let y = mask >> width;
    assert(y == 0) by (bit_vector)
        requires
            !((y >> 0u32) & 1 == 1) && !((y >> 1u32) & 1 == 1) && !((y >> 2u32) & 1 == 1) && !((y
                >> 3u32) & 1 == 1) && !((y >> 4u32) & 1 == 1) && !((y >> 5u32) & 1 == 1) && !((y
                >> 6u32) & 1 == 1) && !((y >> 7u32) & 1 == 1),
            !((y >> 8u32) & 1 == 1) && !((y >> 9u32) & 1 == 1) && !((y >> 10u32) & 1 == 1) && !((y
                >> 11u32) & 1 == 1) && !((y >> 12u32) & 1 == 1) && !((y >> 13u32) & 1 == 1) && !((
            y >> 14u32) & 1 == 1) && !((y >> 15u32) & 1 == 1),
            !((y >> 16u32) & 1 == 1) && !((y >> 17u32) & 1 == 1) && !((y >> 18u32) & 1 == 1) && !((
            y >> 19u32) & 1 == 1) && !((y >> 20u32) & 1 == 1) && !((y >> 21u32) & 1 == 1) && !((y
                >> 22u32) & 1 == 1) && !((y >> 23u32) & 1 == 1),
            !((y >> 24u32) & 1 == 1) && !((y >> 25u32) & 1 == 1) && !((y >> 26u32) & 1 == 1) && !((
            y >> 27u32) & 1 == 1) && !((y >> 28u32) & 1 == 1) && !((y >> 29u32) & 1 == 1) && !((y
                >> 30u32) & 1 == 1) && !((y >> 31u32) & 1 == 1),
    ;
}


impl TruthTableSize5Computer {
    /// Computes the truth table of a formula: one bit per assignment row,
    /// set exactly where the formula is true, and no bit beyond the rows.
    pub fn compute_truth_table(&self, formula: &SimpleLogicNode) -> (tt: u32)
        requires
            self.wf(),
            wf_formula(formula@, self.spec_num_booleans()),
        ensures
            is_truth_table_of(tt, formula@, self.spec_num_booleans()),
            mask_in_window(tt, num_rows(self.spec_num_booleans())),
        decreases formula,
    {
        broadcast use lemma_views_of_nodes;

        let ghost n = self.spec_num_booleans();
        match formula {
            SimpleLogicNode::False => {
                proof {
                    lemma_zero_table();
                }
                0
            },
            SimpleLogicNode::True => {
                let tt = self.positive_bitmask_vec[0] | self.negative_bitmask_vec[0];
                proof {
                    lemma_or_bits(self.positive_bitmask_vec@[0], self.negative_bitmask_vec@[0]);
                    lemma_masks_in_window(self, 0);
                    lemma_or_window(
                        self.positive_bitmask_vec@[0],
                        self.negative_bitmask_vec@[0],
                        num_rows(n),
                    );
                }
                tt
            },
            SimpleLogicNode::Literal(lit) => {
                // Just get the correct bitmask (-1 because booleans are
                // numbered from 1 to n).
                let variable_index = crate::logic::get_variable_index(*lit) as usize;
                let tt = if crate::logic::is_positive_literal(*lit) {
                    self.positive_bitmask_vec[variable_index - 1]
                } else {
                    self.negative_bitmask_vec[variable_index - 1]
                };
                proof {
                    lemma_masks_in_window(self, (variable_index - 1) as usize);
                }
                tt
            },
            SimpleLogicNode::Conjunction(operand_vec) => {
                proof {
                    lemma_wf_formula_children(formula@, n);
                    lemma_views_of_nodes(operand_vec@);
                    assert forall|i: int| 0 <= i < operand_vec@.len() implies wf_formula(
                        operand_vec@[i]@,
                        n,
                    ) by {
                        assert(wf_formula(views_of_nodes(operand_vec@)[i], n));
                    }
                }
                self.conjunction_truth_table(operand_vec)
            },
            SimpleLogicNode::Disjunction(operand_vec) => {
                proof {
                    lemma_wf_formula_children(formula@, n);
                    lemma_views_of_nodes(operand_vec@);
                    assert forall|i: int| 0 <= i < operand_vec@.len() implies wf_formula(
                        operand_vec@[i]@,
                        n,
                    ) by {
                        assert(wf_formula(views_of_nodes(operand_vec@)[i], n));
                    }
                }
                self.disjunction_truth_table(operand_vec)
            },
        }
    }

    /// The bitwise and of the operands' truth tables, seeded at all ones:
    /// the rows where every operand is true.
    fn conjunction_truth_table(&self, operand_vec: &Vec<SimpleLogicNode>) -> (tt: u32)
        requires
            self.wf(),
            operand_vec@.len() >= 1,
            forall|i: int|
                0 <= i < operand_vec@.len() ==> wf_formula(
                    #[trigger] operand_vec@[i]@,
                    self.spec_num_booleans(),
                ),
        ensures
            forall|b: u32|
                b < 32 ==> (#[trigger] tt_bit(tt, b) <==> (b < num_rows(self.spec_num_booleans())
                    && eval_row_all(
                    views_of_nodes(operand_vec@),
                    self.spec_num_booleans(),
                    b,
                ))),
            mask_in_window(tt, num_rows(self.spec_num_booleans())),
        decreases operand_vec@,
    {
        broadcast use lemma_views_of_nodes;

        let ghost n = self.spec_num_booleans();
        let ghost vs = views_of_nodes(operand_vec@);
        let mut truth_table: u32 = u32::MAX;
        let operand_count = operand_vec.len();
        for i in 0..operand_count
            invariant
                self.wf(),
                n == self.spec_num_booleans(),
                operand_count == operand_vec@.len(),
                operand_count >= 1,
                vs == views_of_nodes(operand_vec@),
                vs.len() == operand_vec@.len(),
                forall|j: int| 0 <= j < operand_count ==> wf_formula(#[trigger] operand_vec@[j]@, n),
                i == 0 ==> truth_table == u32::MAX,
                i > 0 ==> forall|b: u32|
                    b < 32 ==> (#[trigger] tt_bit(truth_table, b) <==> (b < num_rows(n)
                        && eval_row_all(vs.take(i as int), n, b))),
                i > 0 ==> mask_in_window(truth_table, num_rows(n)),
            decreases operand_count - i,
        {
            proof {
                lemma_views_of_nodes(operand_vec@);
                assert(vs[i as int] == operand_vec@[i as int]@);
                assert(decreases_to!(operand_vec@ => operand_vec@[i as int]));
            }
            let operand_tt = self.compute_truth_table(&operand_vec[i]);
            let ghost before = truth_table;
            truth_table = truth_table & operand_tt;
            proof {
                lemma_and_bits(before, operand_tt);
                lemma_and_window(before, operand_tt, num_rows(n));
                assert(vs.take(i + 1).subrange(0, i as int) =~= vs.take(i as int));
                assert(vs.take(i + 1).last() == vs[i as int]);
                if i == 0 {
                    assert(forall|b: u32| b < 32 ==> tt_bit(u32::MAX, b)) by {
                        assert(forall|b: u32| b < 32 ==> ((0xFFFF_FFFFu32 >> b) & 1) == 1)
                            by (bit_vector);
                    }
                }
                assert forall|b: u32| b < 32 implies (tt_bit(truth_table, b) <==> (b < num_rows(n)
                    && eval_row_all(vs.take(i + 1), n, b))) by {
                    assert(tt_bit(truth_table, b) <==> (tt_bit(before, b) && tt_bit(
                        operand_tt,
                        b,
                    )));
                    assert(tt_bit(operand_tt, b) <==> (b < num_rows(n) && eval_row(
                        vs[i as int],
                        n,
                        b,
                    )));
                    assert(eval_row_all(vs.take(i + 1), n, b) == (eval_row_all(
                        vs.take(i as int),
                        n,
                        b,
                    ) && eval_row(vs[i as int], n, b)));
                }
            }
        }
        proof {
            assert(vs.take(operand_vec@.len() as int) =~= vs);
        }
        truth_table
    }

    /// The bitwise or of the operands' truth tables, seeded at zero: the
    /// rows where some operand is true.
    fn disjunction_truth_table(&self, operand_vec: &Vec<SimpleLogicNode>) -> (tt: u32)
        requires
            self.wf(),
            forall|i: int|
                0 <= i < operand_vec@.len() ==> wf_formula(
                    #[trigger] operand_vec@[i]@,
                    self.spec_num_booleans(),
                ),
        ensures
            forall|b: u32|
                b < 32 ==> (#[trigger] tt_bit(tt, b) <==> (b < num_rows(self.spec_num_booleans())
                    && eval_row_any(
                    views_of_nodes(operand_vec@),
                    self.spec_num_booleans(),
                    b,
                ))),
            mask_in_window(tt, num_rows(self.spec_num_booleans())),
        decreases operand_vec@,
    {
        broadcast use lemma_views_of_nodes;

        let ghost n = self.spec_num_booleans();
        let ghost vs = views_of_nodes(operand_vec@);
        let mut truth_table: u32 = 0;
        proof {
            lemma_zero_table();
        }
        let operand_count = operand_vec.len();
        for i in 0..operand_count
            invariant
                self.wf(),
                n == self.spec_num_booleans(),
                operand_count == operand_vec@.len(),
                vs == views_of_nodes(operand_vec@),
                vs.len() == operand_vec@.len(),
                forall|j: int| 0 <= j < operand_count ==> wf_formula(#[trigger] operand_vec@[j]@, n),
                forall|b: u32|
                    b < 32 ==> (#[trigger] tt_bit(truth_table, b) <==> (b < num_rows(n)
                        && eval_row_any(vs.take(i as int), n, b))),
                mask_in_window(truth_table, num_rows(n)),
            decreases operand_count - i,
        {
            proof {
                lemma_views_of_nodes(operand_vec@);
                assert(vs[i as int] == operand_vec@[i as int]@);
                assert(decreases_to!(operand_vec@ => operand_vec@[i as int]));
            }
            let operand_tt = self.compute_truth_table(&operand_vec[i]);
            let ghost before = truth_table;
            truth_table = truth_table | operand_tt;
            proof {
                lemma_or_bits(before, operand_tt);
                lemma_or_window(before, operand_tt, num_rows(n));
                assert(vs.take(i + 1).subrange(0, i as int) =~= vs.take(i as int));
                assert(vs.take(i + 1).last() == vs[i as int]);
                assert forall|b: u32| b < 32 implies (tt_bit(truth_table, b) <==> (b < num_rows(n)
                    && eval_row_any(vs.take(i + 1), n, b))) by {
                    assert(tt_bit(truth_table, b) <==> (tt_bit(before, b) || tt_bit(
                        operand_tt,
                        b,
                    )));
                    assert(tt_bit(operand_tt, b) <==> (b < num_rows(n) && eval_row(
                        vs[i as int],
                        n,
                        b,
                    )));
                    assert(eval_row_any(vs.take(i + 1), n, b) == (eval_row_any(
                        vs.take(i as int),
                        n,
                        b,
                    ) || eval_row(vs[i as int], n, b)));
                }
            }
        }
        proof {
            assert(vs.take(operand_vec@.len() as int) =~= vs);
        }
        truth_table
    }
}

/// Every stored bitmask is confined to the table's rows.
proof fn lemma_masks_in_window(computer: &TruthTableSize5Computer, j: usize)
    requires
        computer.wf(),
        j < computer.spec_num_booleans(),
    ensures
        mask_in_window(computer.positive_bitmask_vec@[j as int], num_rows(
            computer.spec_num_booleans(),
        )),
        mask_in_window(computer.negative_bitmask_vec@[j as int], num_rows(
            computer.spec_num_booleans(),
        )),
{
    let n = computer.spec_num_booleans();
    let r = num_rows(n);
    if r < 32 {
        assert(positive_mask_ok(computer.positive_bitmask_vec@[j as int], n, (j + 1) as u32));
        assert forall|b: u32| r <= b < 32 implies !tt_bit(
            computer.positive_bitmask_vec@[j as int],
            b,
        ) by {
            assert(tt_bit(computer.positive_bitmask_vec@[j as int], b) <==> (b < num_rows(n)
                && row_var_true(b, n, (j + 1) as u32)));
        }
        lemma_bits_confined(computer.positive_bitmask_vec@[j as int], r);
        assert(negative_mask_ok(computer.negative_bitmask_vec@[j as int], n, (j + 1) as u32));
        assert forall|b: u32| r <= b < 32 implies !tt_bit(
            computer.negative_bitmask_vec@[j as int],
            b,
        ) by {
            assert(tt_bit(computer.negative_bitmask_vec@[j as int], b) <==> (b < num_rows(n)
                && !row_var_true(b, n, (j + 1) as u32)));
        }
        lemma_bits_confined(computer.negative_bitmask_vec@[j as int], r);
    }
}

} // verus!
