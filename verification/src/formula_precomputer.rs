//! Precomputes logic formulas and maps them to truth tables.
use vstd::prelude::*;
use vstd::arithmetic::power2::{pow2, lemma2_to64};
use crate::html_text::{HtmlGenerator, HtmlGeneratorModel};
use crate::logic::{
    LogicNodeModel, SimpleLogicNode, count_ops_model, count_ops_seq, lit_index, lits_in_range,
    name_views, text_of_model, views_of_nodes, lemma_views_of_nodes, lemma_literal_fields,
    NEGATIVITY_FLAG, VARIABLE_INDEX_MASK,
};
use crate::truth_table_size_5::{
    TruthTableSize5Computer, eval_row, is_truth_table_of, num_rows, row_var_true, tt_bit,
    wf_formula, lemma_confined_value, lemma_table_of, table_of,
};

verus! {

/// A clause as the enumerator builds it: at least one literal, every
/// variable index between 1 and `n`, strictly increasing by index (so no
/// two literals share a variable).
pub open spec fn wf_clause(c: Seq<u32>, n: u32) -> bool {
    &&& 1 <= c.len()
    &&& forall|i: int| 0 <= i < c.len() ==> 1 <= lit_index(#[trigger] c[i]) <= n
    &&& forall|i: int, j: int| 0 <= i < j < c.len() ==> lit_index(c[i]) < lit_index(c[j])
}

/// Every literal of `c1` appears in `c2`, sign included.
pub open spec fn clause_subset(c1: Seq<u32>, c2: Seq<u32>) -> bool {
    forall|i: int| 0 <= i < c1.len() ==> c2.contains(#[trigger] c1[i])
}

/// A strictly shorter clause whose literals all appear in the longer one
/// subsumes it.
pub open spec fn clause_subsumes(shorter: Seq<u32>, longer: Seq<u32>) -> bool {
    shorter.len() < longer.len() && clause_subset(shorter, longer)
}

/// A clause list the enumerator admits: well-formed clauses, sizes never
/// decreasing, no unit clause contradicting an earlier unit, and no clause
/// subsumed by an earlier one.
pub open spec fn admissible_clause_list(cs: Seq<Seq<u32>>, n: u32) -> bool {
    &&& forall|i: int| 0 <= i < cs.len() ==> wf_clause(#[trigger] cs[i], n)
    &&& forall|i: int, j: int| 0 <= i < j < cs.len() ==> cs[i].len() <= cs[j].len()
    &&& forall|i: int, j: int|
        0 <= i < j < cs.len() && cs[j].len() == 1 ==> (cs[i][0] ^ cs[j][0]) != NEGATIVITY_FLAG
    &&& forall|i: int, j: int| 0 <= i < j < cs.len() ==> !clause_subsumes(cs[i], cs[j])
}

/// The literal nodes of a clause, in order.
pub open spec fn lit_nodes(c: Seq<u32>) -> Seq<LogicNodeModel> {
    c.map_values(|lit: u32| LogicNodeModel::Literal(lit))
}

/// The formula a clause becomes inside a disjunctive normal form: a bare
/// literal when it has one literal, else the conjunction of its literals.
pub open spec fn clause_node(c: Seq<u32>) -> LogicNodeModel {
    if c.len() == 1 {
        LogicNodeModel::Literal(c[0])
    } else {
        LogicNodeModel::Conjunction(lit_nodes(c))
    }
}

/// The disjunctive normal form a clause list becomes.
pub open spec fn dnf_node(cs: Seq<Seq<u32>>) -> LogicNodeModel {
    LogicNodeModel::Disjunction(cs.map_values(|c: Seq<u32>| clause_node(c)))
}

/// The structural dual of a formula: every conjunction becomes a
/// disjunction and vice versa, with literals and constants unchanged. The
/// dual is not logically equivalent to the original; it is a different
/// formula over the same literals.
pub open spec fn dual_of(m: LogicNodeModel) -> LogicNodeModel
    decreases m,
{
    match m {
        LogicNodeModel::False => LogicNodeModel::False,
        LogicNodeModel::True => LogicNodeModel::True,
        LogicNodeModel::Literal(lit) => LogicNodeModel::Literal(lit),
        LogicNodeModel::Conjunction(operands) => LogicNodeModel::Disjunction(dual_of_seq(operands)),
        LogicNodeModel::Disjunction(operands) => LogicNodeModel::Conjunction(dual_of_seq(operands)),
    }
}

/// The structural duals of a sequence of formulas, element by element.
pub open spec fn dual_of_seq(s: Seq<LogicNodeModel>) -> Seq<LogicNodeModel>
    decreases s,
{
    if s.len() == 0 {
        Seq::empty()
    } else {
        seq![dual_of(s[0])] + dual_of_seq(s.subrange(1, s.len() as int))
    }
}

pub broadcast proof fn lemma_dual_of_seq(s: Seq<LogicNodeModel>)
    ensures
        (#[trigger] dual_of_seq(s)).len() == s.len(),
        forall|i: int| 0 <= i < s.len() ==> dual_of_seq(s)[i] == dual_of(s[i]),
    decreases s,
{
    if s.len() > 0 {
        let rest = s.subrange(1, s.len() as int);
        lemma_dual_of_seq(rest);
        let full = seq![dual_of(s[0])] + dual_of_seq(rest);
        assert(dual_of_seq(s) == full);
        assert forall|i: int| 0 <= i < s.len() implies dual_of_seq(s)[i] == dual_of(s[i]) by {
            if i > 0 {
                assert(full[i] == dual_of_seq(rest)[i - 1]);
                assert(rest[i - 1] == s[i]);
            } else {
                assert(full[0] == dual_of(s[0]));
            }
        }
    }
}

/// Taking the structural dual twice gives back the original formula: the
/// dual construction is an involution on shape.
pub proof fn lemma_dual_involution(m: LogicNodeModel)
    ensures
        dual_of(dual_of(m)) == m,
    decreases m,
{
    broadcast use lemma_dual_of_seq;

    match m {
        LogicNodeModel::Conjunction(operands) => {
            assert forall|i: int| 0 <= i < operands.len() implies dual_of_seq(
                dual_of_seq(operands),
            )[i] == operands[i] by {
                lemma_dual_involution(operands[i]);
            }
            assert(dual_of_seq(dual_of_seq(operands)) =~= operands);
        },
        LogicNodeModel::Disjunction(operands) => {
            assert forall|i: int| 0 <= i < operands.len() implies dual_of_seq(
                dual_of_seq(operands),
            )[i] == operands[i] by {
                lemma_dual_involution(operands[i]);
            }
            assert(dual_of_seq(dual_of_seq(operands)) =~= operands);
        },
        _ => (),
    }
}

/// The shapes the generator files into buckets: the two constants, a bare
/// literal over the allowed booleans, or a disjunctive normal form built
/// from an admissible clause list of at least two clauses, or the
/// structural dual of such a form.
pub open spec fn generated_shape(m: LogicNodeModel, n: u32) -> bool {
    ||| m is False
    ||| m is True
    ||| (m matches LogicNodeModel::Literal(lit) && 1 <= lit_index(lit) <= n)
    ||| (exists|cs: Seq<Seq<u32>>|
        admissible_clause_list(cs, n) && cs.len() >= 2 && (m == dnf_node(cs) || m == dual_of(
            #[trigger] dnf_node(cs),
        )))
}

/// A formula stands first-minimal in a list when it appears there, no list
/// member has fewer binary operators, and every earlier member has more.
pub open spec fn is_first_minimal(s: Seq<LogicNodeModel>, mm: LogicNodeModel) -> bool {
    exists|i: int|
        {
            &&& 0 <= i < s.len()
            &&& s[i] == mm
            &&& (forall|j: int| 0 <= j < s.len() ==> count_ops_model(mm) <= count_ops_model(#[trigger] s[j]))
            &&& (forall|j: int| 0 <= j < i ==> count_ops_model(#[trigger] s[j]) > count_ops_model(mm))
        }
}

/// The recorded minimum is absent exactly when the list is empty, and
/// otherwise is the first minimal formula of the list.
pub open spec fn bucket_min_ok(formulas: Seq<LogicNodeModel>, minimum: Option<LogicNodeModel>) -> bool {
    if formulas.len() == 0 {
        minimum is None
    } else {
        minimum matches Some(mm) && is_first_minimal(formulas, mm)
    }
}

/// Every formula's operator count fits the counter.
pub open spec fn bucket_counts_ok(formulas: Seq<LogicNodeModel>) -> bool {
    forall|i: int| 0 <= i < formulas.len() ==> count_ops_model(#[trigger] formulas[i]) <= u32::MAX
}

/// This struct stores all the formulas that map to a specific truth table,
/// and remembers the smallest of them.
pub struct LogicFormulaBucket {
    minimum_formula: Option<SimpleLogicNode>,
    formula_vector: Vec<SimpleLogicNode>,
}

impl LogicFormulaBucket {
    /// The models of the formulas stored in this bucket, in insertion
    /// order.
    pub closed spec fn formulas(&self) -> Seq<LogicNodeModel> {
        views_of_nodes(self.formula_vector@)
    }

    /// The model of the recorded minimum formula, if any.
    pub closed spec fn minimum(&self) -> Option<LogicNodeModel> {
        match self.minimum_formula {
            Option::None => Option::None,
            Option::Some(formula) => Option::Some(formula@),
        }
    }

    // Adds a formula to this bucket: appends it to the list, and makes it
    // the minimum when it is the first formula or has strictly fewer binary
    // operators than the recorded minimum.
    fn add_formula(&mut self, formula: SimpleLogicNode)
        requires
            bucket_min_ok(old(self).formulas(), old(self).minimum()),
            bucket_counts_ok(old(self).formulas()),
            count_ops_model(formula@) <= u32::MAX,
        ensures
            final(self).formulas() == old(self).formulas().push(formula@),
            final(self).minimum() == updated_minimum(old(self).minimum(), formula@),
            bucket_min_ok(final(self).formulas(), final(self).minimum()),
            bucket_counts_ok(final(self).formulas()),
    {
        broadcast use lemma_views_of_nodes;

        let ghost old_formulas = self.formulas();
        let ghost old_minimum = self.minimum();

        // Add the formula to the vector.
        self.formula_vector.push(formula.clone());
        proof {
            lemma_views_of_nodes(self.formula_vector@);
            assert(self.formulas() =~= old_formulas.push(formula@));
        }

        // Check whether the formula is the new minimum formula.
        match &self.minimum_formula {
            Option::None => {
                self.minimum_formula = Option::Some(formula);
                proof {
                    let s = self.formulas();
                    assert(s[s.len() - 1] == formula@);
                    assert(is_first_minimal(s, formula@));
                }
            },
            Option::Some(old_formula) => {
                // If the new formula is smaller, make it the minimum.
                if formula.count_binary_operators() < old_formula.count_binary_operators() {
                    self.minimum_formula = Option::Some(formula);
                    proof {
                        let s = self.formulas();
                        let witness = s.len() - 1;
                        assert(s[witness] == formula@);
                        let om = old_minimum->Some_0;
                        let oi = choose|i: int|
                            {
                                &&& 0 <= i < old_formulas.len()
                                &&& old_formulas[i] == om
                                &&& (forall|j: int|
                                    0 <= j < old_formulas.len() ==> count_ops_model(om)
                                        <= count_ops_model(#[trigger] old_formulas[j]))
                                &&& (forall|j: int|
                                    0 <= j < i ==> count_ops_model(#[trigger] old_formulas[j])
                                        > count_ops_model(om))
                            };
                        assert forall|j: int| 0 <= j < s.len() implies count_ops_model(formula@)
                            <= count_ops_model(#[trigger] s[j]) by {
                            if j < old_formulas.len() {
                                assert(count_ops_model(om) <= count_ops_model(old_formulas[j]));
                            }
                        }
                        assert forall|j: int| 0 <= j < witness implies count_ops_model(
                            #[trigger] s[j],
                        ) > count_ops_model(formula@) by {
                            assert(count_ops_model(om) <= count_ops_model(old_formulas[j]));
                        }
                        assert(is_first_minimal(s, formula@));
                    }
                } else {
                    proof {
                        let s = self.formulas();
                        let om = old_minimum->Some_0;
                        let oi = choose|i: int|
                            {
                                &&& 0 <= i < old_formulas.len()
                                &&& old_formulas[i] == om
                                &&& (forall|j: int|
                                    0 <= j < old_formulas.len() ==> count_ops_model(om)
                                        <= count_ops_model(#[trigger] old_formulas[j]))
                                &&& (forall|j: int|
                                    0 <= j < i ==> count_ops_model(#[trigger] old_formulas[j])
                                        > count_ops_model(om))
                            };
                        assert(s[oi] == om);
                        assert forall|j: int| 0 <= j < s.len() implies count_ops_model(om)
                            <= count_ops_model(#[trigger] s[j]) by {
                            if j < old_formulas.len() {
                                assert(count_ops_model(om) <= count_ops_model(old_formulas[j]));
                            }
                        }
                        assert(is_first_minimal(s, om));
                    }
                }
            },
        }
    }
}


/// The list rows rendering the first `k` formulas, in order.
pub open spec fn formula_list_rows(
    formulas: Seq<LogicNodeModel>,
    names: Seq<Seq<char>>,
) -> Seq<char>
    decreases formulas,
{
    if formulas.len() == 0 {
        Seq::empty()
    } else {
        formula_list_rows(formulas.subrange(0, formulas.len() - 1), names) + "<li "@ + ">"@
            + text_of_model(formulas.last(), names, false) + "\n"@
    }
}

/// The plain-text rendering of a formula list: one formula per line.
pub open spec fn formula_list_lines(
    formulas: Seq<LogicNodeModel>,
    names: Seq<Seq<char>>,
) -> Seq<char>
    decreases formulas,
{
    if formulas.len() == 0 {
        Seq::empty()
    } else {
        formula_list_lines(formulas.subrange(0, formulas.len() - 1), names) + text_of_model(
            formulas.last(),
            names,
            false,
        ) + "\n"@
    }
}

/// The paragraph announcing a bucket's minimum formula, or the placeholder
/// when the bucket is empty.
pub open spec fn minimum_paragraph_text(
    minimum: Option<LogicNodeModel>,
    names: Seq<Seq<char>>,
) -> Seq<char> {
    "Minimum Formula: "@ + (match minimum {
        Option::Some(m) => text_of_model(m, names, false),
        Option::None => "NONE"@,
    })
}

impl LogicFormulaBucket {
    /// Adds the Html for the formula list: a paragraph with the minimum
    /// formula (or `NONE`), then one list row per formula, and the end of
    /// the current list.
    pub fn add_html_for_formula_list(
        &self,
        html_generator: &mut HtmlGenerator,
        boolean_name_list: &Vec<String>,
    )
        requires
            forall|i: int|
                0 <= i < self.formulas().len() ==> lits_in_range(
                    #[trigger] self.formulas()[i],
                    boolean_name_list@.len() as int,
                ),
            self.minimum() matches Option::Some(m) ==> lits_in_range(
                m,
                boolean_name_list@.len() as int,
            ),
        ensures
            final(html_generator)@ == (HtmlGeneratorModel {
                body: old(html_generator)@.body + "<p>"@ + minimum_paragraph_text(
                    self.minimum(),
                    name_views(boolean_name_list@),
                ) + "</p>\n\n"@ + old(html_generator)@.list + formula_list_rows(
                    self.formulas(),
                    name_views(boolean_name_list@),
                ) + (if old(html_generator)@.list_ordered {
                    "</ol>\n"@
                } else {
                    "</ul>\n"@
                }),
                list: Seq::<char>::empty(),
                ..old(html_generator)@
            }),
    {
        broadcast use lemma_views_of_nodes;

        let ghost names = name_views(boolean_name_list@);
        let ghost entry = html_generator@;

        // Minimum formula.
        let cnf_text = match &self.minimum_formula {
            Option::Some(formula) => formula.get_as_text(boolean_name_list),
            Option::None => {
                let mut none_text = String::new();
                none_text.append("NONE");
                none_text
            },
        };
        let mut paragraph = String::new();
        paragraph.append("Minimum Formula: ");
        paragraph.append(cnf_text.as_str());
        html_generator.add_paragraph(paragraph.as_str());
        proof {
            assert(paragraph@ =~= minimum_paragraph_text(self.minimum(), names));
        }

        // List of all formulas.
        let ghost vs = self.formulas();
        let formula_count = self.formula_vector.len();
        let mut i: usize = 0;
        while i < formula_count
            invariant
                formula_count == self.formula_vector@.len(),
                vs == self.formulas(),
                vs.len() == formula_count,
                names == name_views(boolean_name_list@),
                forall|j: int|
                    0 <= j < vs.len() ==> lits_in_range(
                        #[trigger] vs[j],
                        boolean_name_list@.len() as int,
                    ),
                0 <= i <= formula_count,
                html_generator@ == (HtmlGeneratorModel {
                    body: entry.body + "<p>"@ + minimum_paragraph_text(self.minimum(), names)
                        + "</p>\n\n"@,
                    list: entry.list + formula_list_rows(vs.take(i as int), names),
                    ..entry
                }),
            decreases formula_count - i,
        {
            proof {
                reveal_strlit("");
                lemma_views_of_nodes(self.formula_vector@);
                assert(vs[i as int] == self.formula_vector@[i as int]@);
            }
            let row_text = self.formula_vector[i].get_as_text(boolean_name_list);
            html_generator.list_add_row("", row_text.as_str());
            proof {
                let upto = vs.take(i + 1);
                assert(upto.subrange(0, i as int) =~= vs.take(i as int));
                assert(upto.last() == vs[i as int]);
                assert(html_generator@.list =~= entry.list + formula_list_rows(upto, names));
                assert(html_generator@ =~= (HtmlGeneratorModel {
                    body: entry.body + "<p>"@ + minimum_paragraph_text(self.minimum(), names)
                        + "</p>\n\n"@,
                    list: entry.list + formula_list_rows(upto, names),
                    ..entry
                }));
            }
            i = i + 1;
        }

        html_generator.list_end();
        proof {
            assert(vs.take(formula_count as int) =~= vs);
            assert(html_generator@ =~= (HtmlGeneratorModel {
                body: entry.body + "<p>"@ + minimum_paragraph_text(self.minimum(), names)
                    + "</p>\n\n"@ + entry.list + formula_list_rows(vs, names) + (if entry.list_ordered {
                    "</ol>\n"@
                } else {
                    "</ul>\n"@
                }),
                list: Seq::<char>::empty(),
                ..entry
            }));
        }
    }

    /// The formulas of this bucket as plain text, one per line.
    pub fn get_formula_list_as_text(&self, boolean_name_list: &Vec<String>) -> (text: String)
        requires
            forall|i: int|
                0 <= i < self.formulas().len() ==> lits_in_range(
                    #[trigger] self.formulas()[i],
                    boolean_name_list@.len() as int,
                ),
        ensures
            text@ == formula_list_lines(self.formulas(), name_views(boolean_name_list@)),
    {
        broadcast use lemma_views_of_nodes;

        let ghost names = name_views(boolean_name_list@);
        let ghost vs = self.formulas();
        let mut formula_list_text = String::new();
        let formula_count = self.formula_vector.len();
        let mut i: usize = 0;
        while i < formula_count
            invariant
                formula_count == self.formula_vector@.len(),
                vs == self.formulas(),
                vs.len() == formula_count,
                names == name_views(boolean_name_list@),
                forall|j: int|
                    0 <= j < vs.len() ==> lits_in_range(
                        #[trigger] vs[j],
                        boolean_name_list@.len() as int,
                    ),
                0 <= i <= formula_count,
                formula_list_text@ == formula_list_lines(vs.take(i as int), names),
            decreases formula_count - i,
        {
            proof {
                lemma_views_of_nodes(self.formula_vector@);
                assert(vs[i as int] == self.formula_vector@[i as int]@);
            }
            let line = self.formula_vector[i].get_as_text(boolean_name_list);
            formula_list_text.append(line.as_str());
            formula_list_text.append("\n");
            proof {
                let upto = vs.take(i + 1);
                assert(upto.subrange(0, i as int) =~= vs.take(i as int));
                assert(upto.last() == vs[i as int]);
                assert(formula_list_text@ =~= formula_list_lines(upto, names));
            }
            i = i + 1;
        }
        proof {
            assert(vs.take(formula_count as int) =~= vs);
        }
        formula_list_text
    }
}


// Computes 2 to the power of n.
fn compute_two_to_n(n: u32) -> (power: u32)
    requires
        n < 32,
    ensures
        power == 1u32 << n,
{
    1u32 << n
}

// Computes 2 to the power of 2 to the n: the number of truth tables over n
// booleans.
fn compute_two_to_two_to_n(n: u32) -> (power: u64)
    requires
        1 <= n <= 5,
    ensures
        power == 1u64 << (1u32 << n),
        power == pow2(pow2(n as nat)),
{
    proof {
        assert(1u32 << n < 64) by (bit_vector)
            requires
                n <= 5,
        ;
        lemma_two_to_two_to_n_value(n);
    }
    1u64 << (1u32 << n)
}

/// The tower of two shifts agrees with the mathematical power of two.
pub proof fn lemma_two_to_two_to_n_value(n: u32)
    requires
        1 <= n <= 5,
    ensures
        (1u64 << (1u32 << n)) == pow2(pow2(n as nat)),
        pow2(pow2(n as nat)) <= 0x1_0000_0000,
{
    lemma2_to64();
    assert((1u32 << 1u32) == 2 && (1u32 << 2u32) == 4 && (1u32 << 3u32) == 8 && (1u32 << 4u32)
        == 16 && (1u32 << 5u32) == 32) by (bit_vector);
    assert((1u64 << 2u32) == 4 && (1u64 << 4u32) == 16 && (1u64 << 8u32) == 256 && (1u64 << 16u32)
        == 65536 && (1u64 << 32u32) == 4294967296) by (bit_vector);
}

/// This struct generates all the combinations of positive and negative
/// flags over a vector of boolean indexes, one combination per call.
struct AssignFlagsIterator {
    boolean_indexes_vec: Vec<u32>,
    configuration: usize,
    num_configurations: usize,
}

impl AssignFlagsIterator {
    /// Creates a new AssignFlagsIterator over the given boolean indexes.
    fn new(boolean_indexes_vec: Vec<u32>) -> (it: AssignFlagsIterator)
        requires
            boolean_indexes_vec@.len() <= 5,
        ensures
            it.boolean_indexes_vec == boolean_indexes_vec,
            it.configuration == 0,
            it.num_configurations == (1usize << boolean_indexes_vec@.len()),
    {
        let num_booleans = boolean_indexes_vec.len() as u32;
        let num_configurations = compute_two_to_n(num_booleans) as usize;
        proof {
            let c = num_booleans;
            assert((1u32 << c) as usize == 1usize << (c as usize)) by (bit_vector)
                requires
                    c <= 5,
            ;
        }
        AssignFlagsIterator { boolean_indexes_vec, configuration: 0, num_configurations }
    }

    /// The next combination of signed literals, if one is left: bit i of
    /// the configuration counter decides the sign of the literal built from
    /// index i, with a clear bit meaning negative.
    fn next_assignment(&mut self) -> (assignment: Option<Vec<u32>>)
        requires
            old(self).boolean_indexes_vec@.len() <= 5,
            old(self).num_configurations == (1usize << old(self).boolean_indexes_vec@.len()),
        ensures
            final(self).boolean_indexes_vec == old(self).boolean_indexes_vec,
            final(self).num_configurations == old(self).num_configurations,
            old(self).configuration >= old(self).num_configurations ==> assignment is None
                && final(self).configuration == old(self).configuration,
            old(self).configuration < old(self).num_configurations ==> {
                &&& final(self).configuration == old(self).configuration + 1
                &&& assignment matches Some(v) && v@.len()
                    == old(self).boolean_indexes_vec@.len() && (forall|i: int|
                    0 <= i < v@.len() ==> v@[i] == (if (old(self).configuration >> (i as usize)) & 1
                        == 1 {
                        old(self).boolean_indexes_vec@[i]
                    } else {
                        old(self).boolean_indexes_vec@[i] | NEGATIVITY_FLAG
                    }))
            },
    {
        // If the iterator is out of configurations.
        if self.configuration >= self.num_configurations {
            return Option::None;
        }
        let ghost entry_configuration = self.configuration;

        // Create a vector for this configuration of literals. The bitmask
        // checks whether a specific boolean index must be positive or
        // negative: 0 is negative, 1 is positive.
        let index_count = self.boolean_indexes_vec.len();
        let mut boolean_indexes_with_signs_vec: Vec<u32> = Vec::with_capacity(index_count);
        let mut bitmask: usize = 1;
        proof {
            assert(1usize == 1usize << 0) by (bit_vector);
        }
        let mut index_index: usize = 0;
        while index_index < index_count
            invariant
                index_count == self.boolean_indexes_vec@.len(),
                index_count <= 5,
                self.configuration == entry_configuration,
                0 <= index_index <= index_count,
                bitmask == 1usize << index_index,
                boolean_indexes_with_signs_vec@.len() == index_index,
                forall|i: int|
                    0 <= i < index_index ==> boolean_indexes_with_signs_vec@[i] == (if (
                    entry_configuration >> (i as usize)) & 1 == 1 {
                        self.boolean_indexes_vec@[i]
                    } else {
                        self.boolean_indexes_vec@[i] | NEGATIVITY_FLAG
                    }),
            decreases index_count - index_index,
        {
            let ghost c = self.configuration;
            let ghost ii = index_index;
            proof {
                assert(((c & (1usize << ii)) == 0) <==> (((c >> ii) & 1) != 1)) by (bit_vector)
                    requires
                        ii <= 5,
                ;
            }
            let literal = if self.configuration & bitmask == 0 {
                self.boolean_indexes_vec[index_index] | NEGATIVITY_FLAG
            } else {
                self.boolean_indexes_vec[index_index]
            };
            boolean_indexes_with_signs_vec.push(literal);
            proof {
                assert((1usize << ii) << 1 == 1usize << (ii + 1)) by (bit_vector)
                    requires
                        ii <= 5,
                ;
            }
            bitmask = bitmask << 1;
            index_index = index_index + 1;
        }

        self.configuration = self.configuration + 1;
        Option::Some(boolean_indexes_with_signs_vec)
    }
}

/// The literals of a clause carry strictly increasing variable indexes.
pub open spec fn sorted_by_index(c: Seq<u32>) -> bool {
    forall|i: int, j: int| 0 <= i < j < c.len() ==> lit_index(c[i]) < lit_index(c[j])
}

/// A formula tree with no constant leaves: only literals under operators.
pub open spec fn no_constants(m: LogicNodeModel) -> bool
    decreases m,
{
    match m {
        LogicNodeModel::False => false,
        LogicNodeModel::True => false,
        LogicNodeModel::Literal(_) => true,
        LogicNodeModel::Conjunction(operands) => forall|i: int|
            0 <= i < operands.len() ==> no_constants(operands[i]),
        LogicNodeModel::Disjunction(operands) => forall|i: int|
            0 <= i < operands.len() ==> no_constants(operands[i]),
    }
}

/// Freedom from constants passes to each operand of an operator node.
proof fn lemma_no_constants_children(m: LogicNodeModel)
    requires
        no_constants(m),
    ensures
        m matches LogicNodeModel::Conjunction(operands) ==> forall|i: int|
            0 <= i < operands.len() ==> no_constants(#[trigger] operands[i]),
        m matches LogicNodeModel::Disjunction(operands) ==> forall|i: int|
            0 <= i < operands.len() ==> no_constants(#[trigger] operands[i]),
{
    match m {
        LogicNodeModel::Conjunction(operands) => {
            assert(forall|i: int| 0 <= i < operands.len() ==> no_constants(#[trigger] operands[i]));
        },
        LogicNodeModel::Disjunction(operands) => {
            assert(forall|i: int| 0 <= i < operands.len() ==> no_constants(#[trigger] operands[i]));
        },
        _ => (),
    }
}

/// This struct generates every admissible normal formula over a clause
/// universe and files each into the bucket of its truth table.
pub struct NormalFormulaGenerator {
    formula_buckets: Vec<LogicFormulaBucket>,  // Stores the final results
    literal_configurations: Vec<Vec<u32>>,  // The possible clauses, by rising size
    tt_computer: TruthTableSize5Computer,  // Computes the truth tables
}

impl NormalFormulaGenerator {
    /// Generates a formula with the same literals as the given formula and
    /// every conjunction and disjunction swapped: its structural dual. The
    /// two are not in any way equivalent.
    pub fn generate_cnf_from_dnf(dnf_formula: &SimpleLogicNode) -> (cnf_formula: SimpleLogicNode)
        requires
            no_constants(dnf_formula@),
        ensures
            cnf_formula@ == dual_of(dnf_formula@),
        decreases dnf_formula,
    {
        broadcast use lemma_views_of_nodes, lemma_dual_of_seq;

        proof {
            lemma_no_constants_children(dnf_formula@);
        }
        match dnf_formula {
            SimpleLogicNode::False => vstd::pervasive::unreached(),
            SimpleLogicNode::True => vstd::pervasive::unreached(),
            SimpleLogicNode::Literal(_) => dnf_formula.duplicate(),
            SimpleLogicNode::Conjunction(operands) => {
                proof {
                    lemma_views_of_nodes(operands@);
                    assert forall|i: int| 0 <= i < operands@.len() implies no_constants(
                        operands@[i]@,
                    ) by {
                        assert(no_constants(views_of_nodes(operands@)[i]));
                    }
                }
                let flipped_operands = dual_nodes(operands);
                SimpleLogicNode::Disjunction(flipped_operands)
            },
            SimpleLogicNode::Disjunction(operands) => {
                proof {
                    lemma_views_of_nodes(operands@);
                    assert forall|i: int| 0 <= i < operands@.len() implies no_constants(
                        operands@[i]@,
                    ) by {
                        assert(no_constants(views_of_nodes(operands@)[i]));
                    }
                }
                let flipped_operands = dual_nodes(operands);
                SimpleLogicNode::Conjunction(flipped_operands)
            },
        }
    }
}

/// The structural duals of every node in a vector, in order.
fn dual_nodes(nodes: &Vec<SimpleLogicNode>) -> (duals: Vec<SimpleLogicNode>)
    requires
        forall|i: int| 0 <= i < nodes@.len() ==> no_constants(#[trigger] nodes@[i]@),
    ensures
        views_of_nodes(duals@) == dual_of_seq(views_of_nodes(nodes@)),
    decreases nodes@,
{
    broadcast use lemma_views_of_nodes, lemma_dual_of_seq;

    let mut duals: Vec<SimpleLogicNode> = Vec::new();
    let node_count = nodes.len();
    for i in 0..node_count
        invariant
            node_count == nodes@.len(),
            forall|j: int| 0 <= j < node_count ==> no_constants(#[trigger] nodes@[j]@),
            duals@.len() == i,
            forall|j: int| 0 <= j < i ==> duals@[j]@ == dual_of(nodes@[j]@),
        decreases node_count - i,
    {
        proof {
            lemma_views_of_nodes(nodes@);
            assert(decreases_to!(nodes@ => nodes@[i as int]));
        }
        let dual = NormalFormulaGenerator::generate_cnf_from_dnf(&nodes[i]);
        duals.push(dual);
    }
    proof {
        lemma_views_of_nodes(duals@);
        lemma_views_of_nodes(nodes@);
        lemma_dual_of_seq(views_of_nodes(nodes@));
        assert(views_of_nodes(duals@) =~= dual_of_seq(views_of_nodes(nodes@)));
    }
    duals
}

impl NormalFormulaGenerator {
    // Determines whether the old array is a subarray of the new array,
    // walking both index-sorted arrays together and requiring an exact
    // literal match, sign included. Arrays of the same length are never
    // subarrays (all clauses in the universe are distinct).
    fn is_subarray_of(old_array: &Vec<u32>, new_array: &Vec<u32>) -> (subarray: bool)
        requires
            sorted_by_index(old_array@),
            sorted_by_index(new_array@),
            1 <= new_array@.len(),
        ensures
            subarray == clause_subsumes(old_array@, new_array@),
    {
        let old_array_length = old_array.len();
        let new_array_length = new_array.len();

        // Arrays of the same size are not subarrays.
        if old_array_length == new_array_length {
            proof {
                assert(!clause_subsumes(old_array@, new_array@));
            }
            return false;
        }

        // Compare elements: i walks old_array, j walks new_array.
        let mut j: usize = 0;
        let mut i: usize = 0;
        while i < old_array_length
            invariant
                old_array_length == old_array@.len(),
                new_array_length == new_array@.len(),
                1 <= new_array_length,
                old_array_length != new_array_length,
                sorted_by_index(old_array@),
                sorted_by_index(new_array@),
                0 <= i <= old_array_length,
                i == 0 ==> j == 0,
                i > 0 ==> i - 1 <= j < new_array_length,
                i > 0 ==> old_array@[i - 1] == new_array@[j as int],
                forall|i2: int| 0 <= i2 < i ==> new_array@.contains(#[trigger] old_array@[i2]),
            decreases old_array_length - i,
        {
            let without_flag = old_array[i] & VARIABLE_INDEX_MASK;
            proof {
                assert(without_flag == lit_index(old_array@[i as int]));
                if i > 0 {
                    assert(lit_index(old_array@[i - 1]) < lit_index(old_array@[i as int]));
                }
            }
            let mut exhausted = false;
            while !exhausted && without_flag > new_array[j] & VARIABLE_INDEX_MASK
                invariant
                    old_array_length == old_array@.len(),
                    new_array_length == new_array@.len(),
                    sorted_by_index(new_array@),
                    i < old_array_length,
                    without_flag == lit_index(old_array@[i as int]),
                    !exhausted ==> j < new_array_length,
                    exhausted ==> j == new_array_length,
                    forall|j2: int|
                        0 <= j2 < j ==> lit_index(#[trigger] new_array@[j2]) < without_flag,
                decreases new_array_length - j, (if exhausted { 0int } else { 1int }),
            {
                proof {
                    assert forall|j2: int| 0 <= j2 < j + 1 implies lit_index(
                        #[trigger] new_array@[j2],
                    ) < without_flag by {
                        if j2 < j {
                        } else {
                            assert(lit_index(new_array@[j as int]) < without_flag);
                        }
                    }
                }
                j = j + 1;

                // If the superarray is exhausted, it is not subsumed.
                if j == new_array_length {
                    exhausted = true;
                }
            }
            if exhausted {
                proof {
                    assert forall|j2: int| 0 <= j2 < new_array@.len() implies new_array@[j2]
                        != old_array@[i as int] by {
                        assert(lit_index(new_array@[j2]) < lit_index(old_array@[i as int]));
                    }
                    assert(!clause_subset(old_array@, new_array@)) by {
                        assert(!new_array@.contains(old_array@[i as int]));
                    }
                }
                return false;
            }

            // If the literals are not identical, the old array holds a
            // literal that the new array does not: it is not a subarray.
            if old_array[i] != new_array[j] {
                proof {
                    assert forall|j2: int| 0 <= j2 < new_array@.len() implies new_array@[j2]
                        != old_array@[i as int] by {
                        if j2 < j {
                            assert(lit_index(new_array@[j2]) < lit_index(old_array@[i as int]));
                        } else if j2 > j {
                            assert(lit_index(new_array@[j as int]) < lit_index(new_array@[j2]));
                            assert(lit_index(new_array@[j as int]) >= lit_index(
                                old_array@[i as int],
                            ));
                        }
                    }
                    assert(!clause_subset(old_array@, new_array@)) by {
                        assert(!new_array@.contains(old_array@[i as int]));
                    }
                }
                return false;
            }
            proof {
                assert(new_array@[j as int] == old_array@[i as int]);
                assert(new_array@.contains(old_array@[i as int]));
            }
            i = i + 1;
        }

        // The old array is a subarray of the new array.
        proof {
            assert(clause_subset(old_array@, new_array@));
            if old_array@.len() > 0 {
                assert(old_array@.len() - 1 <= j < new_array@.len());
            }
            assert(old_array@.len() < new_array@.len());
        }
        true
    }
}



/// How adding a formula updates a bucket's recorded minimum: the first
/// formula is adopted, and afterwards only a strictly smaller operator
/// count replaces it (ties keep the earlier formula).
pub open spec fn updated_minimum(minimum: Option<LogicNodeModel>, m: LogicNodeModel) -> Option<
    LogicNodeModel,
> {
    match minimum {
        Option::None => Option::Some(m),
        Option::Some(om) => if count_ops_model(m) < count_ops_model(om) {
            Option::Some(m)
        } else {
            Option::Some(om)
        },
    }
}

/// The first minimal formula of a list is unique: a bucket's formula list
/// determines its minimum.
pub proof fn lemma_first_minimal_unique(s: Seq<LogicNodeModel>, m1: LogicNodeModel, m2: LogicNodeModel)
    requires
        is_first_minimal(s, m1),
        is_first_minimal(s, m2),
    ensures
        m1 == m2,
{
    let i1 = choose|i: int|
        {
            &&& 0 <= i < s.len()
            &&& s[i] == m1
            &&& (forall|j: int| 0 <= j < s.len() ==> count_ops_model(m1) <= count_ops_model(#[trigger] s[j]))
            &&& (forall|j: int| 0 <= j < i ==> count_ops_model(#[trigger] s[j]) > count_ops_model(m1))
        };
    let i2 = choose|i: int|
        {
            &&& 0 <= i < s.len()
            &&& s[i] == m2
            &&& (forall|j: int| 0 <= j < s.len() ==> count_ops_model(m2) <= count_ops_model(#[trigger] s[j]))
            &&& (forall|j: int| 0 <= j < i ==> count_ops_model(#[trigger] s[j]) > count_ops_model(m2))
        };
    assert(count_ops_model(m1) <= count_ops_model(s[i2]));
    assert(count_ops_model(m2) <= count_ops_model(s[i1]));
    if i1 < i2 {
        assert(count_ops_model(s[i1]) > count_ops_model(m2));
    } else if i2 < i1 {
        assert(count_ops_model(s[i2]) > count_ops_model(m1));
    }
    assert(i1 == i2);
}

/// The formulas of a filed sequence that belong in the bucket at index
/// `t`: those whose truth table is `t`, in filing order.
pub open spec fn bucket_share(filed: Seq<LogicNodeModel>, t: u32, n: u32) -> Seq<LogicNodeModel>
    decreases filed,
{
    if filed.len() == 0 {
        Seq::empty()
    } else {
        let rest = bucket_share(filed.subrange(0, filed.len() - 1), t, n);
        if table_of(filed.last(), n) == t {
            rest.push(filed.last())
        } else {
            rest
        }
    }
}

/// A bucket's share distributes over concatenation of filed sequences.
pub proof fn lemma_bucket_share_add(a: Seq<LogicNodeModel>, b: Seq<LogicNodeModel>, t: u32, n: u32)
    ensures
        bucket_share(a + b, t, n) == bucket_share(a, t, n) + bucket_share(b, t, n),
    decreases b,
{
    if b.len() == 0 {
        assert(a + b =~= a);
        assert(bucket_share(a, t, n) + bucket_share(b, t, n) =~= bucket_share(a, t, n));
    } else {
        let shorter = b.subrange(0, b.len() - 1);
        lemma_bucket_share_add(a, shorter, t, n);
        assert((a + b).subrange(0, (a + b).len() - 1) =~= a + shorter);
        assert((a + b).last() == b.last());
        if table_of(b.last(), n) == t {
            assert(bucket_share(a + b, t, n) =~= bucket_share(a, t, n) + bucket_share(b, t, n));
        } else {
            assert(bucket_share(a + b, t, n) =~= bucket_share(a, t, n) + bucket_share(b, t, n));
        }
    }
}


/// The share of a single filed formula: itself when its table is `t`,
/// nothing otherwise.
proof fn lemma_share_single(m: LogicNodeModel, t: u32, n: u32)
    ensures
        bucket_share(seq![m], t, n) == (if table_of(m, n) == t {
            seq![m]
        } else {
            Seq::<LogicNodeModel>::empty()
        }),
{
    let s = seq![m];
    assert(s.subrange(0, 0) =~= Seq::<LogicNodeModel>::empty());
    assert(bucket_share(Seq::<LogicNodeModel>::empty(), t, n) == Seq::<LogicNodeModel>::empty());
    assert(s.last() == m);
    if table_of(m, n) == t {
        assert(bucket_share(s, t, n) =~= seq![m]);
    } else {
        assert(bucket_share(s, t, n) =~= Seq::<LogicNodeModel>::empty());
    }
}

/// The share of two filed formulas splits into their single shares.
proof fn lemma_share_pair(m1: LogicNodeModel, m2: LogicNodeModel, t: u32, n: u32)
    ensures
        bucket_share(seq![m1, m2], t, n) == bucket_share(seq![m1], t, n) + bucket_share(
            seq![m2],
            t,
            n,
        ),
{
    assert(seq![m1] + seq![m2] =~= seq![m1, m2]);
    lemma_bucket_share_add(seq![m1], seq![m2], t, n);
}

/// Whether extending this clause subset with the candidate clause is
/// abandoned: the candidate is a unit opposite an earlier clause's first
/// literal, or a signed-literal superset of an earlier clause.
pub open spec fn branch_pruned(prefix: Seq<Seq<u32>>, candidate: Seq<u32>) -> bool {
    if candidate.len() == 1 {
        exists|i: int|
            0 <= i < prefix.len() && ((#[trigger] prefix[i])[0] ^ candidate[0]) == NEGATIVITY_FLAG
    } else {
        exists|i: int| 0 <= i < prefix.len() && clause_subsumes(#[trigger] prefix[i], candidate)
    }
}

/// The formulas filed when the walk extends `prefix` with the clause at
/// universe position `i`: nothing on a pruned branch; otherwise the bare
/// literal of a one-literal first clause, or the structural dual followed
/// by the disjunctive normal form once two clauses stand, and then
/// whatever the walk files from every later position.
pub open spec fn filed_by_branch(
    universe: Seq<Seq<u32>>,
    prefix: Seq<Seq<u32>>,
    i: int,
) -> Seq<LogicNodeModel>
    decreases universe.len() - i, 0int,
{
    if i < 0 || i >= universe.len() {
        Seq::empty()
    } else if branch_pruned(prefix, universe[i]) {
        Seq::empty()
    } else {
        let current = prefix.push(universe[i]);
        (if current.len() == 1 {
            if universe[i].len() == 1 {
                seq![clause_node(universe[i])]
            } else {
                Seq::empty()
            }
        } else {
            seq![dual_of(dnf_node(current)), dnf_node(current)]
        }) + filed_range(universe, current, i + 1, universe.len() as int)
    }
}

/// The formulas filed by the walks that start at each universe position in
/// `from..to`, in order, all under the same clause subset.
pub open spec fn filed_range(
    universe: Seq<Seq<u32>>,
    prefix: Seq<Seq<u32>>,
    from: int,
    to: int,
) -> Seq<LogicNodeModel>
    decreases universe.len() - from, 1int,
{
    if from >= to || from < 0 || from >= universe.len() {
        Seq::empty()
    } else {
        filed_by_branch(universe, prefix, from) + filed_range(universe, prefix, from + 1, to)
    }
}

/// Extending a range of walk starts by one more position appends that
/// position's filings.
pub proof fn lemma_filed_range_snoc(universe: Seq<Seq<u32>>, prefix: Seq<Seq<u32>>, from: int, to: int)
    requires
        0 <= from <= to < universe.len(),
    ensures
        filed_range(universe, prefix, from, to + 1) == filed_range(universe, prefix, from, to)
            + filed_by_branch(universe, prefix, to),
    decreases to - from,
{
    if from == to {
        assert(filed_range(universe, prefix, from, to) == Seq::<LogicNodeModel>::empty());
        assert(filed_range(universe, prefix, to + 1, to + 1) == Seq::<LogicNodeModel>::empty());
        assert(filed_range(universe, prefix, from, to + 1) =~= filed_range(universe, prefix, from, to)
            + filed_by_branch(universe, prefix, to));
    } else {
        lemma_filed_range_snoc(universe, prefix, from + 1, to);
        assert(filed_range(universe, prefix, from, to + 1) =~= filed_range(universe, prefix, from, to)
            + filed_by_branch(universe, prefix, to));
    }
}

/// The clause contents of a vector of clause vectors.
pub open spec fn clause_views(s: Seq<Vec<u32>>) -> Seq<Seq<u32>> {
    s.map_values(|c: Vec<u32>| c@)
}

/// A clause universe the generator can walk: well-formed clauses in order
/// of never-decreasing size, and few enough that operator counts stay
/// small.
pub open spec fn clause_universe_ok(cs: Seq<Seq<u32>>, n: u32) -> bool {
    &&& forall|i: int| 0 <= i < cs.len() ==> wf_clause(#[trigger] cs[i], n)
    &&& forall|i: int, j: int| 0 <= i < j < cs.len() ==> cs[i].len() <= cs[j].len()
    &&& cs.len() <= 1000000
}

/// Every formula of the bucket at index `t` has `t` as its truth table.
pub open spec fn bucket_filed(formulas: Seq<LogicNodeModel>, t: u32, n: u32) -> bool {
    forall|i: int|
        0 <= i < formulas.len() ==> is_truth_table_of(t, #[trigger] formulas[i], n) && wf_formula(
            #[trigger] formulas[i],
            n,
        )
}

/// Every formula of the bucket has one of the shapes the generator files.
pub open spec fn bucket_shapes(formulas: Seq<LogicNodeModel>, n: u32) -> bool {
    forall|i: int| 0 <= i < formulas.len() ==> generated_shape(#[trigger] formulas[i], n)
}

/// What holds of a full bucket collection over `n` booleans: one bucket per
/// truth table, each correctly filed, with a correct minimum, bounded
/// operator counts, and only generated shapes.
pub open spec fn buckets_ok(buckets: Seq<LogicFormulaBucket>, n: u32) -> bool {
    forall|t: int|
        0 <= t < buckets.len() ==> {
            let b = #[trigger] buckets[t];
            &&& bucket_min_ok(b.formulas(), b.minimum())
            &&& bucket_counts_ok(b.formulas())
            &&& bucket_filed(b.formulas(), t as u32, n)
            &&& bucket_shapes(b.formulas(), n)
        }
}

/// The second collection extends the first: same bucket count, and each
/// bucket keeps its formulas in order, only gaining new ones at the end.
pub open spec fn buckets_extend(b1: Seq<LogicFormulaBucket>, b2: Seq<LogicFormulaBucket>) -> bool {
    &&& b1.len() == b2.len()
    &&& forall|t: int|
        0 <= t < b1.len() ==> (#[trigger] b1[t]).formulas().is_prefix_of(b2[t].formulas())
}


proof fn lemma_buckets_extend_refl(b: Seq<LogicFormulaBucket>)
    ensures
        buckets_extend(b, b),
{
    assert forall|t: int| 0 <= t < b.len() implies (#[trigger] b[t]).formulas().is_prefix_of(
        b[t].formulas(),
    ) by {
        let f = b[t].formulas();
        assert(f =~= f.subrange(0, f.len() as int));
    }
}

proof fn lemma_buckets_extend_trans(
    b1: Seq<LogicFormulaBucket>,
    b2: Seq<LogicFormulaBucket>,
    b3: Seq<LogicFormulaBucket>,
)
    requires
        buckets_extend(b1, b2),
        buckets_extend(b2, b3),
    ensures
        buckets_extend(b1, b3),
{
    assert forall|t: int| 0 <= t < b1.len() implies (#[trigger] b1[t]).formulas().is_prefix_of(
        b3[t].formulas(),
    ) by {
        assert(b1[t].formulas().is_prefix_of(b2[t].formulas()));
        assert(b2[t].formulas().is_prefix_of(b3[t].formulas()));
        assert(b1[t].formulas() =~= b3[t].formulas().subrange(0, b1[t].formulas().len() as int));
    }
}

/// The operator count of a formula is unchanged by the structural dual.
pub proof fn lemma_count_dual(m: LogicNodeModel)
    ensures
        count_ops_model(dual_of(m)) == count_ops_model(m),
    decreases m,
{
    match m {
        LogicNodeModel::Conjunction(operands) => {
            lemma_count_dual_seq(operands);
        },
        LogicNodeModel::Disjunction(operands) => {
            lemma_count_dual_seq(operands);
        },
        _ => (),
    }
}

proof fn lemma_count_dual_seq(s: Seq<LogicNodeModel>)
    ensures
        count_ops_seq(dual_of_seq(s)) == count_ops_seq(s),
    decreases s,
{
    broadcast use lemma_dual_of_seq;

    if s.len() > 0 {
        let rest = s.subrange(0, s.len() - 1);
        lemma_count_dual_seq(rest);
        lemma_count_dual(s.last());
        assert(dual_of_seq(s).subrange(0, s.len() - 1) =~= dual_of_seq(rest));
        assert(dual_of_seq(s).last() == dual_of(s.last()));
    }
}

/// Literal nodes carry no binary operators.
proof fn lemma_count_lit_nodes(c: Seq<u32>)
    ensures
        count_ops_seq(lit_nodes(c)) == 0,
    decreases c,
{
    assert(lit_nodes(c).len() == c.len());
    if c.len() > 0 {
        let rest = c.subrange(0, c.len() - 1);
        lemma_count_lit_nodes(rest);
        assert(lit_nodes(c).subrange(0, lit_nodes(c).len() - 1) =~= lit_nodes(rest));
        assert(lit_nodes(c).last() == LogicNodeModel::Literal(c.last()));
        assert(count_ops_seq(lit_nodes(c)) == count_ops_seq(lit_nodes(rest)) + count_ops_model(
            lit_nodes(c).last(),
        ));
    }
}

/// A clause's formula holds at most one binary operator node.
proof fn lemma_count_clause_node(c: Seq<u32>)
    ensures
        count_ops_model(clause_node(c)) <= 1,
{
    lemma_count_lit_nodes(c);
}

/// The operator count of a sequence of formulas, each bounded by one.
proof fn lemma_count_seq_bounded(s: Seq<LogicNodeModel>)
    requires
        forall|i: int| 0 <= i < s.len() ==> count_ops_model(#[trigger] s[i]) <= 1,
    ensures
        count_ops_seq(s) <= s.len(),
    decreases s,
{
    if s.len() > 0 {
        let rest = s.subrange(0, s.len() - 1);
        lemma_count_seq_bounded(rest);
    }
}

/// The disjunctive normal form of a clause list holds at most one operator
/// node more than it has clauses.
proof fn lemma_count_dnf_node(cs: Seq<Seq<u32>>)
    ensures
        count_ops_model(dnf_node(cs)) <= cs.len() + 1,
{
    let ms = cs.map_values(|c: Seq<u32>| clause_node(c));
    assert forall|i: int| 0 <= i < ms.len() implies count_ops_model(#[trigger] ms[i]) <= 1 by {
        lemma_count_clause_node(cs[i]);
    }
    lemma_count_seq_bounded(ms);
}

/// A clause's formula is well-formed and free of constants.
proof fn lemma_clause_node_wf(c: Seq<u32>, n: u32)
    requires
        wf_clause(c, n),
    ensures
        wf_formula(clause_node(c), n),
        no_constants(clause_node(c)),
        wf_formula(dual_of(clause_node(c)), n),
{
    broadcast use lemma_dual_of_seq;

    if c.len() == 1 {
    } else {
        let lits = lit_nodes(c);
        assert forall|i: int| 0 <= i < lits.len() implies wf_formula(#[trigger] lits[i], n)
            && no_constants(#[trigger] lits[i]) by {
            assert(lits[i] == LogicNodeModel::Literal(c[i]));
        }
        assert forall|i: int| 0 <= i < lits.len() implies wf_formula(
            #[trigger] dual_of_seq(lits)[i],
            n,
        ) by {
            assert(dual_of_seq(lits)[i] == dual_of(lits[i]));
            assert(lits[i] == LogicNodeModel::Literal(c[i]));
        }
    }
}

/// The disjunctive normal form of an admissible clause list is well-formed
/// and free of constants, and so is its structural dual.
proof fn lemma_dnf_node_wf(cs: Seq<Seq<u32>>, n: u32)
    requires
        forall|i: int| 0 <= i < cs.len() ==> wf_clause(#[trigger] cs[i], n),
        cs.len() >= 1,
    ensures
        wf_formula(dnf_node(cs), n),
        no_constants(dnf_node(cs)),
        wf_formula(dual_of(dnf_node(cs)), n),
{
    broadcast use lemma_dual_of_seq;

    let ms = cs.map_values(|c: Seq<u32>| clause_node(c));
    assert forall|i: int| 0 <= i < ms.len() implies wf_formula(#[trigger] ms[i], n)
        && no_constants(#[trigger] ms[i]) by {
        lemma_clause_node_wf(cs[i], n);
    }
    assert forall|i: int| 0 <= i < ms.len() implies wf_formula(#[trigger] dual_of_seq(ms)[i], n)
        by {
        assert(dual_of_seq(ms)[i] == dual_of(ms[i]));
        lemma_clause_node_wf(cs[i], n);
    }
    assert(dual_of_seq(ms).len() == ms.len());
}

/// A copy of a clause, literal for literal.
fn copy_clause(clause: &Vec<u32>) -> (copy: Vec<u32>)
    ensures
        copy@ == clause@,
{
    let mut copy: Vec<u32> = Vec::with_capacity(clause.len());
    let literal_count = clause.len();
    for i in 0..literal_count
        invariant
            literal_count == clause@.len(),
            copy@.len() == i,
            forall|j: int| 0 <= j < i ==> copy@[j] == clause@[j],
        decreases literal_count - i,
    {
        copy.push(clause[i]);
    }
    proof {
        assert(copy@ =~= clause@);
    }
    copy
}

/// A copy of a clause list, clause for clause.
fn copy_clause_list(clauses: &Vec<Vec<u32>>) -> (copy: Vec<Vec<u32>>)
    ensures
        clause_views(copy@) == clause_views(clauses@),
        copy@.len() == clauses@.len(),
{
    let mut copy: Vec<Vec<u32>> = Vec::with_capacity(clauses.len());
    let clause_count = clauses.len();
    for i in 0..clause_count
        invariant
            clause_count == clauses@.len(),
            copy@.len() == i,
            forall|j: int| 0 <= j < i ==> copy@[j]@ == clauses@[j]@,
        decreases clause_count - i,
    {
        let clause = copy_clause(&clauses[i]);
        copy.push(clause);
    }
    proof {
        assert(clause_views(copy@) =~= clause_views(clauses@));
    }
    copy
}

impl NormalFormulaGenerator {
    /// The boolean count this generator enumerates over.
    pub closed spec fn num_booleans(&self) -> u32 {
        self.tt_computer.spec_num_booleans()
    }

    /// The bucket collection as it stands.
    pub closed spec fn buckets(&self) -> Seq<LogicFormulaBucket> {
        self.formula_buckets@
    }

    /// The clause universe the generator walks.
    pub closed spec fn universe(&self) -> Seq<Seq<u32>> {
        clause_views(self.literal_configurations@)
    }

    /// A usable generator: a well-formed truth table computer, one bucket
    /// per truth table with all bucket invariants, and a well-formed clause
    /// universe.
    pub closed spec fn wf(&self) -> bool {
        &&& self.tt_computer.wf()
        &&& self.formula_buckets@.len() == pow2(pow2(self.num_booleans() as nat))
        &&& buckets_ok(self.formula_buckets@, self.num_booleans())
        &&& clause_universe_ok(self.universe(), self.num_booleans())
    }

    fn new(
        formula_buckets: Vec<LogicFormulaBucket>,
        literal_configurations: Vec<Vec<u32>>,
        n: u32,
    ) -> (generator: NormalFormulaGenerator)
        requires
            1 <= n <= 5,
            formula_buckets@.len() == pow2(pow2(n as nat)),
            buckets_ok(formula_buckets@, n),
            clause_universe_ok(clause_views(literal_configurations@), n),
        ensures
            generator.wf(),
            generator.num_booleans() == n,
            generator.buckets() == formula_buckets@,
            generator.universe() == clause_views(literal_configurations@),
    {
        let tt_computer = TruthTableSize5Computer::new(n);
        NormalFormulaGenerator { formula_buckets, literal_configurations, tt_computer }
    }

    // Files a formula into the bucket of its truth table.
    fn add_formula_to_buckets(&mut self, formula: SimpleLogicNode)
        requires
            old(self).wf(),
            wf_formula(formula@, old(self).num_booleans()),
            generated_shape(formula@, old(self).num_booleans()),
            count_ops_model(formula@) <= u32::MAX,
        ensures
            final(self).wf(),
            final(self).num_booleans() == old(self).num_booleans(),
            final(self).universe() == old(self).universe(),
            buckets_extend(old(self).buckets(), final(self).buckets()),
            ({
                let tt = table_of(formula@, old(self).num_booleans()) as int;
                &&& 0 <= tt < old(self).buckets().len()
                &&& final(self).buckets()[tt].formulas() == old(self).buckets()[tt].formulas().push(
                    formula@,
                )
                &&& final(self).buckets()[tt].minimum() == updated_minimum(
                    old(self).buckets()[tt].minimum(),
                    formula@,
                )
                &&& forall|t: int|
                    0 <= t < old(self).buckets().len() && t != tt
                        ==> final(self).buckets()[t] == old(self).buckets()[t]
            }),
    {
        let ghost n = self.num_booleans();
        let truth_table = self.tt_computer.compute_truth_table(&formula);
        proof {
            self.tt_computer.lemma_wf_bounds();
            lemma_confined_value(truth_table, num_rows(n));
            lemma_two_to_two_to_n_value(n);
            if n < 5 {
                assert((1u32 << n) < 32) by (bit_vector)
                    requires
                        n < 5,
                ;
                assert(num_rows(n) == 1u32 << n);
                assert((truth_table as u64) < (1u64 << (1u32 << n)));
            } else {
                assert((1u64 << (1u32 << 5u32)) == 0x1_0000_0000u64) by (bit_vector);
            }
            assert((truth_table as u64) < pow2(pow2(n as nat)));
            lemma_table_of(truth_table, formula@, n);
        }
        let ghost old_buckets = self.formula_buckets@;
        let index = truth_table as usize;
        let mut formula_bucket = self.formula_buckets.remove(index);
        formula_bucket.add_formula(formula);
        self.formula_buckets.insert(index, formula_bucket);
        proof {
            assert(self.formula_buckets@ =~= old_buckets.update(
                index as int,
                self.formula_buckets@[index as int],
            ));
            let updated = self.formula_buckets@[index as int];
            assert(updated.formulas() == old_buckets[index as int].formulas().push(formula@));
            assert(old_buckets[index as int].formulas().is_prefix_of(updated.formulas())) by {
                let of = old_buckets[index as int].formulas();
                assert(of =~= of.push(formula@).subrange(0, of.len() as int));
            }
            assert forall|t: int| 0 <= t < self.formula_buckets@.len() implies {
                let b = #[trigger] self.formula_buckets@[t];
                &&& bucket_min_ok(b.formulas(), b.minimum())
                &&& bucket_counts_ok(b.formulas())
                &&& bucket_filed(b.formulas(), t as u32, n)
                &&& bucket_shapes(b.formulas(), n)
            } by {
                if t == index {
                    let of = old_buckets[t].formulas();
                    assert(bucket_filed(of, t as u32, n));
                    assert(is_truth_table_of(truth_table, formula@, n));
                    assert(updated.formulas() == of.push(formula@));
                } else {
                    assert(self.formula_buckets@[t] == old_buckets[t]);
                }
            }
            assert forall|t: int| 0 <= t < old_buckets.len() implies (
            #[trigger] old_buckets[t]).formulas().is_prefix_of(
                self.formula_buckets@[t].formulas(),
            ) by {
                if t != index {
                    let of = old_buckets[t].formulas();
                    assert(self.formula_buckets@[t] == old_buckets[t]);
                    assert(of =~= of.subrange(0, of.len() as int));
                }
            }
        }
    }
}


impl NormalFormulaGenerator {
    // Walks every admissible clause subset of the universe, filing each
    // generated formula into its truth table's bucket.
    fn generate_all_normal_formulas(&mut self)
        requires
            old(self).wf(),
        ensures
            final(self).wf(),
            final(self).num_booleans() == old(self).num_booleans(),
            final(self).universe() == old(self).universe(),
            buckets_extend(old(self).buckets(), final(self).buckets()),
            forall|t: int|
                0 <= t < old(self).buckets().len()
                    ==> (#[trigger] final(self).buckets()[t]).formulas()
                    == old(self).buckets()[t].formulas() + bucket_share(
                    filed_range(
                        old(self).universe(),
                        Seq::empty(),
                        0,
                        old(self).universe().len() as int,
                    ),
                    t as u32,
                    old(self).num_booleans(),
                ),
    {
        let ghost n = self.num_booleans();
        let ghost universe = self.universe();
        let num_literal_configurations = self.literal_configurations.len();
        proof {
            assert(num_literal_configurations == universe.len());
            assert(filed_range(universe, Seq::empty(), 0, 0) == Seq::<LogicNodeModel>::empty());
        }
        let mut i: usize = 0;
        while i < num_literal_configurations
            invariant
                self.wf(),
                num_literal_configurations == self.literal_configurations@.len(),
                num_literal_configurations == universe.len(),
                n == old(self).num_booleans(),
                universe == old(self).universe(),
                self.num_booleans() == n,
                self.universe() == universe,
                buckets_extend(old(self).buckets(), self.buckets()),
                i <= num_literal_configurations,
                forall|t: int|
                    0 <= t < old(self).buckets().len() ==> (#[trigger] self.buckets()[t]).formulas()
                        == old(self).buckets()[t].formulas() + bucket_share(
                        filed_range(universe, Seq::empty(), 0, i as int),
                        t as u32,
                        n,
                    ),
            decreases num_literal_configurations - i,
        {
            let ghost before = self.buckets();
            let mut prefix_clauses: Vec<Vec<u32>> = Vec::new();
            proof {
                assert(clause_views(prefix_clauses@) =~= Seq::<Seq<u32>>::empty());
            }
            self.generate_all_normal_formulas_with_prefix(&mut prefix_clauses, i);
            proof {
                lemma_buckets_extend_trans(old(self).buckets(), before, self.buckets());
                let fb = filed_by_branch(universe, Seq::empty(), i as int);
                let done = filed_range(universe, Seq::empty(), 0, i as int);
                lemma_filed_range_snoc(universe, Seq::empty(), 0, i as int);
                assert(done + fb =~= filed_range(universe, Seq::empty(), 0, i + 1));
                assert forall|t: int| 0 <= t < old(self).buckets().len() implies (
                #[trigger] self.buckets()[t]).formulas() == old(self).buckets()[t].formulas()
                    + bucket_share(filed_range(universe, Seq::empty(), 0, i + 1), t as u32, n) by {
                    lemma_bucket_share_add(done, fb, t as u32, n);
                    assert(self.buckets()[t].formulas() == before[t].formulas() + bucket_share(
                        fb,
                        t as u32,
                        n,
                    ));
                    assert(self.buckets()[t].formulas() =~= old(self).buckets()[t].formulas() + (
                    bucket_share(done, t as u32, n) + bucket_share(fb, t as u32, n)));
                }
            }
            i = i + 1;
        }
    }

    // Extends the current clause subset with the clause at the given
    // universe position, files the formulas it yields, and recurses over
    // every later position. A unit clause contradicting an earlier unit,
    // or a clause subsumed by an earlier clause, abandons the whole branch.
    #[verifier::rlimit(100)]
    fn generate_all_normal_formulas_with_prefix(
        &mut self,
        prefix_clauses: &mut Vec<Vec<u32>>,
        clause_to_add_index: usize,
    )
        requires
            old(self).wf(),
            clause_to_add_index < old(self).universe().len(),
            admissible_clause_list(clause_views(old(prefix_clauses)@), old(self).num_booleans()),
            forall|i: int|
                0 <= i < old(prefix_clauses)@.len() ==> (#[trigger] old(
                    prefix_clauses,
                )@[i])@.len() <= old(self).universe()[clause_to_add_index as int].len(),
            old(prefix_clauses)@.len() <= clause_to_add_index,
        ensures
            final(self).wf(),
            final(self).num_booleans() == old(self).num_booleans(),
            final(self).universe() == old(self).universe(),
            buckets_extend(old(self).buckets(), final(self).buckets()),
            final(prefix_clauses)@ == old(prefix_clauses)@,
            branch_pruned(
                clause_views(old(prefix_clauses)@),
                old(self).universe()[clause_to_add_index as int],
            ) ==> final(self).buckets() == old(self).buckets(),
            forall|t: int|
                0 <= t < old(self).buckets().len()
                    ==> (#[trigger] final(self).buckets()[t]).formulas()
                    == old(self).buckets()[t].formulas() + bucket_share(
                    filed_by_branch(
                        old(self).universe(),
                        clause_views(old(prefix_clauses)@),
                        clause_to_add_index as int,
                    ),
                    t as u32,
                    old(self).num_booleans(),
                ),
        decreases old(self).universe().len() - clause_to_add_index,
    {
        let ghost n = self.num_booleans();
        let ghost universe = self.universe();
        let ghost prefix_views = clause_views(prefix_clauses@);
        proof {
            self.tt_computer.lemma_wf_bounds();
            assert(universe[clause_to_add_index as int]
                == self.literal_configurations@[clause_to_add_index as int]@);
        }
        let new_clause = copy_clause(&self.literal_configurations[clause_to_add_index]);
        let ghost new_view = new_clause@;
        proof {
            assert(new_view == universe[clause_to_add_index as int]);
            assert(wf_clause(new_view, n));
        }
        let mut current_clauses = copy_clause_list(prefix_clauses);

        // Check for unit clauses that are the opposite of an earlier unit.
        // The universe is ordered by size, so when the new clause is a
        // unit, every earlier clause is one too.
        if new_clause.len() == 1 {
            let clause_count = current_clauses.len();
            let mut ci: usize = 0;
            while ci < clause_count
                invariant
                    self == old(self),
                    old(self).wf(),
                    clause_count == current_clauses@.len(),
                    clause_views(current_clauses@) == prefix_views,
                    admissible_clause_list(prefix_views, n),
                    universe == old(self).universe(),
                    n == old(self).num_booleans(),
                    prefix_clauses@ == old(prefix_clauses)@,
                    prefix_views == clause_views(old(prefix_clauses)@),
                    new_view == universe[clause_to_add_index as int],
                    clause_to_add_index < universe.len(),
                    new_view.len() == 1,
                    new_clause@ == new_view,
                    0 <= ci <= clause_count,
                    forall|i: int|
                        0 <= i < ci ==> (#[trigger] prefix_views[i])[0] ^ new_view[0]
                            != NEGATIVITY_FLAG,
                decreases clause_count - ci,
            {
                proof {
                    assert(prefix_views[ci as int] == current_clauses@[ci as int]@);
                    assert(wf_clause(prefix_views[ci as int], n));
                }
                // A unit that is the opposite of an earlier clause makes
                // only tautologies and contradictions: abandon the branch.
                if current_clauses[ci][0] ^ new_clause[0] == NEGATIVITY_FLAG {
                    proof {
                        lemma_buckets_extend_refl(self.buckets());
                        assert(branch_pruned(prefix_views, new_view)) by {
                            assert((prefix_views[ci as int][0] ^ new_view[0]) == NEGATIVITY_FLAG);
                        }
                        assert(filed_by_branch(universe, prefix_views, clause_to_add_index as int)
                            == Seq::<LogicNodeModel>::empty());
                        assert forall|t: int| 0 <= t < self.buckets().len() implies (
                        #[trigger] self.buckets()[t]).formulas() == self.buckets()[t].formulas()
                            + bucket_share(
                            filed_by_branch(universe, prefix_views, clause_to_add_index as int),
                            t as u32,
                            n,
                        ) by {
                            assert(self.buckets()[t].formulas() =~= self.buckets()[t].formulas()
                                + bucket_share(Seq::<LogicNodeModel>::empty(), t as u32, n));
                        }
                    }
                    return ;
                }
                ci = ci + 1;
            }
            proof {
                assert(!branch_pruned(prefix_views, new_view));
            }
        } else {
            // Check whether the new clause is subsumed by an earlier one.
            let clause_count = current_clauses.len();
            let mut ci: usize = 0;
            while ci < clause_count
                invariant
                    self == old(self),
                    old(self).wf(),
                    clause_count == current_clauses@.len(),
                    clause_views(current_clauses@) == prefix_views,
                    admissible_clause_list(prefix_views, n),
                    universe == old(self).universe(),
                    n == old(self).num_booleans(),
                    prefix_clauses@ == old(prefix_clauses)@,
                    prefix_views == clause_views(old(prefix_clauses)@),
                    new_view == universe[clause_to_add_index as int],
                    clause_to_add_index < universe.len(),
                    wf_clause(new_view, n),
                    new_view.len() != 1,
                    new_clause@ == new_view,
                    0 <= ci <= clause_count,
                    forall|i: int| 0 <= i < ci ==> !clause_subsumes(#[trigger] prefix_views[i], new_view),
                decreases clause_count - ci,
            {
                proof {
                    assert(prefix_views[ci as int] == current_clauses@[ci as int]@);
                    assert(wf_clause(prefix_views[ci as int], n));
                }
                // A subsumed clause makes only redundant formulas: abandon
                // the branch.
                if NormalFormulaGenerator::is_subarray_of(&current_clauses[ci], &new_clause) {
                    proof {
                        lemma_buckets_extend_refl(self.buckets());
                        assert(branch_pruned(prefix_views, new_view)) by {
                            assert(clause_subsumes(prefix_views[ci as int], new_view));
                        }
                        assert(filed_by_branch(universe, prefix_views, clause_to_add_index as int)
                            == Seq::<LogicNodeModel>::empty());
                        assert forall|t: int| 0 <= t < self.buckets().len() implies (
                        #[trigger] self.buckets()[t]).formulas() == self.buckets()[t].formulas()
                            + bucket_share(
                            filed_by_branch(universe, prefix_views, clause_to_add_index as int),
                            t as u32,
                            n,
                        ) by {
                            assert(self.buckets()[t].formulas() =~= self.buckets()[t].formulas()
                                + bucket_share(Seq::<LogicNodeModel>::empty(), t as u32, n));
                        }
                    }
                    return ;
                }
                ci = ci + 1;
            }
            proof {
                assert(!branch_pruned(prefix_views, new_view));
            }
        }

        // Add the clause to the subset.
        current_clauses.push(new_clause);
        let ghost current_views = clause_views(current_clauses@);
        proof {
            assert(current_views =~= prefix_views.push(new_view));
            assert forall|i: int, j: int| 0 <= i < j < current_views.len() implies {
                &&& current_views[i].len() <= current_views[j].len()
                &&& (current_views[j].len() == 1 ==> (current_views[i][0] ^ current_views[j][0])
                    != NEGATIVITY_FLAG)
                &&& !clause_subsumes(current_views[i], current_views[j])
            } by {
                if j < current_views.len() - 1 {
                    assert(current_views[i] == prefix_views[i]);
                    assert(current_views[j] == prefix_views[j]);
                } else {
                    assert(current_views[i] == prefix_views[i]);
                    assert(current_views[j] == new_view);
                    if new_view.len() != 1 {
                        assert(!clause_subsumes(prefix_views[i], new_view));
                    } else {
                        assert(!clause_subsumes(prefix_views[i], new_view));
                    }
                }
            }
            assert(admissible_clause_list(current_views, n));
        }
        let ghost own_seq: Seq<LogicNodeModel> = if current_views.len() == 1 {
            if new_view.len() == 1 {
                seq![clause_node(new_view)]
            } else {
                Seq::<LogicNodeModel>::empty()
            }
        } else {
            seq![dual_of(dnf_node(current_views)), dnf_node(current_views)]
        };

        // Turn all the clauses into conjunctions.
        let clause_total = current_clauses.len();
        let mut current_conjunctions: Vec<SimpleLogicNode> = Vec::with_capacity(clause_total);
        let mut k: usize = 0;
        while k < clause_total
            invariant
                clause_total == current_clauses@.len(),
                current_views == clause_views(current_clauses@),
                admissible_clause_list(current_views, n),
                0 <= k <= clause_total,
                current_conjunctions@.len() == k,
                forall|j: int|
                    0 <= j < k ==> (#[trigger] current_conjunctions@[j])@ == clause_node(
                        current_views[j],
                    ),
            decreases clause_total - k,
        {
            proof {
                assert(current_views[k as int] == current_clauses@[k as int]@);
                assert(wf_clause(current_views[k as int], n));
            }
            let clause_len = current_clauses[k].len();
            let mut clause_literals_vec: Vec<SimpleLogicNode> = Vec::with_capacity(clause_len);
            let mut li: usize = 0;
            while li < clause_len
                invariant
                    clause_len == current_clauses@[k as int]@.len(),
                    k < current_clauses@.len(),
                    0 <= li <= clause_len,
                    clause_literals_vec@.len() == li,
                    forall|j: int|
                        0 <= j < li ==> (#[trigger] clause_literals_vec@[j])
                            == SimpleLogicNode::Literal(current_clauses@[k as int]@[j]),
                decreases clause_len - li,
            {
                clause_literals_vec.push(SimpleLogicNode::Literal(current_clauses[k][li]));
                li = li + 1;
            }
            proof {
                lemma_views_of_nodes(clause_literals_vec@);
                assert(views_of_nodes(clause_literals_vec@) =~= lit_nodes(
                    current_views[k as int],
                ));
            }
            // A single literal is not wrapped in a conjunction.
            if clause_literals_vec.len() == 1 {
                let only = clause_literals_vec[0].duplicate();
                current_conjunctions.push(only);
            } else {
                current_conjunctions.push(SimpleLogicNode::Conjunction(clause_literals_vec));
            }
            k = k + 1;
        }

        // A single clause is registered only when it is a bare literal:
        // larger single-clause conjunctions surface again as the dual of a
        // later multi-clause disjunction.
        if current_conjunctions.len() == 1 {
            let single_conjunction = match current_conjunctions.pop() {
                Option::Some(formula) => formula,
                Option::None => vstd::pervasive::unreached(),
            };
            proof {
                assert(single_conjunction@ == clause_node(current_views[0]));
                assert(wf_clause(current_views[0], n));
            }
            if let SimpleLogicNode::Literal(_) = &single_conjunction {
                proof {
                    let c = current_views[0];
                    assert(single_conjunction@ == clause_node(c));
                    assert(c.len() == 1);
                    assert(1 <= lit_index(c[0]) <= n);
                }
                let ghost filed_literal = single_conjunction@;
                self.add_formula_to_buckets(single_conjunction);
                proof {
                    lemma_two_to_two_to_n_value(n);
                    assert(old(self).buckets().len() <= 0x1_0000_0000);
                    assert(current_views[0] == new_view);
                    assert(own_seq == seq![filed_literal]);
                    assert forall|t: int| 0 <= t < old(self).buckets().len() implies (
                    #[trigger] self.buckets()[t]).formulas()
                        == old(self).buckets()[t].formulas() + bucket_share(
                        own_seq,
                        t as u32,
                        n,
                    ) by {
                        lemma_share_single(filed_literal, t as u32, n);
                        if t == table_of(filed_literal, n) as int {
                            assert(self.buckets()[t].formulas() =~= old(
                                self,
                            ).buckets()[t].formulas() + seq![filed_literal]);
                        } else {
                            assert(self.buckets()[t] == old(self).buckets()[t]);
                            assert(self.buckets()[t].formulas() =~= old(
                                self,
                            ).buckets()[t].formulas() + Seq::<LogicNodeModel>::empty());
                        }
                    }
                }
            } else {
                proof {
                    assert(current_views[0] == new_view);
                    assert(clause_node(new_view) is Literal <==> new_view.len() == 1);
                    assert(new_view.len() != 1);
                    assert(own_seq == Seq::<LogicNodeModel>::empty());
                    assert forall|t: int| 0 <= t < old(self).buckets().len() implies (
                    #[trigger] self.buckets()[t]).formulas()
                        == old(self).buckets()[t].formulas() + bucket_share(
                        own_seq,
                        t as u32,
                        n,
                    ) by {
                        assert(self.buckets()[t].formulas() =~= old(self).buckets()[t].formulas()
                            + Seq::<LogicNodeModel>::empty());
                    }
                }
            }
        } else {
            // Create the disjunction and its structural dual, and file
            // both.
            proof {
                lemma_views_of_nodes(current_conjunctions@);
            }
            let dnf_formula = SimpleLogicNode::Disjunction(current_conjunctions);
            proof {
                assert(views_of_nodes(dnf_formula->Disjunction_0@) =~= current_views.map_values(
                    |c: Seq<u32>| clause_node(c),
                ));
                assert(dnf_formula@ == dnf_node(current_views));
                lemma_dnf_node_wf(current_views, n);
                lemma_count_dnf_node(current_views);
                lemma_count_dual(dnf_node(current_views));
                assert(generated_shape(dnf_node(current_views), n));
                assert(generated_shape(dual_of(dnf_node(current_views)), n));
            }
            let cnf_formula = NormalFormulaGenerator::generate_cnf_from_dnf(&dnf_formula);
            let ghost mid_buckets = self.buckets();
            let ghost dual_model = cnf_formula@;
            self.add_formula_to_buckets(cnf_formula);
            proof {
                lemma_buckets_extend_trans(old(self).buckets(), mid_buckets, self.buckets());
            }
            let ghost mid2 = self.buckets();
            let ghost dnf_model = dnf_formula@;
            self.add_formula_to_buckets(dnf_formula);
            proof {
                lemma_buckets_extend_trans(old(self).buckets(), mid2, self.buckets());
                lemma_two_to_two_to_n_value(n);
                assert(old(self).buckets().len() <= 0x1_0000_0000);
                assert(mid_buckets == old(self).buckets());
                assert(own_seq == seq![dual_model, dnf_model]);
                assert forall|t: int| 0 <= t < old(self).buckets().len() implies (
                #[trigger] self.buckets()[t]).formulas() == old(self).buckets()[t].formulas()
                    + bucket_share(own_seq, t as u32, n) by {
                    lemma_share_pair(dual_model, dnf_model, t as u32, n);
                    lemma_share_single(dual_model, t as u32, n);
                    lemma_share_single(dnf_model, t as u32, n);
                    let first = (if table_of(dual_model, n) == t as u32 {
                        seq![dual_model]
                    } else {
                        Seq::<LogicNodeModel>::empty()
                    });
                    let second = (if table_of(dnf_model, n) == t as u32 {
                        seq![dnf_model]
                    } else {
                        Seq::<LogicNodeModel>::empty()
                    });
                    if t != table_of(dual_model, n) as int {
                        assert(mid2[t] == old(self).buckets()[t]);
                    }
                    if t != table_of(dnf_model, n) as int {
                        assert(self.buckets()[t] == mid2[t]);
                    }
                    assert(mid2[t].formulas() =~= old(self).buckets()[t].formulas() + first);
                    assert(self.buckets()[t].formulas() =~= mid2[t].formulas() + second);
                    assert(self.buckets()[t].formulas() =~= old(self).buckets()[t].formulas() + (
                    first + second));
                }
            }
        }

        // Add subsequent clauses.
        proof {
            assert(filed_range(
                universe,
                current_views,
                clause_to_add_index + 1,
                clause_to_add_index + 1,
            ) == Seq::<LogicNodeModel>::empty());
            assert(own_seq + filed_range(
                universe,
                current_views,
                clause_to_add_index + 1,
                clause_to_add_index + 1,
            ) =~= own_seq);
        }
        let num_literal_configurations = self.literal_configurations.len();
        let mut next: usize = clause_to_add_index + 1;
        while next < num_literal_configurations
            invariant
                self.wf(),
                num_literal_configurations == self.literal_configurations@.len(),
                self.num_booleans() == n,
                self.universe() == universe,
                n == old(self).num_booleans(),
                universe == old(self).universe(),
                buckets_extend(old(self).buckets(), self.buckets()),
                clause_to_add_index < next,
                next <= num_literal_configurations,
                clause_to_add_index < universe.len(),
                current_views == clause_views(current_clauses@),
                admissible_clause_list(current_views, n),
                current_clauses@.len() <= clause_to_add_index + 1,
                forall|i: int|
                    0 <= i < current_views.len() ==> (#[trigger] current_views[i]).len()
                        <= universe[clause_to_add_index as int].len(),
                forall|t: int|
                    0 <= t < old(self).buckets().len() ==> (#[trigger] self.buckets()[t]).formulas()
                        == old(self).buckets()[t].formulas() + bucket_share(
                        own_seq + filed_range(
                            universe,
                            current_views,
                            clause_to_add_index + 1,
                            next as int,
                        ),
                        t as u32,
                        n,
                    ),
            decreases num_literal_configurations - next,
        {
            proof {
                assert(universe[clause_to_add_index as int].len()
                    <= universe[next as int].len());
                assert forall|i: int| 0 <= i < current_clauses@.len() implies (
                #[trigger] current_clauses@[i])@.len() <= universe[next as int].len() by {
                    assert(current_views[i] == current_clauses@[i]@);
                    assert(current_views[i].len() <= universe[clause_to_add_index as int].len());
                }
            }
            let ghost before = self.buckets();
            self.generate_all_normal_formulas_with_prefix(&mut current_clauses, next);
            proof {
                lemma_buckets_extend_trans(old(self).buckets(), before, self.buckets());
                let fb = filed_by_branch(universe, current_views, next as int);
                let done = own_seq + filed_range(
                    universe,
                    current_views,
                    clause_to_add_index + 1,
                    next as int,
                );
                lemma_filed_range_snoc(
                    universe,
                    current_views,
                    clause_to_add_index + 1,
                    next as int,
                );
                assert(done + fb =~= own_seq + filed_range(
                    universe,
                    current_views,
                    clause_to_add_index + 1,
                    next + 1,
                ));
                assert forall|t: int| 0 <= t < old(self).buckets().len() implies (
                #[trigger] self.buckets()[t]).formulas() == old(self).buckets()[t].formulas()
                    + bucket_share(
                    own_seq + filed_range(
                        universe,
                        current_views,
                        clause_to_add_index + 1,
                        next + 1,
                    ),
                    t as u32,
                    n,
                ) by {
                    lemma_bucket_share_add(done, fb, t as u32, n);
                    assert(self.buckets()[t].formulas() == before[t].formulas() + bucket_share(
                        fb,
                        t as u32,
                        n,
                    ));
                    assert(self.buckets()[t].formulas() =~= old(self).buckets()[t].formulas() + (
                    bucket_share(done, t as u32, n) + bucket_share(fb, t as u32, n)));
                }
            }
            next = next + 1;
        }
        proof {
            assert(num_literal_configurations == universe.len());
            assert(filed_by_branch(universe, prefix_views, clause_to_add_index as int) == own_seq
                + filed_range(
                universe,
                current_views,
                clause_to_add_index + 1,
                universe.len() as int,
            )) by {
                assert(!branch_pruned(prefix_views, universe[clause_to_add_index as int]));
                assert(prefix_views.push(universe[clause_to_add_index as int]) == current_views);
            }
            assert forall|t: int| 0 <= t < old(self).buckets().len() implies (
            #[trigger] self.buckets()[t]).formulas() == old(self).buckets()[t].formulas()
                + bucket_share(
                filed_by_branch(universe, prefix_views, clause_to_add_index as int),
                t as u32,
                n,
            ) by {
                assert(self.buckets()[t].formulas() == old(self).buckets()[t].formulas()
                    + bucket_share(
                    own_seq + filed_range(
                        universe,
                        current_views,
                        clause_to_add_index + 1,
                        num_literal_configurations as int,
                    ),
                    t as u32,
                    n,
                ));
            }
        }
    }
}



/// One sign assignment over a vector of boolean indexes: bit i of the
/// configuration counter decides the sign of the literal built from index
/// i, with a clear bit meaning negative.
pub open spec fn sign_assignment(indexes: Seq<u32>, configuration: usize) -> Seq<u32> {
    Seq::new(
        indexes.len(),
        |i: int|
            if (configuration >> (i as usize)) & 1 == 1 {
                indexes[i]
            } else {
                indexes[i] | NEGATIVITY_FLAG
            },
    )
}

/// Every sign assignment over the indexes, in counter order from 0 to
/// 2^k - 1.
pub open spec fn sign_assignments(indexes: Seq<u32>) -> Seq<Seq<u32>>
    recommends
        indexes.len() <= 5,
{
    Seq::new(
        (1usize << (indexes.len() as usize)) as nat,
        |configuration: int| sign_assignment(indexes, configuration as usize),
    )
}

/// The single-literal clauses over booleans `i..=n`: a positive and a
/// negative literal for each.
pub open spec fn single_clauses(n: u32, i: u32) -> Seq<Seq<u32>>
    decreases n + 1 - i,
{
    if i > n || n > 5 {
        Seq::empty()
    } else {
        seq![seq![i], seq![i | NEGATIVITY_FLAG]] + single_clauses(n, (i + 1) as u32)
    }
}

/// The two-literal clauses over the fixed first index `i` and second
/// indexes `j..=n`, each under its four sign combinations.
pub open spec fn pair_cells(n: u32, i: u32, j: u32) -> Seq<Seq<u32>>
    decreases n + 1 - j,
{
    if j > n || n > 5 {
        Seq::empty()
    } else {
        seq![
            seq![i, j],
            seq![i | NEGATIVITY_FLAG, j],
            seq![i, j | NEGATIVITY_FLAG],
            seq![i | NEGATIVITY_FLAG, j | NEGATIVITY_FLAG],
        ] + pair_cells(n, i, (j + 1) as u32)
    }
}

/// The two-literal clauses whose first index runs over `i..=n`.
pub open spec fn pair_rows(n: u32, i: u32) -> Seq<Seq<u32>>
    decreases n + 1 - i,
{
    if i > n || n > 5 {
        Seq::empty()
    } else {
        pair_cells(n, i, (i + 1) as u32) + pair_rows(n, (i + 1) as u32)
    }
}

/// The three-literal clauses over fixed `i < j` and third indexes `k..=n`.
pub open spec fn triple_cells(n: u32, i: u32, j: u32, k: u32) -> Seq<Seq<u32>>
    decreases n + 1 - k,
{
    if k > n || n > 5 {
        Seq::empty()
    } else {
        sign_assignments(seq![i, j, k]) + triple_cells(n, i, j, (k + 1) as u32)
    }
}

/// The three-literal clauses over fixed `i` and second indexes `j..=n`.
pub open spec fn triple_cols(n: u32, i: u32, j: u32) -> Seq<Seq<u32>>
    decreases n + 1 - j,
{
    if j > n || n > 5 {
        Seq::empty()
    } else {
        triple_cells(n, i, j, (j + 1) as u32) + triple_cols(n, i, (j + 1) as u32)
    }
}

/// The three-literal clauses whose first index runs over `i..=n`.
pub open spec fn triple_rows(n: u32, i: u32) -> Seq<Seq<u32>>
    decreases n + 1 - i,
{
    if i > n || n > 5 {
        Seq::empty()
    } else {
        triple_cols(n, i, (i + 1) as u32) + triple_rows(n, (i + 1) as u32)
    }
}

/// The four-literal clauses over fixed `i < j < k` and fourth indexes
/// `l..=n`.
pub open spec fn quad_cells(n: u32, i: u32, j: u32, k: u32, l: u32) -> Seq<Seq<u32>>
    decreases n + 1 - l,
{
    if l > n || n > 5 {
        Seq::empty()
    } else {
        sign_assignments(seq![i, j, k, l]) + quad_cells(n, i, j, k, (l + 1) as u32)
    }
}

/// The four-literal clauses over fixed `i < j` and third indexes `k..=n`.
pub open spec fn quad_cols(n: u32, i: u32, j: u32, k: u32) -> Seq<Seq<u32>>
    decreases n + 1 - k,
{
    if k > n || n > 5 {
        Seq::empty()
    } else {
        quad_cells(n, i, j, k, (k + 1) as u32) + quad_cols(n, i, j, (k + 1) as u32)
    }
}

/// The four-literal clauses over fixed `i` and second indexes `j..=n`.
pub open spec fn quad_planes(n: u32, i: u32, j: u32) -> Seq<Seq<u32>>
    decreases n + 1 - j,
{
    if j > n || n > 5 {
        Seq::empty()
    } else {
        quad_cols(n, i, j, (j + 1) as u32) + quad_planes(n, i, (j + 1) as u32)
    }
}

/// The four-literal clauses whose first index runs over `i..=n`.
pub open spec fn quad_rows(n: u32, i: u32) -> Seq<Seq<u32>>
    decreases n + 1 - i,
{
    if i > n || n > 5 {
        Seq::empty()
    } else {
        quad_planes(n, i, (i + 1) as u32) + quad_rows(n, (i + 1) as u32)
    }
}

/// The whole clause universe the generator walks for `n` booleans: single
/// literals, then pairs, triples, quadruples and quintuples, each block in
/// index order and each chosen index set under every sign assignment.
pub open spec fn clause_universe_contents(n: u32) -> Seq<Seq<u32>> {
    single_clauses(n, 1) + (if n >= 2 {
        pair_rows(n, 1)
    } else {
        Seq::empty()
    }) + (if n >= 3 {
        triple_rows(n, 1)
    } else {
        Seq::empty()
    }) + (if n >= 4 {
        quad_rows(n, 1)
    } else {
        Seq::empty()
    }) + (if n >= 5 {
        sign_assignments(seq![1u32, 2u32, 3u32, 4u32, 5u32])
    } else {
        Seq::<Seq<u32>>::empty()
    })
}

/// Every formula the enumeration files for `n` booleans, in filing order.
pub open spec fn generated_formulas(n: u32) -> Seq<LogicNodeModel> {
    filed_range(
        clause_universe_contents(n),
        Seq::empty(),
        0,
        clause_universe_contents(n).len() as int,
    )
}

/// The formulas seeded into the bucket at index `t` before the
/// enumeration: the constant False in bucket 0, the constant True in the
/// last bucket.
pub open spec fn seed_formulas(t: int, count: int) -> Seq<LogicNodeModel> {
    if t == 0 {
        seq![LogicNodeModel::False]
    } else if t == count - 1 {
        seq![LogicNodeModel::True]
    } else {
        Seq::empty()
    }
}


/// A one-element list's first minimal formula is its only element.
proof fn lemma_singleton_minimum(s: Seq<LogicNodeModel>, mm: LogicNodeModel)
    requires
        s.len() == 1,
        is_first_minimal(s, mm),
    ensures
        mm == s[0],
{
    let i = choose|i: int|
        {
            &&& 0 <= i < s.len()
            &&& s[i] == mm
            &&& (forall|j: int| 0 <= j < s.len() ==> count_ops_model(mm) <= count_ops_model(#[trigger] s[j]))
            &&& (forall|j: int| 0 <= j < i ==> count_ops_model(#[trigger] s[j]) > count_ops_model(mm))
        };
    assert(i == 0);
}

/// The run for one boolean, derived from the generation contract alone:
/// four buckets holding exactly the constant False, the negative literal,
/// the positive literal and the constant True, each the sole and minimal
/// formula of its bucket.
pub proof fn lemma_one_boolean_run(buckets: Seq<LogicFormulaBucket>)
    requires
        buckets.len() == pow2(pow2(1)),
        buckets_ok(buckets, 1),
        forall|t: int|
            0 <= t < buckets.len() ==> (#[trigger] buckets[t]).formulas() == seed_formulas(
                t,
                buckets.len() as int,
            ) + bucket_share(generated_formulas(1), t as u32, 1),
    ensures
        buckets.len() == 4,
        buckets[0].formulas() == seq![LogicNodeModel::False],
        buckets[1].formulas() == seq![LogicNodeModel::Literal(1u32 | NEGATIVITY_FLAG)],
        buckets[2].formulas() == seq![LogicNodeModel::Literal(1u32)],
        buckets[3].formulas() == seq![LogicNodeModel::True],
        buckets[0].minimum() == Option::Some(LogicNodeModel::False),
        buckets[1].minimum() == Option::Some(LogicNodeModel::Literal(1u32 | NEGATIVITY_FLAG)),
        buckets[2].minimum() == Option::Some(LogicNodeModel::Literal(1u32)),
        buckets[3].minimum() == Option::Some(LogicNodeModel::True),
{
    lemma2_to64();
    assert(buckets.len() == 4);
    let positive: u32 = 1;
    let negative: u32 = 1 | NEGATIVITY_FLAG;
    lemma_literal_fields(1);

    // The clause universe for one boolean: the positive literal, then the
    // negative one.
    let u = clause_universe_contents(1);
    assert(single_clauses(1, 2) == Seq::<Seq<u32>>::empty());
    assert(u =~~= seq![seq![positive], seq![negative]]);
    assert(u.len() == 2);

    // The enumeration files the two bare literals and nothing else: the
    // opposite unit under the positive literal's branch is pruned.
    let m_pos = LogicNodeModel::Literal(positive);
    let m_neg = LogicNodeModel::Literal(negative);
    assert((1u32 ^ (1u32 | NEGATIVITY_FLAG)) == NEGATIVITY_FLAG && (forall|b: u32|
        b < 32 ==> (((2u32 >> b) & 1 == 1) <==> (b < 2 && (b >> 0u32) & 1 == 1))) && (forall|
        b: u32,
    |
        b < 32 ==> (((1u32 >> b) & 1 == 1) <==> (b < 2 && !((b >> 0u32) & 1 == 1)))) && (2u32 >> 2u32)
        == 0 && (1u32 >> 2u32) == 0 && (1u32 << 1u32) == 2) by (bit_vector);
    assert((positive ^ negative) == NEGATIVITY_FLAG);

    let current_pos = Seq::<Seq<u32>>::empty().push(u[0]);
    assert(filed_range(u, current_pos, 2, 2) == Seq::<LogicNodeModel>::empty());
    assert(branch_pruned(current_pos, u[1])) by {
        assert((current_pos[0][0] ^ u[1][0]) == NEGATIVITY_FLAG);
    }
    assert(filed_by_branch(u, current_pos, 1) == Seq::<LogicNodeModel>::empty());
    assert(filed_range(u, current_pos, 1, 2) =~= Seq::<LogicNodeModel>::empty());
    assert(!branch_pruned(Seq::empty(), u[0]));
    assert(clause_node(u[0]) == m_pos);
    assert(filed_by_branch(u, Seq::empty(), 0) =~= seq![m_pos]);

    let current_neg = Seq::<Seq<u32>>::empty().push(u[1]);
    assert(filed_range(u, current_neg, 2, 2) == Seq::<LogicNodeModel>::empty());
    assert(!branch_pruned(Seq::empty(), u[1]));
    assert(clause_node(u[1]) == m_neg);
    assert(filed_by_branch(u, Seq::empty(), 1) =~= seq![m_neg]);
    assert(filed_range(u, Seq::empty(), 2, 2) == Seq::<LogicNodeModel>::empty());
    assert(filed_range(u, Seq::empty(), 1, 2) =~= seq![m_neg]);
    assert(generated_formulas(1) =~= seq![m_pos, m_neg]);

    // The positive literal's table is row 1 alone (0b10), the negative
    // literal's is row 0 alone (0b01).
    assert(num_rows(1) == 2);
    assert forall|b: u32| b < 32 implies (tt_bit(2u32, b) <==> (b < num_rows(1) && eval_row(
        m_pos,
        1,
        b,
    ))) by {
        assert(eval_row(m_pos, 1, b) == row_var_true(b, 1, 1));
        assert(row_var_true(b, 1, 1) == ((b >> 0u32) & 1 == 1));
    }
    assert(is_truth_table_of(2u32, m_pos, 1));
    lemma_table_of(2u32, m_pos, 1);
    assert forall|b: u32| b < 32 implies (tt_bit(1u32, b) <==> (b < num_rows(1) && eval_row(
        m_neg,
        1,
        b,
    ))) by {
        assert(eval_row(m_neg, 1, b) == !row_var_true(b, 1, 1));
        assert(row_var_true(b, 1, 1) == ((b >> 0u32) & 1 == 1));
    }
    assert(is_truth_table_of(1u32, m_neg, 1));
    lemma_table_of(1u32, m_neg, 1);

    // Distribute the two filings over the buckets.
    assert forall|t: int| 0 <= t < 4 implies #[trigger] bucket_share(
        generated_formulas(1),
        t as u32,
        1,
    ) == (if t == 2 {
        seq![m_pos]
    } else if t == 1 {
        seq![m_neg]
    } else {
        Seq::<LogicNodeModel>::empty()
    }) by {
        lemma_share_pair(m_pos, m_neg, t as u32, 1);
        lemma_share_single(m_pos, t as u32, 1);
        lemma_share_single(m_neg, t as u32, 1);
        assert(bucket_share(generated_formulas(1), t as u32, 1) == bucket_share(
            seq![m_pos, m_neg],
            t as u32,
            1,
        ));
    }
    assert(buckets[0].formulas() =~= seq![LogicNodeModel::False]);
    assert(buckets[1].formulas() =~= seq![m_neg]);
    assert(buckets[2].formulas() =~= seq![m_pos]);
    assert(buckets[3].formulas() =~= seq![LogicNodeModel::True]);

    // Each bucket's minimum is its sole formula.
    assert forall|t: int| 0 <= t < 4 implies buckets[t].minimum() == Option::Some(
        buckets[t].formulas()[0],
    ) by {
        assert(bucket_min_ok(buckets[t].formulas(), buckets[t].minimum()));
        let mm = buckets[t].minimum()->Some_0;
        lemma_singleton_minimum(buckets[t].formulas(), mm);
    }
}

/// Generates all the truth tables with up to n booleans, mapping a large
/// family of normal formulas onto them: one bucket per possible truth
/// table, the constant formulas seeded into the first and last buckets,
/// and every admissible normal formula filed into the bucket of its truth
/// table. Trivial formulas like `p & p` or `p | ~p` do not appear. For
/// this function n is at most 5; for larger n the 32-bit truth table
/// representation runs out, and the enumeration is intractable anyways.
///
/// The contract fixes every bucket's formula list outright: the seeds plus
/// that bucket's share of `generated_formulas(n)`, in filing order. With
/// the recorded minimum determined by the list (`lemma_first_minimal_unique`),
/// the whole result is a function of `n` alone.
pub fn generate_truth_tables_with_up_to_n_variables(n: u32) -> (formula_buckets: Vec<
    LogicFormulaBucket,
>)
    requires
        1 <= n <= 5,
    ensures
        formula_buckets@.len() == pow2(pow2(n as nat)),
        buckets_ok(formula_buckets@, n),
        formula_buckets@[0].formulas().contains(LogicNodeModel::False),
        formula_buckets@[formula_buckets@.len() - 1].formulas().contains(LogicNodeModel::True),
        forall|t: int|
            0 <= t < formula_buckets@.len() ==> (#[trigger] formula_buckets@[t]).formulas()
                == seed_formulas(t, formula_buckets@.len() as int) + bucket_share(
                generated_formulas(n),
                t as u32,
                n,
            ),
{
    let two_to_n = compute_two_to_n(n) as usize;
    let num_truth_tables = compute_two_to_two_to_n(n);

    proof {
        assert((1u64 << (1u32 << n)) >= 4) by (bit_vector)
            requires
                1 <= n <= 5,
        ;
    }

    // Create a bucket of formulas for each truth table.
    let mut formula_buckets: Vec<LogicFormulaBucket> = Vec::with_capacity(
        num_truth_tables as usize,
    );
    let mut bucket_counter: u64 = 0;
    while bucket_counter < num_truth_tables
        invariant
            formula_buckets@.len() == bucket_counter,
            bucket_counter <= num_truth_tables,
            forall|t: int|
                0 <= t < bucket_counter ==> (#[trigger] formula_buckets@[t]).formulas()
                    == Seq::<LogicNodeModel>::empty() && formula_buckets@[t].minimum() is None,
        decreases num_truth_tables - bucket_counter,
    {
        let bucket = LogicFormulaBucket {
            minimum_formula: Option::None,
            formula_vector: Vec::with_capacity(two_to_n),
        };
        proof {
            assert(bucket.formulas() =~= Seq::<LogicNodeModel>::empty());
        }
        formula_buckets.push(bucket);
        bucket_counter = bucket_counter + 1;
    }
    proof {
        assert(buckets_ok(formula_buckets@, n));
    }

    // Seed the constant formulas: False belongs to the all-zero table in
    // bucket 0, True to the all-ones table in the last bucket.
    proof {
        crate::truth_table_size_5::lemma_zero_table();
        assert(is_truth_table_of(0u32, LogicNodeModel::False, n));
    }
    let mut false_bucket = formula_buckets.remove(0);
    false_bucket.add_formula(SimpleLogicNode::False);
    formula_buckets.insert(0, false_bucket);

    let last_index = formula_buckets.len() - 1;
    let ghost all_ones = ((1u64 << (1u32 << n)) - 1) as u32;
    proof {
        let r = 1u32 << n;
        assert(2 <= r <= 32 && last_index as u32 == all_ones && (forall|b: u32|
            b < 32 ==> (((all_ones >> b) & 1 == 1) <==> b < r)) && (r < 32 ==> (all_ones >> r)
            == 0)) by (bit_vector)
            requires
                r == 1u32 << n,
                1 <= n <= 5,
                (last_index as u64) == (1u64 << r) - 1,
                all_ones == ((1u64 << r) - 1) as u32,
        ;
        assert(is_truth_table_of(all_ones, LogicNodeModel::True, n));
    }
    let mut true_bucket = formula_buckets.remove(last_index);
    true_bucket.add_formula(SimpleLogicNode::True);
    formula_buckets.insert(last_index, true_bucket);
    proof {
        assert(buckets_ok(formula_buckets@, n)) by {
            assert forall|t: int| 0 <= t < formula_buckets@.len() implies {
                let b = #[trigger] formula_buckets@[t];
                &&& bucket_min_ok(b.formulas(), b.minimum())
                &&& bucket_counts_ok(b.formulas())
                &&& bucket_filed(b.formulas(), t as u32, n)
                &&& bucket_shapes(b.formulas(), n)
            } by {
                if t == 0 {
                    assert(formula_buckets@[t].formulas() =~= Seq::<LogicNodeModel>::empty().push(
                        LogicNodeModel::False,
                    ));
                } else if t == last_index {
                    assert(formula_buckets@[t].formulas() =~= Seq::<LogicNodeModel>::empty().push(
                        LogicNodeModel::True,
                    ));
                }
            }
        }
        assert(formula_buckets@[0].formulas().contains(LogicNodeModel::False)) by {
            assert(formula_buckets@[0].formulas()[0] == LogicNodeModel::False);
        }
        assert(formula_buckets@[last_index as int].formulas().contains(LogicNodeModel::True)) by {
            assert(formula_buckets@[last_index as int].formulas()[0] == LogicNodeModel::True);
        }
        assert forall|t: int| 0 <= t < formula_buckets@.len() implies (
        #[trigger] formula_buckets@[t]).formulas() == seed_formulas(
            t,
            formula_buckets@.len() as int,
        ) by {
            if t == 0 {
                assert(formula_buckets@[t].formulas() =~= seq![LogicNodeModel::False]);
            } else if t == last_index {
                assert(formula_buckets@[t].formulas() =~= seq![LogicNodeModel::True]);
            } else {
                assert(formula_buckets@[t].formulas() =~= Seq::<LogicNodeModel>::empty());
            }
        }
    }

    // Compute n factorial, for the capacity guess below.
    let mut n_factorial: u32 = 1;
    let mut factor: u32 = 2;
    while factor <= n
        invariant
            2 <= factor <= 6,
            n <= 5,
            factor == 2 ==> n_factorial == 1,
            factor == 3 ==> n_factorial == 2,
            factor == 4 ==> n_factorial == 6,
            factor == 5 ==> n_factorial == 24,
            factor == 6 ==> n_factorial == 120,
        decreases n + 1 - factor,
    {
        n_factorial = n_factorial * factor;
        factor = factor + 1;
    }

    // This is not the exact capacity, but it is close enough.
    proof {
        assert((1u32 << n) <= 32) by (bit_vector)
            requires
                n <= 5,
        ;
    }
    proof {
        assert(n_factorial <= 120);
    }
    let literal_subarray_capacity = (2 * n + n_factorial * compute_two_to_n(n)) as usize;

    // Store all the clauses to build formulas from, by rising size.
    let mut literal_subarray_vec: Vec<Vec<u32>> = Vec::with_capacity(literal_subarray_capacity);

    // Create all the possible literals.
    proof {
        assert(clause_views(literal_subarray_vec@) =~= Seq::<Seq<u32>>::empty());
        assert(clause_views(literal_subarray_vec@) + single_clauses(n, 1) =~= single_clauses(n, 1));
    }
    let mut i: u32 = 1;
    while i <= n
        invariant
            1 <= i <= n + 1,
            1 <= n <= 5,
            clause_views(literal_subarray_vec@) + single_clauses(n, i) == single_clauses(n, 1),
            literal_subarray_vec@.len() <= 2 * (i - 1),
            forall|t: int|
                0 <= t < literal_subarray_vec@.len() ==> wf_clause(
                    (#[trigger] literal_subarray_vec@[t])@,
                    n,
                ) && literal_subarray_vec@[t]@.len() == 1,
        decreases n + 1 - i,
    {
        proof {
            lemma_literal_fields(i);
        }
        let ghost before_views = clause_views(literal_subarray_vec@);
        literal_subarray_vec.push(vec![i]);
        literal_subarray_vec.push(vec![i | NEGATIVITY_FLAG]);
        proof {
            assert(clause_views(literal_subarray_vec@) =~~= before_views + seq![
                seq![i],
                seq![i | NEGATIVITY_FLAG],
            ]);
            assert(clause_views(literal_subarray_vec@) + single_clauses(n, (i + 1) as u32)
                =~= before_views + single_clauses(n, i));
        }
        i = i + 1;
    }
    let ghost singles_done = clause_views(literal_subarray_vec@);
    proof {
        assert(literal_subarray_vec@.len() <= 10);
        assert(single_clauses(n, (n + 1) as u32) == Seq::<Seq<u32>>::empty());
        assert(singles_done =~= single_clauses(n, 1));
    }

    // If n is at least 2, add pairs of literals.
    if n >= 2 {
        let mut pi: u32 = 1;
        proof {
            assert(clause_views(literal_subarray_vec@) + pair_rows(n, 1) =~= singles_done
                + pair_rows(n, 1));
        }
        while pi <= n
            invariant
                1 <= pi <= n + 1,
                2 <= n <= 5,
                clause_views(literal_subarray_vec@) + pair_rows(n, pi) == singles_done + pair_rows(
                    n,
                    1,
                ),
                literal_subarray_vec@.len() <= 10 + 20 * (pi - 1),
                forall|t: int|
                    0 <= t < literal_subarray_vec@.len() ==> wf_clause(
                        (#[trigger] literal_subarray_vec@[t])@,
                        n,
                    ) && literal_subarray_vec@[t]@.len() <= 2,
                forall|t1: int, t2: int|
                    0 <= t1 < t2 < literal_subarray_vec@.len()
                        ==> (#[trigger] literal_subarray_vec@[t1])@.len()
                        <= (#[trigger] literal_subarray_vec@[t2])@.len(),
            decreases n + 1 - pi,
        {
            let mut pj: u32 = pi + 1;
            proof {
                assert(clause_views(literal_subarray_vec@) + pair_cells(n, pi, (pi + 1) as u32)
                    + pair_rows(n, (pi + 1) as u32) =~= clause_views(literal_subarray_vec@)
                    + pair_rows(n, pi));
            }
            while pj <= n
                invariant
                    1 <= pi < pj <= n + 1,
                    2 <= n <= 5,
                    clause_views(literal_subarray_vec@) + pair_cells(n, pi, pj) + pair_rows(
                        n,
                        (pi + 1) as u32,
                    ) == singles_done + pair_rows(n, 1),
                    literal_subarray_vec@.len() <= 10 + 20 * (pi - 1) + 4 * (pj - pi - 1),
                    forall|t: int|
                        0 <= t < literal_subarray_vec@.len() ==> wf_clause(
                            (#[trigger] literal_subarray_vec@[t])@,
                            n,
                        ) && literal_subarray_vec@[t]@.len() <= 2,
                    forall|t1: int, t2: int|
                        0 <= t1 < t2 < literal_subarray_vec@.len()
                            ==> (#[trigger] literal_subarray_vec@[t1])@.len()
                            <= (#[trigger] literal_subarray_vec@[t2])@.len(),
                decreases n + 1 - pj,
            {
                proof {
                    lemma_literal_fields(pi);
                    lemma_literal_fields(pj);
                }
                let ghost before_views = clause_views(literal_subarray_vec@);
                literal_subarray_vec.push(vec![pi, pj]);
                literal_subarray_vec.push(vec![pi | NEGATIVITY_FLAG, pj]);
                literal_subarray_vec.push(vec![pi, pj | NEGATIVITY_FLAG]);
                literal_subarray_vec.push(vec![pi | NEGATIVITY_FLAG, pj | NEGATIVITY_FLAG]);
                proof {
                    assert(clause_views(literal_subarray_vec@) =~~= before_views + seq![
                        seq![pi, pj],
                        seq![pi | NEGATIVITY_FLAG, pj],
                        seq![pi, pj | NEGATIVITY_FLAG],
                        seq![pi | NEGATIVITY_FLAG, pj | NEGATIVITY_FLAG],
                    ]);
                    assert(clause_views(literal_subarray_vec@) + pair_cells(n, pi, (pj + 1) as u32)
                        =~= before_views + pair_cells(n, pi, pj));
                }
                pj = pj + 1;
            }
            proof {
                assert(pair_cells(n, pi, pj) == Seq::<Seq<u32>>::empty());
                assert(clause_views(literal_subarray_vec@) + pair_rows(n, (pi + 1) as u32)
                    =~= clause_views(literal_subarray_vec@) + pair_cells(n, pi, pj) + pair_rows(
                    n,
                    (pi + 1) as u32,
                ));
            }
            pi = pi + 1;
        }
        proof {
            assert(pair_rows(n, pi) == Seq::<Seq<u32>>::empty());
            assert(clause_views(literal_subarray_vec@) =~= singles_done + pair_rows(n, 1));
        }
    }
    let ghost pairs_done = clause_views(literal_subarray_vec@);
    proof {
        assert(literal_subarray_vec@.len() <= 110);
        assert(pairs_done =~= singles_done + (if n >= 2 {
            pair_rows(n, 1)
        } else {
            Seq::<Seq<u32>>::empty()
        }));
    }

    // If n is at least 3, add triples of literals.
    if n >= 3 {
        let mut ti: u32 = 1;
        proof {
            assert(clause_views(literal_subarray_vec@) + triple_rows(n, 1) =~= pairs_done
                + triple_rows(n, 1));
        }
        while ti <= n
            invariant
                1 <= ti <= n + 1,
                3 <= n <= 5,
                clause_views(literal_subarray_vec@) + triple_rows(n, ti) == pairs_done
                    + triple_rows(n, 1),
                literal_subarray_vec@.len() <= 110 + 200 * (ti - 1),
                sized_universe_ok(literal_subarray_vec@, n, 3),
            decreases n + 1 - ti,
        {
            let mut tj: u32 = ti + 1;
            proof {
                assert(clause_views(literal_subarray_vec@) + triple_cols(n, ti, (ti + 1) as u32)
                    + triple_rows(n, (ti + 1) as u32) =~= clause_views(literal_subarray_vec@)
                    + triple_rows(n, ti));
            }
            while tj <= n
                invariant
                    1 <= ti < tj <= n + 1,
                    3 <= n <= 5,
                    clause_views(literal_subarray_vec@) + triple_cols(n, ti, tj) + triple_rows(
                        n,
                        (ti + 1) as u32,
                    ) == pairs_done + triple_rows(n, 1),
                    literal_subarray_vec@.len() <= 110 + 200 * (ti - 1) + 40 * (tj - ti - 1),
                    sized_universe_ok(literal_subarray_vec@, n, 3),
                decreases n + 1 - tj,
            {
                let mut tk: u32 = tj + 1;
                proof {
                    assert(clause_views(literal_subarray_vec@) + triple_cells(
                        n,
                        ti,
                        tj,
                        (tj + 1) as u32,
                    ) + triple_cols(n, ti, (tj + 1) as u32) + triple_rows(n, (ti + 1) as u32)
                        =~= clause_views(literal_subarray_vec@) + triple_cols(n, ti, tj)
                        + triple_rows(n, (ti + 1) as u32));
                }
                while tk <= n
                    invariant
                        1 <= ti < tj < tk <= n + 1,
                        3 <= n <= 5,
                        clause_views(literal_subarray_vec@) + triple_cells(n, ti, tj, tk)
                            + triple_cols(n, ti, (tj + 1) as u32) + triple_rows(
                            n,
                            (ti + 1) as u32,
                        ) == pairs_done + triple_rows(n, 1),
                        literal_subarray_vec@.len() <= 110 + 200 * (ti - 1) + 40 * (tj - ti - 1)
                            + 8 * (tk - tj - 1),
                        sized_universe_ok(literal_subarray_vec@, n, 3),
                    decreases n + 1 - tk,
                {
                    let ghost before_views = clause_views(literal_subarray_vec@);
                    push_sign_assignments(
                        &mut literal_subarray_vec,
                        vec![ti, tj, tk],
                        n,
                        Ghost(3),
                    );
                    proof {
                        assert(clause_views(literal_subarray_vec@) =~= before_views
                            + sign_assignments(seq![ti, tj, tk]));
                        assert(clause_views(literal_subarray_vec@) + triple_cells(
                            n,
                            ti,
                            tj,
                            (tk + 1) as u32,
                        ) =~= before_views + triple_cells(n, ti, tj, tk));
                    }
                    tk = tk + 1;
                }
                proof {
                    assert(triple_cells(n, ti, tj, tk) == Seq::<Seq<u32>>::empty());
                    assert(clause_views(literal_subarray_vec@) + triple_cols(n, ti, (tj + 1) as u32)
                        + triple_rows(n, (ti + 1) as u32) =~= clause_views(literal_subarray_vec@)
                        + triple_cells(n, ti, tj, tk) + triple_cols(n, ti, (tj + 1) as u32)
                        + triple_rows(n, (ti + 1) as u32));
                }
                tj = tj + 1;
            }
            proof {
                assert(triple_cols(n, ti, tj) == Seq::<Seq<u32>>::empty());
                assert(clause_views(literal_subarray_vec@) + triple_rows(n, (ti + 1) as u32)
                    =~= clause_views(literal_subarray_vec@) + triple_cols(n, ti, tj) + triple_rows(
                    n,
                    (ti + 1) as u32,
                ));
            }
            ti = ti + 1;
        }
        proof {
            assert(triple_rows(n, ti) == Seq::<Seq<u32>>::empty());
            assert(clause_views(literal_subarray_vec@) =~= pairs_done + triple_rows(n, 1));
        }
    }
    let ghost triples_done = clause_views(literal_subarray_vec@);
    proof {
        assert(literal_subarray_vec@.len() <= 1110);
        assert(triples_done =~= pairs_done + (if n >= 3 {
            triple_rows(n, 1)
        } else {
            Seq::<Seq<u32>>::empty()
        }));
    }

    // If n is at least 4, add quadruples of literals.
    if n >= 4 {
        let mut qi: u32 = 1;
        proof {
            assert(clause_views(literal_subarray_vec@) + quad_rows(n, 1) =~= triples_done
                + quad_rows(n, 1));
        }
        while qi <= n
            invariant
                1 <= qi <= n + 1,
                4 <= n <= 5,
                clause_views(literal_subarray_vec@) + quad_rows(n, qi) == triples_done + quad_rows(
                    n,
                    1,
                ),
                literal_subarray_vec@.len() <= 1110 + 2000 * (qi - 1),
                sized_universe_ok(literal_subarray_vec@, n, 4),
            decreases n + 1 - qi,
        {
            let mut qj: u32 = qi + 1;
            proof {
                assert(clause_views(literal_subarray_vec@) + quad_planes(n, qi, (qi + 1) as u32)
                    + quad_rows(n, (qi + 1) as u32) =~= clause_views(literal_subarray_vec@)
                    + quad_rows(n, qi));
            }
            while qj <= n
                invariant
                    1 <= qi < qj <= n + 1,
                    4 <= n <= 5,
                    clause_views(literal_subarray_vec@) + quad_planes(n, qi, qj) + quad_rows(
                        n,
                        (qi + 1) as u32,
                    ) == triples_done + quad_rows(n, 1),
                    literal_subarray_vec@.len() <= 1110 + 2000 * (qi - 1) + 400 * (qj - qi - 1),
                    sized_universe_ok(literal_subarray_vec@, n, 4),
                decreases n + 1 - qj,
            {
                let mut qk: u32 = qj + 1;
                proof {
                    assert(clause_views(literal_subarray_vec@) + quad_cols(
                        n,
                        qi,
                        qj,
                        (qj + 1) as u32,
                    ) + quad_planes(n, qi, (qj + 1) as u32) + quad_rows(n, (qi + 1) as u32)
                        =~= clause_views(literal_subarray_vec@) + quad_planes(n, qi, qj)
                        + quad_rows(n, (qi + 1) as u32));
                }
                while qk <= n
                    invariant
                        1 <= qi < qj < qk <= n + 1,
                        4 <= n <= 5,
                        clause_views(literal_subarray_vec@) + quad_cols(n, qi, qj, qk)
                            + quad_planes(n, qi, (qj + 1) as u32) + quad_rows(n, (qi + 1) as u32)
                            == triples_done + quad_rows(n, 1),
                        literal_subarray_vec@.len() <= 1110 + 2000 * (qi - 1) + 400 * (qj - qi
                            - 1) + 80 * (qk - qj - 1),
                        sized_universe_ok(literal_subarray_vec@, n, 4),
                    decreases n + 1 - qk,
                {
                    let mut ql: u32 = qk + 1;
                    proof {
                        assert(clause_views(literal_subarray_vec@) + quad_cells(
                            n,
                            qi,
                            qj,
                            qk,
                            (qk + 1) as u32,
                        ) + quad_cols(n, qi, qj, (qk + 1) as u32) + quad_planes(
                            n,
                            qi,
                            (qj + 1) as u32,
                        ) + quad_rows(n, (qi + 1) as u32) =~= clause_views(literal_subarray_vec@)
                            + quad_cols(n, qi, qj, qk) + quad_planes(n, qi, (qj + 1) as u32)
                            + quad_rows(n, (qi + 1) as u32));
                    }
                    while ql <= n
                        invariant
                            1 <= qi < qj < qk < ql <= n + 1,
                            4 <= n <= 5,
                            clause_views(literal_subarray_vec@) + quad_cells(n, qi, qj, qk, ql)
                                + quad_cols(n, qi, qj, (qk + 1) as u32) + quad_planes(
                                n,
                                qi,
                                (qj + 1) as u32,
                            ) + quad_rows(n, (qi + 1) as u32) == triples_done + quad_rows(n, 1),
                            literal_subarray_vec@.len() <= 1110 + 2000 * (qi - 1) + 400 * (qj - qi
                                - 1) + 80 * (qk - qj - 1) + 16 * (ql - qk - 1),
                            sized_universe_ok(literal_subarray_vec@, n, 4),
                        decreases n + 1 - ql,
                    {
                        let ghost before_views = clause_views(literal_subarray_vec@);
                        push_sign_assignments(
                            &mut literal_subarray_vec,
                            vec![qi, qj, qk, ql],
                            n,
                            Ghost(4),
                        );
                        proof {
                            assert(clause_views(literal_subarray_vec@) =~= before_views
                                + sign_assignments(seq![qi, qj, qk, ql]));
                            assert(clause_views(literal_subarray_vec@) + quad_cells(
                                n,
                                qi,
                                qj,
                                qk,
                                (ql + 1) as u32,
                            ) =~= before_views + quad_cells(n, qi, qj, qk, ql));
                        }
                        ql = ql + 1;
                    }
                    proof {
                        assert(quad_cells(n, qi, qj, qk, ql) == Seq::<Seq<u32>>::empty());
                        assert(clause_views(literal_subarray_vec@) + quad_cols(
                            n,
                            qi,
                            qj,
                            (qk + 1) as u32,
                        ) + quad_planes(n, qi, (qj + 1) as u32) + quad_rows(n, (qi + 1) as u32)
                            =~= clause_views(literal_subarray_vec@) + quad_cells(n, qi, qj, qk, ql)
                            + quad_cols(n, qi, qj, (qk + 1) as u32) + quad_planes(
                            n,
                            qi,
                            (qj + 1) as u32,
                        ) + quad_rows(n, (qi + 1) as u32));
                    }
                    qk = qk + 1;
                }
                proof {
                    assert(quad_cols(n, qi, qj, qk) == Seq::<Seq<u32>>::empty());
                    assert(clause_views(literal_subarray_vec@) + quad_planes(n, qi, (qj + 1) as u32)
                        + quad_rows(n, (qi + 1) as u32) =~= clause_views(literal_subarray_vec@)
                        + quad_cols(n, qi, qj, qk) + quad_planes(n, qi, (qj + 1) as u32)
                        + quad_rows(n, (qi + 1) as u32));
                }
                qj = qj + 1;
            }
            proof {
                assert(quad_planes(n, qi, qj) == Seq::<Seq<u32>>::empty());
                assert(clause_views(literal_subarray_vec@) + quad_rows(n, (qi + 1) as u32)
                    =~= clause_views(literal_subarray_vec@) + quad_planes(n, qi, qj) + quad_rows(
                    n,
                    (qi + 1) as u32,
                ));
            }
            qi = qi + 1;
        }
        proof {
            assert(quad_rows(n, qi) == Seq::<Seq<u32>>::empty());
            assert(clause_views(literal_subarray_vec@) =~= triples_done + quad_rows(n, 1));
        }
    }
    let ghost quads_done = clause_views(literal_subarray_vec@);
    proof {
        assert(literal_subarray_vec@.len() <= 11110);
        assert(quads_done =~= triples_done + (if n >= 4 {
            quad_rows(n, 1)
        } else {
            Seq::<Seq<u32>>::empty()
        }));
    }

    // If n is 5, add quintuples of literals, crossing all five chosen
    // indexes with every sign assignment.
    if n >= 5 {
        let vi: u32 = 1;
        let vj: u32 = 2;
        let vk: u32 = 3;
        let vl: u32 = 4;
        let vm: u32 = 5;
        let ghost before_views = clause_views(literal_subarray_vec@);
        push_sign_assignments(&mut literal_subarray_vec, vec![vi, vj, vk, vl, vm], n, Ghost(5));
        proof {
            assert(clause_views(literal_subarray_vec@) =~= before_views + sign_assignments(
                seq![1u32, 2u32, 3u32, 4u32, 5u32],
            ));
        }
    }
    proof {
        assert(literal_subarray_vec@.len() <= 11142);
        assert(clause_views(literal_subarray_vec@) =~= quads_done + (if n >= 5 {
            sign_assignments(seq![1u32, 2u32, 3u32, 4u32, 5u32])
        } else {
            Seq::<Seq<u32>>::empty()
        }));
        assert(clause_views(literal_subarray_vec@) =~= clause_universe_contents(n));
        assert(clause_universe_ok(clause_views(literal_subarray_vec@), n)) by {
            assert forall|t: int| 0 <= t < clause_views(literal_subarray_vec@).len() implies
                wf_clause(#[trigger] clause_views(literal_subarray_vec@)[t], n) by {
                assert(clause_views(literal_subarray_vec@)[t] == literal_subarray_vec@[t]@);
            }
            assert forall|t1: int, t2: int|
                0 <= t1 < t2 < clause_views(literal_subarray_vec@).len() implies clause_views(
                literal_subarray_vec@,
            )[t1].len() <= clause_views(literal_subarray_vec@)[t2].len() by {
                assert(clause_views(literal_subarray_vec@)[t1] == literal_subarray_vec@[t1]@);
                assert(clause_views(literal_subarray_vec@)[t2] == literal_subarray_vec@[t2]@);
            }
        }
    }

    // Generate the normal formulas.
    let ghost seeded = formula_buckets@;
    let mut nf_generator = NormalFormulaGenerator::new(formula_buckets, literal_subarray_vec, n);
    nf_generator.generate_all_normal_formulas();
    proof {
        assert(buckets_extend(seeded, nf_generator.buckets()));
        assert(nf_generator.buckets()[0].formulas().contains(LogicNodeModel::False)) by {
            let sf = seeded[0].formulas();
            assert(sf.is_prefix_of(nf_generator.buckets()[0].formulas()));
            assert(sf[0] == LogicNodeModel::False);
            assert(nf_generator.buckets()[0].formulas()[0] == LogicNodeModel::False);
        }
        let last = seeded.len() - 1;
        assert(nf_generator.buckets()[last].formulas().contains(LogicNodeModel::True)) by {
            let sf = seeded[last].formulas();
            assert(sf.is_prefix_of(nf_generator.buckets()[last].formulas()));
            assert(sf[0] == LogicNodeModel::True);
            assert(nf_generator.buckets()[last].formulas()[0] == LogicNodeModel::True);
        }
        assert(nf_generator.universe() == clause_universe_contents(n));
        assert forall|t: int| 0 <= t < nf_generator.buckets().len() implies (
        #[trigger] nf_generator.buckets()[t]).formulas() == seed_formulas(
            t,
            nf_generator.buckets().len() as int,
        ) + bucket_share(generated_formulas(n), t as u32, n) by {
            assert(seeded[t].formulas() == seed_formulas(t, seeded.len() as int));
            assert(nf_generator.buckets()[t].formulas() == seeded[t].formulas() + bucket_share(
                filed_range(
                    clause_universe_contents(n),
                    Seq::empty(),
                    0,
                    clause_universe_contents(n).len() as int,
                ),
                t as u32,
                n,
            ));
        }
    }
    nf_generator.formula_buckets
}

/// A universe under construction during the block of size `size`: clauses
/// well-formed, none longer than `size`, and sizes never decreasing.
pub open spec fn sized_universe_ok(universe: Seq<Vec<u32>>, n: u32, size: int) -> bool {
    &&& forall|t: int|
        0 <= t < universe.len() ==> wf_clause((#[trigger] universe[t])@, n) && universe[t]@.len()
            <= size
    &&& forall|t1: int, t2: int|
        0 <= t1 < t2 < universe.len() ==> (#[trigger] universe[t1])@.len()
            <= (#[trigger] universe[t2])@.len()
}

/// Pushes every sign assignment over the given strictly increasing indexes
/// onto the universe: 2^k clauses of k literals each.
fn push_sign_assignments(
    universe: &mut Vec<Vec<u32>>,
    boolean_indexes_vec: Vec<u32>,
    n: u32,
    size: Ghost<int>,
)
    requires
        1 <= n <= 5,
        3 <= size@ <= 5,
        boolean_indexes_vec@.len() == size@,
        forall|i: int|
            0 <= i < boolean_indexes_vec@.len() ==> 1 <= #[trigger] boolean_indexes_vec@[i] <= n,
        forall|i: int, j: int|
            0 <= i < j < boolean_indexes_vec@.len() ==> boolean_indexes_vec@[i]
                < boolean_indexes_vec@[j],
        sized_universe_ok(old(universe)@, n, size@),
    ensures
        sized_universe_ok(final(universe)@, n, size@),
        size@ == 3 ==> final(universe)@.len() <= old(universe)@.len() + 8,
        size@ == 4 ==> final(universe)@.len() <= old(universe)@.len() + 16,
        final(universe)@.len() <= old(universe)@.len() + 32,
        clause_views(final(universe)@) == clause_views(old(universe)@) + sign_assignments(
            boolean_indexes_vec@,
        ),
{
    let ghost indexes = boolean_indexes_vec@;
    let mut assign_flags_iterator = AssignFlagsIterator::new(boolean_indexes_vec);
    let ghost num_configs = assign_flags_iterator.num_configurations;
    proof {
        let ghost klen = indexes.len() as usize;
        assert((1usize << klen) <= 32 && (klen == 3 ==> (1usize << klen) == 8) && (klen == 4 ==> (
        1usize << klen) == 16)) by (bit_vector)
            requires
                klen <= 5,
        ;
        assert(sign_assignments(indexes).len() == num_configs);
        assert(sign_assignments(indexes).take(0) =~= Seq::<Seq<u32>>::empty());
        assert(clause_views(universe@) =~= clause_views(universe@) + sign_assignments(
            indexes,
        ).take(0));
    }
    loop
        invariant
            assign_flags_iterator.boolean_indexes_vec@ == indexes,
            assign_flags_iterator.num_configurations == (1usize << indexes.len()),
            num_configs == assign_flags_iterator.num_configurations,
            num_configs <= 32,
            assign_flags_iterator.configuration <= num_configs,
            1 <= n <= 5,
            3 <= size@ <= 5,
            indexes.len() == size@,
            forall|i: int| 0 <= i < indexes.len() ==> 1 <= #[trigger] indexes[i] <= n,
            forall|i: int, j: int| 0 <= i < j < indexes.len() ==> indexes[i] < indexes[j],
            sized_universe_ok(universe@, n, size@),
            universe@.len() <= old(universe)@.len() + assign_flags_iterator.configuration,
            sign_assignments(indexes).len() == num_configs,
            clause_views(universe@) == clause_views(old(universe)@) + sign_assignments(
                indexes,
            ).take(assign_flags_iterator.configuration as int),
        ensures
            universe@.len() <= old(universe)@.len() + num_configs,
            sized_universe_ok(universe@, n, size@),
            clause_views(universe@) == clause_views(old(universe)@) + sign_assignments(indexes),
        decreases num_configs - assign_flags_iterator.configuration,
    {
        let ghost entry_configuration = assign_flags_iterator.configuration;
        match assign_flags_iterator.next_assignment() {
            Option::None => {
                proof {
                    assert(sign_assignments(indexes).take(entry_configuration as int)
                        =~= sign_assignments(indexes));
                }
                break ;
            },
            Option::Some(flagged_boolean_indices_vec) => {
                let ghost fv = flagged_boolean_indices_vec@;
                proof {
                    assert forall|i: int| 0 <= i < fv.len() implies 1 <= lit_index(
                        #[trigger] fv[i],
                    ) <= n by {
                        lemma_literal_fields(indexes[i]);
                    }
                    assert forall|i: int, j: int| 0 <= i < j < fv.len() implies lit_index(fv[i])
                        < lit_index(fv[j]) by {
                        lemma_literal_fields(indexes[i]);
                        lemma_literal_fields(indexes[j]);
                    }
                    assert(wf_clause(fv, n));
                    assert(fv =~= sign_assignment(indexes, entry_configuration));
                }
                let ghost before_views = clause_views(universe@);
                literal_subarray_push(universe, flagged_boolean_indices_vec, n, size);
                proof {
                    let done = sign_assignments(indexes).take(entry_configuration + 1);
                    assert(done.subrange(0, entry_configuration as int) =~= sign_assignments(
                        indexes,
                    ).take(entry_configuration as int));
                    assert(done.last() == sign_assignment(indexes, entry_configuration));
                    assert(clause_views(universe@) =~= before_views.push(fv));
                    assert(clause_views(universe@) =~= clause_views(old(universe)@) + done);
                }
            },
        }
    }
}

// Pushes one finished clause of the current size block onto the universe.
fn literal_subarray_push(
    universe: &mut Vec<Vec<u32>>,
    clause: Vec<u32>,
    n: u32,
    size: Ghost<int>,
)
    requires
        wf_clause(clause@, n),
        clause@.len() == size@,
        sized_universe_ok(old(universe)@, n, size@),
    ensures
        sized_universe_ok(final(universe)@, n, size@),
        final(universe)@.len() == old(universe)@.len() + 1,
        final(universe)@ == old(universe)@.push(clause),
{
    universe.push(clause);
}


/// The operands of a top-level conjunction or disjunction.
pub open spec fn top_operands(m: LogicNodeModel) -> Seq<LogicNodeModel> {
    match m {
        LogicNodeModel::Conjunction(operands) => operands,
        LogicNodeModel::Disjunction(operands) => operands,
        _ => Seq::empty(),
    }
}

/// The literals of a clause-shaped operand: a bare literal, or an operator
/// node over literal children.
pub open spec fn operand_literals(m: LogicNodeModel) -> Seq<u32> {
    match m {
        LogicNodeModel::Literal(lit) => seq![lit],
        LogicNodeModel::Conjunction(operands) => operands.map_values(
            |mm: LogicNodeModel| mm->Literal_0,
        ),
        LogicNodeModel::Disjunction(operands) => operands.map_values(
            |mm: LogicNodeModel| mm->Literal_0,
        ),
        _ => Seq::empty(),
    }
}

proof fn lemma_clause_node_literals(c: Seq<u32>)
    requires
        c.len() >= 1,
    ensures
        operand_literals(clause_node(c)) == c,
        operand_literals(dual_of(clause_node(c))) == c,
        clause_node(c) is Literal <==> c.len() == 1,
        dual_of(clause_node(c)) is Literal <==> c.len() == 1,
{
    broadcast use lemma_dual_of_seq;

    if c.len() == 1 {
        assert(operand_literals(clause_node(c)) =~= c);
    } else {
        assert(lit_nodes(c).map_values(|mm: LogicNodeModel| mm->Literal_0) =~= c);
        assert(dual_of_seq(lit_nodes(c)).map_values(|mm: LogicNodeModel| mm->Literal_0) =~= c);
    }
}

/// Every generated operator formula is built over an admissible clause
/// list: the operands stand clause for clause with it.
proof fn lemma_generated_clause_structure(m: LogicNodeModel, n: u32) -> (cs: Seq<Seq<u32>>)
    requires
        generated_shape(m, n),
        m is Disjunction || m is Conjunction,
    ensures
        admissible_clause_list(cs, n),
        cs.len() >= 2,
        top_operands(m).len() == cs.len(),
        forall|k: int|
            0 <= k < cs.len() ==> operand_literals(#[trigger] top_operands(m)[k]) == cs[k],
        forall|k: int| 0 <= k < cs.len() ==> ((#[trigger] top_operands(m)[k]) is Literal <==> cs[k].len() == 1),
{
    broadcast use lemma_dual_of_seq;

    let cs = choose|cs: Seq<Seq<u32>>|
        admissible_clause_list(cs, n) && cs.len() >= 2 && (m == dnf_node(cs) || m == dual_of(
            #[trigger] dnf_node(cs),
        ));
    let ms = cs.map_values(|c: Seq<u32>| clause_node(c));
    if m == dnf_node(cs) {
        assert(top_operands(m) == ms);
        assert forall|k: int| 0 <= k < cs.len() implies operand_literals(
            #[trigger] top_operands(m)[k],
        ) == cs[k] && (top_operands(m)[k] is Literal <==> cs[k].len() == 1) by {
            assert(wf_clause(cs[k], n));
            lemma_clause_node_literals(cs[k]);
        }
    } else {
        assert(m == dual_of(dnf_node(cs)));
        assert(top_operands(m) == dual_of_seq(ms));
        assert forall|k: int| 0 <= k < cs.len() implies operand_literals(
            #[trigger] top_operands(m)[k],
        ) == cs[k] && (top_operands(m)[k] is Literal <==> cs[k].len() == 1) by {
            assert(top_operands(m)[k] == dual_of(ms[k]));
            assert(wf_clause(cs[k], n));
            lemma_clause_node_literals(cs[k]);
        }
    }
    cs
}

/// Unit-contradiction pruning is sound: no generated formula carries both a
/// literal and its negation as top-level operands.
pub proof fn lemma_no_contradictory_units(m: LogicNodeModel, n: u32, i: int, j: int)
    requires
        generated_shape(m, n),
        m is Disjunction || m is Conjunction,
        0 <= i < j < top_operands(m).len(),
    ensures
        !{
            &&& top_operands(m)[i] matches LogicNodeModel::Literal(first)
            &&& top_operands(m)[j] matches LogicNodeModel::Literal(second)
            &&& (first ^ second) == NEGATIVITY_FLAG
        },
{
    let cs = lemma_generated_clause_structure(m, n);
    if top_operands(m)[i] is Literal && top_operands(m)[j] is Literal {
        assert(cs[i].len() == 1 && cs[j].len() == 1);
        assert(operand_literals(top_operands(m)[i]) == cs[i]);
        assert(operand_literals(top_operands(m)[j]) == cs[j]);
        assert(top_operands(m)[i]->Literal_0 == cs[i][0]) by {
            assert(operand_literals(top_operands(m)[i])[0] == cs[i][0]);
        }
        assert(top_operands(m)[j]->Literal_0 == cs[j][0]) by {
            assert(operand_literals(top_operands(m)[j])[0] == cs[j][0]);
        }
        assert((cs[i][0] ^ cs[j][0]) != NEGATIVITY_FLAG);
    }
}

/// Subsumption pruning is sound: among the top-level operands of a
/// generated formula, no strictly shorter clause has all its literals,
/// signs included, inside another.
pub proof fn lemma_no_subsumed_siblings(m: LogicNodeModel, n: u32, i: int, j: int)
    requires
        generated_shape(m, n),
        m is Disjunction || m is Conjunction,
        0 <= i < top_operands(m).len(),
        0 <= j < top_operands(m).len(),
        i != j,
    ensures
        !clause_subsumes(
            operand_literals(top_operands(m)[i]),
            operand_literals(top_operands(m)[j]),
        ),
{
    let cs = lemma_generated_clause_structure(m, n);
    assert(operand_literals(top_operands(m)[i]) == cs[i]);
    assert(operand_literals(top_operands(m)[j]) == cs[j]);
    if i < j {
        assert(!clause_subsumes(cs[i], cs[j]));
    } else {
        assert(cs[j].len() <= cs[i].len());
    }
}

} // verus!
