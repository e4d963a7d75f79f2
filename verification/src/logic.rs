//! Data model for propositional formulas over primary operators.
//! Booleans are numbered from 1 to n; there is no 0 boolean.
use vstd::prelude::*;
use vstd::string::StringExecFns;
use std::collections::HashMap;

verus! {

/// A `TruthValue` of a `LogicFormula` might be unknown (`Unrestricted`), or it
/// might be known that the value is either true (`MustBeTrue`) or false
/// (`MustBeFalse`).
#[derive(Debug, Clone, Copy, PartialEq, Eq, Structural)]
pub enum TruthValue {
    Unrestricted,
    MustBeTrue,
    MustBeFalse,
}

/// The highest order bit of a literal represents whether it is negated.
pub const NEGATIVITY_FLAG: u32 = 1u32 << 31;

/// The remaining bits of a literal hold the variable index.
pub const VARIABLE_INDEX_MASK: u32 = !NEGATIVITY_FLAG;

/// The variable index packed into a literal.
pub open spec fn lit_index(literal: u32) -> u32 {
    literal & VARIABLE_INDEX_MASK
}

/// Whether a literal is positive (not negated).
pub open spec fn lit_positive(literal: u32) -> bool {
    literal & NEGATIVITY_FLAG == 0
}

pub fn get_variable_index(literal: u32) -> (index: u32)
    ensures
        index == lit_index(literal),
{
    literal & VARIABLE_INDEX_MASK
}

pub fn is_positive_literal(literal: u32) -> (positive: bool)
    ensures
        positive == lit_positive(literal),
{
    literal & NEGATIVITY_FLAG == 0
}

/// How the two literal fields relate to the packing of an index and an
/// optional sign flag into one word.
pub proof fn lemma_literal_fields(i: u32)
    by (bit_vector)
    requires
        i < 0x8000_0000u32,
    ensures
        lit_index(i | NEGATIVITY_FLAG) == i,
        !lit_positive(i | NEGATIVITY_FLAG),
        lit_index(i) == i,
        lit_positive(i),
{
}

/// Mathematical model of a formula tree: the same shape as
/// `SimpleLogicNode`, with ghost sequences for the children.
#[verifier::ext_equal]
pub enum LogicNodeModel {
    False,
    True,
    Literal(u32),
    Conjunction(Seq<LogicNodeModel>),
    Disjunction(Seq<LogicNodeModel>),
}

/// A formula tree without secondary operators: constants, literals, and
/// conjunctions and disjunctions of arbitrary arity. Each node owns its
/// children outright.
#[derive(PartialEq, Eq, Debug)]
pub enum SimpleLogicNode {
    False,
    True,
    Literal(u32),
    Conjunction(Vec<SimpleLogicNode>),
    Disjunction(Vec<SimpleLogicNode>),
}

impl View for SimpleLogicNode {
    type V = LogicNodeModel;

    open spec fn view(&self) -> LogicNodeModel
        decreases self,
    {
        match self {
            SimpleLogicNode::False => LogicNodeModel::False,
            SimpleLogicNode::True => LogicNodeModel::True,
            SimpleLogicNode::Literal(lit) => LogicNodeModel::Literal(*lit),
            SimpleLogicNode::Conjunction(operands) => LogicNodeModel::Conjunction(
                views_of_nodes(operands@),
            ),
            SimpleLogicNode::Disjunction(operands) => LogicNodeModel::Disjunction(
                views_of_nodes(operands@),
            ),
        }
    }
}

/// The models of a sequence of formula nodes, element by element.
pub open spec fn views_of_nodes(s: Seq<SimpleLogicNode>) -> Seq<LogicNodeModel>
    decreases s,
{
    if s.len() == 0 {
        Seq::empty()
    } else {
        seq![s[0]@] + views_of_nodes(s.subrange(1, s.len() as int))
    }
}

pub broadcast proof fn lemma_views_of_nodes(s: Seq<SimpleLogicNode>)
    ensures
        (#[trigger] views_of_nodes(s)).len() == s.len(),
        forall|i: int| 0 <= i < s.len() ==> views_of_nodes(s)[i] == s[i]@,
    decreases s,
{
    if s.len() > 0 {
        let rest = s.subrange(1, s.len() as int);
        lemma_views_of_nodes(rest);
        let full = seq![s[0]@] + views_of_nodes(rest);
        assert(views_of_nodes(s) == full);
        assert forall|i: int| 0 <= i < s.len() implies views_of_nodes(s)[i] == s[i]@ by {
            if i > 0 {
                assert(full[i] == views_of_nodes(rest)[i - 1]);
                assert(rest[i - 1] == s[i]);
            } else {
                assert(full[0] == s[0]@);
            }
        }
    }
}

impl Clone for SimpleLogicNode {
    /// A deep copy whose model is the model of the original.
    fn clone(&self) -> (res: Self)
        ensures
            res@ == self@,
    {
        self.duplicate()
    }
}

impl SimpleLogicNode {
    /// A deep copy whose model is the model of the original.
    pub fn duplicate(&self) -> (res: Self)
        ensures
            res@ == self@,
        decreases self,
    {
        broadcast use lemma_views_of_nodes;

        match self {
            SimpleLogicNode::False => SimpleLogicNode::False,
            SimpleLogicNode::True => SimpleLogicNode::True,
            SimpleLogicNode::Literal(lit) => SimpleLogicNode::Literal(*lit),
            SimpleLogicNode::Conjunction(operands) => {
                let copies = duplicate_nodes(operands);
                SimpleLogicNode::Conjunction(copies)
            },
            SimpleLogicNode::Disjunction(operands) => {
                let copies = duplicate_nodes(operands);
                SimpleLogicNode::Disjunction(copies)
            },
        }
    }
}

/// Deep copies of every node in a vector, in order.
fn duplicate_nodes(nodes: &Vec<SimpleLogicNode>) -> (res: Vec<SimpleLogicNode>)
    ensures
        views_of_nodes(res@) == views_of_nodes(nodes@),
    decreases nodes@,
{
    broadcast use lemma_views_of_nodes;

    let mut copies: Vec<SimpleLogicNode> = Vec::new();
    let node_count = nodes.len();
    for i in 0..node_count
        invariant
            node_count == nodes@.len(),
            copies@.len() == i,
            forall|j: int| 0 <= j < i ==> copies@[j]@ == nodes@[j]@,
        decreases nodes@.len() - i,
    {
        proof {
            assert(decreases_to!(nodes@ => nodes@[i as int]));
        }
        let copy = nodes[i].duplicate();
        copies.push(copy);
    }
    proof {
        assert(views_of_nodes(copies@) =~= views_of_nodes(nodes@));
    }
    copies
}

/// The number of binary operators a formula stands for: each conjunction or
/// disjunction node counts once, literals and constants count zero.
pub open spec fn count_ops_model(m: LogicNodeModel) -> nat
    decreases m,
{
    match m {
        LogicNodeModel::False => 0,
        LogicNodeModel::True => 0,
        LogicNodeModel::Literal(_) => 0,
        LogicNodeModel::Conjunction(operands) => 1 + count_ops_seq(operands),
        LogicNodeModel::Disjunction(operands) => 1 + count_ops_seq(operands),
    }
}

/// The total operator count over a sequence of formulas.
pub open spec fn count_ops_seq(s: Seq<LogicNodeModel>) -> nat
    decreases s,
{
    if s.len() == 0 {
        0
    } else {
        count_ops_seq(s.subrange(0, s.len() - 1)) + count_ops_model(s.last())
    }
}

pub proof fn lemma_count_ops_seq_take_le(s: Seq<LogicNodeModel>, i: int)
    requires
        0 <= i <= s.len(),
    ensures
        count_ops_seq(s.take(i)) <= count_ops_seq(s),
    decreases s.len() - i,
{
    if i == s.len() {
        assert(s.take(i) =~= s);
    } else {
        assert(s.take(i + 1).subrange(0, i) =~= s.take(i));
        lemma_count_ops_seq_take_le(s, i + 1);
    }
}

pub proof fn lemma_count_ops_seq_element(s: Seq<LogicNodeModel>, i: int)
    requires
        0 <= i < s.len(),
    ensures
        count_ops_model(s[i]) <= count_ops_seq(s),
{
    assert(s.take(i + 1).subrange(0, i) =~= s.take(i));
    assert(s.take(i + 1).last() == s[i]);
    lemma_count_ops_seq_take_le(s, i + 1);
}

impl SimpleLogicNode {
    /// Counts the number of binary operators in this node and its descendants.
    pub fn count_binary_operators(&self) -> (count: u32)
        requires
            count_ops_model(self@) <= u32::MAX,
        ensures
            count == count_ops_model(self@),
        decreases self,
    {
        broadcast use lemma_views_of_nodes;

        match self {
            SimpleLogicNode::False => 0,
            SimpleLogicNode::True => 0,
            SimpleLogicNode::Literal(_) => 0,
            SimpleLogicNode::Conjunction(operands) => {
                count_operand_ops(operands, Ghost(count_ops_model(self@)))
            },
            SimpleLogicNode::Disjunction(operands) => {
                count_operand_ops(operands, Ghost(count_ops_model(self@)))
            },
        }
    }
}

/// One plus the total operator count of the operand list: the count of the
/// conjunction or disjunction node built over these operands.
fn count_operand_ops(operands: &Vec<SimpleLogicNode>, total: Ghost<nat>) -> (count: u32)
    requires
        total@ == 1 + count_ops_seq(views_of_nodes(operands@)),
        total@ <= u32::MAX,
    ensures
        count == total@,
    decreases operands@,
{
    broadcast use lemma_views_of_nodes;

    let ghost vs = views_of_nodes(operands@);
    let mut count: u32 = 1;
    let operand_count = operands.len();
    for i in 0..operand_count
        invariant
            operand_count == operands@.len(),
            vs == views_of_nodes(operands@),
            vs.len() == operands@.len(),
            total@ == 1 + count_ops_seq(vs),
            total@ <= u32::MAX,
            count == 1 + count_ops_seq(vs.take(i as int)),
        decreases operand_count - i,
    {
        proof {
            assert(vs.take(i + 1).subrange(0, i as int) =~= vs.take(i as int));
            assert(vs.take(i + 1).last() == vs[i as int]);
            lemma_count_ops_seq_take_le(vs, i + 1);
            lemma_count_ops_seq_element(vs, i as int);
            lemma_views_of_nodes(operands@);
            assert(vs[i as int] == operands@[i as int]@);
            assert(decreases_to!(operands@ => operands@[i as int]));
        }
        let operand_ops = operands[i].count_binary_operators();
        count = count + operand_ops;
    }
    proof {
        assert(vs.take(operands@.len() as int) =~= vs);
    }
    count
}

/// Three-valued evaluation of a formula under a partial assignment: a
/// conjunction is false as soon as one conjunct is, true when every conjunct
/// is, and unrestricted otherwise; dually for disjunctions.
pub open spec fn eval_partial(m: LogicNodeModel, vals: Map<u32, bool>) -> TruthValue
    decreases m,
{
    match m {
        LogicNodeModel::False => TruthValue::MustBeFalse,
        LogicNodeModel::True => TruthValue::MustBeTrue,
        LogicNodeModel::Literal(lit) => if !vals.contains_key(lit_index(lit)) {
            TruthValue::Unrestricted
        } else if vals[lit_index(lit)] == lit_positive(lit) {
            TruthValue::MustBeTrue
        } else {
            TruthValue::MustBeFalse
        },
        LogicNodeModel::Conjunction(operands) => if exists|i: int|
            0 <= i < operands.len() && eval_partial(operands[i], vals) is MustBeFalse {
            TruthValue::MustBeFalse
        } else if exists|i: int|
            0 <= i < operands.len() && eval_partial(operands[i], vals) is Unrestricted {
            TruthValue::Unrestricted
        } else {
            TruthValue::MustBeTrue
        },
        LogicNodeModel::Disjunction(operands) => if exists|i: int|
            0 <= i < operands.len() && eval_partial(operands[i], vals) is MustBeTrue {
            TruthValue::MustBeTrue
        } else if exists|i: int|
            0 <= i < operands.len() && eval_partial(operands[i], vals) is Unrestricted {
            TruthValue::Unrestricted
        } else {
            TruthValue::MustBeFalse
        },
    }
}

/// This trait is implemented by any boolean formula. Any boolean formula can
/// be evaluated to produce a `TruthValue` for a given set of truth values.
pub trait LogicFormula {
    /// The truth value this formula takes under a partial assignment.
    spec fn spec_evaluate(&self, truth_values: Map<u32, bool>) -> TruthValue;

    fn evaluate(&self, truth_values: &HashMap<u32, bool>) -> (value: TruthValue)
        ensures
            value == self.spec_evaluate(truth_values@),
    ;
}

impl LogicFormula for SimpleLogicNode {
    open spec fn spec_evaluate(&self, truth_values: Map<u32, bool>) -> TruthValue {
        eval_partial(self@, truth_values)
    }

    fn evaluate(&self, truth_values: &HashMap<u32, bool>) -> (value: TruthValue)
        ensures
            value == self.spec_evaluate(truth_values@),
    {
        evaluate_node(self, truth_values)
    }
}

fn evaluate_node(node: &SimpleLogicNode, truth_values: &HashMap<u32, bool>) -> (value: TruthValue)
    ensures
        value == eval_partial(node@, truth_values@),
    decreases node,
{
    broadcast use lemma_views_of_nodes;

    match node {
        SimpleLogicNode::False => TruthValue::MustBeFalse,
        SimpleLogicNode::True => TruthValue::MustBeTrue,
        SimpleLogicNode::Literal(literal) => evaluate_single_literal(*literal, truth_values),
        SimpleLogicNode::Conjunction(conjunct_vec) => evaluate_conjuncts(
            conjunct_vec,
            truth_values,
        ),
        SimpleLogicNode::Disjunction(disjunct_vec) => evaluate_disjuncts(
            disjunct_vec,
            truth_values,
        ),
    }
}

fn evaluate_conjuncts(
    conjunct_vec: &Vec<SimpleLogicNode>,
    truth_values: &HashMap<u32, bool>,
) -> (value: TruthValue)
    ensures
        value == eval_partial(
            LogicNodeModel::Conjunction(views_of_nodes(conjunct_vec@)),
            truth_values@,
        ),
    decreases conjunct_vec@,
{
    broadcast use lemma_views_of_nodes;

    let ghost vs = views_of_nodes(conjunct_vec@);
    let mut contains_unknown_children: bool = false;
    let conjunct_count = conjunct_vec.len();
    for i in 0..conjunct_count
        invariant
            conjunct_count == conjunct_vec@.len(),
            vs == views_of_nodes(conjunct_vec@),
            vs.len() == conjunct_vec@.len(),
            forall|j: int| 0 <= j < i ==> !(eval_partial(vs[j], truth_values@) is MustBeFalse),
            contains_unknown_children == exists|j: int|
                0 <= j < i && eval_partial(vs[j], truth_values@) is Unrestricted,
        decreases conjunct_count - i,
    {
        proof {
            assert(decreases_to!(conjunct_vec@ => conjunct_vec@[i as int]));
            lemma_views_of_nodes(conjunct_vec@);
            assert(vs[i as int] == conjunct_vec@[i as int]@);
        }
        match evaluate_node(&conjunct_vec[i], truth_values) {
            TruthValue::MustBeTrue => (),
            TruthValue::MustBeFalse => {
                proof {
                    assert(eval_partial(vs[i as int], truth_values@) is MustBeFalse);
                }
                return TruthValue::MustBeFalse;
            },
            TruthValue::Unrestricted => {
                contains_unknown_children = true;
                proof {
                    assert(eval_partial(vs[i as int], truth_values@) is Unrestricted);
                }
            },
        }
    }
    if contains_unknown_children {
        TruthValue::Unrestricted
    } else {
        TruthValue::MustBeTrue
    }
}

fn evaluate_disjuncts(
    disjunct_vec: &Vec<SimpleLogicNode>,
    truth_values: &HashMap<u32, bool>,
) -> (value: TruthValue)
    ensures
        value == eval_partial(
            LogicNodeModel::Disjunction(views_of_nodes(disjunct_vec@)),
            truth_values@,
        ),
    decreases disjunct_vec@,
{
    broadcast use lemma_views_of_nodes;

    let ghost vs = views_of_nodes(disjunct_vec@);
    let mut contains_unknown_children: bool = false;
    let disjunct_count = disjunct_vec.len();
    for i in 0..disjunct_count
        invariant
            disjunct_count == disjunct_vec@.len(),
            vs == views_of_nodes(disjunct_vec@),
            vs.len() == disjunct_vec@.len(),
            forall|j: int| 0 <= j < i ==> !(eval_partial(vs[j], truth_values@) is MustBeTrue),
            contains_unknown_children == exists|j: int|
                0 <= j < i && eval_partial(vs[j], truth_values@) is Unrestricted,
        decreases disjunct_count - i,
    {
        proof {
            assert(decreases_to!(disjunct_vec@ => disjunct_vec@[i as int]));
            lemma_views_of_nodes(disjunct_vec@);
            assert(vs[i as int] == disjunct_vec@[i as int]@);
        }
        match evaluate_node(&disjunct_vec[i], truth_values) {
            TruthValue::MustBeTrue => {
                proof {
                    assert(eval_partial(vs[i as int], truth_values@) is MustBeTrue);
                }
                return TruthValue::MustBeTrue;
            },
            TruthValue::MustBeFalse => (),
            TruthValue::Unrestricted => {
                contains_unknown_children = true;
                proof {
                    assert(eval_partial(vs[i as int], truth_values@) is Unrestricted);
                }
            },
        }
    }
    if contains_unknown_children {
        TruthValue::Unrestricted
    } else {
        TruthValue::MustBeFalse
    }
}

/// Evaluates a single literal against the known truth values.
fn evaluate_single_literal(literal: u32, truth_values: &HashMap<u32, bool>) -> (value: TruthValue)
    ensures
        value == eval_partial(LogicNodeModel::Literal(literal), truth_values@),
{
    broadcast use vstd::std_specs::hash::group_hash_axioms;

    let variable_index = literal & VARIABLE_INDEX_MASK;
    match truth_values.get(&variable_index) {
        Some(known_value) => {
            if *known_value == (literal & NEGATIVITY_FLAG == 0) {
                TruthValue::MustBeTrue
            } else {
                TruthValue::MustBeFalse
            }
        },
        None => TruthValue::Unrestricted,
    }
}


/// Whether every literal in a formula names a variable between 1 and `k`.
pub open spec fn lits_in_range(m: LogicNodeModel, k: int) -> bool
    decreases m,
{
    match m {
        LogicNodeModel::False => true,
        LogicNodeModel::True => true,
        LogicNodeModel::Literal(lit) => 1 <= lit_index(lit) <= k,
        LogicNodeModel::Conjunction(operands) => forall|i: int|
            0 <= i < operands.len() ==> lits_in_range(operands[i], k),
        LogicNodeModel::Disjunction(operands) => forall|i: int|
            0 <= i < operands.len() ==> lits_in_range(operands[i], k),
    }
}


/// The literal bounds of a conjunction or disjunction hold of each operand.
pub proof fn lemma_lits_in_range_children(m: LogicNodeModel, k: int)
    requires
        lits_in_range(m, k),
    ensures
        m matches LogicNodeModel::Conjunction(operands) ==> forall|i: int|
            0 <= i < operands.len() ==> lits_in_range(#[trigger] operands[i], k),
        m matches LogicNodeModel::Disjunction(operands) ==> forall|i: int|
            0 <= i < operands.len() ==> lits_in_range(#[trigger] operands[i], k),
{
    match m {
        LogicNodeModel::Conjunction(operands) => {
            assert(forall|i: int|
                0 <= i < operands.len() ==> lits_in_range(#[trigger] operands[i], k));
        },
        LogicNodeModel::Disjunction(operands) => {
            assert(forall|i: int|
                0 <= i < operands.len() ==> lits_in_range(#[trigger] operands[i], k));
        },
        _ => (),
    }
}

/// The character sequences of a list of variable names.
pub open spec fn name_views(names: Seq<String>) -> Seq<Seq<char>> {
    names.map_values(|name: String| name@)
}

/// The text rendering of a formula: constants render as fixed words, a
/// literal renders as its variable's name with a negation symbol when
/// negated, and an operator node renders its children separated by the
/// operator's symbol, parenthesized when nested and `null` when empty.
pub open spec fn text_of_model(m: LogicNodeModel, names: Seq<Seq<char>>, parenthesize: bool) -> Seq<
    char,
>
    decreases m,
{
    match m {
        LogicNodeModel::False => "FALSE"@,
        LogicNodeModel::True => "TRUE"@,
        LogicNodeModel::Literal(lit) => (if lit_positive(lit) {
            Seq::<char>::empty()
        } else {
            "~"@
        }) + names[lit_index(lit) as int - 1],
        LogicNodeModel::Conjunction(operands) => if operands.len() == 0 {
            "null"@
        } else if parenthesize {
            "("@ + joined_texts(operands, names, "&"@) + ")"@
        } else {
            joined_texts(operands, names, "&"@)
        },
        LogicNodeModel::Disjunction(operands) => if operands.len() == 0 {
            "null"@
        } else if parenthesize {
            "("@ + joined_texts(operands, names, "|"@) + ")"@
        } else {
            joined_texts(operands, names, "|"@)
        },
    }
}

/// The renderings of the formulas in a sequence, each parenthesized,
/// separated by the symbol with one space on either side.
pub open spec fn joined_texts(s: Seq<LogicNodeModel>, names: Seq<Seq<char>>, symbol: Seq<char>) -> Seq<
    char,
>
    decreases s,
{
    if s.len() == 0 {
        Seq::empty()
    } else if s.len() == 1 {
        text_of_model(s[0], names, true)
    } else {
        joined_texts(s.subrange(0, s.len() - 1), names, symbol) + " "@ + symbol + " "@
            + text_of_model(s.last(), names, true)
    }
}

impl SimpleLogicNode {
    /// Gets a text representation of this node, given the names of the
    /// booleans that may appear in it.
    pub fn get_as_text(&self, boolean_name_list: &Vec<String>) -> (text: String)
        requires
            lits_in_range(self@, boolean_name_list@.len() as int),
        ensures
            text@ == text_of_model(self@, name_views(boolean_name_list@), false),
    {
        let mut text: String = String::new();
        self.get_as_text_helper1(&mut text, false, boolean_name_list);
        text
    }

    // Appends the text representation of this node. Mutually recursive with
    // get_as_text_helper2.
    fn get_as_text_helper1(
        &self,
        text: &mut String,
        should_parenthesize: bool,
        boolean_name_list: &Vec<String>,
    )
        requires
            lits_in_range(self@, boolean_name_list@.len() as int),
        ensures
            final(text)@ == old(text)@ + text_of_model(
                self@,
                name_views(boolean_name_list@),
                should_parenthesize,
            ),
        decreases self,
    {
        broadcast use lemma_views_of_nodes;

        let ghost names = name_views(boolean_name_list@);
        match self {
            SimpleLogicNode::False => text.append("FALSE"),
            SimpleLogicNode::True => text.append("TRUE"),
            SimpleLogicNode::Literal(literal) => {
                let ghost entry = text@;
                if *literal & NEGATIVITY_FLAG > 0 {
                    text.append("~");
                }
                let variable_index = *literal & VARIABLE_INDEX_MASK;
                text.append(boolean_name_list[(variable_index - 1) as usize].as_str());
                proof {
                    assert(names[lit_index(*literal) as int - 1] == boolean_name_list@[lit_index(
                        *literal,
                    ) as int - 1]@);
                    assert(text@ =~= entry + text_of_model(self@, names, should_parenthesize));
                }
            },
            SimpleLogicNode::Conjunction(node_vec) => {
                let ghost entry = text@;
                if node_vec.len() == 0 {
                    text.append("null");
                    return ;
                }
                proof {
                    lemma_views_of_nodes(node_vec@);
                    let vs = views_of_nodes(node_vec@);
                    let k = boolean_name_list@.len() as int;
                    lemma_lits_in_range_children(self@, k);
                    assert forall|i: int| 0 <= i < node_vec@.len() implies lits_in_range(
                        node_vec@[i]@,
                        k,
                    ) by {
                        assert(lits_in_range(vs[i], k));
                    }
                }
                if should_parenthesize {
                    text.append("(");
                }
                self.get_as_text_helper2(text, node_vec, "&", boolean_name_list);
                if should_parenthesize {
                    text.append(")");
                }
                proof {
                    assert(text@ =~= entry + text_of_model(self@, names, should_parenthesize));
                }
            },
            SimpleLogicNode::Disjunction(node_vec) => {
                let ghost entry = text@;
                if node_vec.len() == 0 {
                    text.append("null");
                    return ;
                }
                proof {
                    lemma_views_of_nodes(node_vec@);
                    let vs = views_of_nodes(node_vec@);
                    let k = boolean_name_list@.len() as int;
                    lemma_lits_in_range_children(self@, k);
                    assert forall|i: int| 0 <= i < node_vec@.len() implies lits_in_range(
                        node_vec@[i]@,
                        k,
                    ) by {
                        assert(lits_in_range(vs[i], k));
                    }
                }
                if should_parenthesize {
                    text.append("(");
                }
                self.get_as_text_helper2(text, node_vec, "|", boolean_name_list);
                if should_parenthesize {
                    text.append(")");
                }
                proof {
                    assert(text@ =~= entry + text_of_model(self@, names, should_parenthesize));
                }
            },
        }
    }

    // Appends the renderings of the nodes in the vector, separated by the
    // symbol. Mutually recursive with get_as_text_helper1.
    fn get_as_text_helper2(
        &self,
        text: &mut String,
        node_vec: &Vec<SimpleLogicNode>,
        symbol_text: &str,
        boolean_name_list: &Vec<String>,
    )
        requires
            forall|i: int|
                0 <= i < node_vec@.len() ==> lits_in_range(
                    node_vec@[i]@,
                    boolean_name_list@.len() as int,
                ),
        ensures
            final(text)@ == old(text)@ + joined_texts(
                views_of_nodes(node_vec@),
                name_views(boolean_name_list@),
                symbol_text@,
            ),
        decreases node_vec@,
    {
        broadcast use lemma_views_of_nodes;

        let ghost names = name_views(boolean_name_list@);
        let ghost vs = views_of_nodes(node_vec@);
        let ghost entry = text@;
        let clause_count = node_vec.len();
        for i in 0..clause_count
            invariant
                clause_count == node_vec@.len(),
                vs == views_of_nodes(node_vec@),
                vs.len() == node_vec@.len(),
                names == name_views(boolean_name_list@),
                forall|j: int|
                    0 <= j < node_vec@.len() ==> lits_in_range(
                        node_vec@[j]@,
                        boolean_name_list@.len() as int,
                    ),
                text@ == entry + joined_texts(vs.take(i as int), names, symbol_text@),
            decreases clause_count - i,
        {
            proof {
                lemma_views_of_nodes(node_vec@);
                assert(vs[i as int] == node_vec@[i as int]@);
                assert(decreases_to!(node_vec@ => node_vec@[i as int]));
            }
            if i > 0 {
                text.append(" ");
                text.append(symbol_text);
                text.append(" ");
            }
            node_vec[i].get_as_text_helper1(text, true, boolean_name_list);
            proof {
                let upto = vs.take(i + 1);
                assert(upto.subrange(0, i as int) =~= vs.take(i as int));
                assert(upto.last() == vs[i as int]);
                assert(text@ =~= entry + joined_texts(upto, names, symbol_text@));
            }
        }
        proof {
            assert(vs.take(node_vec@.len() as int) =~= vs);
        }
    }
}

} // verus!
