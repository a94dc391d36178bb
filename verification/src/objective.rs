//! What the objective of the linear program says of the selection that a
//! solution stands for: its value is the cost of the chosen nodes of all
//! used classes, up to a constant of the graph.

use crate::extraction_result::ExtractionResult;
use crate::graph::{ClassId, EGraph, NodeId};
use crate::ilp_cbc::{
    all_rows, class_min, class_priced, class_row_weights, class_rows, count_on, decoded,
    first_column, first_on, lemma_class_row_value, lemma_count_on,
    lemma_first_on_exists, lemma_layout_ranges, node_priced, on, rows_view, true_literal_charge,
    ClassVars, Formulation, TRUE_LITERAL,
};
use crate::linear_model::{
    objective_upto, objective_value, row_holds, rows_hold, Col, Column, Row, RowKind,
};
use vstd::prelude::*;

verus! {

/// The row that ties class `c` to its nodes stands in the rows of the first
/// `n` classes, right after the rows of the classes before `c`.
pub proof fn lemma_class_row_position(egraph: &EGraph, vars: Seq<ClassVars>, c: int, n: nat)
    requires
        0 <= c < n,
    ensures
        all_rows(egraph, vars, c as nat).len() < all_rows(egraph, vars, n).len(),
        all_rows(egraph, vars, n)[all_rows(egraph, vars, c as nat).len() as int] == (
            RowKind::Equal,
            class_row_weights(vars[c].active, vars[c].nodes@),
        ),
    decreases n,
{
    let before = all_rows(egraph, vars, (n - 1) as nat);
    let rows = class_rows(egraph, vars, n - 1);
    assert(rows.len() >= 1);
    assert(rows[0] == (
        RowKind::Equal,
        class_row_weights(vars[n - 1].active, vars[n - 1].nodes@),
    ));
    if c == n - 1 {
        assert(all_rows(egraph, vars, n)[before.len() as int] == rows[0]);
    } else {
        lemma_class_row_position(egraph, vars, c, (n - 1) as nat);
    }
}

/// Under a solution a used class has exactly one chosen node, and a class
/// that is not used has none.
pub proof fn lemma_one_node_chosen(
    egraph: &EGraph,
    vars: Seq<ClassVars>,
    rows: Seq<Row>,
    x: Seq<bool>,
    c: int,
)
    requires
        rows_view(rows) == all_rows(egraph, vars, egraph.classes@.len()),
        rows_hold(rows, x),
        0 <= c < egraph.classes@.len(),
    ensures
        count_on(x, vars[c].nodes@) == if on(x, vars[c].active) {
            1int
        } else {
            0int
        },
{
    lemma_class_row_position(egraph, vars, c, egraph.classes@.len());
    let r = all_rows(egraph, vars, c as nat).len() as int;
    assert(rows_view(rows)[r] == (rows[r].kind, rows[r].weights@));
    assert(row_holds(&rows[r], x));
    lemma_class_row_value(vars[c].active, vars[c].nodes@, x);
}

/// What the columns `cols` add to the objective under `x`.
pub open spec fn charge_on(columns: Seq<Column>, x: Seq<bool>, cols: Seq<Col>) -> int
    decreases cols.len(),
{
    if cols.len() == 0 {
        0
    } else {
        charge_on(columns, x, cols.drop_last()) + if on(x, cols.last()) {
            columns[cols.last() as int].objective as int
        } else {
            0
        }
    }
}

/// Columns of which none is 1 add nothing.
pub proof fn lemma_charge_none(columns: Seq<Column>, x: Seq<bool>, cols: Seq<Col>)
    requires
        count_on(x, cols) == 0,
    ensures
        charge_on(columns, x, cols) == 0,
    decreases cols.len(),
{
    if cols.len() > 0 {
        lemma_count_on(x, cols.drop_last());
        lemma_charge_none(columns, x, cols.drop_last());
    }
}

/// Columns of which one is 1 add the charge of that column.
pub proof fn lemma_charge_one(columns: Seq<Column>, x: Seq<bool>, cols: Seq<Col>, i: int)
    requires
        count_on(x, cols) == 1,
        0 <= i < cols.len(),
        on(x, cols[i]),
    ensures
        charge_on(columns, x, cols) == columns[cols[i] as int].objective,
    decreases cols.len(),
{
    let rest = cols.drop_last();
    lemma_count_on(x, rest);
    if i == cols.len() - 1 {
        lemma_charge_none(columns, x, rest);
    } else {
        assert(on(x, rest[i]));
        lemma_charge_one(columns, x, rest, i);
    }
}

/// Columns that are numbered in a row from `a` add what the objective
/// gains over that stretch.
pub proof fn lemma_charge_of_stretch(columns: Seq<Column>, x: Seq<bool>, cols: Seq<Col>, a: nat)
    requires
        forall|i: int| 0 <= i < cols.len() ==> #[trigger] cols[i] == a + i,
    ensures
        objective_upto(columns, x, a + cols.len()) == objective_upto(columns, x, a) + charge_on(
            columns,
            x,
            cols,
        ),
    decreases cols.len(),
{
    if cols.len() > 0 {
        let rest = cols.drop_last();
        assert forall|i: int| 0 <= i < rest.len() implies #[trigger] rest[i] == a + i by {
            assert(rest[i] == cols[i]);
        }
        lemma_charge_of_stretch(columns, x, rest, a);
        assert(cols.last() == cols[cols.len() - 1]);
        assert(cols.last() == a + cols.len() - 1);
    }
}

/// The least costs of the root classes among the first `n` classes, added
/// up. The objective charges a root class nothing for being used, so the
/// objective falls short of the cost by this much.
pub open spec fn root_discount(egraph: &EGraph, roots: Seq<ClassId>, n: nat) -> int
    decreases n,
{
    if n == 0 {
        0
    } else {
        root_discount(egraph, roots, (n - 1) as nat) + if roots.contains((n - 1) as ClassId) {
            class_min(egraph, n - 1, egraph.classes@[n - 1].nodes@.len()) as int
        } else {
            0
        }
    }
}

impl Formulation {
    /// The program is the one that belongs to `egraph` and `roots`: its
    /// solutions stand for valid selections, its columns are laid out and
    /// charged as the objective says, and its rows are those of the
    /// classes, in their order.
    pub open spec fn exact_for(&self, egraph: &EGraph, roots: Seq<ClassId>) -> bool {
        &&& self.sound_for(egraph, roots)
        &&& self.priced_for(egraph, roots)
        &&& rows_view(self.model.rows@) == all_rows(egraph, self.vars@, egraph.classes@.len())
    }

    /// The cost that the objective stands for under `x`: its value, with
    /// what root classes were not charged, and without what the column
    /// fixed to 1 was charged.
    pub open spec fn cost_under(&self, egraph: &EGraph, roots: Seq<ClassId>, x: Seq<bool>) -> int {
        objective_value(self.model.columns@, x) + root_discount(
            egraph,
            roots,
            egraph.classes@.len(),
        ) - true_literal_charge(egraph, roots, egraph.classes@.len())
    }
}

/// The own costs of the nodes that `choices` gives the classes of `s` with
/// an id below `n`, added up.
pub open spec fn chosen_sum(
    egraph: &EGraph,
    choices: Map<ClassId, NodeId>,
    s: Set<ClassId>,
    n: nat,
) -> int
    decreases n,
{
    if n == 0 {
        0
    } else {
        chosen_sum(egraph, choices, s, (n - 1) as nat) + if s.contains((n - 1) as ClassId) {
            egraph.nodes@[choices[(n - 1) as ClassId] as int].cost as int
        } else {
            0
        }
    }
}

/// The sum depends only on the choices for the classes of `s`.
pub proof fn lemma_chosen_sum_agrees(
    egraph: &EGraph,
    first: Map<ClassId, NodeId>,
    second: Map<ClassId, NodeId>,
    s: Set<ClassId>,
    n: nat,
)
    requires
        forall|c: ClassId| s.contains(c) ==> first[c] == second[c],
    ensures
        chosen_sum(egraph, first, s, n) == chosen_sum(egraph, second, s, n),
    decreases n,
{
    if n > 0 {
        lemma_chosen_sum_agrees(egraph, first, second, s, (n - 1) as nat);
    }
}

impl ExtractionResult {
    /// The cost of the selection: the own costs of the chosen nodes of all
    /// classes with a choice.
    pub open spec fn selection_cost(&self, egraph: &EGraph) -> int {
        self.sum_below(egraph, self@.dom(), egraph.classes@.len())
    }

    /// The sum over the chosen nodes is the sum over the choices.
    pub proof fn lemma_sum_below_is_chosen_sum(&self, egraph: &EGraph, s: Set<ClassId>, n: nat)
        ensures
            self.sum_below(egraph, s, n) == chosen_sum(egraph, self@, s, n),
        decreases n,
    {
        if n > 0 {
            self.lemma_sum_below_is_chosen_sum(egraph, s, (n - 1) as nat);
        }
    }
}

/// Up to the columns of the first `c` classes, the objective under a
/// solution is the cost of the chosen nodes of the used classes among them,
/// less what root classes were not charged, and with the charge of the
/// column fixed to 1.
#[verifier::rlimit(80)]
pub proof fn lemma_objective_upto_class(
    f: &Formulation,
    egraph: &EGraph,
    roots: Seq<ClassId>,
    x: Seq<bool>,
    c: nat,
)
    requires
        egraph.well_formed(),
        f.exact_for(egraph, roots),
        f.model.holds(x),
        c <= egraph.classes@.len(),
    ensures
        objective_upto(f.model.columns@, x, first_column(egraph, roots, c as int) as nat)
            + root_discount(egraph, roots, c) == f.model.columns@[TRUE_LITERAL as int].objective
            + chosen_sum(
            egraph,
            decoded(egraph, f.vars@, x),
            decoded(egraph, f.vars@, x).dom(),
            c,
        ),
    decreases c,
{
    let columns = f.model.columns@;
    let vars = f.vars@;
    let choices = decoded(egraph, vars, x);
    if c == 0 {
        assert(first_column(egraph, roots, 0) == 1);
        assert(objective_upto(columns, x, 0) == 0);
        assert(columns[0].forced_on);
        assert(x[0]);
    } else {
        let b = (c - 1) as int;
        lemma_objective_upto_class(f, egraph, roots, x, (c - 1) as nat);
        lemma_layout_ranges(egraph, roots, vars, b);
        let a = first_column(egraph, roots, b) as nat;
        let is_root = roots.contains(b as ClassId);
        let off: nat = if is_root { 0 } else { 1 };
        let nodes = vars[b].nodes@;
        let least = class_min(egraph, b, egraph.classes@[b].nodes@.len());
        assert(class_priced(egraph, roots, vars, columns, b));
        assert(first_column(egraph, roots, c as int) == a + off + nodes.len());
        assert(objective_upto(columns, x, a + off) == objective_upto(columns, x, a) + if !is_root
            && on(x, vars[b].active) {
            least as int
        } else {
            0
        }) by {
            if !is_root {
                assert(vars[b].active == a);
            }
        }
        assert forall|i: int| 0 <= i < nodes.len() implies #[trigger] nodes[i] == a + off + i by {}
        lemma_charge_of_stretch(columns, x, nodes, a + off);
        lemma_one_node_chosen(egraph, vars, f.model.rows@, x, b);
        if is_root {
            let r = choose|r: int| 0 <= r < roots.len() && roots[r] == b as ClassId;
            assert(f.vars@[roots[r] as int].active == TRUE_LITERAL);
            assert(columns[0].forced_on);
            assert(on(x, vars[b].active));
        }
        if on(x, vars[b].active) {
            lemma_count_on(x, nodes);
            let some = choose|i: int| 0 <= i < nodes.len() && on(x, #[trigger] nodes[i]);
            lemma_first_on_exists(x, nodes, some);
            let first = first_on(x, nodes);
            lemma_charge_one(columns, x, nodes, first);
            assert(node_priced(egraph, vars, columns, b, first));
            assert(choices.dom().contains(b as ClassId));
            assert(choices[b as ClassId] == egraph.classes@[b].nodes@[first]);
        } else {
            lemma_charge_none(columns, x, nodes);
            assert(!choices.dom().contains(b as ClassId));
        }
    }
}

/// Under a solution, the cost that the objective stands for is the cost of
/// the choices that the solution stands for.
pub proof fn lemma_objective_is_chosen_sum(
    f: &Formulation,
    egraph: &EGraph,
    roots: Seq<ClassId>,
    x: Seq<bool>,
)
    requires
        egraph.well_formed(),
        f.exact_for(egraph, roots),
        f.model.holds(x),
    ensures
        f.cost_under(egraph, roots, x) == chosen_sum(
            egraph,
            decoded(egraph, f.vars@, x),
            decoded(egraph, f.vars@, x).dom(),
            egraph.classes@.len(),
        ),
{
    lemma_objective_upto_class(f, egraph, roots, x, egraph.classes@.len());
}

/// Under a solution, the cost that the objective stands for is the cost of
/// the selection that the solution stands for.
pub proof fn lemma_objective_is_cost(
    f: &Formulation,
    egraph: &EGraph,
    roots: Seq<ClassId>,
    x: Seq<bool>,
    result: &ExtractionResult,
)
    requires
        egraph.well_formed(),
        f.exact_for(egraph, roots),
        f.model.holds(x),
        result@ == decoded(egraph, f.vars@, x),
    ensures
        result.selection_cost(egraph) == f.cost_under(egraph, roots, x),
{
    lemma_objective_is_chosen_sum(f, egraph, roots, x);
    result.lemma_sum_below_is_chosen_sum(egraph, result@.dom(), egraph.classes@.len());
}

/// Of two solutions, the one with the smaller objective stands for the
/// selection of the smaller cost: minimizing the objective minimizes the
/// cost.
pub proof fn lemma_objective_orders_costs(
    f: &Formulation,
    egraph: &EGraph,
    roots: Seq<ClassId>,
    x: Seq<bool>,
    y: Seq<bool>,
    of_x: &ExtractionResult,
    of_y: &ExtractionResult,
)
    requires
        egraph.well_formed(),
        f.exact_for(egraph, roots),
        f.model.holds(x),
        f.model.holds(y),
        of_x@ == decoded(egraph, f.vars@, x),
        of_y@ == decoded(egraph, f.vars@, y),
    ensures
        objective_value(f.model.columns@, x) <= objective_value(f.model.columns@, y)
            <==> of_x.selection_cost(egraph) <= of_y.selection_cost(egraph),
{
    lemma_objective_is_cost(f, egraph, roots, x, of_x);
    lemma_objective_is_cost(f, egraph, roots, y, of_y);
}

/// The DAG cost of a selection that holds the roots and all they depend on
/// is at most the cost of the whole selection.
pub proof fn lemma_dag_cost_within_selection(
    result: &ExtractionResult,
    egraph: &EGraph,
    roots: Seq<ClassId>,
)
    requires
        result.covers(egraph, roots, result@.dom()),
    ensures
        result.dag_cost_spec(egraph, roots) <= result.selection_cost(egraph),
{
    let n = egraph.classes@.len() as nat;
    let reach = result.reachable(egraph, roots);
    assert forall|c: ClassId| reach.contains(c) implies result@.dom().contains(c) by {
        assert(result.reaches(egraph, roots, c));
    }
    result.lemma_sum_below_subset(egraph, reach, result@.dom(), n);
    result.lemma_sum_below_nonnegative(egraph, reach, n);
}

} // verus!
