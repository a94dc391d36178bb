//! Exact extraction as a 0/1 linear program.
//!
//! The program has one column per class ("the class is used") and one per
//! node ("the node is chosen"). The library writes the program down and
//! reads a solution back; solving it is left to a solver outside.

use crate::col_sets::{col_entries, cols_contains, cols_insert, cols_listed, cols_new};
use crate::cycle_breaking::{
    all_on_cycle, all_valid, bans_by, breaks_cycles, find_cycles, listed_in_order, pair_node,
    valid_pair,
};
use crate::derivation::placed_by_passes;
use crate::extraction_result::ExtractionResult;
use crate::graph::{Class, ClassId, Cost, EGraph, Node, NodeId};
use crate::linear_model::{row_holds, row_value, rows_hold, Col, Column, Model, Row, RowKind};
use crate::objective::{lemma_dag_cost_within_selection, lemma_objective_is_cost};
use indexmap::IndexSet;
use std::collections::hash_map::RandomState;
use vstd::prelude::*;

verus! {

/// Extraction by an exact 0/1 linear program.
pub struct CbcExtractor;

/// The columns that belong to one class.
pub struct ClassVars {
    /// The column that says whether the class is used.
    pub active: Col,
    /// For each node of the class, the column that says whether the node is
    /// chosen.
    pub nodes: Vec<Col>,
}

/// The linear program for one graph and one set of roots, with what is
/// needed to read a solution back.
pub struct Formulation {
    pub model: Model,
    /// The columns of each class.
    pub vars: Vec<ClassVars>,
    /// The nodes that are fixed to "not chosen" to rule out cycles.
    pub banned: Vec<(ClassId, usize)>,
}

/// The column that is fixed to 1. It stands for "is used" of every root.
pub const TRUE_LITERAL: Col = 0;

/// Column `col` is 1 under `x`.
pub open spec fn on(x: Seq<bool>, col: Col) -> bool {
    col < x.len() && x[col as int]
}

/// Whenever the rows hold and column `p` is 1, column `q` is 1.
pub open spec fn entails(rows: Seq<Row>, p: Col, q: Col) -> bool {
    forall|x: Seq<bool>| #[trigger] rows_hold(rows, x) && on(x, p) ==> on(x, q)
}

/// Whenever the rows hold and column `a` is 1, one of `cols` is 1.
pub open spec fn covered(rows: Seq<Row>, a: Col, cols: Seq<Col>) -> bool {
    forall|x: Seq<bool>| #[trigger]
        rows_hold(rows, x) && on(x, a) ==> exists|i: int|
            0 <= i < cols.len() && on(x, #[trigger] cols[i])
}

/// The "is used" column of the class of child `k` of node `n`.
pub open spec fn child_col(egraph: &EGraph, vars: Seq<ClassVars>, n: NodeId, k: int) -> Col {
    vars[egraph.child_class(n as int, k) as int].active
}

/// `col` is the "is used" column of the class of some child of node `n`.
pub open spec fn is_child_col(egraph: &EGraph, vars: Seq<ClassVars>, n: NodeId, col: Col) -> bool {
    exists|k: int|
        0 <= k < egraph.nodes@[n as int].children@.len() && col == #[trigger] child_col(
            egraph,
            vars,
            n,
            k,
        )
}

/// There is one entry of columns for each class, with one column for each
/// node of the class; node columns are not the column fixed to 1.
pub open spec fn vars_fit(egraph: &EGraph, vars: Seq<ClassVars>) -> bool {
    &&& vars.len() == egraph.classes@.len()
    &&& forall|c: int|
        0 <= c < vars.len() ==> (#[trigger] vars[c]).nodes@.len()
            == egraph.classes@[c].nodes@.len()
    &&& forall|c: int, i: int|
        0 <= c < vars.len() && 0 <= i < vars[c].nodes@.len() ==> (#[trigger] vars[c].nodes@[i])
            != TRUE_LITERAL
}

/// The rows say of class `c` what the program means: a used class has a
/// chosen node, a chosen node makes its class used, and a chosen node makes
/// the classes of its children used.
pub open spec fn class_encoded(
    egraph: &EGraph,
    vars: Seq<ClassVars>,
    rows: Seq<Row>,
    c: int,
) -> bool {
    &&& covered(rows, vars[c].active, vars[c].nodes@)
    &&& forall|i: int|
        0 <= i < vars[c].nodes@.len() ==> entails(rows, #[trigger] vars[c].nodes@[i], vars[c].active)
    &&& forall|i: int, k: int|
        0 <= i < vars[c].nodes@.len() && 0 <= k
            < egraph.nodes@[egraph.classes@[c].nodes@[i] as int].children@.len() ==> entails(
            rows,
            vars[c].nodes@[i],
            #[trigger] child_col(egraph, vars, egraph.classes@[c].nodes@[i], k),
        )
}

/// The position of the first column of `cols` that is 1 under `x`.
pub open spec fn first_on(x: Seq<bool>, cols: Seq<Col>) -> int
    decreases cols.len(),
{
    if cols.len() == 0 {
        0
    } else if on(x, cols[0]) {
        0
    } else {
        1 + first_on(x, cols.drop_first())
    }
}

/// The selection that the assignment `x` stands for: each used class with
/// the first of its nodes that `x` marks as chosen.
pub open spec fn decoded(egraph: &EGraph, vars: Seq<ClassVars>, x: Seq<bool>) -> Map<
    ClassId,
    NodeId,
> {
    Map::new(
        |c: ClassId| c < vars.len() && on(x, vars[c as int].active),
        |c: ClassId| egraph.classes@[c as int].nodes@[first_on(x, vars[c as int].nodes@)],
    )
}

impl Formulation {
    /// Every solution of the program stands for a selection that is valid
    /// from `roots`: the roots are used, a used class has a chosen node, a
    /// chosen node makes the classes of its children used, no banned node
    /// is chosen, and the nodes that are not banned can form no cycle.
    pub open spec fn sound_for(&self, egraph: &EGraph, roots: Seq<ClassId>) -> bool {
        &&& vars_fit(egraph, self.vars@)
        &&& all_valid(egraph, self.banned@)
        &&& exists|rank: spec_fn(ClassId) -> nat| breaks_cycles(egraph, self.banned@, rank)
        &&& forall|c: int|
            0 <= c < egraph.classes@.len() ==> #[trigger] class_encoded(
                egraph,
                self.vars@,
                self.model.rows@,
                c,
            )
        &&& forall|r: int|
            0 <= r < roots.len() ==> roots[r] < egraph.classes@.len() && (
            #[trigger] self.vars@[roots[r] as int]).active == TRUE_LITERAL
        &&& self.model.columns@.len() > 0
        &&& self.model.columns@[TRUE_LITERAL as int].forced_on
        &&& forall|w: int|
            0 <= w < self.banned@.len() ==> self.model.columns@[self.vars@[(
            #[trigger] self.banned@[w]).0 as int].nodes@[self.banned@[w].1 as int] as int].forced_off
        &&& forall|c: int, i: int|
            0 <= c < self.vars@.len() && 0 <= i < self.vars@[c].nodes@.len() ==> (
            #[trigger] self.vars@[c].nodes@[i]) < self.model.columns@.len()
        &&& forall|c: int|
            0 <= c < self.vars@.len() ==> (#[trigger] self.vars@[c]).active
                < self.model.columns@.len()
    }
}

/// A row holds with the rows it was added to if all of them hold.
pub proof fn lemma_rows_hold_push(rows: Seq<Row>, row: Row, x: Seq<bool>)
    ensures
        rows_hold(rows.push(row), x) <==> rows_hold(rows, x) && row_holds(&row, x),
{
    let all = rows.push(row);
    if rows_hold(all, x) {
        assert forall|r: int| 0 <= r < rows.len() implies row_holds(#[trigger] &rows[r], x) by {
            assert(all[r] == rows[r]);
            assert(row_holds(&all[r], x));
        }
        assert(all[rows.len() as int] == row);
        assert(row_holds(&all[rows.len() as int], x));
    }
    if rows_hold(rows, x) && row_holds(&row, x) {
        assert forall|r: int| 0 <= r < all.len() implies row_holds(#[trigger] &all[r], x) by {
            if r < rows.len() {
                assert(all[r] == rows[r]);
                assert(row_holds(&rows[r], x));
            }
        }
    }
}

/// A row `p - q <= 0` makes `q` follow from `p`.
pub proof fn lemma_implication_row(rows: Seq<Row>, row: Row, p: Col, q: Col)
    requires
        row.kind == RowKind::AtMost,
        row.weights@ == seq![(p, 1i8), (q, -1i8)],
    ensures
        entails(rows.push(row), p, q),
{
    let all = rows.push(row);
    assert forall|x: Seq<bool>| #[trigger] rows_hold(all, x) && on(x, p) implies on(x, q) by {
        lemma_rows_hold_push(rows, row, x);
        let w = row.weights@;
        assert(w.drop_last() =~= seq![(p, 1i8)]);
        assert(w.drop_last().drop_last() =~= Seq::<(Col, i8)>::empty());
        assert(row_value(w.drop_last().drop_last(), x) == 0);
        assert(row_value(w.drop_last(), x) == 1);
    }
}

/// Entailment chains.
pub proof fn lemma_entails_chain(rows: Seq<Row>, p: Col, q: Col, s: Col)
    requires
        entails(rows, p, q),
        entails(rows, q, s),
    ensures
        entails(rows, p, s),
{
}

/// The weights of the row that ties a class to its nodes: -1 for the class
/// column, then 1 for each node column.
pub open spec fn class_row_weights(active: Col, cols: Seq<Col>) -> Seq<(Col, i8)>
    decreases cols.len(),
{
    if cols.len() == 0 {
        seq![(active, -1i8)]
    } else {
        class_row_weights(active, cols.drop_last()).push((cols.last(), 1i8))
    }
}

/// The number of columns of `cols` that are 1 under `x`.
pub open spec fn count_on(x: Seq<bool>, cols: Seq<Col>) -> int
    decreases cols.len(),
{
    if cols.len() == 0 {
        0
    } else {
        count_on(x, cols.drop_last()) + if on(x, cols.last()) {
            1int
        } else {
            0int
        }
    }
}

/// The count is positive exactly if some column is 1.
pub proof fn lemma_count_on(x: Seq<bool>, cols: Seq<Col>)
    ensures
        count_on(x, cols) >= 0,
        count_on(x, cols) > 0 <==> exists|i: int| 0 <= i < cols.len() && on(x, #[trigger] cols[i]),
    decreases cols.len(),
{
    if cols.len() > 0 {
        let rest = cols.drop_last();
        lemma_count_on(x, rest);
        if count_on(x, rest) > 0 {
            let i = choose|i: int| 0 <= i < rest.len() && on(x, #[trigger] rest[i]);
            assert(on(x, cols[i]));
        }
        if on(x, cols.last()) {
            assert(on(x, cols[cols.len() - 1]));
        }
        if exists|i: int| 0 <= i < cols.len() && on(x, #[trigger] cols[i]) {
            let i = choose|i: int| 0 <= i < cols.len() && on(x, #[trigger] cols[i]);
            if i < rest.len() {
                assert(on(x, rest[i]));
            }
        }
    }
}

/// The value of the row that ties a class to its nodes is the number of
/// chosen nodes, less one if the class is used.
pub proof fn lemma_class_row_value(active: Col, cols: Seq<Col>, x: Seq<bool>)
    ensures
        row_value(class_row_weights(active, cols), x) == count_on(x, cols) - if on(x, active) {
            1int
        } else {
            0int
        },
    decreases cols.len(),
{
    let w = class_row_weights(active, cols);
    if cols.len() == 0 {
        assert(w.drop_last() =~= Seq::<(Col, i8)>::empty());
        assert(w.last() == (active, -1i8));
        assert(row_value(w.drop_last(), x) == 0);
    } else {
        let rest = cols.drop_last();
        lemma_class_row_value(active, rest, x);
        assert(w.drop_last() =~= class_row_weights(active, rest));
        assert(w.last() == (cols.last(), 1i8));
    }
}

/// The row that ties a class to its nodes makes a used class have a chosen
/// node, and a chosen node make its class used.
pub proof fn lemma_class_row(rows: Seq<Row>, row: Row, active: Col, cols: Seq<Col>)
    requires
        row.kind == RowKind::Equal,
        row.weights@ == class_row_weights(active, cols),
    ensures
        covered(rows.push(row), active, cols),
        forall|i: int| 0 <= i < cols.len() ==> entails(rows.push(row), #[trigger] cols[i], active),
{
    let all = rows.push(row);
    assert forall|x: Seq<bool>| #[trigger] rows_hold(all, x) && on(x, active) implies exists|i: int|
        0 <= i < cols.len() && on(x, #[trigger] cols[i]) by {
        lemma_rows_hold_push(rows, row, x);
        lemma_class_row_value(active, cols, x);
        lemma_count_on(x, cols);
    }
    assert forall|i: int| 0 <= i < cols.len() implies entails(
        all,
        #[trigger] cols[i],
        active,
    ) by {
        assert forall|x: Seq<bool>| #[trigger] rows_hold(all, x) && on(x, cols[i]) implies on(
            x,
            active,
        ) by {
            lemma_rows_hold_push(rows, row, x);
            lemma_class_row_value(active, cols, x);
            lemma_count_on(x, cols);
        }
    }
}

/// `big` starts with the rows of `small`.
pub open spec fn extends(big: Seq<Row>, small: Seq<Row>) -> bool {
    small.len() <= big.len() && forall|r: int| 0 <= r < small.len() ==> big[r] == small[r]
}

/// If more rows hold, fewer rows hold.
pub proof fn lemma_rows_hold_extends(big: Seq<Row>, small: Seq<Row>, x: Seq<bool>)
    requires
        extends(big, small),
        rows_hold(big, x),
    ensures
        rows_hold(small, x),
{
    assert forall|r: int| 0 <= r < small.len() implies row_holds(#[trigger] &small[r], x) by {
        assert(row_holds(&big[r], x));
    }
}

/// What fewer rows entail, more rows entail.
pub proof fn lemma_entails_extends(big: Seq<Row>, small: Seq<Row>, p: Col, q: Col)
    requires
        extends(big, small),
        entails(small, p, q),
    ensures
        entails(big, p, q),
{
    assert forall|x: Seq<bool>| #[trigger] rows_hold(big, x) && on(x, p) implies on(x, q) by {
        lemma_rows_hold_extends(big, small, x);
    }
}

/// What fewer rows say of a class, more rows say.
#[verifier::rlimit(60)]
pub proof fn lemma_class_encoded_extends(
    egraph: &EGraph,
    vars: Seq<ClassVars>,
    big: Seq<Row>,
    small: Seq<Row>,
    c: int,
)
    requires
        extends(big, small),
        class_encoded(egraph, vars, small, c),
    ensures
        class_encoded(egraph, vars, big, c),
{
    assert(covered(big, vars[c].active, vars[c].nodes@)) by {
        assert forall|x: Seq<bool>| #[trigger] rows_hold(big, x) && on(x, vars[c].active) implies exists|
            i: int,
        |
            0 <= i < vars[c].nodes@.len() && on(x, #[trigger] vars[c].nodes@[i]) by {
            lemma_rows_hold_extends(big, small, x);
        }
    }
    assert forall|i: int| 0 <= i < vars[c].nodes@.len() implies entails(
        big,
        #[trigger] vars[c].nodes@[i],
        vars[c].active,
    ) by {
        lemma_entails_extends(big, small, vars[c].nodes@[i], vars[c].active);
    }
    assert forall|i: int, k: int|
        0 <= i < vars[c].nodes@.len() && 0 <= k
            < egraph.nodes@[egraph.classes@[c].nodes@[i] as int].children@.len() implies entails(
        big,
        vars[c].nodes@[i],
        #[trigger] child_col(egraph, vars, egraph.classes@[c].nodes@[i], k),
    ) by {
        lemma_entails_extends(
            big,
            small,
            vars[c].nodes@[i],
            child_col(egraph, vars, egraph.classes@[c].nodes@[i], k),
        );
    }
}

/// Whether `c` is among `roots`.
pub fn contains_class(roots: &[ClassId], c: ClassId) -> (found: bool)
    ensures
        found == roots@.contains(c),
{
    let mut i: usize = 0;
    while i < roots.len()
        invariant
            i <= roots@.len(),
            forall|j: int| 0 <= j < i ==> roots@[j] != c,
        decreases roots@.len() - i,
    {
        if roots[i] == c {
            return true;
        }
        i += 1;
    }
    false
}

/// What a row says: how its sum compares with zero, and the columns of the
/// sum with their weights.
pub type RowView = (RowKind, Seq<(Col, i8)>);

/// What the rows say, row by row.
pub open spec fn rows_view(rows: Seq<Row>) -> Seq<RowView> {
    Seq::new(rows.len(), |r: int| (rows[r].kind, rows[r].weights@))
}

/// The "is used" columns of the classes of the first `k` children of node
/// `n`, each once, in the order of the children.
pub open spec fn cols_of_children(egraph: &EGraph, vars: Seq<ClassVars>, n: NodeId, k: nat) -> Seq<
    Col,
>
    decreases k,
{
    if k == 0 {
        Seq::empty()
    } else {
        let before = cols_of_children(egraph, vars, n, (k - 1) as nat);
        let col = child_col(egraph, vars, n, k - 1);
        if before.contains(col) {
            before
        } else {
            before.push(col)
        }
    }
}

/// All "is used" columns of the classes of the children of node `n`.
pub open spec fn cols_of_node(egraph: &EGraph, vars: Seq<ClassVars>, n: NodeId) -> Seq<Col> {
    cols_of_children(egraph, vars, n, egraph.nodes@[n as int].children@.len())
}

/// Those of the first `i` columns of `first` that are among `other`, each
/// once.
pub open spec fn kept_cols(first: Seq<Col>, other: Seq<Col>, i: nat) -> Seq<Col>
    decreases i,
{
    if i == 0 {
        Seq::empty()
    } else {
        let before = kept_cols(first, other, (i - 1) as nat);
        if other.contains(first[i - 1]) && !before.contains(first[i - 1]) {
            before.push(first[i - 1])
        } else {
            before
        }
    }
}

/// The columns that every one of the first `j` nodes of class `c` has
/// among the columns of its children, in the order of the first node.
pub open spec fn shared_cols(egraph: &EGraph, vars: Seq<ClassVars>, c: int, j: nat) -> Seq<Col>
    decreases j,
{
    if j <= 1 {
        cols_of_node(egraph, vars, egraph.classes@[c].nodes@[0])
    } else {
        let before = shared_cols(egraph, vars, c, (j - 1) as nat);
        kept_cols(before, cols_of_node(egraph, vars, egraph.classes@[c].nodes@[j - 1]), before.len())
    }
}

/// The rows "`active` is 1 implies the column is 1" for the first `w` of
/// the columns `shared`.
pub open spec fn shared_rows(active: Col, shared: Seq<Col>, w: nat) -> Seq<RowView>
    decreases w,
{
    if w == 0 {
        Seq::empty()
    } else {
        shared_rows(active, shared, (w - 1) as nat).push(
            (RowKind::AtMost, seq![(active, 1i8), (shared[w - 1], -1i8)]),
        )
    }
}

/// The rows "`node_active` is 1 implies the column is 1" for those of the
/// first `t` of the columns `cols` that are not among `shared`.
pub open spec fn node_rows(node_active: Col, cols: Seq<Col>, shared: Seq<Col>, t: nat) -> Seq<
    RowView,
>
    decreases t,
{
    if t == 0 {
        Seq::empty()
    } else {
        let before = node_rows(node_active, cols, shared, (t - 1) as nat);
        if shared.contains(cols[t - 1]) {
            before
        } else {
            before.push((RowKind::AtMost, seq![(node_active, 1i8), (cols[t - 1], -1i8)]))
        }
    }
}

/// The rows of the first `i` nodes of class `c`.
pub open spec fn nodes_rows(
    egraph: &EGraph,
    vars: Seq<ClassVars>,
    c: int,
    shared: Seq<Col>,
    i: nat,
) -> Seq<RowView>
    decreases i,
{
    if i == 0 {
        Seq::empty()
    } else {
        let cols = cols_of_node(egraph, vars, egraph.classes@[c].nodes@[i - 1]);
        nodes_rows(egraph, vars, c, shared, (i - 1) as nat) + node_rows(
            vars[c].nodes@[i - 1],
            cols,
            shared,
            cols.len(),
        )
    }
}

/// The rows of class `c`: the row that ties the class to its nodes, the
/// rows for the columns that all its nodes share, and the rows of its
/// nodes.
pub open spec fn class_rows(egraph: &EGraph, vars: Seq<ClassVars>, c: int) -> Seq<RowView> {
    let shared = shared_cols(egraph, vars, c, egraph.classes@[c].nodes@.len());
    seq![(RowKind::Equal, class_row_weights(vars[c].active, vars[c].nodes@))] + shared_rows(
        vars[c].active,
        shared,
        shared.len(),
    ) + nodes_rows(egraph, vars, c, shared, egraph.classes@[c].nodes@.len())
}

/// The rows of the first `c` classes.
pub open spec fn all_rows(egraph: &EGraph, vars: Seq<ClassVars>, c: nat) -> Seq<RowView>
    decreases c,
{
    if c == 0 {
        Seq::empty()
    } else {
        all_rows(egraph, vars, (c - 1) as nat) + class_rows(egraph, vars, c - 1)
    }
}

/// Adding a row adds what it says.
pub proof fn lemma_rows_view_push(rows: Seq<Row>, row: Row)
    ensures
        rows_view(rows.push(row)) == rows_view(rows).push((row.kind, row.weights@)),
{
    assert(rows_view(rows.push(row)) =~= rows_view(rows).push((row.kind, row.weights@)));
}

/// The "is used" columns of the classes of the children of node `n`, each
/// once, in the order of the children.
#[verifier::rlimit(60)]
fn children_set(egraph: &EGraph, vars: &Vec<ClassVars>, n: NodeId) -> (cols: IndexSet<
    Col,
    RandomState,
>)
    requires
        egraph.well_formed(),
        vars@.len() == egraph.classes@.len(),
        n < egraph.nodes@.len(),
    ensures
        forall|k: int|
            0 <= k < egraph.nodes@[n as int].children@.len() ==> col_entries(cols).contains(
                #[trigger] child_col(egraph, vars@, n, k),
            ),
        forall|w: int|
            0 <= w < col_entries(cols).len() ==> is_child_col(
                egraph,
                vars@,
                n,
                #[trigger] col_entries(cols)[w],
            ),
        col_entries(cols) == cols_of_node(egraph, vars@, n),
{
    let node: &Node = &egraph.nodes[n];
    let mut cols: IndexSet<Col, RandomState> = cols_new();
    let mut k: usize = 0;
    while k < node.children.len()
        invariant
            k <= node.children@.len(),
            egraph.well_formed(),
            vars@.len() == egraph.classes@.len(),
            n < egraph.nodes@.len(),
            node == egraph.nodes@[n as int],
            forall|j: int|
                0 <= j < k ==> col_entries(cols).contains(
                    #[trigger] child_col(egraph, vars@, n, j),
                ),
            forall|w: int|
                0 <= w < col_entries(cols).len() ==> is_child_col(
                    egraph,
                    vars@,
                    n,
                    #[trigger] col_entries(cols)[w],
                ),
            col_entries(cols) == cols_of_children(egraph, vars@, n, k as nat),
        decreases node.children@.len() - k,
    {
        assert(egraph.node_ok(n as int));
        assert(egraph.nodes@[n as int].children@[k as int] < egraph.nodes@.len());
        assert(egraph.node_ok(node.children@[k as int] as int));
        let cid: ClassId = egraph.nid_to_cid(node.children[k]);
        let col: Col = vars[cid].active;
        assert(col == child_col(egraph, vars@, n, k as int));
        let ghost before = col_entries(cols);
        let fresh: bool = cols_insert(&mut cols, col);
        proof {
            let after = col_entries(cols);
            if fresh {
                assert forall|j: int| 0 <= j < k + 1 implies after.contains(
                    #[trigger] child_col(egraph, vars@, n, j),
                ) by {
                    crate::counting::lemma_push_contains(
                        before,
                        col,
                        child_col(egraph, vars@, n, j),
                    );
                }
                assert forall|w: int| 0 <= w < after.len() implies is_child_col(
                    egraph,
                    vars@,
                    n,
                    #[trigger] after[w],
                ) by {
                    if w < before.len() {
                        assert(after[w] == before[w]);
                    } else {
                        assert(after[w] == child_col(egraph, vars@, n, k as int));
                    }
                }
            }
        }
        k += 1;
    }
    cols
}

/// The columns of `first` that are also among `other`, in the order of
/// `first`.
fn intersect(first: &IndexSet<Col, RandomState>, other: &IndexSet<Col, RandomState>) -> (both:
    IndexSet<Col, RandomState>)
    ensures
        forall|col: Col| #[trigger]
            col_entries(both).contains(col) <==> col_entries(*first).contains(col) && col_entries(
                *other,
            ).contains(col),
        col_entries(both) == kept_cols(
            col_entries(*first),
            col_entries(*other),
            col_entries(*first).len(),
        ),
{
    let listed: Vec<Col> = cols_listed(first);
    let mut both: IndexSet<Col, RandomState> = cols_new();
    let mut i: usize = 0;
    while i < listed.len()
        invariant
            i <= listed@.len(),
            listed@ == col_entries(*first),
            forall|col: Col| #[trigger]
                col_entries(both).contains(col) <==> listed@.take(i as int).contains(col)
                    && col_entries(*other).contains(col),
            col_entries(both) == kept_cols(listed@, col_entries(*other), i as nat),
        decreases listed@.len() - i,
    {
        let col: Col = listed[i];
        let ghost before = col_entries(both);
        let ghost seen = listed@.take(i as int);
        assert(listed@.take(i + 1) =~= seen.push(col));
        if cols_contains(other, col) {
            let _ = cols_insert(&mut both, col);
        }
        proof {
            assert forall|y: Col| #[trigger]
                col_entries(both).contains(y) <==> listed@.take(i + 1).contains(y) && col_entries(
                    *other,
                ).contains(y) by {
                crate::counting::lemma_push_contains(seen, col, y);
                crate::counting::lemma_push_contains(before, col, y);
            }
        }
        i += 1;
    }
    assert(listed@.take(i as int) =~= listed@);
    both
}

/// The row `p - q <= 0`: if `p` is 1, so is `q`.
fn implication_row(p: Col, q: Col) -> (row: Row)
    ensures
        row.kind == RowKind::AtMost,
        row.weights@ == seq![(p, 1i8), (q, -1i8)],
{
    let mut weights: Vec<(Col, i8)> = Vec::new();
    weights.push((p, 1));
    weights.push((q, -1));
    assert(weights@ =~= seq![(p, 1i8), (q, -1i8)]);
    Row { kind: RowKind::AtMost, weights }
}

/// The row that ties a class to its nodes: the sum of the node columns,
/// less the class column, is zero.
fn class_row(active: Col, cols: &Vec<Col>) -> (row: Row)
    ensures
        row.kind == RowKind::Equal,
        row.weights@ == class_row_weights(active, cols@),
{
    let mut weights: Vec<(Col, i8)> = Vec::new();
    weights.push((active, -1));
    assert(weights@ =~= class_row_weights(active, cols@.take(0)));
    let mut i: usize = 0;
    while i < cols.len()
        invariant
            i <= cols@.len(),
            weights@ == class_row_weights(active, cols@.take(i as int)),
        decreases cols@.len() - i,
    {
        assert(cols@.take(i + 1).drop_last() =~= cols@.take(i as int));
        weights.push((cols[i], 1));
        i += 1;
    }
    assert(cols@.take(i as int) =~= cols@);
    Row { kind: RowKind::Equal, weights }
}

/// Adds the rows of class `ci`: the row that ties the class to its nodes;
/// for each class that every node of `ci` has a child in, a row "`ci` used
/// implies that class used"; and for each node and each other class it has
/// a child in, a row "node chosen implies that class used".
#[verifier::rlimit(60)]
fn encode_class(egraph: &EGraph, vars: &Vec<ClassVars>, rows: &mut Vec<Row>, ci: usize)
    requires
        egraph.well_formed(),
        vars_fit(egraph, vars@),
        ci < egraph.classes@.len(),
    ensures
        extends(final(rows)@, old(rows)@),
        class_encoded(egraph, vars@, final(rows)@, ci as int),
        rows_view(final(rows)@) == rows_view(old(rows)@) + class_rows(egraph, vars@, ci as int),
{
    let class: &Class = &egraph.classes[ci];
    let cvars: &ClassVars = &vars[ci];
    let active: Col = cvars.active;
    assert(egraph.class_ok(ci as int));
    let ghost rows0 = rows@;
    let first_row = class_row(active, &cvars.nodes);
    proof {
        lemma_class_row(rows0, first_row, active, cvars.nodes@);
        lemma_rows_view_push(rows0, first_row);
    }
    rows.push(first_row);
    let ghost rows1 = rows@;
    let ghost view0 = rows_view(rows0);
    let ghost head: Seq<RowView> = seq![(RowKind::Equal, class_row_weights(active, cvars.nodes@))];
    assert(rows_view(rows1) =~= view0 + head);
    assert(egraph.member_ok(ci as int, 0));
    let mut common: IndexSet<Col, RandomState> = children_set(egraph, vars, class.nodes[0]);
    let mut j: usize = 1;
    while j < class.nodes.len()
        invariant
            1 <= j <= class.nodes@.len(),
            ci < egraph.classes@.len(),
            class == egraph.classes@[ci as int],
            egraph.well_formed(),
            vars_fit(egraph, vars@),
            col_entries(common) == shared_cols(egraph, vars@, ci as int, j as nat),
        decreases class.nodes@.len() - j,
    {
        assert(egraph.class_ok(ci as int));
        assert(egraph.member_ok(ci as int, j as int));
        let other: IndexSet<Col, RandomState> = children_set(egraph, vars, class.nodes[j]);
        common = intersect(&common, &other);
        j += 1;
    }
    let intersection: Vec<Col> = cols_listed(&common);
    let ghost shared = intersection@;
    let mut w: usize = 0;
    while w < intersection.len()
        invariant
            w <= intersection@.len(),
            extends(rows@, rows1),
            forall|v: int| 0 <= v < w ==> entails(rows@, active, #[trigger] intersection@[v]),
            rows_view(rows@) == view0 + head + shared_rows(active, intersection@, w as nat),
        decreases intersection@.len() - w,
    {
        let row = implication_row(active, intersection[w]);
        let ghost before = rows@;
        proof {
            lemma_implication_row(before, row, active, intersection@[w as int]);
            lemma_rows_view_push(before, row);
            assert((view0 + head + shared_rows(active, intersection@, w as nat)).push(
                (row.kind, row.weights@),
            ) =~= view0 + head + shared_rows(active, intersection@, (w + 1) as nat));
        }
        rows.push(row);
        proof {
            assert forall|v: int| 0 <= v < w implies entails(
                rows@,
                active,
                #[trigger] intersection@[v],
            ) by {
                lemma_entails_extends(rows@, before, active, intersection@[v]);
            }
        }
        w += 1;
    }
    let ghost rows2 = rows@;
    let ghost view2 = view0 + head + shared_rows(active, shared, shared.len());
    assert(view2 + nodes_rows(egraph, vars@, ci as int, shared, 0) =~= view2);
    let mut i: usize = 0;
    while i < class.nodes.len()
        invariant
            i <= class.nodes@.len(),
            shared == intersection@,
            shared == col_entries(common),
            rows_view(rows@) == view2 + nodes_rows(egraph, vars@, ci as int, shared, i as nat),
            ci < egraph.classes@.len(),
            class == egraph.classes@[ci as int],
            cvars == vars@[ci as int],
            active == cvars.active,
            egraph.well_formed(),
            vars_fit(egraph, vars@),
            extends(rows@, rows2),
            extends(rows2, rows1),
            forall|v: int|
                0 <= v < intersection@.len() ==> entails(rows2, active, #[trigger] intersection@[v]),
            forall|v: int|
                0 <= v < cvars.nodes@.len() ==> entails(rows1, #[trigger] cvars.nodes@[v], active),
            forall|v: int, k: int|
                0 <= v < i && 0 <= k < egraph.nodes@[class.nodes@[v] as int].children@.len()
                    ==> entails(
                    rows@,
                    cvars.nodes@[v],
                    #[trigger] child_col(egraph, vars@, class.nodes@[v], k),
                ),
        decreases class.nodes@.len() - i,
    {
        assert(egraph.class_ok(ci as int));
        assert(egraph.member_ok(ci as int, i as int));
        let node_id: NodeId = class.nodes[i];
        let node_active: Col = cvars.nodes[i];
        let cols: Vec<Col> = cols_listed(&children_set(egraph, vars, node_id));
        let ghost rows3 = rows@;
        let ghost view3 = rows_view(rows3);
        assert(view3 + node_rows(node_active, cols@, shared, 0) =~= view3);
        let mut t: usize = 0;
        while t < cols.len()
            invariant
                t <= cols@.len(),
                shared == intersection@,
                shared == col_entries(common),
                rows_view(rows@) == view3 + node_rows(node_active, cols@, shared, t as nat),
                extends(rows@, rows3),
                extends(rows3, rows2),
                extends(rows2, rows1),
                i < cvars.nodes@.len(),
                node_active == cvars.nodes@[i as int],
                forall|v: int|
                    0 <= v < intersection@.len() ==> entails(
                        rows2,
                        active,
                        #[trigger] intersection@[v],
                    ),
                entails(rows1, node_active, active),
                forall|u: int| 0 <= u < t ==> entails(rows@, node_active, #[trigger] cols@[u]),
            decreases cols@.len() - t,
        {
            let child_active: Col = cols[t];
            let ghost before = rows@;
            if !cols_contains(&common, child_active) {
                let row = implication_row(node_active, child_active);
                proof {
                    lemma_implication_row(before, row, node_active, child_active);
                    lemma_rows_view_push(before, row);
                    assert((view3 + node_rows(node_active, cols@, shared, t as nat)).push(
                        (row.kind, row.weights@),
                    ) =~= view3 + node_rows(node_active, cols@, shared, (t + 1) as nat));
                }
                rows.push(row);
            } else {
                proof {
                    let v = choose|v: int|
                        0 <= v < intersection@.len() && intersection@[v] == child_active;
                    assert(entails(rows2, active, intersection@[v]));
                    lemma_entails_extends(rows2, rows1, node_active, active);
                    lemma_entails_chain(rows2, node_active, active, child_active);
                    lemma_entails_extends(before, rows2, node_active, child_active);
                }
            }
            proof {
                assert forall|u: int| 0 <= u < t implies entails(
                    rows@,
                    node_active,
                    #[trigger] cols@[u],
                ) by {
                    lemma_entails_extends(rows@, before, node_active, cols@[u]);
                }
            }
            t += 1;
        }
        proof {
            assert forall|v: int, k: int|
                0 <= v < i + 1 && 0 <= k
                    < egraph.nodes@[class.nodes@[v] as int].children@.len() implies entails(
                rows@,
                cvars.nodes@[v],
                #[trigger] child_col(egraph, vars@, class.nodes@[v], k),
            ) by {
                let target = child_col(egraph, vars@, class.nodes@[v], k);
                assert(view2 + nodes_rows(egraph, vars@, ci as int, shared, i as nat) + node_rows(
                    node_active,
                    cols@,
                    shared,
                    cols@.len(),
                ) =~= view2 + nodes_rows(egraph, vars@, ci as int, shared, (i + 1) as nat));
                if v < i {
                    lemma_entails_extends(rows@, rows3, cvars.nodes@[v], target);
                } else {
                    assert(cols@.contains(target));
                    let u = choose|u: int| 0 <= u < cols@.len() && cols@[u] == target;
                    assert(entails(rows@, node_active, cols@[u]));
                }
            }
        }
        i += 1;
    }
    proof {
        assert(view0 + head + shared_rows(active, shared, shared.len()) + nodes_rows(
            egraph,
            vars@,
            ci as int,
            shared,
            class.nodes@.len(),
        ) =~= view0 + class_rows(egraph, vars@, ci as int));
        lemma_covered_extends(rows@, rows1, active, cvars.nodes@);
        assert forall|v: int| 0 <= v < cvars.nodes@.len() implies entails(
            rows@,
            #[trigger] cvars.nodes@[v],
            active,
        ) by {
            lemma_entails_extends(rows@, rows1, cvars.nodes@[v], active);
        }
    }
}

/// What fewer rows cover, more rows cover.
pub proof fn lemma_covered_extends(big: Seq<Row>, small: Seq<Row>, a: Col, cols: Seq<Col>)
    requires
        extends(big, small),
        covered(small, a, cols),
    ensures
        covered(big, a, cols),
{
    assert forall|x: Seq<bool>| #[trigger] rows_hold(big, x) && on(x, a) implies exists|i: int|
        0 <= i < cols.len() && on(x, #[trigger] cols[i]) by {
        lemma_rows_hold_extends(big, small, x);
    }
}

/// The number of columns that the program needs for the first `n` classes:
/// the column fixed to 1, one column for each class that is not a root, and
/// one column for each listed node.
pub open spec fn columns_needed(egraph: &EGraph, roots: Seq<ClassId>, n: nat) -> nat
    decreases n,
{
    if n == 0 {
        1
    } else {
        columns_needed(egraph, roots, (n - 1) as nat) + (if roots.contains((n - 1) as ClassId) {
            0nat
        } else {
            1nat
        }) + egraph.classes@[n - 1].nodes@.len()
    }
}

/// More classes need no fewer columns.
pub proof fn lemma_columns_needed_monotone(egraph: &EGraph, roots: Seq<ClassId>, m: nat, n: nat)
    requires
        m <= n,
    ensures
        columns_needed(egraph, roots, m) <= columns_needed(egraph, roots, n),
    decreases n,
{
    if m < n {
        lemma_columns_needed_monotone(egraph, roots, m, (n - 1) as nat);
    }
}

/// If the first column that is 1 is at position `i`, `first_on` finds it.
pub proof fn lemma_first_on(x: Seq<bool>, cols: Seq<Col>, i: int)
    requires
        0 <= i < cols.len(),
        on(x, cols[i]),
        forall|j: int| 0 <= j < i ==> !on(x, #[trigger] cols[j]),
    ensures
        first_on(x, cols) == i,
    decreases cols.len(),
{
    if i > 0 {
        let rest = cols.drop_first();
        assert(!on(x, cols[0]));
        assert(rest[i - 1] == cols[i]);
        assert forall|j: int| 0 <= j < i - 1 implies !on(x, #[trigger] rest[j]) by {
            assert(rest[j] == cols[j + 1]);
        }
        lemma_first_on(x, rest, i - 1);
    }
}

/// The number of the first column of class `c`.
pub open spec fn first_column(egraph: &EGraph, roots: Seq<ClassId>, c: int) -> int {
    columns_needed(egraph, roots, c as nat) as int
}

/// The columns are numbered in the order of the classes: first the column
/// of the class itself, unless the class is a root, then the columns of its
/// nodes in their order.
pub open spec fn laid_out(egraph: &EGraph, roots: Seq<ClassId>, vars: Seq<ClassVars>) -> bool {
    &&& vars.len() == egraph.classes@.len()
    &&& forall|c: int|
        0 <= c < vars.len() ==> {
            &&& (#[trigger] vars[c]).nodes@.len() == egraph.classes@[c].nodes@.len()
            &&& vars[c].active == if roots.contains(c as ClassId) {
                TRUE_LITERAL as int
            } else {
                first_column(egraph, roots, c)
            }
        }
    &&& forall|c: int, i: int|
        0 <= c < vars.len() && 0 <= i < vars[c].nodes@.len() ==> (#[trigger] vars[c].nodes@[i])
            == first_column(egraph, roots, c) + (if roots.contains(c as ClassId) {
            0int
        } else {
            1int
        }) + i
}

/// The columns of a class lie between the first column of the class and
/// the first column of the next, and the first column is never column 0.
pub proof fn lemma_layout_ranges(egraph: &EGraph, roots: Seq<ClassId>, vars: Seq<ClassVars>, c: int)
    requires
        laid_out(egraph, roots, vars),
        0 <= c < vars.len(),
    ensures
        1 <= first_column(egraph, roots, c),
        first_column(egraph, roots, c + 1) == first_column(egraph, roots, c) + (if roots.contains(
            c as ClassId,
        ) {
            0int
        } else {
            1int
        }) + vars[c].nodes@.len(),
        !roots.contains(c as ClassId) ==> first_column(egraph, roots, c) == vars[c].active
            < first_column(egraph, roots, c + 1),
        forall|i: int|
            0 <= i < vars[c].nodes@.len() ==> first_column(egraph, roots, c) <= (
            #[trigger] vars[c].nodes@[i]) < first_column(egraph, roots, c + 1),
{
    lemma_columns_needed_monotone(egraph, roots, 0, c as nat);
}

/// No two nodes share a column, no node shares a column with a class, and
/// no two classes that are not roots share a column.
pub proof fn lemma_layout_distinct(
    egraph: &EGraph,
    roots: Seq<ClassId>,
    vars: Seq<ClassVars>,
    c: int,
    d: int,
)
    requires
        laid_out(egraph, roots, vars),
        0 <= c < vars.len(),
        0 <= d < vars.len(),
    ensures
        forall|i: int, j: int|
            0 <= i < vars[c].nodes@.len() && 0 <= j < vars[d].nodes@.len() && (c != d || i != j)
                ==> #[trigger] vars[c].nodes@[i] != #[trigger] vars[d].nodes@[j],
        forall|j: int|
            0 <= j < vars[d].nodes@.len() ==> vars[c].active != #[trigger] vars[d].nodes@[j],
        c != d && !roots.contains(c as ClassId) && !roots.contains(d as ClassId) ==> vars[c].active
            != vars[d].active,
        !roots.contains(c as ClassId) ==> vars[c].active != TRUE_LITERAL,
{
    lemma_layout_ranges(egraph, roots, vars, c);
    lemma_layout_ranges(egraph, roots, vars, d);
    if c < d {
        lemma_columns_needed_monotone(egraph, roots, (c + 1) as nat, d as nat);
    }
    if d < c {
        lemma_columns_needed_monotone(egraph, roots, (d + 1) as nat, c as nat);
    }
}

/// The least own cost among the first `j` nodes of class `c`.
pub open spec fn class_min(egraph: &EGraph, c: int, j: nat) -> Cost
    decreases j,
{
    if j <= 1 {
        egraph.nodes@[egraph.classes@[c].nodes@[0] as int].cost
    } else {
        let rest = class_min(egraph, c, (j - 1) as nat);
        let last = egraph.nodes@[egraph.classes@[c].nodes@[j - 1] as int].cost;
        if last < rest {
            last
        } else {
            rest
        }
    }
}

/// The least cost is at most the cost of every node it was taken over.
pub proof fn lemma_class_min(egraph: &EGraph, c: int, j: nat, i: int)
    requires
        0 <= i < j,
    ensures
        class_min(egraph, c, j) <= egraph.nodes@[egraph.classes@[c].nodes@[i] as int].cost,
    decreases j,
{
    if j > 1 && i < j - 1 {
        lemma_class_min(egraph, c, (j - 1) as nat, i);
    }
}

/// The column of node `i` of class `c` is charged what the node costs
/// above the least cost in its class.
pub open spec fn node_priced(
    egraph: &EGraph,
    vars: Seq<ClassVars>,
    columns: Seq<Column>,
    c: int,
    i: int,
) -> bool {
    columns[vars[c].nodes@[i] as int].objective == egraph.nodes@[egraph.classes@[c].nodes@[i] as int].cost
        - class_min(egraph, c, egraph.classes@[c].nodes@.len())
}

/// The columns of class `c` carry their charges: the column of a class
/// that is not a root, the least cost among the nodes of the class; the
/// column of a node, what the node costs above that.
pub open spec fn class_priced(
    egraph: &EGraph,
    roots: Seq<ClassId>,
    vars: Seq<ClassVars>,
    columns: Seq<Column>,
    c: int,
) -> bool {
    &&& !roots.contains(c as ClassId) ==> columns[vars[c].active as int].objective == class_min(
        egraph,
        c,
        egraph.classes@[c].nodes@.len(),
    )
    &&& forall|i: int|
        0 <= i < vars[c].nodes@.len() ==> #[trigger] node_priced(egraph, vars, columns, c, i)
}

/// What the column fixed to 1 is charged after the first `c` classes were
/// charged: the least cost among the nodes of the last root class whose
/// least cost is not 0, or 0 if there is no such class. The column is
/// always 1, so this changes the objective by a constant only.
pub open spec fn true_literal_charge(egraph: &EGraph, roots: Seq<ClassId>, c: nat) -> Cost
    decreases c,
{
    if c == 0 {
        0
    } else {
        let least = class_min(egraph, c - 1, egraph.classes@[c - 1].nodes@.len());
        if roots.contains((c - 1) as ClassId) && least != 0 {
            least
        } else {
            true_literal_charge(egraph, roots, (c - 1) as nat)
        }
    }
}

/// The columns of class `c` carry no charge yet.
pub open spec fn class_unpriced(
    roots: Seq<ClassId>,
    vars: Seq<ClassVars>,
    columns: Seq<Column>,
    c: int,
) -> bool {
    &&& !roots.contains(c as ClassId) ==> columns[vars[c].active as int].objective == 0
    &&& forall|i: int|
        0 <= i < vars[c].nodes@.len() ==> columns[(#[trigger] vars[c].nodes@[i]) as int].objective
            == 0
}

impl Formulation {
    /// The program has the columns that the layout asks for, each class and
    /// each node is charged as the objective says, and only column 0 is
    /// fixed to 1.
    pub open spec fn priced_for(&self, egraph: &EGraph, roots: Seq<ClassId>) -> bool {
        &&& laid_out(egraph, roots, self.vars@)
        &&& self.model.columns@.len() == columns_needed(
            egraph,
            roots,
            egraph.classes@.len() as nat,
        )
        &&& forall|c: int|
            0 <= c < egraph.classes@.len() ==> #[trigger] class_priced(
                egraph,
                roots,
                self.vars@,
                self.model.columns@,
                c,
            )
        &&& self.model.columns@[TRUE_LITERAL as int].objective == true_literal_charge(
            egraph,
            roots,
            egraph.classes@.len(),
        )
        &&& forall|col: int|
            0 <= col < self.model.columns@.len() ==> ((#[trigger] self.model.columns@[col]).forced_on
                <==> col == TRUE_LITERAL)
        &&& forall|col: int|
            0 <= col < self.model.columns@.len() ==> ((
            #[trigger] self.model.columns@[col]).forced_off <==> banned_col(
                self.vars@,
                self.banned@,
                self.banned@.len() as int,
                col,
            ))
    }
}

/// The columns of all classes, numbered in the order of the classes and of
/// the nodes in them, and their number. Nothing if the columns cannot be
/// numbered within `usize`.
#[verifier::rlimit(60)]
fn variables(egraph: &EGraph, roots: &[ClassId]) -> (out: Option<(Vec<ClassVars>, usize)>)
    requires
        egraph.well_formed(),
    ensures
        out is Some <==> columns_needed(egraph, roots@, egraph.classes@.len() as nat)
            <= usize::MAX,
        out matches Some((vars, num_cols)) ==> {
            &&& vars_fit(egraph, vars@)
            &&& num_cols > 0
            &&& forall|c: int| 0 <= c < vars@.len() ==> (#[trigger] vars@[c]).active < num_cols
            &&& forall|c: int, i: int|
                0 <= c < vars@.len() && 0 <= i < vars@[c].nodes@.len() ==> (
                #[trigger] vars@[c].nodes@[i]) < num_cols
            &&& forall|c: int|
                0 <= c < vars@.len() && roots@.contains(c as ClassId) ==> (#[trigger] vars@[c]).active
                    == TRUE_LITERAL
            &&& laid_out(egraph, roots@, vars@)
            &&& num_cols == columns_needed(egraph, roots@, egraph.classes@.len() as nat)
        },
{
    let n: usize = egraph.classes.len();
    let mut vars: Vec<ClassVars> = Vec::new();
    let mut counter: usize = 1;
    let mut ci: usize = 0;
    while ci < n
        invariant
            ci <= n,
            n == egraph.classes@.len(),
            egraph.well_formed(),
            counter == columns_needed(egraph, roots@, ci as nat),
            counter > 0,
            vars@.len() == ci,
            forall|c: int|
                0 <= c < ci ==> (#[trigger] vars@[c]).nodes@.len() == egraph.classes@[c].nodes@.len(),
            forall|c: int, i: int|
                0 <= c < ci && 0 <= i < vars@[c].nodes@.len() ==> 0 < (#[trigger] vars@[c].nodes@[i])
                    < counter,
            forall|c: int| 0 <= c < ci ==> (#[trigger] vars@[c]).active < counter,
            forall|c: int|
                0 <= c < ci && roots@.contains(c as ClassId) ==> (#[trigger] vars@[c]).active
                    == TRUE_LITERAL,
            forall|c: int|
                0 <= c < ci ==> (#[trigger] vars@[c]).active == if roots@.contains(c as ClassId) {
                    TRUE_LITERAL as int
                } else {
                    first_column(egraph, roots@, c)
                },
            forall|c: int, i: int|
                0 <= c < ci && 0 <= i < vars@[c].nodes@.len() ==> (#[trigger] vars@[c].nodes@[i])
                    == first_column(egraph, roots@, c) + (if roots@.contains(c as ClassId) {
                    0int
                } else {
                    1int
                }) + i,
        decreases n - ci,
    {
        let is_root: bool = contains_class(roots, ci);
        let ghost start = counter;
        proof {
            lemma_columns_needed_monotone(egraph, roots@, (ci + 1) as nat, n as nat);
        }
        let active: Col = if is_root {
            TRUE_LITERAL
        } else {
            if counter == usize::MAX {
                return None;
            }
            let a: Col = counter;
            counter += 1;
            a
        };
        let len: usize = egraph.classes[ci].nodes.len();
        let mut nodes: Vec<Col> = Vec::new();
        let mut j: usize = 0;
        while j < len
            invariant
                j <= len,
                ci < n,
                n == egraph.classes@.len(),
                len == egraph.classes@[ci as int].nodes@.len(),
                counter == start + (if is_root {
                    0int
                } else {
                    1int
                }) + j,
                start > 0,
                start + (if is_root {
                    0int
                } else {
                    1int
                }) + len == columns_needed(egraph, roots@, (ci + 1) as nat),
                columns_needed(egraph, roots@, (ci + 1) as nat) <= columns_needed(
                    egraph,
                    roots@,
                    n as nat,
                ),
                nodes@.len() == j,
                forall|i: int| 0 <= i < j ==> 0 < (#[trigger] nodes@[i]) < counter,
                forall|i: int|
                    0 <= i < j ==> (#[trigger] nodes@[i]) == start + (if is_root {
                        0int
                    } else {
                        1int
                    }) + i,
            decreases len - j,
        {
            if counter == usize::MAX {
                return None;
            }
            nodes.push(counter);
            counter += 1;
            j += 1;
        }
        let ghost before = vars@;
        vars.push(ClassVars { active, nodes });
        proof {
            assert forall|c: int| 0 <= c < ci + 1 implies (#[trigger] vars@[c]).nodes@.len()
                == egraph.classes@[c].nodes@.len() by {
                if c < ci {
                    assert(vars@[c] == before[c]);
                }
            }
            assert forall|c: int, i: int|
                0 <= c < ci + 1 && 0 <= i < vars@[c].nodes@.len() implies 0 < (
                #[trigger] vars@[c].nodes@[i]) < counter by {
                if c < ci {
                    assert(vars@[c] == before[c]);
                    assert(0 < before[c].nodes@[i] < start);
                }
            }
            assert forall|c: int| 0 <= c < ci + 1 implies (#[trigger] vars@[c]).active < counter by {
                if c < ci {
                    assert(vars@[c] == before[c]);
                }
            }
            assert forall|c: int|
                0 <= c < ci + 1 && roots@.contains(c as ClassId) implies (#[trigger] vars@[c]).active
                == TRUE_LITERAL by {
                if c < ci {
                    assert(vars@[c] == before[c]);
                }
            }
            assert forall|c: int| 0 <= c < ci + 1 implies (#[trigger] vars@[c]).active
                == if roots@.contains(c as ClassId) {
                TRUE_LITERAL as int
            } else {
                first_column(egraph, roots@, c)
            } by {
                if c < ci {
                    assert(vars@[c] == before[c]);
                }
            }
            assert forall|c: int, i: int|
                0 <= c < ci + 1 && 0 <= i < vars@[c].nodes@.len() implies (
            #[trigger] vars@[c].nodes@[i]) == first_column(egraph, roots@, c) + (if roots@.contains(
                c as ClassId,
            ) {
                0int
            } else {
                1int
            }) + i by {
                if c < ci {
                    assert(vars@[c] == before[c]);
                    assert(before[c].nodes@[i] == first_column(egraph, roots@, c) + (
                    if roots@.contains(c as ClassId) {
                        0int
                    } else {
                        1int
                    }) + i);
                }
            }
        }
        ci += 1;
    }
    Some((vars, counter))
}

/// Charges the columns: the column of a class that is not a root, the
/// least cost among the nodes of the class; the column of a node, what the
/// node costs above that. The column fixed to 1 takes the least cost of a
/// root class, which changes the objective by a constant only.
#[verifier::rlimit(60)]
fn price_columns(
    egraph: &EGraph,
    roots: &[ClassId],
    vars: &Vec<ClassVars>,
    columns: &mut Vec<Column>,
)
    requires
        egraph.well_formed(),
        vars_fit(egraph, vars@),
        laid_out(egraph, roots@, vars@),
        old(columns)@.len() == columns_needed(egraph, roots@, egraph.classes@.len() as nat),
        forall|d: int| 0 <= d < old(columns)@.len() ==> (#[trigger] old(columns)@[d]).objective == 0,
    ensures
        final(columns)@.len() == old(columns)@.len(),
        forall|d: int|
            0 <= d < old(columns)@.len() ==> (#[trigger] final(columns)@[d]).forced_on == old(
                columns,
            )@[d].forced_on && final(columns)@[d].forced_off == old(columns)@[d].forced_off,
        forall|c: int|
            0 <= c < egraph.classes@.len() ==> #[trigger] class_priced(
                egraph,
                roots@,
                vars@,
                final(columns)@,
                c,
            ),
        final(columns)@[TRUE_LITERAL as int].objective == true_literal_charge(
            egraph,
            roots@,
            egraph.classes@.len(),
        ),
{
    let n: usize = egraph.classes.len();
    let num_cols: usize = columns.len();
    proof {
        lemma_columns_needed_monotone(egraph, roots@, 0, n as nat);
        assert(columns@[TRUE_LITERAL as int].objective == 0);
        assert forall|c: int| 0 <= c < n implies #[trigger] class_unpriced(
            roots@,
            vars@,
            columns@,
            c,
        ) by {
            lemma_layout_ranges(egraph, roots@, vars@, c);
            lemma_columns_needed_monotone(egraph, roots@, (c + 1) as nat, n as nat);
        }
    }
        let mut ci: usize = 0;
        while ci < n
            invariant
                ci <= n,
                columns@.len() == num_cols,
                n == egraph.classes@.len(),
                egraph.well_formed(),
                vars_fit(egraph, vars@),
                laid_out(egraph, roots@, vars@),
                num_cols == columns_needed(egraph, roots@, n as nat),
                forall|d: int|
                    0 <= d < columns@.len() ==> (#[trigger] columns@[d]).forced_on == old(
                        columns,
                    )@[d].forced_on && columns@[d].forced_off == old(columns)@[d].forced_off,
                forall|c: int|
                    0 <= c < ci ==> #[trigger] class_priced(egraph, roots@, vars@, columns@, c),
                forall|c: int|
                    ci <= c < n ==> #[trigger] class_unpriced(roots@, vars@, columns@, c),
                num_cols > 0,
                columns@[TRUE_LITERAL as int].objective == true_literal_charge(
                    egraph,
                    roots@,
                    ci as nat,
                ),
            decreases n - ci,
        {
            let class: &Class = &egraph.classes[ci];
            let cvars: &ClassVars = &vars[ci];
            assert(egraph.class_ok(ci as int));
            assert(egraph.member_ok(ci as int, 0));
            let mut min_cost: Cost = egraph.nodes[class.nodes[0]].cost;
            let mut j: usize = 1;
            while j < class.nodes.len()
                invariant
                    1 <= j <= class.nodes@.len(),
                    ci < n,
                    n == egraph.classes@.len(),
                    egraph.well_formed(),
                    class == egraph.classes@[ci as int],
                    min_cost == class_min(egraph, ci as int, j as nat),
                decreases class.nodes@.len() - j,
            {
                assert(egraph.class_ok(ci as int));
                assert(egraph.member_ok(ci as int, j as int));
                let cost: Cost = egraph.nodes[class.nodes[j]].cost;
                if cost < min_cost {
                    min_cost = cost;
                }
                j += 1;
            }
            let ghost before_class = columns@;
            proof {
                lemma_layout_ranges(egraph, roots@, vars@, ci as int);
                lemma_columns_needed_monotone(egraph, roots@, (ci + 1) as nat, n as nat);
            }
            if min_cost != 0 {
                let mut col: Column = columns[cvars.active];
                col.objective = min_cost;
                columns.set(cvars.active, col);
            }
            proof {
                assert(class_unpriced(roots@, vars@, before_class, ci as int));
assert forall|c: int|
                    0 <= c < n && c != ci && class_priced(
                        egraph,
                        roots@,
                        vars@,
                        before_class,
                        c,
                    ) implies #[trigger] class_priced(egraph, roots@, vars@, columns@, c) by {
                    lemma_layout_distinct(egraph, roots@, vars@, ci as int, c);
                    lemma_layout_distinct(egraph, roots@, vars@, c, ci as int);
                    lemma_layout_ranges(egraph, roots@, vars@, c);
                    lemma_columns_needed_monotone(egraph, roots@, (c + 1) as nat, n as nat);
                    lemma_layout_ranges(egraph, roots@, vars@, ci as int);
                    lemma_columns_needed_monotone(egraph, roots@, (ci + 1) as nat, n as nat);
                    assert forall|i: int| 0 <= i < vars@[c].nodes@.len() implies #[trigger] node_priced(
                        egraph,
                        vars@,
                        columns@,
                        c,
                        i,
                    ) by {
                        assert(node_priced(egraph, vars@, before_class, c, i));
                    }
                }
                assert forall|c: int|
                    0 <= c < n && c != ci && class_unpriced(
                        roots@,
                        vars@,
                        before_class,
                        c,
                    ) implies #[trigger] class_unpriced(roots@, vars@, columns@, c) by {
                    lemma_layout_distinct(egraph, roots@, vars@, ci as int, c);
                    lemma_layout_distinct(egraph, roots@, vars@, c, ci as int);
                    lemma_layout_ranges(egraph, roots@, vars@, c);
                    lemma_columns_needed_monotone(egraph, roots@, (c + 1) as nat, n as nat);
                    lemma_layout_ranges(egraph, roots@, vars@, ci as int);
                    lemma_columns_needed_monotone(egraph, roots@, (ci + 1) as nat, n as nat);
                    assert forall|i: int| 0 <= i < vars@[c].nodes@.len() implies columns@[(
                    #[trigger] vars@[c].nodes@[i]) as int].objective == 0 by {
                        assert(before_class[vars@[c].nodes@[i] as int].objective == 0);
                    }
                }
                lemma_layout_distinct(egraph, roots@, vars@, ci as int, ci as int);
            }
            let mut i: usize = 0;
            while i < class.nodes.len()
                invariant
                    i <= class.nodes@.len(),
                    columns@.len() == num_cols,
                        ci < n,
                    n == egraph.classes@.len(),
                    egraph.well_formed(),
                    vars_fit(egraph, vars@),
                    laid_out(egraph, roots@, vars@),
                    num_cols == columns_needed(egraph, roots@, n as nat),
                    class == egraph.classes@[ci as int],
                    cvars == vars@[ci as int],
                    min_cost == class_min(egraph, ci as int, class.nodes@.len()),
                    forall|d: int|
                        0 <= d < columns@.len() ==> (#[trigger] columns@[d]).forced_on == old(
                            columns,
                        )@[d].forced_on && columns@[d].forced_off == old(columns)@[d].forced_off,
                    forall|c: int|
                        0 <= c < ci ==> #[trigger] class_priced(egraph, roots@, vars@, columns@, c),
                    forall|c: int|
                        ci < c < n ==> #[trigger] class_unpriced(roots@, vars@, columns@, c),
                    num_cols > 0,
                    columns@[TRUE_LITERAL as int].objective == true_literal_charge(
                        egraph,
                        roots@,
                        (ci + 1) as nat,
                    ),
                    !roots@.contains(ci) ==> columns@[cvars.active as int].objective == min_cost,
                    forall|w: int|
                        0 <= w < i ==> #[trigger] node_priced(egraph, vars@, columns@, ci as int, w),
                    forall|w: int|
                        i <= w < class.nodes@.len() ==> columns@[(#[trigger] cvars.nodes@[w]) as int].objective
                            == 0,
                decreases class.nodes@.len() - i,
            {
                assert(egraph.class_ok(ci as int));
                assert(egraph.member_ok(ci as int, i as int));
                proof {
                    lemma_class_min(egraph, ci as int, class.nodes@.len(), i as int);
                }
                let node_cost: Cost = egraph.nodes[class.nodes[i]].cost - min_cost;
                let idx: Col = cvars.nodes[i];
                proof {
                    lemma_layout_ranges(egraph, roots@, vars@, ci as int);
                    lemma_columns_needed_monotone(egraph, roots@, (ci + 1) as nat, n as nat);
                    assert(vars@[ci as int].nodes@[i as int] < num_cols);
                }
                let ghost before_node = columns@;
                if node_cost != 0 {
                    let mut col: Column = columns[idx];
                    col.objective = node_cost;
                    columns.set(idx, col);
                }
                proof {
assert forall|c: int|
                    0 <= c < n && c != ci && class_priced(
                        egraph,
                        roots@,
                        vars@,
                        before_node,
                        c,
                    ) implies #[trigger] class_priced(egraph, roots@, vars@, columns@, c) by {
                    lemma_layout_distinct(egraph, roots@, vars@, ci as int, c);
                    lemma_layout_distinct(egraph, roots@, vars@, c, ci as int);
                    lemma_layout_ranges(egraph, roots@, vars@, c);
                    lemma_columns_needed_monotone(egraph, roots@, (c + 1) as nat, n as nat);
                    lemma_layout_ranges(egraph, roots@, vars@, ci as int);
                    lemma_columns_needed_monotone(egraph, roots@, (ci + 1) as nat, n as nat);
                    assert forall|w: int| 0 <= w < vars@[c].nodes@.len() implies #[trigger] node_priced(
                        egraph,
                        vars@,
                        columns@,
                        c,
                        w,
                    ) by {
                        assert(node_priced(egraph, vars@, before_node, c, w));
                    }
                }
                assert forall|c: int|
                    0 <= c < n && c != ci && class_unpriced(
                        roots@,
                        vars@,
                        before_node,
                        c,
                    ) implies #[trigger] class_unpriced(roots@, vars@, columns@, c) by {
                    lemma_layout_distinct(egraph, roots@, vars@, ci as int, c);
                    lemma_layout_distinct(egraph, roots@, vars@, c, ci as int);
                    lemma_layout_ranges(egraph, roots@, vars@, c);
                    lemma_columns_needed_monotone(egraph, roots@, (c + 1) as nat, n as nat);
                    lemma_layout_ranges(egraph, roots@, vars@, ci as int);
                    lemma_columns_needed_monotone(egraph, roots@, (ci + 1) as nat, n as nat);
                    assert forall|w: int| 0 <= w < vars@[c].nodes@.len() implies columns@[(
                    #[trigger] vars@[c].nodes@[w]) as int].objective == 0 by {
                        assert(before_node[vars@[c].nodes@[w] as int].objective == 0);
                    }
                }
                    lemma_layout_distinct(egraph, roots@, vars@, ci as int, ci as int);
                    assert forall|w: int| 0 <= w < i + 1 implies #[trigger] node_priced(
                        egraph,
                        vars@,
                        columns@,
                        ci as int,
                        w,
                    ) by {
                        if w < i {
                            assert(node_priced(egraph, vars@, before_node, ci as int, w));
                        }
                    }
                }
                i += 1;
            }
            ci += 1;
        }
}

/// `col` is the column of one of the first `w` banned nodes.
pub open spec fn banned_col(
    vars: Seq<ClassVars>,
    banned: Seq<(ClassId, usize)>,
    w: int,
    col: int,
) -> bool {
    exists|v: int|
        0 <= v < w && col == vars[(#[trigger] banned[v]).0 as int].nodes@[banned[v].1 as int]
}

/// Fixes the columns of the banned nodes to 0.
#[verifier::rlimit(60)]
fn fix_banned(
    egraph: &EGraph,
    vars: &Vec<ClassVars>,
    banned: &Vec<(ClassId, usize)>,
    columns: &mut Vec<Column>,
)
    requires
        egraph.well_formed(),
        vars_fit(egraph, vars@),
        all_valid(egraph, banned@),
        forall|c: int, i: int|
            0 <= c < vars@.len() && 0 <= i < vars@[c].nodes@.len() ==> (
            #[trigger] vars@[c].nodes@[i]) < old(columns)@.len(),
        forall|d: int|
            0 <= d < old(columns)@.len() ==> ((#[trigger] old(columns)@[d]).forced_on <==> d
                == TRUE_LITERAL),
    ensures
        final(columns)@.len() == old(columns)@.len(),
        forall|d: int|
            0 <= d < old(columns)@.len() ==> (#[trigger] final(columns)@[d]).objective == old(
                columns,
            )@[d].objective && final(columns)@[d].forced_on == old(columns)@[d].forced_on,
        forall|w: int|
            0 <= w < banned@.len() ==> final(columns)@[vars@[(#[trigger] banned@[w]).0 as int].nodes@[banned@[w].1 as int] as int].forced_off,
        forall|d: int|
            0 <= d < old(columns)@.len() ==> ((#[trigger] final(columns)@[d]).forced_off <==> old(
                columns,
            )@[d].forced_off || banned_col(vars@, banned@, banned@.len() as int, d)),
{
    let ghost priced = columns@;
    let num_cols: usize = columns.len();
    let mut w: usize = 0;
    while w < banned.len()
        invariant
            w <= banned@.len(),
            egraph.well_formed(),
            vars_fit(egraph, vars@),
            all_valid(egraph, banned@),
            columns@.len() == num_cols,
            priced == old(columns)@,
            forall|d: int|
                0 <= d < priced.len() ==> ((#[trigger] priced[d]).forced_on <==> d
                    == TRUE_LITERAL),
            forall|c: int, i: int|
                0 <= c < vars@.len() && 0 <= i < vars@[c].nodes@.len() ==> (
                #[trigger] vars@[c].nodes@[i]) < num_cols,
            forall|v: int|
                0 <= v < w ==> columns@[vars@[(#[trigger] banned@[v]).0 as int].nodes@[banned@[v].1 as int] as int].forced_off,
            forall|d: int|
                0 <= d < columns@.len() ==> (#[trigger] columns@[d]).objective
                    == priced[d].objective && (columns@[d].forced_on <==> d == 0),
            forall|d: int|
                0 <= d < columns@.len() ==> ((#[trigger] columns@[d]).forced_off
                    <==> priced[d].forced_off || banned_col(vars@, banned@, w as int, d)),
        decreases banned@.len() - w,
    {
        let (c, i) = banned[w];
        assert(valid_pair(egraph, banned@[w as int]));
        let idx: Col = vars[c].nodes[i];
        assert(vars@[c as int].nodes@[i as int] < num_cols);
        assert(vars@[c as int].nodes@[i as int] != TRUE_LITERAL);
        let mut col: Column = columns[idx];
        col.forced_off = true;
        col.forced_on = false;
        let ghost before = columns@;
        columns.set(idx, col);
        proof {
            assert forall|v: int| 0 <= v < w + 1 implies columns@[vars@[(
            #[trigger] banned@[v]).0 as int].nodes@[banned@[v].1 as int] as int].forced_off by {
                assert(valid_pair(egraph, banned@[v]));
                let other = vars@[banned@[v].0 as int].nodes@[banned@[v].1 as int];
                if v < w && other != idx {
                    assert(columns@[other as int] == before[other as int]);
                }
            }
            assert forall|d: int| 0 <= d < columns@.len() implies ((
            #[trigger] columns@[d]).forced_off <==> priced[d].forced_off || banned_col(
                vars@,
                banned@,
                w + 1,
                d,
            )) by {
                if d == idx {
                    assert(d == vars@[banned@[w as int].0 as int].nodes@[banned@[w as int].1 as int]);
                } else {
                    assert(columns@[d] == before[d]);
                    if banned_col(vars@, banned@, w + 1, d) {
                        let v = choose|v: int|
                            0 <= v < w + 1 && d == vars@[(#[trigger] banned@[v]).0 as int].nodes@[banned@[v].1 as int];
                        assert(v < w);
                    }
                    if banned_col(vars@, banned@, w as int, d) {
                        let v = choose|v: int|
                            0 <= v < w && d == vars@[(#[trigger] banned@[v]).0 as int].nodes@[banned@[v].1 as int];
                        assert(0 <= v < w + 1);
                    }
                }
            }
        }
        w += 1;
    }
}

impl CbcExtractor {
    /// Writes the linear program for `egraph` and `roots` down.
    ///
    /// Column 0 is fixed to 1 and stands for "is used" of every root; every
    /// other class and every node has a column of its own. The rows are
    /// those of [`encode_class`], class by class. The objective charges a
    /// class the least cost among its nodes and a node what it costs above
    /// that. The nodes that [`find_cycles`] bans are fixed to 0.
    ///
    /// Nothing comes back only if the columns cannot be numbered within
    /// `usize`.
    #[verifier::rlimit(60)]
    pub fn formulate(&self, egraph: &EGraph, roots: &[ClassId]) -> (out: Option<Formulation>)
        requires
            egraph.well_formed(),
            forall|r: int| 0 <= r < roots@.len() ==> roots@[r] < egraph.classes@.len(),
        ensures
            out is Some <==> columns_needed(egraph, roots@, egraph.classes@.len() as nat)
                <= usize::MAX,
            out matches Some(f) ==> f.sound_for(egraph, roots@),
            out matches Some(f) ==> f.priced_for(egraph, roots@),
            out matches Some(f) ==> rows_view(f.model.rows@) == all_rows(
                egraph,
                f.vars@,
                egraph.classes@.len(),
            ),
            out matches Some(f) ==> f.exact_for(egraph, roots@),
            out matches Some(f) ==> all_on_cycle(egraph, f.banned@),
            out matches Some(f) ==> listed_in_order(f.banned@),
            out matches Some(f) ==> exists|place: Seq<usize>|
                placed_by_passes(egraph, place) && #[trigger] bans_by(egraph, f.banned@, place),
    {
        let n: usize = egraph.classes.len();
        let (vars, num_cols) = match variables(egraph, roots) {
            Some(pair) => pair,
            None => {
                return None;
            },
        };
        let mut columns: Vec<Column> = Vec::new();
        let mut c: usize = 0;
        while c < num_cols
            invariant
                c <= num_cols,
                columns@.len() == c,
                forall|d: int| 0 <= d < c ==> (#[trigger] columns@[d]).objective == 0,
                forall|d: int| 0 <= d < c ==> !(#[trigger] columns@[d]).forced_off,
                forall|d: int|
                    0 <= d < c ==> ((#[trigger] columns@[d]).forced_on <==> d == TRUE_LITERAL),
            decreases num_cols - c,
        {
            columns.push(Column { forced_on: c == 0, forced_off: false, objective: 0 });
            c += 1;
        }
        let mut rows: Vec<Row> = Vec::new();
        assert(rows_view(rows@) =~= all_rows(egraph, vars@, 0));
        let mut ci: usize = 0;
        while ci < n
            invariant
                ci <= n,
                n == egraph.classes@.len(),
                egraph.well_formed(),
                vars_fit(egraph, vars@),
                forall|d: int| 0 <= d < ci ==> #[trigger] class_encoded(egraph, vars@, rows@, d),
                rows_view(rows@) == all_rows(egraph, vars@, ci as nat),
            decreases n - ci,
        {
            let ghost before = rows@;
            encode_class(egraph, &vars, &mut rows, ci);
            proof {
                assert forall|d: int| 0 <= d < ci + 1 implies #[trigger] class_encoded(
                    egraph,
                    vars@,
                    rows@,
                    d,
                ) by {
                    if d < ci {
                        lemma_class_encoded_extends(egraph, vars@, rows@, before, d);
                    }
                }
            }
            ci += 1;
        }
        let ghost init = columns@;
        price_columns(egraph, roots, &vars, &mut columns);
        let banned: Vec<(ClassId, usize)> = find_cycles(egraph);
        let ghost priced = columns@;
        proof {
            assert forall|d: int| 0 <= d < priced.len() implies ((#[trigger] priced[d]).forced_on
                <==> d == TRUE_LITERAL) && !priced[d].forced_off by {
                assert(priced[d].forced_on == init[d].forced_on);
                assert(priced[d].forced_off == init[d].forced_off);
            }
        }
        fix_banned(egraph, &vars, &banned, &mut columns);
        let f = Formulation { model: Model { columns, rows }, vars, banned };
        proof {
            assert forall|r: int| 0 <= r < roots@.len() implies roots@[r] < egraph.classes@.len() && (
            #[trigger] f.vars@[roots@[r] as int]).active == TRUE_LITERAL by {
                assert(roots@.contains(roots@[r]));
            }
            assert forall|d: int| 0 <= d < f.model.columns@.len() implies ((
            #[trigger] f.model.columns@[d]).forced_on <==> d == TRUE_LITERAL) by {
                assert(f.model.columns@[d].forced_on == priced[d].forced_on);
            }
            assert(vars_fit(egraph, f.vars@));
            assert(all_valid(egraph, f.banned@));
            assert(exists|rank: spec_fn(ClassId) -> nat| breaks_cycles(egraph, f.banned@, rank));
            assert(forall|c: int|
                0 <= c < egraph.classes@.len() ==> #[trigger] class_encoded(
                    egraph,
                    f.vars@,
                    f.model.rows@,
                    c,
                ));
            assert(f.model.columns@.len() > 0);
            assert(f.model.columns@[TRUE_LITERAL as int].forced_on);
            assert(forall|w: int|
                0 <= w < f.banned@.len() ==> f.model.columns@[f.vars@[(
                #[trigger] f.banned@[w]).0 as int].nodes@[f.banned@[w].1 as int] as int].forced_off);
            assert(forall|c: int, i: int|
                0 <= c < f.vars@.len() && 0 <= i < f.vars@[c].nodes@.len() ==> (
                #[trigger] f.vars@[c].nodes@[i]) < f.model.columns@.len());
            assert(forall|c: int|
                0 <= c < f.vars@.len() ==> (#[trigger] f.vars@[c]).active < f.model.columns@.len());
            assert(f.sound_for(egraph, roots@));
            assert forall|c: int| 0 <= c < egraph.classes@.len() implies #[trigger] class_priced(
                egraph,
                roots@,
                f.vars@,
                f.model.columns@,
                c,
            ) by {
                assert(class_priced(egraph, roots@, f.vars@, priced, c));
                assert forall|i: int| 0 <= i < f.vars@[c].nodes@.len() implies #[trigger] node_priced(
                    egraph,
                    f.vars@,
                    f.model.columns@,
                    c,
                    i,
                ) by {
                    assert(node_priced(egraph, f.vars@, priced, c, i));
                }
            }
            assert forall|col: int| 0 <= col < f.model.columns@.len() implies ((
            #[trigger] f.model.columns@[col]).forced_off <==> banned_col(
                f.vars@,
                f.banned@,
                f.banned@.len() as int,
                col,
            )) by {
                assert(!priced[col].forced_off);
            }
            assert(f.priced_for(egraph, roots@));
        }
        Some(f)
    }

    /// Reads a solution of the linear program back into a selection.
    ///
    /// `solution` says of each column whether it is 1. If it is a solution
    /// of the program, each used class gets the first of its nodes that is
    /// marked as chosen, and the selection is valid from `roots`. If it is
    /// not, nothing is returned.
    ///
    /// For the program that [`Self::formulate`] makes, the cost of the
    /// selection is the cost that the objective stands for under
    /// `solution`, and the DAG cost from `roots` is no more: a solution
    /// with the least objective stands for a selection of the least cost
    /// among all solutions.
    #[verifier::rlimit(60)]
    pub fn extract(
        &self,
        egraph: &EGraph,
        roots: &[ClassId],
        formulation: &Formulation,
        solution: &[bool],
    ) -> (out: Option<ExtractionResult>)
        requires
            egraph.well_formed(),
            formulation.sound_for(egraph, roots@),
        ensures
            out is Some <==> formulation.model.holds(solution@),
            out matches Some(result) ==> {
                &&& result@ == decoded(egraph, formulation.vars@, solution@)
                &&& result.valid_from(egraph, roots@)
                &&& result.covers(egraph, roots@, result@.dom())
            },
            out matches Some(result) ==> formulation.exact_for(egraph, roots@) ==> {
                &&& result.selection_cost(egraph) == formulation.cost_under(
                    egraph,
                    roots@,
                    solution@,
                )
                &&& result.dag_cost_spec(egraph, roots@) <= formulation.cost_under(
                    egraph,
                    roots@,
                    solution@,
                )
            },
    {
        if !formulation.model.is_solution(solution) {
            return None;
        }
        let n: usize = egraph.classes.len();
        let ghost x = solution@;
        let ghost vars = formulation.vars@;
        let mut result = ExtractionResult::default();
        let mut ci: usize = 0;
        while ci < n
            invariant
                ci <= n,
                n == egraph.classes@.len(),
                egraph.well_formed(),
                formulation.sound_for(egraph, roots@),
                formulation.model.holds(solution@),
                x == solution@,
                vars == formulation.vars@,
                forall|c: ClassId| #[trigger]
                    result@.contains_key(c) <==> c < ci && on(x, vars[c as int].active),
                forall|c: ClassId| #[trigger]
                    result@.contains_key(c) ==> result@[c] == decoded(egraph, vars, x)[c]
                        && first_on(x, vars[c as int].nodes@) <= usize::MAX,
            decreases n - ci,
        {
            let cvars: &ClassVars = &formulation.vars[ci];
            assert(vars[ci as int].active < formulation.model.columns@.len());
            if solution[cvars.active] {
                assert(class_encoded(egraph, vars, formulation.model.rows@, ci as int));
                assert(rows_hold(formulation.model.rows@, x));
                let ghost some = choose|i: int|
                    0 <= i < cvars.nodes@.len() && on(x, #[trigger] cvars.nodes@[i]);
                let len: usize = cvars.nodes.len();
                let mut i: usize = 0;
                while !solution[cvars.nodes[i]]
                    invariant
                        0 <= i <= some < cvars.nodes@.len(),
                        len == cvars.nodes@.len(),
                        on(x, cvars.nodes@[some]),
                        x == solution@,
                        x.len() == formulation.model.columns@.len(),
                        vars == formulation.vars@,
                        ci < vars.len(),
                        cvars == vars[ci as int],
                        forall|c: int, w: int|
                            0 <= c < vars.len() && 0 <= w < vars[c].nodes@.len() ==> (
                            #[trigger] vars[c].nodes@[w]) < formulation.model.columns@.len(),
                        forall|j: int| 0 <= j < i ==> !on(x, #[trigger] cvars.nodes@[j]),
                    decreases cvars.nodes@.len() - i,
                {
                    assert(vars[ci as int].nodes@[i as int] < x.len());
                    assert(!on(x, cvars.nodes@[i as int]));
                    assert(i != some);
                    i += 1;
                    assert(vars[ci as int].nodes@[i as int] < x.len());
                }
                assert(vars[ci as int].nodes@[i as int] < x.len());
                proof {
                    lemma_first_on(x, cvars.nodes@, i as int);
                }
                assert(egraph.class_ok(ci as int));
                let node_id: NodeId = egraph.classes[ci].nodes[i];
                result.choose_node(ci, node_id);
            }
            ci += 1;
        }
        proof {
            let target = decoded(egraph, vars, x);
            assert forall|c: ClassId| result@.dom().contains(c) == target.dom().contains(c) by {
                assert(result@.contains_key(c) <==> c < n && on(x, vars[c as int].active));
            }
            assert forall|c: ClassId| #[trigger] result@.dom().contains(c) implies result@[c]
                == target[c] by {
                assert(result@.contains_key(c));
            }
            assert(result@ =~= target);
            let used = Set::new(|c: ClassId| c < n && on(x, vars[c as int].active));
            let rank = choose|rank: spec_fn(ClassId) -> nat|
                breaks_cycles(egraph, formulation.banned@, rank);
            assert forall|c: ClassId| #[trigger] used.contains(c) implies {
                &&& 0 <= first_on(x, vars[c as int].nodes@) < vars[c as int].nodes@.len()
                &&& first_on(x, vars[c as int].nodes@) <= usize::MAX
                &&& result.chosen_ok(egraph, c)
                &&& valid_pair(egraph, (c, first_on(x, vars[c as int].nodes@) as usize))
                &&& on(x, vars[c as int].nodes@[first_on(x, vars[c as int].nodes@)])
                &&& result@[c] == pair_node(
                    egraph,
                    (c, first_on(x, vars[c as int].nodes@) as usize),
                )
            } by {
                assert(class_encoded(egraph, vars, formulation.model.rows@, c as int));
                assert(rows_hold(formulation.model.rows@, x));
                let cols = vars[c as int].nodes@;
                assert(covered(formulation.model.rows@, vars[c as int].active, cols));
                assert(on(x, vars[c as int].active));
                let some = choose|i: int| 0 <= i < cols.len() && on(x, #[trigger] cols[i]);
                lemma_first_on_exists(x, cols, some);
                let first = first_on(x, cols);
                assert(0 <= first < cols.len());
                assert(cols.len() == egraph.classes@[c as int].nodes@.len());
                assert(egraph.class_ok(c as int));
                assert(egraph.member_ok(c as int, first));
                assert(result@.contains_key(c));
                assert(result@[c] == target[c]);
                assert(first as usize == first);
            }
            assert forall|c: ClassId, k: int|
                used.contains(c) && 0 <= k < result.arity(egraph, c) implies used.contains(
                #[trigger] result.dependency(egraph, c, k),
            ) && rank(result.dependency(egraph, c, k)) < rank(c) by {
                assert(class_encoded(egraph, vars, formulation.model.rows@, c as int));
                assert(rows_hold(formulation.model.rows@, x));
                let i = first_on(x, vars[c as int].nodes@);
                let m = egraph.classes@[c as int].nodes@[i];
                assert(valid_pair(egraph, (c, i as usize)));
                assert(0 <= i < vars[c as int].nodes@.len());
                assert(result@[c] == m);
                assert(egraph.node_ok(m as int));
                assert(egraph.node_ok(egraph.nodes@[m as int].children@[k] as int));
                let d = result.dependency(egraph, c, k);
                assert(d == egraph.child_class(m as int, k));
                assert(entails(
                    formulation.model.rows@,
                    vars[c as int].nodes@[i],
                    child_col(egraph, vars, m, k),
                ));
                assert(on(x, vars[d as int].active));
                if formulation.banned@.contains((c, i as usize)) {
                    let w = choose|w: int|
                        0 <= w < formulation.banned@.len() && formulation.banned@[w] == (
                            c,
                            i as usize,
                        );
                    assert(formulation.model.columns@[vars[formulation.banned@[w].0 as int].nodes@[formulation.banned@[w].1 as int] as int].forced_off);
                }
                assert(d == egraph.child_class(pair_node(egraph, (c, i as usize)) as int, k));
            }
            assert forall|r: int| 0 <= r < roots@.len() implies used.contains(
                #[trigger] roots@[r],
            ) by {
                assert(formulation.vars@[roots@[r] as int].active == TRUE_LITERAL);
            }
            assert(result.witnessed_by(egraph, roots@, used, rank));
            assert(used =~= result@.dom());
            if formulation.exact_for(egraph, roots@) {
                lemma_objective_is_cost(formulation, egraph, roots@, x, &result);
                lemma_dag_cost_within_selection(&result, egraph, roots@);
            }
        }
        Some(result)
    }
}

/// If some column is 1, `first_on` is the position of a column that is 1.
pub proof fn lemma_first_on_exists(x: Seq<bool>, cols: Seq<Col>, i: int)
    requires
        0 <= i < cols.len(),
        on(x, cols[i]),
    ensures
        0 <= first_on(x, cols) <= i,
        on(x, cols[first_on(x, cols)]),
    decreases cols.len(),
{
    if !on(x, cols[0]) {
        let rest = cols.drop_first();
        assert(rest[i - 1] == cols[i]);
        lemma_first_on_exists(x, rest, i - 1);
        assert(rest[first_on(x, rest)] == cols[first_on(x, rest) + 1]);
    }
}

} // verus!
