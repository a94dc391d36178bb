//! Every selection that the program allows is stood for by a solution: the
//! program loses no selection but those that hold a banned node. With the
//! value of the objective this gives what a solution of the least objective
//! is worth.

use crate::class_reach::lemma_child_class_in_range;
use crate::cycle_breaking::{
    acyclic_classes, all_on_cycle, banned_at_first, bans_by, lemma_no_cycle_no_ban, pair_node,
    valid_pair,
};
use crate::derivation::{children_below, placement_closed, UNPLACED};
use crate::extraction_result::ExtractionResult;
use crate::graph::{ClassId, EGraph, NodeId};
use crate::ilp_cbc::{
    all_rows, child_col, class_row_weights, class_rows, cols_of_children, cols_of_node, count_on,
    decoded, kept_cols, lemma_class_row_value, lemma_count_on, lemma_first_on,
    lemma_layout_distinct, node_rows, nodes_rows, on, rows_view, shared_cols, shared_rows,
    ClassVars, Formulation, RowView, TRUE_LITERAL,
};
use crate::linear_model::{objective_value, row_holds, row_value, Col, RowKind};
use crate::objective::{
    lemma_chosen_sum_agrees, lemma_dag_cost_within_selection, lemma_objective_is_chosen_sum,
    lemma_objective_is_cost,
};
use vstd::prelude::*;

verus! {

/// What a row says holds under `x`.
pub open spec fn view_holds(row: RowView, x: Seq<bool>) -> bool {
    match row.0 {
        RowKind::Equal => row_value(row.1, x) == 0,
        RowKind::AtMost => row_value(row.1, x) <= 0,
    }
}

/// Every one of `rows` holds under `x`.
pub open spec fn views_hold(rows: Seq<RowView>, x: Seq<bool>) -> bool {
    forall|r: int| 0 <= r < rows.len() ==> view_holds(#[trigger] rows[r], x)
}

/// Rows that hold, followed by rows that hold, hold.
pub proof fn lemma_views_hold_add(first: Seq<RowView>, second: Seq<RowView>, x: Seq<bool>)
    requires
        views_hold(first, x),
        views_hold(second, x),
    ensures
        views_hold(first + second, x),
{
    let all = first + second;
    assert forall|r: int| 0 <= r < all.len() implies view_holds(#[trigger] all[r], x) by {
        if r < first.len() {
            assert(all[r] == first[r]);
        } else {
            assert(all[r] == second[r - first.len()]);
        }
    }
}

/// Rows that hold, followed by one more row that holds, hold.
pub proof fn lemma_views_hold_push(rows: Seq<RowView>, row: RowView, x: Seq<bool>)
    requires
        views_hold(rows, x),
        view_holds(row, x),
    ensures
        views_hold(rows.push(row), x),
{
    let all = rows.push(row);
    assert forall|r: int| 0 <= r < all.len() implies view_holds(#[trigger] all[r], x) by {
        if r < rows.len() {
            assert(all[r] == rows[r]);
        }
    }
}

/// The row "`p` is 1 implies `q` is 1" holds exactly if that is so.
pub proof fn lemma_implication_holds(p: Col, q: Col, x: Seq<bool>)
    ensures
        view_holds((RowKind::AtMost, seq![(p, 1i8), (q, -1i8)]), x) <==> (on(x, p) ==> on(x, q)),
{
    let w = seq![(p, 1i8), (q, -1i8)];
    let head = w.drop_last();
    assert(head =~= seq![(p, 1i8)]);
    assert(head.drop_last() =~= Seq::<(Col, i8)>::empty());
    assert(row_value(head.drop_last(), x) == 0);
    assert(head.last() == (p, 1i8));
    assert(w.last() == (q, -1i8));
    assert(row_value(head, x) == if on(x, p) {
        1int
    } else {
        0int
    });
    assert(row_value(w, x) == row_value(head, x) + if on(x, q) {
        -1int
    } else {
        0int
    });
}

/// If exactly the column at position `i` is 1, one column is 1.
pub proof fn lemma_count_single(x: Seq<bool>, cols: Seq<Col>, i: int)
    requires
        0 <= i < cols.len(),
        forall|j: int| 0 <= j < cols.len() ==> (on(x, #[trigger] cols[j]) <==> j == i),
    ensures
        count_on(x, cols) == 1,
    decreases cols.len(),
{
    let rest = cols.drop_last();
    lemma_count_on(x, rest);
    if i == cols.len() - 1 {
        assert forall|j: int| 0 <= j < rest.len() implies !on(x, #[trigger] rest[j]) by {
            assert(rest[j] == cols[j]);
        }
        assert(on(x, cols[cols.len() - 1]));
    } else {
        assert forall|j: int| 0 <= j < rest.len() implies (on(x, #[trigger] rest[j]) <==> j
            == i) by {
            assert(rest[j] == cols[j]);
        }
        lemma_count_single(x, rest, i);
        assert(!on(x, cols[cols.len() - 1]));
    }
}

/// Each of the columns of the children of a node is the column of the class
/// of one of the children.
pub proof fn lemma_cols_of_children(egraph: &EGraph, vars: Seq<ClassVars>, n: NodeId, k: nat)
    ensures
        forall|w: int|
            0 <= w < cols_of_children(egraph, vars, n, k).len() ==> exists|j: int|
                0 <= j < k && #[trigger] cols_of_children(egraph, vars, n, k)[w] == child_col(
                    egraph,
                    vars,
                    n,
                    j,
                ),
    decreases k,
{
    if k > 0 {
        lemma_cols_of_children(egraph, vars, n, (k - 1) as nat);
        let before = cols_of_children(egraph, vars, n, (k - 1) as nat);
        let after = cols_of_children(egraph, vars, n, k);
        assert forall|w: int| 0 <= w < after.len() implies exists|j: int|
            0 <= j < k && #[trigger] after[w] == child_col(egraph, vars, n, j) by {
            if w < before.len() {
                assert(after[w] == before[w]);
                let j = choose|j: int|
                    0 <= j < k - 1 && before[w] == child_col(egraph, vars, n, j);
                assert(after[w] == child_col(egraph, vars, n, j));
            } else {
                assert(after[w] == child_col(egraph, vars, n, k - 1));
            }
        }
    }
}

/// What is kept of `first` is among `first` and among `other`.
pub proof fn lemma_kept_cols_within(first: Seq<Col>, other: Seq<Col>, i: nat)
    requires
        i <= first.len(),
    ensures
        forall|w: int|
            0 <= w < kept_cols(first, other, i).len() ==> first.contains(
                #[trigger] kept_cols(first, other, i)[w],
            ) && other.contains(kept_cols(first, other, i)[w]),
    decreases i,
{
    if i > 0 {
        lemma_kept_cols_within(first, other, (i - 1) as nat);
        let before = kept_cols(first, other, (i - 1) as nat);
        let after = kept_cols(first, other, i);
        assert forall|w: int| 0 <= w < after.len() implies first.contains(#[trigger] after[w])
            && other.contains(after[w]) by {
            if w < before.len() {
                assert(after[w] == before[w]);
            } else {
                assert(after[w] == first[i - 1]);
            }
        }
    }
}

/// A column that the first `j` nodes of a class share is among the columns
/// of the children of each of them.
pub proof fn lemma_shared_within(
    egraph: &EGraph,
    vars: Seq<ClassVars>,
    c: int,
    j: nat,
    at: int,
)
    requires
        0 <= at < j,
    ensures
        forall|w: int|
            0 <= w < shared_cols(egraph, vars, c, j).len() ==> cols_of_node(
                egraph,
                vars,
                egraph.classes@[c].nodes@[at],
            ).contains(#[trigger] shared_cols(egraph, vars, c, j)[w]),
    decreases j,
{
    let shared = shared_cols(egraph, vars, c, j);
    if j <= 1 {
        assert forall|w: int| 0 <= w < shared.len() implies cols_of_node(
            egraph,
            vars,
            egraph.classes@[c].nodes@[at],
        ).contains(#[trigger] shared[w]) by {}
    } else {
        let before = shared_cols(egraph, vars, c, (j - 1) as nat);
        let other = cols_of_node(egraph, vars, egraph.classes@[c].nodes@[j - 1]);
        lemma_kept_cols_within(before, other, before.len());
        if at < j - 1 {
            lemma_shared_within(egraph, vars, c, (j - 1) as nat, at);
            assert forall|w: int| 0 <= w < shared.len() implies cols_of_node(
                egraph,
                vars,
                egraph.classes@[c].nodes@[at],
            ).contains(#[trigger] shared[w]) by {
                assert(before.contains(shared[w]));
                let v = choose|v: int| 0 <= v < before.len() && before[v] == shared[w];
                assert(cols_of_node(egraph, vars, egraph.classes@[c].nodes@[at]).contains(
                    before[v],
                ));
            }
        }
    }
}

/// The rows "`active` implies a shared column" hold if the implications do.
pub proof fn lemma_shared_rows_hold(active: Col, shared: Seq<Col>, w: nat, x: Seq<bool>)
    requires
        w <= shared.len(),
        forall|v: int| 0 <= v < w ==> (on(x, active) ==> on(x, #[trigger] shared[v])),
    ensures
        views_hold(shared_rows(active, shared, w), x),
    decreases w,
{
    if w > 0 {
        lemma_shared_rows_hold(active, shared, (w - 1) as nat, x);
        lemma_implication_holds(active, shared[w - 1], x);
        lemma_views_hold_push(
            shared_rows(active, shared, (w - 1) as nat),
            (RowKind::AtMost, seq![(active, 1i8), (shared[w - 1], -1i8)]),
            x,
        );
    }
}

/// The rows "node implies the column of a child's class" hold if the
/// implications do.
pub proof fn lemma_node_rows_hold(
    node_active: Col,
    cols: Seq<Col>,
    shared: Seq<Col>,
    t: nat,
    x: Seq<bool>,
)
    requires
        t <= cols.len(),
        forall|u: int| 0 <= u < t ==> (on(x, node_active) ==> on(x, #[trigger] cols[u])),
    ensures
        views_hold(node_rows(node_active, cols, shared, t), x),
    decreases t,
{
    if t > 0 {
        lemma_node_rows_hold(node_active, cols, shared, (t - 1) as nat, x);
        if !shared.contains(cols[t - 1]) {
            lemma_implication_holds(node_active, cols[t - 1], x);
            lemma_views_hold_push(
                node_rows(node_active, cols, shared, (t - 1) as nat),
                (RowKind::AtMost, seq![(node_active, 1i8), (cols[t - 1], -1i8)]),
                x,
            );
        }
    }
}

/// Under `x`, a chosen node of class `c` has the classes of all its
/// children used.
pub open spec fn children_used(egraph: &EGraph, vars: Seq<ClassVars>, c: int, x: Seq<bool>) -> bool {
    forall|j: int, u: int|
        0 <= j < egraph.classes@[c].nodes@.len() && 0 <= u < cols_of_node(
            egraph,
            vars,
            egraph.classes@[c].nodes@[j],
        ).len() ==> (on(x, vars[c].nodes@[j]) ==> on(
            x,
            #[trigger] cols_of_node(egraph, vars, egraph.classes@[c].nodes@[j])[u],
        ))
}

/// Under `x`, class `c` is as the program wants it: it has one chosen node
/// if it is used and else none, a used class has the classes used that all
/// its nodes share, and a chosen node has the classes of its children used.
pub open spec fn class_respected(egraph: &EGraph, vars: Seq<ClassVars>, c: int, x: Seq<bool>) -> bool {
    let shared = shared_cols(egraph, vars, c, egraph.classes@[c].nodes@.len());
    &&& count_on(x, vars[c].nodes@) == if on(x, vars[c].active) {
        1int
    } else {
        0int
    }
    &&& forall|v: int|
        0 <= v < shared.len() ==> (on(x, vars[c].active) ==> on(x, #[trigger] shared[v]))
    &&& children_used(egraph, vars, c, x)
}

/// The rows of the first `i` nodes of a class hold if chosen nodes have
/// the classes of their children used.
pub proof fn lemma_nodes_rows_hold(
    egraph: &EGraph,
    vars: Seq<ClassVars>,
    c: int,
    shared: Seq<Col>,
    i: nat,
    x: Seq<bool>,
)
    requires
        i <= egraph.classes@[c].nodes@.len(),
        children_used(egraph, vars, c, x),
    ensures
        views_hold(nodes_rows(egraph, vars, c, shared, i), x),
    decreases i,
{
    if i > 0 {
        lemma_nodes_rows_hold(egraph, vars, c, shared, (i - 1) as nat, x);
        let cols = cols_of_node(egraph, vars, egraph.classes@[c].nodes@[i - 1]);
        assert forall|u: int| 0 <= u < cols.len() && on(x, vars[c].nodes@[i - 1]) implies on(
            x,
            #[trigger] cols[u],
        ) by {
            assert(on(x, vars[c].nodes@[i - 1]) ==> on(
                x,
                cols_of_node(egraph, vars, egraph.classes@[c].nodes@[i - 1])[u],
            ));
        }
        lemma_node_rows_hold(vars[c].nodes@[i - 1], cols, shared, cols.len(), x);
        lemma_views_hold_add(
            nodes_rows(egraph, vars, c, shared, (i - 1) as nat),
            node_rows(vars[c].nodes@[i - 1], cols, shared, cols.len()),
            x,
        );
    }
}

/// The rows of a class hold if the class is as the program wants it.
pub proof fn lemma_class_rows_hold(egraph: &EGraph, vars: Seq<ClassVars>, c: int, x: Seq<bool>)
    requires
        class_respected(egraph, vars, c, x),
    ensures
        views_hold(class_rows(egraph, vars, c), x),
{
    let shared = shared_cols(egraph, vars, c, egraph.classes@[c].nodes@.len());
    let head: Seq<RowView> = seq![
        (RowKind::Equal, class_row_weights(vars[c].active, vars[c].nodes@)),
    ];
    lemma_class_row_value(vars[c].active, vars[c].nodes@, x);
    assert(views_hold(head, x));
    lemma_shared_rows_hold(vars[c].active, shared, shared.len(), x);
    lemma_nodes_rows_hold(egraph, vars, c, shared, egraph.classes@[c].nodes@.len(), x);
    lemma_views_hold_add(head, shared_rows(vars[c].active, shared, shared.len()), x);
    lemma_views_hold_add(
        head + shared_rows(vars[c].active, shared, shared.len()),
        nodes_rows(egraph, vars, c, shared, egraph.classes@[c].nodes@.len()),
        x,
    );
}

/// The rows of the first `n` classes hold if each of these classes is as
/// the program wants it.
pub proof fn lemma_all_rows_hold(egraph: &EGraph, vars: Seq<ClassVars>, n: nat, x: Seq<bool>)
    requires
        forall|c: int| 0 <= c < n ==> #[trigger] class_respected(egraph, vars, c, x),
    ensures
        views_hold(all_rows(egraph, vars, n), x),
    decreases n,
{
    if n > 0 {
        lemma_all_rows_hold(egraph, vars, (n - 1) as nat, x);
        assert(class_respected(egraph, vars, n - 1, x));
        lemma_class_rows_hold(egraph, vars, n - 1, x);
        lemma_views_hold_add(
            all_rows(egraph, vars, (n - 1) as nat),
            class_rows(egraph, vars, n - 1),
            x,
        );
    }
}

/// `col` is the column of class `c` or of the node at place `pick(c)` in
/// it.
pub open spec fn marked_by(f: &Formulation, pick: spec_fn(ClassId) -> usize, c: ClassId, col: int) -> bool {
    col == f.vars@[c as int].active || col == f.vars@[c as int].nodes@[pick(c) as int]
}

/// `col` is the column fixed to 1, or the column of a class of `u` or of
/// its picked node.
pub open spec fn marks(
    f: &Formulation,
    u: Set<ClassId>,
    pick: spec_fn(ClassId) -> usize,
    col: int,
) -> bool {
    col == TRUE_LITERAL || exists|c: ClassId| u.contains(c) && #[trigger] marked_by(f, pick, c, col)
}

/// The assignment that stands for the classes of `u`, each with the node
/// at place `pick(c)` in it.
pub open spec fn encoding(f: &Formulation, u: Set<ClassId>, pick: spec_fn(ClassId) -> usize) -> Seq<
    bool,
> {
    Seq::new(f.model.columns@.len(), |col: int| marks(f, u, pick, col))
}

/// The choices that `u` and `pick` stand for.
pub open spec fn picked(egraph: &EGraph, u: Set<ClassId>, pick: spec_fn(ClassId) -> usize) -> Map<
    ClassId,
    NodeId,
> {
    Map::new(|c: ClassId| u.contains(c), |c: ClassId| pair_node(egraph, (c, pick(c))))
}

/// `u` and `pick` can be written as an assignment: `u` holds the roots;
/// for each class of `u`, `pick` names a listed node that is not banned;
/// and `u` holds the classes of the children of the picked nodes.
pub open spec fn writable(
    f: &Formulation,
    egraph: &EGraph,
    roots: Seq<ClassId>,
    u: Set<ClassId>,
    pick: spec_fn(ClassId) -> usize,
) -> bool {
    &&& egraph.well_formed()
    &&& f.exact_for(egraph, roots)
    &&& forall|r: int| 0 <= r < roots.len() ==> u.contains(#[trigger] roots[r])
    &&& forall|c: ClassId| #[trigger]
        u.contains(c) ==> valid_pair(egraph, (c, pick(c))) && !f.banned@.contains((c, pick(c)))
    &&& forall|c: ClassId, k: int|
        u.contains(c) && 0 <= k < egraph.nodes@[pair_node(egraph, (c, pick(c))) as int].children@.len()
            ==> u.contains(#[trigger] egraph.child_class(pair_node(egraph, (c, pick(c))) as int, k))
}

/// Under the assignment that stands for `u` and `pick`, the column of a
/// class is 1 exactly if the class is in `u`, and the column of a node is
/// 1 exactly if the node is the picked node of a class of `u`.
#[verifier::rlimit(80)]
pub proof fn lemma_marks(
    f: &Formulation,
    egraph: &EGraph,
    roots: Seq<ClassId>,
    u: Set<ClassId>,
    pick: spec_fn(ClassId) -> usize,
    c: int,
)
    requires
        writable(f, egraph, roots, u, pick),
        0 <= c < egraph.classes@.len(),
    ensures
        on(encoding(f, u, pick), f.vars@[c].active) <==> u.contains(c as ClassId),
        forall|j: int|
            0 <= j < f.vars@[c].nodes@.len() ==> (on(
                encoding(f, u, pick),
                #[trigger] f.vars@[c].nodes@[j],
            ) <==> u.contains(c as ClassId) && j == pick(c as ClassId)),
{
    let x = encoding(f, u, pick);
    let vars = f.vars@;
    let cid = c as ClassId;
    lemma_layout_distinct(egraph, roots, vars, c, c);
    assert(vars[c].active < f.model.columns@.len());
    if u.contains(cid) {
        assert(valid_pair(egraph, (cid, pick(cid))));
        assert(marked_by(f, pick, cid, vars[c].active as int));
        assert(marked_by(f, pick, cid, vars[c].nodes@[pick(cid) as int] as int));
    }
    if on(x, vars[c].active) && !u.contains(cid) {
        let col = vars[c].active as int;
        assert(marks(f, u, pick, col));
        if col == TRUE_LITERAL {
            assert(roots.contains(cid));
            let r = choose|r: int| 0 <= r < roots.len() && roots[r] == cid;
            assert(u.contains(roots[r]));
        } else {
            let d = choose|d: ClassId| u.contains(d) && #[trigger] marked_by(f, pick, d, col);
            assert(valid_pair(egraph, (d, pick(d))));
            lemma_layout_distinct(egraph, roots, vars, c, d as int);
            lemma_layout_distinct(egraph, roots, vars, d as int, d as int);
            if roots.contains(cid) {
                let r = choose|r: int| 0 <= r < roots.len() && roots[r] == cid;
                assert(u.contains(roots[r]));
            }
        }
        assert(false);
    }
    assert forall|j: int| 0 <= j < vars[c].nodes@.len() implies (on(
        x,
        #[trigger] vars[c].nodes@[j],
    ) <==> u.contains(cid) && j == pick(cid)) by {
        let col = vars[c].nodes@[j] as int;
        assert(vars[c].nodes@[j] < f.model.columns@.len());
        assert(vars[c].nodes@[j] != TRUE_LITERAL);
        if on(x, vars[c].nodes@[j]) {
            assert(marks(f, u, pick, col));
            let d = choose|d: ClassId| u.contains(d) && #[trigger] marked_by(f, pick, d, col);
            assert(valid_pair(egraph, (d, pick(d))));
            lemma_layout_distinct(egraph, roots, vars, c, d as int);
            lemma_layout_distinct(egraph, roots, vars, d as int, c);
            let at = pick(d) as int;
            if col == vars[d as int].active {
                assert(vars[d as int].active != vars[c].nodes@[j]);
            } else {
                assert(col == vars[d as int].nodes@[at]);
                if c != d || j != at {
                    assert(vars[c].nodes@[j] != vars[d as int].nodes@[at]);
                }
            }
        }
    }
}

/// Under the assignment that stands for `u` and `pick`, every class is
/// as the program wants it.
#[verifier::rlimit(80)]
pub proof fn lemma_encoding_respects(
    f: &Formulation,
    egraph: &EGraph,
    roots: Seq<ClassId>,
    u: Set<ClassId>,
    pick: spec_fn(ClassId) -> usize,
    c: int,
)
    requires
        writable(f, egraph, roots, u, pick),
        0 <= c < egraph.classes@.len(),
    ensures
        class_respected(egraph, f.vars@, c, encoding(f, u, pick)),
{
    let x = encoding(f, u, pick);
    let vars = f.vars@;
    let cid = c as ClassId;
    let members = egraph.classes@[c].nodes@;
    lemma_marks(f, egraph, roots, u, pick, c);
    assert(vars[c].nodes@.len() == members.len());
    assert(children_used(egraph, vars, c, x)) by {
        assert forall|j: int, w: int|
            0 <= j < members.len() && 0 <= w < cols_of_node(egraph, vars, members[j]).len() && on(
                x,
                vars[c].nodes@[j],
            ) implies on(x, #[trigger] cols_of_node(egraph, vars, members[j])[w]) by {
            let node = members[j];
            assert(node == pair_node(egraph, (cid, pick(cid))));
            lemma_cols_of_children(egraph, vars, node, egraph.nodes@[node as int].children@.len());
            let col = cols_of_node(egraph, vars, node)[w];
            let k = choose|k: int|
                0 <= k < egraph.nodes@[node as int].children@.len() && cols_of_children(
                    egraph,
                    vars,
                    node,
                    egraph.nodes@[node as int].children@.len(),
                )[w] == child_col(egraph, vars, node, k);
            let d = egraph.child_class(pair_node(egraph, (cid, pick(cid))) as int, k);
            assert(u.contains(d));
            assert(valid_pair(egraph, (d, pick(d))));
            lemma_marks(f, egraph, roots, u, pick, d as int);
            assert(col == vars[d as int].active);
        }
    }
    let shared = shared_cols(egraph, vars, c, members.len());
    assert forall|v: int| 0 <= v < shared.len() && on(x, vars[c].active) implies on(
        x,
        #[trigger] shared[v],
    ) by {
        assert(valid_pair(egraph, (cid, pick(cid))));
        let at = pick(cid) as int;
        lemma_shared_within(egraph, vars, c, members.len(), at);
        let cols = cols_of_node(egraph, vars, members[at]);
        assert(cols.contains(shared[v]));
        let w = choose|w: int| 0 <= w < cols.len() && cols[w] == shared[v];
        assert(on(x, vars[c].nodes@[at]));
        assert(on(x, cols_of_node(egraph, vars, members[at])[w]));
    }
    if u.contains(cid) {
        assert(valid_pair(egraph, (cid, pick(cid))));
        lemma_count_single(x, vars[c].nodes@, pick(cid) as int);
    } else {
        lemma_count_on(x, vars[c].nodes@);
    }
}

/// The assignment that stands for `u` and `pick` is a solution of the
/// program, and the program reads it back as the picked nodes.
#[verifier::rlimit(80)]
pub proof fn lemma_picks_have_solution(
    f: &Formulation,
    egraph: &EGraph,
    roots: Seq<ClassId>,
    u: Set<ClassId>,
    pick: spec_fn(ClassId) -> usize,
)
    requires
        writable(f, egraph, roots, u, pick),
    ensures
        f.model.holds(encoding(f, u, pick)),
        decoded(egraph, f.vars@, encoding(f, u, pick)) == picked(egraph, u, pick),
{
    let x = encoding(f, u, pick);
    let vars = f.vars@;
    let n = egraph.classes@.len();
    assert forall|c: int| 0 <= c < n implies #[trigger] class_respected(egraph, vars, c, x) by {
        lemma_encoding_respects(f, egraph, roots, u, pick, c);
    }
    lemma_all_rows_hold(egraph, vars, n as nat, x);
    let rows = f.model.rows@;
    assert forall|r: int| 0 <= r < rows.len() implies row_holds(#[trigger] &rows[r], x) by {
        assert(rows_view(rows)[r] == (rows[r].kind, rows[r].weights@));
        assert(view_holds(all_rows(egraph, vars, n as nat)[r], x));
    }
    let columns = f.model.columns@;
    assert forall|col: int| 0 <= col < columns.len() implies ((#[trigger] columns[col]).forced_on
        ==> x[col]) && (columns[col].forced_off ==> !x[col]) by {
        if columns[col].forced_off && x[col] {
            let v = choose|v: int|
                0 <= v < f.banned@.len() && col == vars[(#[trigger] f.banned@[v]).0 as int].nodes@[f.banned@[v].1 as int];
            let b = f.banned@[v];
            assert(valid_pair(egraph, b));
            lemma_marks(f, egraph, roots, u, pick, b.0 as int);
            assert(on(x, vars[b.0 as int].nodes@[b.1 as int]));
            assert(f.banned@.contains((b.0, b.1)));
        }
    }
    let target = picked(egraph, u, pick);
    let got = decoded(egraph, vars, x);
    assert forall|c: ClassId| got.dom().contains(c) == target.dom().contains(c) by {
        if c < n {
            lemma_marks(f, egraph, roots, u, pick, c as int);
        }
        if u.contains(c) {
            assert(valid_pair(egraph, (c, pick(c))));
        }
    }
    assert forall|c: ClassId| #[trigger] got.dom().contains(c) implies got[c] == target[c] by {
        lemma_marks(f, egraph, roots, u, pick, c as int);
        assert(valid_pair(egraph, (c, pick(c))));
        lemma_first_on(x, vars[c as int].nodes@, pick(c) as int);
    }
    assert(got =~= target);
}

/// Where every root can be built from the leaves up, the program has a
/// solution: the one that gives each class with a place a node whose
/// children are in classes with a lower place.
pub proof fn lemma_program_has_solution(
    f: &Formulation,
    egraph: &EGraph,
    roots: Seq<ClassId>,
    place: Seq<usize>,
)
    requires
        egraph.well_formed(),
        f.exact_for(egraph, roots),
        bans_by(egraph, f.banned@, place),
        forall|r: int| 0 <= r < roots.len() ==> place[#[trigger] roots[r] as int] != UNPLACED,
    ensures
        exists|x: Seq<bool>| f.model.holds(x),
{
    let u = Set::new(|c: ClassId| c < egraph.classes@.len() && place[c as int] != UNPLACED);
    let pick = |c: ClassId|
        choose|i: usize|
            valid_pair(egraph, (c, i)) && #[trigger] children_below(
                egraph,
                place,
                (c, i),
                place[c as int],
            );
    assert forall|c: ClassId| #[trigger] u.contains(c) implies valid_pair(egraph, (c, pick(c)))
        && !f.banned@.contains((c, pick(c))) && children_below(
        egraph,
        place,
        (c, pick(c)),
        place[c as int],
    ) by {
        assert(!banned_at_first(egraph, place, (c, pick(c))));
    }
    assert forall|c: ClassId, k: int|
        u.contains(c) && 0 <= k < egraph.nodes@[pair_node(
            egraph,
            (c, pick(c)),
        ) as int].children@.len() implies u.contains(
        #[trigger] egraph.child_class(pair_node(egraph, (c, pick(c))) as int, k),
    ) by {
        lemma_child_class_in_range(egraph, (c, pick(c)), k);
    }
    assert forall|r: int| 0 <= r < roots.len() implies u.contains(#[trigger] roots[r]) by {
        assert(f.vars@[roots[r] as int].active == TRUE_LITERAL);
    }
    lemma_picks_have_solution(f, egraph, roots, u, pick);
}

/// Node `i` of class `c` is the node that `s` chooses for `c`, and it is
/// not banned.
pub open spec fn picks(
    egraph: &EGraph,
    banned: Seq<(ClassId, usize)>,
    s: &ExtractionResult,
    c: ClassId,
    i: usize,
) -> bool {
    valid_pair(egraph, (c, i)) && pair_node(egraph, (c, i)) == s@[c] && !banned.contains((c, i))
}

/// For every class of `u`, `s` chooses a node that the class lists and
/// that is not banned.
pub open spec fn allowed(
    egraph: &EGraph,
    banned: Seq<(ClassId, usize)>,
    s: &ExtractionResult,
    u: Set<ClassId>,
) -> bool {
    forall|c: ClassId| #[trigger]
        u.contains(c) ==> exists|i: usize| picks(egraph, banned, s, c, i)
}

/// The place in class `c` of the node that `s` chooses for it.
pub open spec fn pick_of(
    egraph: &EGraph,
    banned: Seq<(ClassId, usize)>,
    s: &ExtractionResult,
    c: ClassId,
) -> usize {
    choose|i: usize| picks(egraph, banned, s, c, i)
}

/// The program allows the choices of `s` on `u`: `u` holds the roots and
/// all that its classes depend on, and `s` chooses for each class of `u` a
/// node that is listed and not banned.
pub open spec fn allows(
    f: &Formulation,
    egraph: &EGraph,
    roots: Seq<ClassId>,
    s: &ExtractionResult,
    u: Set<ClassId>,
) -> bool {
    &&& egraph.well_formed()
    &&& f.exact_for(egraph, roots)
    &&& s.covers(egraph, roots, u)
    &&& allowed(egraph, f.banned@, s, u)
}

/// A selection that the program allows is stood for by a solution, which
/// the program reads back as the choices of the selection on `u`.
pub proof fn lemma_selection_has_solution(
    f: &Formulation,
    egraph: &EGraph,
    roots: Seq<ClassId>,
    s: &ExtractionResult,
    u: Set<ClassId>,
)
    requires
        allows(f, egraph, roots, s, u),
    ensures
        exists|x: Seq<bool>|
            f.model.holds(x) && #[trigger] decoded(egraph, f.vars@, x) == s@.restrict(u),
{
    let pick = |c: ClassId| pick_of(egraph, f.banned@, s, c);
    assert forall|c: ClassId| #[trigger] u.contains(c) implies picks(
        egraph,
        f.banned@,
        s,
        c,
        pick(c),
    ) by {
        let i = choose|i: usize| picks(egraph, f.banned@, s, c, i);
        assert(picks(egraph, f.banned@, s, c, i));
    }
    assert forall|c: ClassId, k: int|
        u.contains(c) && 0 <= k < egraph.nodes@[pair_node(
            egraph,
            (c, pick(c)),
        ) as int].children@.len() implies u.contains(
        #[trigger] egraph.child_class(pair_node(egraph, (c, pick(c))) as int, k),
    ) by {
        assert(picks(egraph, f.banned@, s, c, pick(c)));
        assert(s.chosen_ok(egraph, c));
        assert(u.contains(s.dependency(egraph, c, k)));
    }
    assert(writable(f, egraph, roots, u, pick));
    lemma_picks_have_solution(f, egraph, roots, u, pick);
    let x = encoding(f, u, pick);
    assert(picked(egraph, u, pick) =~= s@.restrict(u)) by {
        assert forall|c: ClassId| u.contains(c) implies s@.dom().contains(c) && pair_node(
            egraph,
            (c, pick(c)),
        ) == s@[c] by {
            assert(picks(egraph, f.banned@, s, c, pick(c)));
            assert(s.chosen_ok(egraph, c));
        }
    }
    assert(f.model.holds(x) && decoded(egraph, f.vars@, x) == s@.restrict(u));
}

/// A solution with the least objective stands for a selection whose DAG
/// cost is at most the cost of every selection that the program allows:
/// one that holds the roots and all they depend on, and chooses only
/// listed nodes that are not banned.
pub proof fn lemma_least_objective_is_least_cost(
    f: &Formulation,
    egraph: &EGraph,
    roots: Seq<ClassId>,
    x: Seq<bool>,
    result: &ExtractionResult,
    s: &ExtractionResult,
    u: Set<ClassId>,
)
    requires
        allows(f, egraph, roots, s, u),
        f.model.holds(x),
        forall|y: Seq<bool>| #[trigger]
            f.model.holds(y) ==> objective_value(f.model.columns@, x) <= objective_value(
                f.model.columns@,
                y,
            ),
        result@ == decoded(egraph, f.vars@, x),
        result.covers(egraph, roots, result@.dom()),
    ensures
        result.dag_cost_spec(egraph, roots) <= s.sum_below(egraph, u, egraph.classes@.len()),
{
    let n = egraph.classes@.len() as nat;
    lemma_selection_has_solution(f, egraph, roots, s, u);
    let y = choose|y: Seq<bool>|
        f.model.holds(y) && #[trigger] decoded(egraph, f.vars@, y) == s@.restrict(u);
    lemma_objective_is_chosen_sum(f, egraph, roots, x);
    lemma_objective_is_chosen_sum(f, egraph, roots, y);
    lemma_objective_is_cost(f, egraph, roots, x, result);
    lemma_dag_cost_within_selection(result, egraph, roots);
    let of_y = decoded(egraph, f.vars@, y);
    assert(of_y.dom() =~= u) by {
        assert forall|c: ClassId| u.contains(c) implies s@.dom().contains(c) by {
            assert(s.chosen_ok(egraph, c));
        }
    }
    lemma_chosen_sum_agrees(egraph, of_y, s@, u, n);
    s.lemma_sum_below_is_chosen_sum(egraph, u, n);
}

/// A solution with the least objective stands for a selection whose DAG
/// cost is at most the DAG cost of every selection that is complete from
/// the roots and chooses, for the classes that the roots depend on, only
/// listed nodes that are not banned.
pub proof fn lemma_least_objective_is_least_dag_cost(
    f: &Formulation,
    egraph: &EGraph,
    roots: Seq<ClassId>,
    x: Seq<bool>,
    result: &ExtractionResult,
    s: &ExtractionResult,
)
    requires
        egraph.well_formed(),
        f.exact_for(egraph, roots),
        f.model.holds(x),
        forall|y: Seq<bool>| #[trigger]
            f.model.holds(y) ==> objective_value(f.model.columns@, x) <= objective_value(
                f.model.columns@,
                y,
            ),
        result@ == decoded(egraph, f.vars@, x),
        result.covers(egraph, roots, result@.dom()),
        s.complete_from(egraph, roots),
        allowed(egraph, f.banned@, s, s.reachable(egraph, roots)),
    ensures
        result.dag_cost_spec(egraph, roots) <= s.dag_cost_spec(egraph, roots),
{
    s.lemma_reachable_covers(egraph, roots);
    lemma_least_objective_is_least_cost(
        f,
        egraph,
        roots,
        x,
        result,
        s,
        s.reachable(egraph, roots),
    );
}

/// On a graph without a cycle of classes, a solution with the least
/// objective stands for a selection whose DAG cost is at most the DAG cost
/// of every selection that is complete from the roots and chooses listed
/// nodes.
pub proof fn lemma_least_objective_without_cycles(
    f: &Formulation,
    egraph: &EGraph,
    roots: Seq<ClassId>,
    x: Seq<bool>,
    result: &ExtractionResult,
    s: &ExtractionResult,
)
    requires
        egraph.well_formed(),
        acyclic_classes(egraph),
        f.exact_for(egraph, roots),
        all_on_cycle(egraph, f.banned@),
        f.model.holds(x),
        forall|y: Seq<bool>| #[trigger]
            f.model.holds(y) ==> objective_value(f.model.columns@, x) <= objective_value(
                f.model.columns@,
                y,
            ),
        result@ == decoded(egraph, f.vars@, x),
        result.covers(egraph, roots, result@.dom()),
        s.complete_from(egraph, roots),
        forall|c: ClassId| #[trigger]
            s.reachable(egraph, roots).contains(c) ==> exists|i: usize|
                valid_pair(egraph, (c, i)) && #[trigger] pair_node(egraph, (c, i)) == s@[c],
    ensures
        result.dag_cost_spec(egraph, roots) <= s.dag_cost_spec(egraph, roots),
{
    lemma_no_cycle_no_ban(egraph, f.banned@);
    assert forall|c: ClassId| #[trigger] s.reachable(egraph, roots).contains(c) implies exists|
        i: usize,
    |
        picks(egraph, f.banned@, s, c, i) by {
        let i = choose|i: usize|
            valid_pair(egraph, (c, i)) && #[trigger] pair_node(egraph, (c, i)) == s@[c];
        assert(picks(egraph, f.banned@, s, c, i));
    }
    lemma_least_objective_is_least_dag_cost(f, egraph, roots, x, result, s);
}

/// Every class with a proper choice is given a node that the class
/// lists.
pub open spec fn chooses_listed(egraph: &EGraph, s: &ExtractionResult) -> bool {
    forall|c: ClassId| #[trigger]
        s.chosen_ok(egraph, c) ==> exists|i: usize|
            valid_pair(egraph, (c, i)) && #[trigger] pair_node(egraph, (c, i)) == s@[c]
}

/// A class of a selection without cycles can be built from the leaves up:
/// it has a place.
pub proof fn lemma_selected_class_is_placed(
    egraph: &EGraph,
    place: Seq<usize>,
    s: &ExtractionResult,
    u: Set<ClassId>,
    rank: spec_fn(ClassId) -> nat,
    c: ClassId,
)
    requires
        egraph.well_formed(),
        place.len() == egraph.classes@.len(),
        placement_closed(egraph, place),
        s.closed(egraph, u),
        s.ranked(egraph, u, rank),
        chooses_listed(egraph, s),
        u.contains(c),
    ensures
        c < egraph.classes@.len(),
        place[c as int] != UNPLACED,
    decreases rank(c),
{
    assert(s.chosen_ok(egraph, c));
    assert(egraph.node_ok(s@[c] as int));
    if place[c as int] == UNPLACED {
        let i = choose|i: usize|
            valid_pair(egraph, (c, i)) && #[trigger] pair_node(egraph, (c, i)) == s@[c];
        assert(!children_below(egraph, place, (c, i), UNPLACED));
        let k = choose|k: int|
            0 <= k < egraph.nodes@[pair_node(egraph, (c, i)) as int].children@.len() && !(place[(
            #[trigger] egraph.child_class(pair_node(egraph, (c, i)) as int, k)) as int]
                < UNPLACED);
        let d = s.dependency(egraph, c, k);
        assert(u.contains(d));
        assert(rank(d) < rank(c));
        lemma_selected_class_is_placed(egraph, place, s, u, rank, d);
        assert(false);
    }
}

/// Where any selection of listed nodes is valid from the roots, the
/// program has a solution.
pub proof fn lemma_program_has_solution_where_a_selection_is_valid(
    f: &Formulation,
    egraph: &EGraph,
    roots: Seq<ClassId>,
    place: Seq<usize>,
    s: &ExtractionResult,
)
    requires
        egraph.well_formed(),
        f.exact_for(egraph, roots),
        bans_by(egraph, f.banned@, place),
        s.valid_from(egraph, roots),
        chooses_listed(egraph, s),
    ensures
        exists|x: Seq<bool>| f.model.holds(x),
{
    let (u, rank) = choose|u: Set<ClassId>, rank: spec_fn(ClassId) -> nat|
        s.witnessed_by(egraph, roots, u, rank);
    assert forall|r: int| 0 <= r < roots.len() implies place[#[trigger] roots[r] as int]
        != UNPLACED by {
        assert(u.contains(roots[r]));
        lemma_selected_class_is_placed(egraph, place, s, u, rank, roots[r]);
    }
    lemma_program_has_solution(f, egraph, roots, place);
}

} // verus!
