//! Steps with one name put out the same rows.
use vstd::prelude::*;
use vstd::string::*;
use crate::executing::meaning::{is_derived, is_joined, is_kept_as, makes, Database};
use crate::executing::shapes::{is_named, name_len};
use crate::parsing::rule::FLRuleModel;
use crate::planning::legible::{lemma_assoc, lemma_cut};
use crate::planning::linking::{is_fed, is_leaf, is_link, is_linked_to};
use crate::planning::reading_flows::{is_plain_flow, law_flow_is_known_from_its_text};
use crate::planning::transformations::{TransformationKind, TransformationModel};
use crate::text::Written;

verus! {

/// How many columns each relation has.
pub type Arities = spec_fn(Seq<char>) -> nat;

/// Whether a step is named by what it does, its constants are numbers, and a
/// relation that it reads has a name without closing brackets and the columns that
/// the relation has.
pub open spec fn is_clear(arities: Arities, step: TransformationModel) -> bool {
    &&& is_named(step)
    &&& is_plain_flow(step.flow)
    &&& step.is_unary() ==> !step.input.signature.name().contains(')')
        && step.input.values.len() == arities(step.input.signature.name())
}

/// Whether the steps of a tree and those below them are clear.
pub open spec fn is_clear_tree(
    arities: Arities,
    tree: Map<TransformationModel, (TransformationModel, TransformationModel)>,
) -> bool {
    forall|step: TransformationModel| #[trigger]
        tree.contains_key(step) ==> is_clear(arities, step) && is_clear(arities, tree[step].0)
            && is_clear(arities, tree[step].1)
}

/// How the name of what a step puts out starts.
spec fn name_mark(step: TransformationModel) -> Seq<char> {
    if step.is_unary() {
        if step.output.keys.len() == 0 {
            "Row("@
        } else if step.output.values.len() == 0 {
            "K("@
        } else {
            "Kv("@
        }
    } else {
        match step.kind {
            TransformationKind::JnKK => "JnKK("@,
            TransformationKind::JnKvK => "JnKvK("@,
            TransformationKind::JnKvKv => "JnKvKv("@,
            TransformationKind::JnKKv => "JnKKv("@,
            TransformationKind::NjKK => "NjKK("@,
            TransformationKind::NjKvK => "NjKvK("@,
            _ => "Cartesian("@,
        }
    }
}

/// The characters that tell the starts of names apart.
spec fn mark_chars(step: TransformationModel) -> (char, char, char, char, char) {
    if step.is_unary() {
        if step.output.keys.len() == 0 {
            ('R', 'o', ' ', ' ', ' ')
        } else if step.output.values.len() == 0 {
            ('K', '(', ' ', ' ', ' ')
        } else {
            ('K', 'v', ' ', ' ', ' ')
        }
    } else {
        match step.kind {
            TransformationKind::JnKK => ('J', 'n', 'K', '(', ' '),
            TransformationKind::JnKvK => ('J', 'n', 'v', 'K', '('),
            TransformationKind::JnKvKv => ('J', 'n', 'v', 'K', 'v'),
            TransformationKind::JnKKv => ('J', 'n', 'K', 'v', ' '),
            TransformationKind::NjKK => ('N', 'j', 'K', '(', ' '),
            TransformationKind::NjKvK => ('N', 'j', 'v', 'K', ' '),
            _ => ('C', 'a', 't', 'e', ' '),
        }
    }
}

proof fn lemma_mark_chars(step: TransformationModel)
    ensures
        ({
            let mark = name_mark(step);
            let chars = mark_chars(step);
            &&& mark.len() > 1
            &&& mark[0] == chars.0
            &&& mark[1] == chars.1
            &&& !step.is_unary() ==> mark.len() > 4 && mark[3] == chars.2 && mark[4] == chars.3
            &&& !step.is_unary() && (step.kind is JnKvK || step.kind is JnKvKv) ==> mark.len() > 5
                && mark[5] == chars.4
        }),
{
    reveal_strlit("Row(");
    reveal_strlit("K(");
    reveal_strlit("Kv(");
    reveal_strlit("JnKK(");
    reveal_strlit("JnKvK(");
    reveal_strlit("JnKvKv(");
    reveal_strlit("JnKKv(");
    reveal_strlit("NjKK(");
    reveal_strlit("NjKvK(");
    reveal_strlit("Cartesian(");
}

/// Whether two steps are of one sort: both read one collection and put out the same
/// shape, or both are the same kind of join.
spec fn same_sort(a: TransformationModel, b: TransformationModel) -> bool {
    &&& a.is_unary() == b.is_unary()
    &&& a.is_unary() ==> (a.output.keys.len() == 0 <==> b.output.keys.len() == 0) && (
    a.output.keys.len() > 0 ==> (a.output.values.len() == 0 <==> b.output.values.len() == 0))
    &&& a.is_binary() && b.is_binary() ==> a.kind == b.kind
}

proof fn lemma_marks(
    a: TransformationModel,
    b: TransformationModel,
    p: Seq<char>,
    q: Seq<char>,
)
    requires
        name_mark(a) + p == name_mark(b) + q,
    ensures
        same_sort(a, b),
        name_mark(a) == name_mark(b),
        p == q,
{
    let x = name_mark(a);
    let y = name_mark(b);
    let all = x + p;
    lemma_mark_chars(a);
    lemma_mark_chars(b);
    assert(all[0] == x[0] && all[1] == x[1]);
    assert(all[0] == y[0] && all[1] == y[1]);
    if !a.is_unary() && !b.is_unary() {
        assert(all[3] == x[3] && all[4] == x[4]);
        assert(all[3] == y[3] && all[4] == y[4]);
        if (a.kind is JnKvK || a.kind is JnKvKv) && (b.kind is JnKvK || b.kind is JnKvKv) {
            assert(all[5] == x[5] && all[5] == y[5]);
        }
    }
    assert(same_sort(a, b));
    assert(x == y);
    lemma_cut(x, y, p, q);
}

/// The name of what a step on one collection puts out.
proof fn lemma_unary_name(step: TransformationModel, r: Seq<char>)
    requires
        is_named(step),
        step.is_unary(),
    ensures
        step.output.signature.name() + r == name_mark(step) + (step.input.signature.name() + (")"@
            + (step.flow.text() + r))),
        step.flow is KVToKV,
{
    reveal(is_named);
    let mark = name_mark(step);
    let input = step.input.signature.name();
    let flow = step.flow.text();
    assert(step.output.signature.name() == mark + input + ")"@ + flow);
    lemma_assoc(mark + input + ")"@, flow, r);
    lemma_assoc(mark + input, ")"@, flow + r);
    lemma_assoc(mark, input, ")"@ + (flow + r));
}

/// The name of what a step on two collections puts out.
proof fn lemma_binary_name(step: TransformationModel, r: Seq<char>)
    requires
        is_named(step),
        !step.is_unary(),
    ensures
        step.output.signature.name() + r == name_mark(step) + (step.input.signature.name() + (", "@
            + (step.second->0.signature.name() + (")"@ + (step.flow.text() + r))))),
        step.flow is JnToKV,
        step.is_binary(),
{
    reveal(is_named);
    let mark = name_mark(step);
    let left = step.input.signature.name();
    let right = step.second->0.signature.name();
    let flow = step.flow.text();
    assert(step.output.signature.name() == mark + left + ", "@ + right + ")"@ + flow);
    lemma_assoc(mark + left + ", "@ + right + ")"@, flow, r);
    lemma_assoc(mark + left + ", "@ + right, ")"@, flow + r);
    lemma_assoc(mark + left + ", "@, right, ")"@ + (flow + r));
    lemma_assoc(mark + left, ", "@, right + (")"@ + (flow + r)));
    lemma_assoc(mark, left, ", "@ + (right + (")"@ + (flow + r))));
}

proof fn lemma_name_read(a: Seq<char>, b: Seq<char>, r: Seq<char>, s: Seq<char>)
    requires
        !a.contains(')'),
        !b.contains(')'),
        a + (")"@ + r) == b + (")"@ + s),
    ensures
        a == b,
        r == s,
{
    reveal_strlit(")");
    let x = a + (")"@ + r);
    let y = b + (")"@ + s);
    assert(x[a.len() as int] == ')');
    assert(y[b.len() as int] == ')');
    if a.len() < b.len() {
        assert(y[a.len() as int] == b[a.len() as int]);
        assert(b.contains(')'));
    }
    if b.len() < a.len() {
        assert(x[b.len() as int] == a[b.len() as int]);
        assert(a.contains(')'));
    }
    lemma_cut(a, b, ")"@ + r, ")"@ + s);
    lemma_cut(")"@, ")"@, r, s);
}

/// Whether two steps put out the same rows, with as many columns.
pub open spec fn same_rows(
    db: Database,
    a_tree: Map<TransformationModel, (TransformationModel, TransformationModel)>,
    a: TransformationModel,
    b_tree: Map<TransformationModel, (TransformationModel, TransformationModel)>,
    b: TransformationModel,
) -> bool {
    &&& a.output.keys.len() == b.output.keys.len()
    &&& a.output.values.len() == b.output.values.len()
    &&& forall|row: Seq<i64>| #[trigger]
        makes(db, a_tree, a, row) <==> makes(db, b_tree, b, row)
}

proof fn lemma_same_leaves(
    db: Database,
    arities: Arities,
    a_tree: Map<TransformationModel, (TransformationModel, TransformationModel)>,
    a: TransformationModel,
    b_tree: Map<TransformationModel, (TransformationModel, TransformationModel)>,
    b: TransformationModel,
    r: Seq<char>,
    s: Seq<char>,
)
    requires
        a.is_unary(),
        b.is_unary(),
        !a_tree.contains_key(a),
        !b_tree.contains_key(b),
        is_clear(arities, a),
        is_clear(arities, b),
        a.output.signature.name() + r == b.output.signature.name() + s,
    ensures
        r == s,
        same_rows(db, a_tree, a, b_tree, b),
{
    let x = a.flow.text() + r;
    let y = b.flow.text() + s;
    lemma_unary_name(a, r);
    lemma_unary_name(b, s);
    lemma_marks(
        a,
        b,
        a.input.signature.name() + (")"@ + x),
        b.input.signature.name() + (")"@ + y),
    );
    lemma_name_read(a.input.signature.name(), b.input.signature.name(), x, y);
    law_flow_is_known_from_its_text(a.flow, b.flow, r, s);
    reveal(is_named);
    assert forall|row: Seq<i64>| #[trigger] makes(db, a_tree, a, row) <==> makes(
        db,
        b_tree,
        b,
        row,
    ) by {
        if makes(db, a_tree, a, row) {
            let (input, key, value) = choose|input: Seq<i64>, key: Seq<i64>, value: Seq<i64>|
                db(a.input.signature.name(), input) && #[trigger] is_derived(
                    a,
                    input,
                    key,
                    value,
                    row,
                );
            assert(is_derived(b, input, key, value, row));
        }
        if makes(db, b_tree, b, row) {
            let (input, key, value) = choose|input: Seq<i64>, key: Seq<i64>, value: Seq<i64>|
                db(b.input.signature.name(), input) && #[trigger] is_derived(
                    b,
                    input,
                    key,
                    value,
                    row,
                );
            assert(is_derived(a, input, key, value, row));
        }
    }
}

/// Joins of the same kind with the same flow put out the same rows where their
/// inputs hold the same rows.
proof fn lemma_same_joins(
    db: Database,
    a_tree: Map<TransformationModel, (TransformationModel, TransformationModel)>,
    a: TransformationModel,
    b_tree: Map<TransformationModel, (TransformationModel, TransformationModel)>,
    b: TransformationModel,
)
    requires
        a_tree.contains_key(a),
        b_tree.contains_key(b),
        a.input == a_tree[a].0.output,
        a.second == Some(a_tree[a].1.output),
        b.input == b_tree[b].0.output,
        b.second == Some(b_tree[b].1.output),
        name_len(a_tree[a].0) < name_len(a),
        name_len(a_tree[a].1) < name_len(a),
        name_len(b_tree[b].0) < name_len(b),
        name_len(b_tree[b].1) < name_len(b),
        a.kind == b.kind,
        a.flow == b.flow,
        same_rows(db, a_tree, a_tree[a].0, b_tree, b_tree[b].0),
        same_rows(db, a_tree, a_tree[a].1, b_tree, b_tree[b].1),
    ensures
        forall|row: Seq<i64>| #[trigger]
            makes(db, a_tree, a, row) ==> makes(db, b_tree, b, row),
{
    let (p, q) = a_tree[a];
    let (u, v) = b_tree[b];
    assert forall|row: Seq<i64>| #[trigger] makes(db, a_tree, a, row) implies makes(
        db,
        b_tree,
        b,
        row,
    ) by {
        if a.kind is NjKvK || a.kind is NjKK {
            let (key, value) = choose|key: Seq<i64>, value: Seq<i64>|
                makes(db, a_tree, p, key + value) && !makes(db, a_tree, q, key)
                    && #[trigger] is_kept_as(a, key, value, row);
            assert(makes(db, b_tree, u, key + value));
            assert(!makes(db, b_tree, v, key)) by {
                assert(makes(db, a_tree, q, key) <==> makes(db, b_tree, v, key));
            }
            assert(is_kept_as(b, key, value, row));
        } else {
            let (key, left, right) = choose|key: Seq<i64>, left: Seq<i64>, right: Seq<i64>|
                makes(db, a_tree, p, key + left) && makes(db, a_tree, q, key + right)
                    && #[trigger] is_joined(a, key, left, right, row);
            assert(makes(db, b_tree, u, key + left));
            assert(makes(db, b_tree, v, key + right));
            assert(is_joined(b, key, left, right, row));
        }
    }
}

proof fn lemma_turned(
    db: Database,
    a_tree: Map<TransformationModel, (TransformationModel, TransformationModel)>,
    a: TransformationModel,
    b_tree: Map<TransformationModel, (TransformationModel, TransformationModel)>,
    b: TransformationModel,
)
    requires
        same_rows(db, a_tree, a, b_tree, b),
    ensures
        same_rows(db, b_tree, b, a_tree, a),
{
    assert forall|row: Seq<i64>| #[trigger] makes(db, b_tree, b, row) <==> makes(
        db,
        a_tree,
        a,
        row,
    ) by {
        assert(makes(db, a_tree, a, row) <==> makes(db, b_tree, b, row));
    }
}

/// Steps whose names start a text put out the same rows.
proof fn lemma_same_names(
    db: Database,
    arities: Arities,
    a_rule: FLRuleModel,
    a_tree: Map<TransformationModel, (TransformationModel, TransformationModel)>,
    a: TransformationModel,
    b_rule: FLRuleModel,
    b_tree: Map<TransformationModel, (TransformationModel, TransformationModel)>,
    b: TransformationModel,
    r: Seq<char>,
    s: Seq<char>,
)
    requires
        is_linked_to(a_rule, a_tree, Set::empty()),
        is_linked_to(b_rule, b_tree, Set::empty()),
        is_fed(a_rule, a_tree, Set::empty(), a),
        is_fed(b_rule, b_tree, Set::empty(), b),
        is_clear_tree(arities, a_tree),
        is_clear_tree(arities, b_tree),
        is_clear(arities, a),
        is_clear(arities, b),
        a.output.signature.name() + r == b.output.signature.name() + s,
    ensures
        r == s,
        same_rows(db, a_tree, a, b_tree, b),
    decreases name_len(a),
{
    lemma_sorts(a_rule, a_tree, a);
    lemma_sorts(b_rule, b_tree, b);
    if a.is_unary() && b.is_unary() {
        lemma_same_leaves(db, arities, a_tree, a, b_tree, b, r, s);
    } else if a.is_unary() {
        lemma_unary_name(a, r);
        lemma_binary_name(b, s);
        lemma_marks(
            a,
            b,
            a.input.signature.name() + (")"@ + (a.flow.text() + r)),
            b.input.signature.name() + (", "@ + (b.second->0.signature.name() + (")"@ + (
            b.flow.text() + s)))),
        );
    } else if b.is_unary() {
        lemma_binary_name(a, r);
        lemma_unary_name(b, s);
        lemma_marks(
            a,
            b,
            a.input.signature.name() + (", "@ + (a.second->0.signature.name() + (")"@ + (
            a.flow.text() + r)))),
            b.input.signature.name() + (")"@ + (b.flow.text() + s)),
        );
    } else {
        let (p, q) = a_tree[a];
        let (u, v) = b_tree[b];
        assert(is_link(a_rule, a_tree, Set::empty(), a));
        assert(is_link(b_rule, b_tree, Set::empty(), b));
        let x = a.flow.text() + r;
        let y = b.flow.text() + s;
        let x_right = a.second->0.signature.name() + (")"@ + x);
        let y_right = b.second->0.signature.name() + (")"@ + y);
        lemma_binary_name(a, r);
        lemma_binary_name(b, s);
        lemma_marks(
            a,
            b,
            a.input.signature.name() + (", "@ + x_right),
            b.input.signature.name() + (", "@ + y_right),
        );
        lemma_same_names(
            db,
            arities,
            a_rule,
            a_tree,
            p,
            b_rule,
            b_tree,
            u,
            ", "@ + x_right,
            ", "@ + y_right,
        );
        lemma_cut(", "@, ", "@, x_right, y_right);
        lemma_same_names(
            db,
            arities,
            a_rule,
            a_tree,
            q,
            b_rule,
            b_tree,
            v,
            ")"@ + x,
            ")"@ + y,
        );
        lemma_cut(")"@, ")"@, x, y);
        law_flow_is_known_from_its_text(a.flow, b.flow, r, s);
        lemma_same_joins(db, a_tree, a, b_tree, b);
        lemma_turned(db, a_tree, p, b_tree, u);
        lemma_turned(db, a_tree, q, b_tree, v);
        lemma_same_joins(db, b_tree, b, a_tree, a);
        lemma_named_columns(a);
        lemma_named_columns(b);
    }
}

proof fn lemma_named_columns(step: TransformationModel)
    requires
        is_named(step),
    ensures
        step.flow.key().len() == step.output.keys.len(),
        step.flow.value().len() == step.output.values.len(),
{
    reveal(is_named);
}

/// A step of a tree is on two collections, and others are on relations.
proof fn lemma_sorts(
    rule: FLRuleModel,
    tree: Map<TransformationModel, (TransformationModel, TransformationModel)>,
    step: TransformationModel,
)
    requires
        is_linked_to(rule, tree, Set::empty()),
        is_fed(rule, tree, Set::empty(), step),
    ensures
        step.is_unary() <==> !tree.contains_key(step),
{
    if tree.contains_key(step) {
        assert(is_link(rule, tree, Set::empty(), step));
    } else {
        assert(is_leaf(rule, step));
    }
}

/// Steps whose outputs have one name put out the same rows, also where they belong
/// to the plans of different rules; so that what is held under the name can stand
/// for both. This is said of constants that are numbers, of relations whose names
/// have no closing brackets, and of relations that have one number of columns.
pub proof fn law_names_tell_steps_apart(
    db: Database,
    arities: Arities,
    a_rule: FLRuleModel,
    a_tree: Map<TransformationModel, (TransformationModel, TransformationModel)>,
    a: TransformationModel,
    b_rule: FLRuleModel,
    b_tree: Map<TransformationModel, (TransformationModel, TransformationModel)>,
    b: TransformationModel,
)
    requires
        is_linked_to(a_rule, a_tree, Set::empty()),
        is_linked_to(b_rule, b_tree, Set::empty()),
        is_fed(a_rule, a_tree, Set::empty(), a),
        is_fed(b_rule, b_tree, Set::empty(), b),
        is_clear_tree(arities, a_tree),
        is_clear_tree(arities, b_tree),
        is_clear(arities, a),
        is_clear(arities, b),
        a.output.signature.name() == b.output.signature.name(),
    ensures
        same_rows(db, a_tree, a, b_tree, b),
{
    let none = Seq::<char>::empty();
    assert(a.output.signature.name() + none =~= a.output.signature.name());
    assert(b.output.signature.name() + none =~= b.output.signature.name());
    lemma_same_names(db, arities, a_rule, a_tree, a, b_rule, b_tree, b, none, none);
}

} // verus!
