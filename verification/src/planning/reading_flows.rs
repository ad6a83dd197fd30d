//! A flow is known from its text.
use vstd::prelude::*;
use vstd::string::*;
use crate::catalog::compare::PlacedComparisonModel;
use crate::planning::arguments::TransformationArgument;
use crate::planning::constraints::{equality_texts, BaseConstraintsModel};
use crate::planning::flow::{conditions_text, TransformationFlowModel};
use crate::planning::legible::{
    is_plain_comparison, lemma_argument_read, lemma_argument_start, lemma_assoc,
    lemma_comparison_read, lemma_comparison_start, lemma_cut, lemma_equals_apart, lemma_int_read,
    lemma_int_start,
};
use crate::text::{int_text, is_digit, join_text, texts, Written};

verus! {

/// Whether a text goes on as one does behind an item of a list.
pub open spec fn is_end(s: Seq<char>) -> bool {
    s.len() > 0 && (s[0] == ',' || s[0] == ':' || s[0] == ')' || s[0] == '|' || (s[0] == ' '
        && s.len() > 1 && s[1] == 'a'))
}

/// Whether a text goes on as one does behind a list.
pub open spec fn is_stop(s: Seq<char>) -> bool {
    is_end(s) && s[0] != ','
}

/// A model that is known from the text that starts with it.
pub trait Legible: Written {
    spec fn is_plain(self) -> bool;

    proof fn lemma_read(a: Self, b: Self, r: Seq<char>, s: Seq<char>)
        requires
            a.is_plain(),
            b.is_plain(),
            is_end(r),
            is_end(s),
            a.text() + r == b.text() + s,
        ensures
            a == b,
            r == s,
    ;

    proof fn lemma_start(a: Self)
        requires
            a.is_plain(),
        ensures
            a.text().len() > 0,
            a.text()[0] == '[' || a.text()[0] == '-' || is_digit(a.text()[0]),
    ;
}

impl Legible for TransformationArgument {
    open spec fn is_plain(self) -> bool {
        true
    }

    proof fn lemma_read(a: Self, b: Self, r: Seq<char>, s: Seq<char>) {
        lemma_argument_read(a, b, r, s);
    }

    proof fn lemma_start(a: Self) {
        lemma_argument_start(a);
    }
}

impl Legible for PlacedComparisonModel<TransformationArgument> {
    open spec fn is_plain(self) -> bool {
        is_plain_comparison(self)
    }

    proof fn lemma_read(a: Self, b: Self, r: Seq<char>, s: Seq<char>) {
        lemma_comparison_read(a, b, r, s);
    }

    proof fn lemma_start(a: Self) {
        lemma_comparison_start(a);
    }
}

/// A column that equals a number or another column.
pub enum Equality {
    Number(TransformationArgument, i32),
    Column(TransformationArgument, TransformationArgument),
}

impl Equality {
    pub open spec fn column(self) -> TransformationArgument {
        match self {
            Equality::Number(column, _) => column,
            Equality::Column(column, _) => column,
        }
    }

    /// What the column equals, as text.
    pub open spec fn other_text(self) -> Seq<char> {
        match self {
            Equality::Number(_, number) => int_text(number as int),
            Equality::Column(_, other) => other.text(),
        }
    }
}

impl Written for Equality {
    open spec fn text(self) -> Seq<char> {
        self.column().text() + " = "@ + self.other_text()
    }
}

proof fn lemma_equality_text(a: Equality, r: Seq<char>)
    ensures
        a.text() + r == a.column().text() + (" = "@ + (a.other_text() + r)),
{
    let x = a.column().text();
    lemma_assoc(x + " = "@, a.other_text(), r);
    lemma_assoc(x, " = "@, a.other_text() + r);
}

impl Legible for Equality {
    open spec fn is_plain(self) -> bool {
        true
    }

    proof fn lemma_read(a: Self, b: Self, r: Seq<char>, s: Seq<char>) {
        lemma_equality_text(a, r);
        lemma_equality_text(b, s);
        let x = a.other_text() + r;
        let y = b.other_text() + s;
        lemma_argument_read(a.column(), b.column(), " = "@ + x, " = "@ + y);
        lemma_cut(" = "@, " = "@, x, y);
        lemma_other_start(a);
        lemma_other_start(b);
        assert(x[0] == a.other_text()[0]);
        assert(y[0] == b.other_text()[0]);
        match (a, b) {
            (Equality::Number(_, m), Equality::Number(_, n)) => {
                lemma_int_read(m as int, n as int, r, s);
            },
            (Equality::Column(_, m), Equality::Column(_, n)) => {
                lemma_argument_read(m, n, r, s);
            },
            _ => {},
        }
    }

    proof fn lemma_start(a: Self) {
        lemma_equality_text(a, Seq::empty());
        lemma_argument_start(a.column());
        assert(a.text()[0] == a.column().text()[0]);
    }
}

proof fn lemma_other_start(a: Equality)
    ensures
        a.other_text().len() > 0,
        a is Column ==> a.other_text()[0] == '[',
        a is Number ==> a.other_text()[0] == '-' || is_digit(a.other_text()[0]),
{
    match a {
        Equality::Number(_, number) => {
            lemma_int_start(number as int);
        },
        Equality::Column(_, other) => {
            lemma_argument_start(other);
        },
    }
}

/// Texts with commas between them, taken apart at the front.
proof fn lemma_join_front(parts: Seq<Seq<char>>)
    requires
        parts.len() > 1,
    ensures
        join_text(parts, ", "@) == parts[0] + (", "@ + join_text(parts.skip(1), ", "@)),
    decreases parts.len(),
{
    let sep = ", "@;
    if parts.len() == 2 {
        assert(parts.drop_last() =~= seq![parts[0]]);
        assert(parts.skip(1) =~= seq![parts[1]]);
        assert(join_text(parts.drop_last(), sep) == parts[0]);
        assert(join_text(parts.skip(1), sep) == parts[1]);
        assert(join_text(parts, sep) =~= parts[0] + (sep + join_text(parts.skip(1), sep)));
    } else {
        let front = parts.drop_last();
        lemma_join_front(front);
        assert(front[0] == parts[0]);
        assert(parts.skip(1).drop_last() =~= front.skip(1));
        assert(parts.skip(1).last() == parts.last());
        let middle = join_text(front.skip(1), sep);
        assert(join_text(parts, sep) =~= parts[0] + (sep + (middle + sep + parts.last())));
    }
}

/// A list as text.
pub open spec fn list_text<M: Written>(items: Seq<M>) -> Seq<char> {
    join_text(texts(items), ", "@)
}

pub open spec fn are_plain<M: Legible>(items: Seq<M>) -> bool {
    forall|i: int| 0 <= i < items.len() ==> (#[trigger] items[i]).is_plain()
}

/// What follows the first item of a list.
spec fn list_tail<M: Written>(items: Seq<M>, r: Seq<char>) -> Seq<char> {
    if items.len() == 1 {
        r
    } else {
        ", "@ + (list_text(items.skip(1)) + r)
    }
}

proof fn lemma_list_front<M: Legible>(items: Seq<M>, r: Seq<char>)
    requires
        items.len() > 0,
    ensures
        list_text(items) + r == items[0].text() + list_tail(items, r),
{
    let parts = texts(items);
    assert(parts[0] == items[0].text());
    if items.len() > 1 {
        lemma_join_front(parts);
        assert(parts.skip(1) =~= texts(items.skip(1)));
        let more = list_text(items.skip(1));
        lemma_assoc(parts[0], ", "@ + more, r);
        lemma_assoc(", "@, more, r);
    }
}

proof fn lemma_list_tail<M: Legible>(items: Seq<M>, r: Seq<char>)
    requires
        items.len() > 0,
        is_stop(r),
    ensures
        is_end(list_tail(items, r)),
        items.len() > 1 ==> list_tail(items, r)[0] == ',',
{
    reveal_strlit(", ");
}

/// A list is known from the text that starts with it.
pub proof fn lemma_list_read<M: Legible>(a: Seq<M>, b: Seq<M>, r: Seq<char>, s: Seq<char>)
    requires
        are_plain(a),
        are_plain(b),
        is_stop(r),
        is_stop(s),
        list_text(a) + r == list_text(b) + s,
    ensures
        a == b,
        r == s,
    decreases a.len(),
{
    if a.len() == 0 || b.len() == 0 {
        if a.len() == 0 {
            assert(list_text(a) + r =~= r);
        }
        if b.len() == 0 {
            assert(list_text(b) + s =~= s);
        }
        if a.len() > 0 {
            lemma_list_start(a, r);
        }
        if b.len() > 0 {
            lemma_list_start(b, s);
        }
        assert(a =~= b);
    } else {
        lemma_list_front(a, r);
        lemma_list_front(b, s);
        lemma_list_tail(a, r);
        lemma_list_tail(b, s);
        M::lemma_read(a[0], b[0], list_tail(a, r), list_tail(b, s));
        if a.len() > 1 {
            assert(b.len() > 1);
            lemma_cut(
                ", "@,
                ", "@,
                list_text(a.skip(1)) + r,
                list_text(b.skip(1)) + s,
            );
            assert(are_plain(a.skip(1)));
            assert(are_plain(b.skip(1)));
            lemma_list_read(a.skip(1), b.skip(1), r, s);
            assert(a =~= seq![a[0]] + a.skip(1));
            assert(b =~= seq![b[0]] + b.skip(1));
        } else {
            assert(b.len() == 1);
            assert(a =~= b);
        }
    }
}

/// A list that is not empty starts as its first item does.
pub proof fn lemma_list_start<M: Legible>(items: Seq<M>, r: Seq<char>)
    requires
        items.len() > 0,
        are_plain(items),
    ensures
        (list_text(items) + r).len() > 0,
        !is_end(list_text(items) + r),
{
    lemma_list_front(items, r);
    assert(items[0].is_plain());
    M::lemma_start(items[0]);
    let all = items[0].text() + list_tail(items, r);
    assert(all[0] == items[0].text()[0]);
}

/// Whether the constants of constraints are numbers.
pub open spec fn is_plain_constraints(constraints: BaseConstraintsModel) -> bool {
    forall|i: int|
        0 <= i < constraints.constant_eq_constraints.len() ==> (
        #[trigger] constraints.constant_eq_constraints[i]).1 is Integer
}

/// The equalities of constraints, in order.
pub open spec fn equalities(constraints: BaseConstraintsModel) -> Seq<Equality> {
    Seq::new(
        constraints.constant_eq_constraints.len(),
        |i: int|
            Equality::Number(
                constraints.constant_eq_constraints[i].0,
                constraints.constant_eq_constraints[i].1->Integer_0,
            ),
    ) + Seq::new(
        constraints.variable_eq_constraints.len(),
        |i: int|
            Equality::Column(
                constraints.variable_eq_constraints[i].0,
                constraints.variable_eq_constraints[i].1,
            ),
    )
}

proof fn lemma_equalities_text(constraints: BaseConstraintsModel)
    requires
        is_plain_constraints(constraints),
    ensures
        constraints.text() == list_text(equalities(constraints)),
        equalities(constraints).len() == 0 <==> constraints.is_empty(),
{
    let n = constraints.constant_eq_constraints.len();
    let all = equality_texts(constraints.constant_eq_constraints) + equality_texts(
        constraints.variable_eq_constraints,
    );
    let items = equalities(constraints);
    assert forall|i: int| 0 <= i < all.len() implies all[i] == texts(items)[i] by {
        if i < n {
            assert(constraints.constant_eq_constraints[i].1 is Integer);
            assert(items[i] == Equality::Number(
                constraints.constant_eq_constraints[i].0,
                constraints.constant_eq_constraints[i].1->Integer_0,
            ));
        } else {
            assert(items[i] == Equality::Column(
                constraints.variable_eq_constraints[i - n].0,
                constraints.variable_eq_constraints[i - n].1,
            ));
        }
    }
    assert(all =~= texts(items));
}

/// Constraints are known from their equalities.
proof fn lemma_equalities_known(a: BaseConstraintsModel, b: BaseConstraintsModel)
    requires
        is_plain_constraints(a),
        is_plain_constraints(b),
        equalities(a) == equalities(b),
    ensures
        a == b,
{
    let x = equalities(a);
    let y = equalities(b);
    let m = a.constant_eq_constraints.len() as int;
    let n = b.constant_eq_constraints.len() as int;
    assert(x.len() == m + a.variable_eq_constraints.len());
    assert(y.len() == n + b.variable_eq_constraints.len());
    if m < n {
        assert(y[m] is Number);
        assert(x[m] is Column);
    }
    if n < m {
        assert(x[n] is Number);
        assert(y[n] is Column);
    }
    assert forall|i: int| 0 <= i < m implies a.constant_eq_constraints[i]
        == b.constant_eq_constraints[i] by {
        assert(x[i] == y[i]);
        assert(a.constant_eq_constraints[i].1 is Integer);
        assert(b.constant_eq_constraints[i].1 is Integer);
    }
    assert(a.constant_eq_constraints =~= b.constant_eq_constraints);
    assert forall|i: int| 0 <= i < a.variable_eq_constraints.len() implies
    a.variable_eq_constraints[i] == b.variable_eq_constraints[i] by {
        assert(x[m + i] == y[m + i]);
    }
    assert(a.variable_eq_constraints =~= b.variable_eq_constraints);
}

/// Conditions as text.
spec fn cond_text(
    equals: Seq<Equality>,
    compares: Seq<PlacedComparisonModel<TransformationArgument>>,
) -> Seq<char> {
    if equals.len() == 0 {
        if compares.len() == 0 {
            ""@
        } else {
            " if "@ + list_text(compares)
        }
    } else if compares.len() == 0 {
        " if "@ + list_text(equals)
    } else {
        " if "@ + list_text(equals) + " and "@ + list_text(compares)
    }
}

/// What follows the word in front of conditions.
spec fn cond_tail(
    equals: Seq<Equality>,
    compares: Seq<PlacedComparisonModel<TransformationArgument>>,
    r: Seq<char>,
) -> Seq<char> {
    if equals.len() == 0 {
        list_text(compares) + r
    } else if compares.len() == 0 {
        list_text(equals) + r
    } else {
        list_text(equals) + (" and "@ + (list_text(compares) + r))
    }
}

proof fn lemma_cond_text(
    equals: Seq<Equality>,
    compares: Seq<PlacedComparisonModel<TransformationArgument>>,
    r: Seq<char>,
)
    ensures
        equals.len() == 0 && compares.len() == 0 ==> cond_text(equals, compares) + r == r,
        equals.len() > 0 || compares.len() > 0 ==> cond_text(equals, compares) + r == " if "@
            + cond_tail(equals, compares, r),
{
    reveal_strlit("");
    let x = list_text(equals);
    let y = list_text(compares);
    if equals.len() == 0 && compares.len() == 0 {
        assert(""@ + r =~= r);
    } else if equals.len() == 0 {
        lemma_assoc(" if "@, y, r);
    } else if compares.len() == 0 {
        lemma_assoc(" if "@, x, r);
    } else {
        lemma_assoc(" if "@ + x + " and "@, y, r);
        lemma_assoc(" if "@ + x, " and "@, y + r);
        lemma_assoc(" if "@, x, " and "@ + (y + r));
    }
}

/// A list of equalities does not start as one of comparisons does.
proof fn lemma_lists_apart(
    equals: Seq<Equality>,
    r: Seq<char>,
    compares: Seq<PlacedComparisonModel<TransformationArgument>>,
    s: Seq<char>,
)
    requires
        equals.len() > 0,
        compares.len() > 0,
        are_plain(compares),
    ensures
        list_text(equals) + r != list_text(compares) + s,
{
    lemma_list_front(equals, r);
    lemma_list_front(compares, s);
    lemma_equality_text(equals[0], list_tail(equals, r));
    assert(compares[0].is_plain());
    lemma_equals_apart(
        equals[0].column(),
        equals[0].other_text() + list_tail(equals, r),
        compares[0],
        list_tail(compares, s),
    );
}

/// What follows a list of equalities.
spec fn equals_tail(
    compares: Seq<PlacedComparisonModel<TransformationArgument>>,
    r: Seq<char>,
) -> Seq<char> {
    if compares.len() == 0 {
        r
    } else {
        " and "@ + (list_text(compares) + r)
    }
}

proof fn lemma_equals_tail(
    compares: Seq<PlacedComparisonModel<TransformationArgument>>,
    r: Seq<char>,
)
    requires
        starts_bar(r),
    ensures
        is_stop(equals_tail(compares, r)),
        compares.len() == 0 <==> starts_bar(equals_tail(compares, r)),
{
    reveal_strlit(" and ");
}

spec fn starts_bar(s: Seq<char>) -> bool {
    s.len() > 0 && s[0] == '|'
}

proof fn lemma_cond_read(
    a: Seq<Equality>,
    c: Seq<PlacedComparisonModel<TransformationArgument>>,
    b: Seq<Equality>,
    d: Seq<PlacedComparisonModel<TransformationArgument>>,
    r: Seq<char>,
    s: Seq<char>,
)
    requires
        are_plain(c),
        are_plain(d),
        starts_bar(r),
        starts_bar(s),
        cond_text(a, c) + r == cond_text(b, d) + s,
    ensures
        a == b,
        c == d,
        r == s,
{
    reveal_strlit(" if ");
    lemma_cond_text(a, c, r);
    lemma_cond_text(b, d, s);
    let none_a = a.len() == 0 && c.len() == 0;
    let none_b = b.len() == 0 && d.len() == 0;
    if none_a || none_b {
        if none_a && !none_b {
            assert((" if "@ + cond_tail(b, d, s))[0] == ' ');
        }
        if none_b && !none_a {
            assert((" if "@ + cond_tail(a, c, r))[0] == ' ');
        }
        assert(a =~= b);
        assert(c =~= d);
    } else {
        lemma_cut(" if "@, " if "@, cond_tail(a, c, r), cond_tail(b, d, s));
        lemma_cond_tails(a, c, b, d, r, s);
    }
}

proof fn lemma_cond_tails(
    a: Seq<Equality>,
    c: Seq<PlacedComparisonModel<TransformationArgument>>,
    b: Seq<Equality>,
    d: Seq<PlacedComparisonModel<TransformationArgument>>,
    r: Seq<char>,
    s: Seq<char>,
)
    requires
        are_plain(c),
        are_plain(d),
        starts_bar(r),
        starts_bar(s),
        a.len() > 0 || c.len() > 0,
        b.len() > 0 || d.len() > 0,
        cond_tail(a, c, r) == cond_tail(b, d, s),
    ensures
        a == b,
        c == d,
        r == s,
{
    if a.len() == 0 && b.len() == 0 {
        lemma_list_read(c, d, r, s);
        assert(a =~= b);
    } else if a.len() == 0 {
        lemma_lists_apart(b, equals_tail(d, s), c, r);
    } else if b.len() == 0 {
        lemma_lists_apart(a, equals_tail(c, r), d, s);
    } else {
        lemma_equals_tail(c, r);
        lemma_equals_tail(d, s);
        assert(are_plain(a));
        assert(are_plain(b));
        lemma_list_read(a, b, equals_tail(c, r), equals_tail(d, s));
        if c.len() > 0 {
            lemma_cut(" and "@, " and "@, list_text(c) + r, list_text(d) + s);
            lemma_list_read(c, d, r, s);
        } else {
            assert(c =~= d);
        }
    }
}

/// Whether the constants of a flow are numbers.
pub open spec fn is_plain_flow(flow: TransformationFlowModel) -> bool {
    &&& are_plain(flow.compares())
    &&& flow matches TransformationFlowModel::KVToKV { constraints, .. } ==> is_plain_constraints(
        constraints,
    )
}

/// The equalities of a flow.
spec fn flow_equalities(flow: TransformationFlowModel) -> Seq<Equality> {
    match flow {
        TransformationFlowModel::KVToKV { constraints, .. } => equalities(constraints),
        _ => Seq::empty(),
    }
}

proof fn lemma_conditions_text(flow: TransformationFlowModel)
    requires
        is_plain_flow(flow),
    ensures
        conditions_text(flow) == cond_text(flow_equalities(flow), flow.compares()),
{
    if let TransformationFlowModel::KVToKV { constraints, .. } = flow {
        lemma_equalities_text(constraints);
    }
}

/// What follows the columns of a flow.
spec fn flow_tail(flow: TransformationFlowModel, r: Seq<char>) -> Seq<char> {
    ")"@ + (conditions_text(flow) + ("|"@ + r))
}

/// What follows the start of a flow.
spec fn flow_body(flow: TransformationFlowModel, r: Seq<char>) -> Seq<char> {
    let tail = list_text(flow.value()) + flow_tail(flow, r);
    if flow.key().len() == 0 {
        tail
    } else {
        list_text(flow.key()) + (": "@ + tail)
    }
}

proof fn lemma_flow_text(flow: TransformationFlowModel, r: Seq<char>)
    ensures
        flow.text() + r == "|("@ + flow_body(flow, r),
{
    let k = list_text(flow.key());
    let v = list_text(flow.value());
    let c = conditions_text(flow);
    let keys = if flow.key().len() == 0 {
        "|("@
    } else {
        "|("@ + k + ": "@
    };
    assert(flow.text() == keys + v + ")"@ + c + "|"@);
    lemma_assoc(keys + v + ")"@ + c, "|"@, r);
    lemma_assoc(keys + v + ")"@, c, "|"@ + r);
    lemma_assoc(keys + v, ")"@, c + ("|"@ + r));
    lemma_assoc(keys, v, flow_tail(flow, r));
    if flow.key().len() > 0 {
        let tail = v + flow_tail(flow, r);
        lemma_assoc("|("@ + k, ": "@, tail);
        lemma_assoc("|("@, k, ": "@ + tail);
    }
}

proof fn lemma_tail_stops(flow: TransformationFlowModel, r: Seq<char>)
    ensures
        is_stop(flow_tail(flow, r)),
        flow_tail(flow, r)[0] == ')',
{
    reveal_strlit(")");
}

proof fn lemma_flow_tail_read(
    a: TransformationFlowModel,
    b: TransformationFlowModel,
    r: Seq<char>,
    s: Seq<char>,
)
    requires
        is_plain_flow(a),
        is_plain_flow(b),
        flow_tail(a, r) == flow_tail(b, s),
    ensures
        flow_equalities(a) == flow_equalities(b),
        a.compares() == b.compares(),
        r == s,
{
    reveal_strlit("|");
    lemma_cut(
        ")"@,
        ")"@,
        conditions_text(a) + ("|"@ + r),
        conditions_text(b) + ("|"@ + s),
    );
    lemma_conditions_text(a);
    lemma_conditions_text(b);
    assert(starts_bar("|"@ + r));
    assert(starts_bar("|"@ + s));
    lemma_cond_read(
        flow_equalities(a),
        a.compares(),
        flow_equalities(b),
        b.compares(),
        "|"@ + r,
        "|"@ + s,
    );
    lemma_cut("|"@, "|"@, r, s);
}

proof fn lemma_columns_read(
    a: TransformationFlowModel,
    b: TransformationFlowModel,
    r: Seq<char>,
    s: Seq<char>,
)
    requires
        flow_body(a, r) == flow_body(b, s),
    ensures
        a.key() == b.key(),
        a.value() == b.value(),
        flow_tail(a, r) == flow_tail(b, s),
{
    reveal_strlit(": ");
    let x = flow_tail(a, r);
    let y = flow_tail(b, s);
    lemma_tail_stops(a, r);
    lemma_tail_stops(b, s);
    let p = ": "@ + (list_text(a.value()) + x);
    let q = ": "@ + (list_text(b.value()) + y);
    assert(is_stop(p) && p[0] == ':');
    assert(is_stop(q) && q[0] == ':');
    assert(are_plain(a.key()) && are_plain(a.value()) && are_plain(b.key()) && are_plain(
        b.value(),
    ));
    if a.key().len() == 0 && b.key().len() == 0 {
        lemma_list_read(a.value(), b.value(), x, y);
        assert(a.key() =~= b.key());
    } else if a.key().len() == 0 {
        lemma_list_read(a.value(), b.key(), x, q);
    } else if b.key().len() == 0 {
        lemma_list_read(a.key(), b.value(), p, y);
    } else {
        lemma_list_read(a.key(), b.key(), p, q);
        lemma_cut(": "@, ": "@, list_text(a.value()) + x, list_text(b.value()) + y);
        lemma_list_read(a.value(), b.value(), x, y);
    }
}

/// A flow with numbers for constants is known from the text that starts with it, if
/// it is known whether it comes from one collection or from two.
pub proof fn law_flow_is_known_from_its_text(
    a: TransformationFlowModel,
    b: TransformationFlowModel,
    r: Seq<char>,
    s: Seq<char>,
)
    requires
        is_plain_flow(a),
        is_plain_flow(b),
        a is KVToKV <==> b is KVToKV,
        a.text() + r == b.text() + s,
    ensures
        a == b,
        r == s,
{
    lemma_flow_text(a, r);
    lemma_flow_text(b, s);
    lemma_cut("|("@, "|("@, flow_body(a, r), flow_body(b, s));
    lemma_columns_read(a, b, r, s);
    lemma_flow_tail_read(a, b, r, s);
    match (a, b) {
        (
            TransformationFlowModel::KVToKV { constraints: c, .. },
            TransformationFlowModel::KVToKV { constraints: d, .. },
        ) => {
            lemma_equalities_known(c, d);
        },
        _ => {},
    }
}

} // verus!
