//! References between blocks, and the order that they ask for.
use vstd::prelude::*;
use crate::hcl_types::{
    HclExpr, HclExprModel, HclProgram, HclProgramModel, HclResource, HclResourceModel, HclValue,
    HclValueModel,
};
use crate::lists::{empty, group_take, push};
use crate::ordered::{value_of, Ordered};

verus! {

/// An attribute with a variable put in, where the variable has a value.
pub open spec fn resolved(
    expr: HclExprModel,
    variables: Seq<(Seq<char>, HclValueModel)>,
) -> HclExprModel {
    match expr {
        HclExprModel::VarRef(name) => match value_of(variables, name) {
            Some(value) => HclExprModel::Literal(value),
            None => expr,
        },
        _ => expr,
    }
}

pub open spec fn resolved_block(
    block: HclResourceModel,
    variables: Seq<(Seq<char>, HclValueModel)>,
) -> HclResourceModel {
    HclResourceModel {
        attributes: Seq::new(
            block.attributes.len(),
            |i: int| (block.attributes[i].0, resolved(block.attributes[i].1, variables)),
        ),
        ..block
    }
}

/// The program with its variables put in.
pub open spec fn resolved_program(program: HclProgramModel) -> HclProgramModel {
    HclProgramModel {
        resources: Seq::new(
            program.resources.len(),
            |i: int| resolved_block(program.resources[i], program.variables),
        ),
        ..program
    }
}

/// Puts the variables of a program into one of its blocks.
fn resolve_block(block: HclResource, variables: &Ordered<HclValue>) -> (out: HclResource)
    requires
        variables.wf(),
        block.attributes.wf(),
    ensures
        out.attributes.wf(),
        out.deep_view() == resolved_block(block.deep_view(), variables.deep_view()),
{
    let ghost model = block.deep_view();
    let ghost vars = variables.deep_view();
    let mut block = block;
    let len: usize = block.attributes.items.len();
    let mut i: usize = 0;
    while i < len
        invariant
            i <= len,
            len == block.attributes.items@.len(),
            len == model.attributes.len(),
            variables.wf(),
            vars == variables.deep_view(),
            block.attributes.wf(),
            block.block_type@ == model.block_type,
            block.label@ == model.label,
            forall|k: int|
                0 <= k < len ==> (#[trigger] block.attributes.deep_view()[k]) == if k < i {
                    (model.attributes[k].0, resolved(model.attributes[k].1, vars))
                } else {
                    model.attributes[k]
                },
        decreases len - i,
    {
        let ghost before = block.attributes.deep_view();
        assert(before[i as int] == model.attributes[i as int]);
        assert(before[i as int].1 == block.attributes.items@[i as int].deep_view());
        let new_value = match &block.attributes.items[i] {
            HclExpr::VarRef(name) => match variables.get(name.as_str()) {
                Some(value) => Some(value.clone()),
                None => None,
            },
            _ => None,
        };
        match new_value {
            Some(value) => {
                let ghost made = HclExprModel::Literal(value.deep_view());
                block.attributes.items.set(i, HclExpr::Literal(value));
                assert(block.attributes.deep_view() =~= before.update(
                    i as int,
                    (before[i as int].0, made),
                ));
            },
            None => {},
        }
        i += 1;
    }
    assert(block.attributes.deep_view() =~= resolved_block(model, vars).attributes);
    block
}

/// Puts the variables of a program into its blocks.
pub fn resolve_variables(hcl_program: &mut HclProgram)
    requires
        old(hcl_program).wf(),
    ensures
        final(hcl_program).wf(),
        final(hcl_program).deep_view() == resolved_program(old(hcl_program).deep_view()),
{
    let ghost model = hcl_program.deep_view();
    let mut blocks: Vec<HclResource> = Vec::new();
    blocks.append(&mut hcl_program.resources);
    assert(blocks.deep_view() =~= model.resources);
    let mut made: Vec<HclResource> = Vec::new();
    let ghost mut done: int = 0;
    assert(model.resources.skip(0) =~= model.resources);
    while blocks.len() > 0
        invariant
            0 <= done <= model.resources.len(),
            done + blocks@.len() == model.resources.len(),
            made@.len() == done,
            blocks.deep_view() == model.resources.skip(done),
            hcl_program.variables.wf(),
            hcl_program.variables.deep_view() == model.variables,
            hcl_program.outputs.deep_view() == model.outputs,
            forall|i: int| 0 <= i < blocks@.len() ==> (#[trigger] blocks@[i]).attributes.wf(),
            forall|i: int| 0 <= i < made@.len() ==> (#[trigger] made@[i]).attributes.wf(),
            forall|i: int|
                0 <= i < made@.len() ==> (#[trigger] made@[i]).deep_view() == resolved_block(
                    model.resources[i],
                    model.variables,
                ),
        decreases blocks@.len(),
    {
        let ghost before = blocks@;
        assert(blocks.deep_view()[0] == model.resources[done]);
        assert(before[0].attributes.wf());
        let block = blocks.remove(0);
        assert forall|i: int| 0 <= i < blocks@.len() implies (
        #[trigger] blocks@[i]).attributes.wf() by {
            assert(blocks@[i] == before[i + 1]);
        }
        assert(blocks.deep_view() =~= model.resources.skip(done + 1)) by {
            assert forall|i: int| 0 <= i < blocks@.len() implies blocks.deep_view()[i]
                == model.resources.skip(done + 1)[i] by {
                assert(blocks@[i] == before[i + 1]);
                assert(before[i + 1].deep_view() == model.resources.skip(done)[i + 1]);
            }
        }
        made.push(resolve_block(block, &hcl_program.variables));
        proof {
            done = done + 1;
        }
    }
    hcl_program.resources = made;
    assert(hcl_program.resources.deep_view() =~= resolved_program(model).resources);
}

/// After that the value of a variable stands in place of its name wherever it has one,
/// and everything else is as it was.
pub proof fn law_variables_are_resolved(program: HclProgramModel, i: int, k: int)
    requires
        0 <= i < program.resources.len(),
        0 <= k < program.resources[i].attributes.len(),
    ensures
        ({
            let before = program.resources[i].attributes[k];
            let after = resolved_program(program).resources[i].attributes[k];
            &&& after.0 == before.0
            &&& !(before.1 is VarRef) ==> after.1 == before.1
            &&& after.1 matches HclExprModel::VarRef(name) ==> value_of(
                program.variables,
                name,
            ) is None
            &&& before.1 matches HclExprModel::VarRef(name) ==> match value_of(
                program.variables,
                name,
            ) {
                Some(value) => after.1 == HclExprModel::Literal(value),
                None => after.1 == before.1,
            }
        }),
{
}

/// Resolving the variables of a program keeps everything else: its variables, its
/// outputs, and its blocks in their order, each with its type, its label and its number
/// of attributes.
pub proof fn law_blocks_stay_when_resolved(program: HclProgramModel, i: int)
    requires
        0 <= i < program.resources.len(),
    ensures
        resolved_program(program).variables == program.variables,
        resolved_program(program).outputs == program.outputs,
        resolved_program(program).resources.len() == program.resources.len(),
        resolved_program(program).resources[i].id() == program.resources[i].id(),
        resolved_program(program).resources[i].attributes.len()
            == program.resources[i].attributes.len(),
{
}

/// A value that holds no variable stays as it is, and resolving a second time changes
/// nothing.
pub proof fn law_resolving_once_is_enough(
    expr: HclExprModel,
    variables: Seq<(Seq<char>, HclValueModel)>,
)
    ensures
        !(expr is VarRef) ==> resolved(expr, variables) == expr,
        resolved(resolved(expr, variables), variables) == resolved(expr, variables),
        expr matches HclExprModel::VarRef(name) ==> (value_of(variables, name) matches Some(value)
            ==> resolved(expr, variables) == HclExprModel::Literal(value)),
{
}

/// Where the rows of a block come from.
#[derive(Debug, Clone, Copy, PartialEq, Eq, Structural)]
pub enum BlockKind {
    /// they are written down
    Edb,
    /// they are derived from other blocks
    Idb,
}

impl DeepView for BlockKind {
    type V = BlockKind;

    open spec fn deep_view(&self) -> BlockKind {
        *self
    }
}

/// Whether a block refers to another.
pub open spec fn has_reference(block: HclResourceModel) -> bool {
    exists|k: int|
        0 <= k < block.attributes.len() && (#[trigger] block.attributes[k]).1 is Reference
}

pub open spec fn kind_of(block: HclResourceModel) -> BlockKind {
    if has_reference(block) {
        BlockKind::Idb
    } else {
        BlockKind::Edb
    }
}

/// Whether a block refers to an attribute of another one.
pub open spec fn refers_to(block: HclResourceModel, other: HclResourceModel) -> bool {
    exists|k: int| #[trigger] refers_at(block, other, k)
}

pub open spec fn refers_at(block: HclResourceModel, other: HclResourceModel, k: int) -> bool {
    &&& 0 <= k < block.attributes.len()
    &&& block.attributes[k].1 matches HclExprModel::Reference(r) && r.block_type == other.block_type
        && r.block_label == other.label
}

/// Whether all blocks that a block refers to are done.
pub open spec fn is_ready(blocks: Seq<HclResourceModel>, done: Seq<bool>, i: int) -> bool {
    forall|j: int|
        0 <= j < blocks.len() && refers_to(blocks[i], #[trigger] blocks[j]) ==> done[j]
}

/// Whether a block is the next one to be done: the first that is ready, or the
/// first at all where none is.
pub open spec fn is_next(blocks: Seq<HclResourceModel>, done: Seq<bool>, i: int) -> bool {
    &&& 0 <= i < blocks.len()
    &&& !done[i]
    &&& if is_ready(blocks, done, i) {
        forall|j: int|
            0 <= j < i ==> done[j] || !#[trigger] is_ready(blocks, done, j)
    } else {
        &&& forall|j: int| 0 <= j < i ==> #[trigger] done[j]
        &&& forall|j: int|
            0 <= j < blocks.len() && !done[j] ==> !#[trigger] is_ready(blocks, done, j)
    }
}

/// Which blocks an order has done.
pub open spec fn done_by(order: Seq<usize>, n: nat) -> Seq<bool> {
    Seq::new(n, |i: int| order.contains(i as usize))
}

/// Whether blocks come in the order that their references ask for: each is the
/// next one after those before it, and all are there.
pub open spec fn is_block_order(blocks: Seq<HclResourceModel>, order: Seq<usize>) -> bool {
    &&& order.len() == blocks.len()
    &&& forall|k: int|
        0 <= k < order.len() ==> is_next(
            blocks,
            done_by(order.take(k), blocks.len()),
            (#[trigger] order[k]) as int,
        )
}

/// What is found out about the blocks of a program.
#[derive(Debug)]
pub struct DependencyAnalysis {
    pub block_kinds: Vec<((String, String), BlockKind)>,
    pub topo_order: Vec<(String, String)>,
}

#[verifier::ext_equal]
pub struct DependencyAnalysisModel {
    pub block_kinds: Seq<((Seq<char>, Seq<char>), BlockKind)>,
    pub topo_order: Seq<(Seq<char>, Seq<char>)>,
}

impl DeepView for DependencyAnalysis {
    type V = DependencyAnalysisModel;

    open spec fn deep_view(&self) -> DependencyAnalysisModel {
        DependencyAnalysisModel {
            block_kinds: self.block_kinds.deep_view(),
            topo_order: self.topo_order.deep_view(),
        }
    }
}

pub open spec fn kinds_of(blocks: Seq<HclResourceModel>) -> Seq<
    ((Seq<char>, Seq<char>), BlockKind),
> {
    Seq::new(blocks.len(), |i: int| (blocks[i].id(), kind_of(blocks[i])))
}

pub open spec fn ids_in(blocks: Seq<HclResourceModel>, order: Seq<usize>) -> Seq<
    (Seq<char>, Seq<char>),
> {
    Seq::new(order.len(), |k: int| blocks[order[k] as int].id())
}

/// Whether this was found out about blocks.
pub open spec fn is_analysis(
    blocks: Seq<HclResourceModel>,
    analysis: DependencyAnalysisModel,
) -> bool {
    &&& analysis.block_kinds == kinds_of(blocks)
    &&& exists|order: Seq<usize>| #[trigger]
        is_block_order(blocks, order) && analysis.topo_order == ids_in(blocks, order)
}

fn find_kind(block: &HclResource) -> (kind: BlockKind)
    ensures
        kind == kind_of(block.deep_view()),
{
    let ghost model = block.deep_view();
    let mut k: usize = 0;
    while k < block.attributes.items.len()
        invariant
            k <= block.attributes.items.len(),
            model == block.deep_view(),
            forall|j: int| 0 <= j < k ==> !((#[trigger] model.attributes[j]).1 is Reference),
        decreases block.attributes.items.len() - k,
    {
        assert(model.attributes[k as int].1 == block.attributes.items@[k as int].deep_view());
        match &block.attributes.items[k] {
            HclExpr::Reference(_) => {
                return BlockKind::Idb;
            },
            _ => {},
        }
        k += 1;
    }
    BlockKind::Edb
}

fn does_refer(block: &HclResource, other: &HclResource) -> (answer: bool)
    ensures
        answer == refers_to(block.deep_view(), other.deep_view()),
{
    let ghost model = block.deep_view();
    let ghost target = other.deep_view();
    let mut k: usize = 0;
    while k < block.attributes.items.len()
        invariant
            k <= block.attributes.items.len(),
            model == block.deep_view(),
            target == other.deep_view(),
            forall|j: int| 0 <= j < k ==> !#[trigger] refers_at(model, target, j),
        decreases block.attributes.items.len() - k,
    {
        assert(model.attributes[k as int].1 == block.attributes.items@[k as int].deep_view());
        match &block.attributes.items[k] {
            HclExpr::Reference(r) => {
                if r.block_type == other.block_type && r.block_label == other.label {
                    assert(refers_at(model, target, k as int));
                    return true;
                }
            },
            _ => {},
        }
        assert(!refers_at(model, target, k as int));
        k += 1;
    }
    false
}

fn check_ready(blocks: &Vec<HclResource>, done: &Vec<bool>, i: usize) -> (answer: bool)
    requires
        i < blocks@.len(),
        done@.len() == blocks@.len(),
    ensures
        answer == is_ready(blocks.deep_view(), done@, i as int),
{
    let ghost models = blocks.deep_view();
    assert(models[i as int] == blocks@[i as int].deep_view());
    let mut j: usize = 0;
    while j < blocks.len()
        invariant
            i < blocks@.len(),
            j <= blocks.len(),
            done@.len() == blocks@.len(),
            models == blocks.deep_view(),
            models[i as int] == blocks@[i as int].deep_view(),
            forall|k: int|
                0 <= k < j && refers_to(models[i as int], #[trigger] models[k]) ==> done@[k],
        decreases blocks.len() - j,
    {
        assert(models[j as int] == blocks@[j as int].deep_view());
        if !done[j] && does_refer(&blocks[i], &blocks[j]) {
            return false;
        }
        j += 1;
    }
    true
}

/// Finds the next block to be done.
fn next_block(blocks: &Vec<HclResource>, done: &Vec<bool>) -> (next: usize)
    requires
        done@.len() == blocks@.len(),
        exists|i: int| 0 <= i < done@.len() && !#[trigger] done@[i],
    ensures
        is_next(blocks.deep_view(), done@, next as int),
{
    let ghost models = blocks.deep_view();
    let mut first: Option<usize> = None;
    let mut i: usize = 0;
    while i < blocks.len()
        invariant
            i <= blocks.len(),
            done@.len() == blocks@.len(),
            models == blocks.deep_view(),
            forall|j: int| 0 <= j < i ==> done@[j] || !#[trigger] is_ready(models, done@, j),
            match first {
                Some(k) => k < i && !done@[k as int] && forall|j: int|
                    0 <= j < k ==> #[trigger] done@[j],
                None => forall|j: int| 0 <= j < i ==> #[trigger] done@[j],
            },
        decreases blocks.len() - i,
    {
        if !done[i] {
            if check_ready(blocks, done, i) {
                return i;
            }
            if first.is_none() {
                first = Some(i);
            }
        }
        i += 1;
    }
    match first {
        Some(k) => k,
        None => {
            proof {
                let w = choose|w: int| 0 <= w < done@.len() && !#[trigger] done@[w];
                assert(done@[w]);
            }
            vstd::pervasive::unreached()
        },
    }
}

proof fn lemma_some_undone(blocks: Seq<HclResourceModel>, order: Seq<usize>, n: nat)
    requires
        order.len() < n <= usize::MAX,
    ensures
        exists|i: int| 0 <= i < n && !#[trigger] done_by(order, n)[i],
    decreases n,
{
    if !order.contains((n - 1) as usize) {
        assert(!done_by(order, n)[n - 1]);
    } else if order.len() + 1 == n || order.len() > 0 {
        // drop one occurrence of the last number and count on
        let k = choose|k: int| 0 <= k < order.len() && order[k] == (n - 1) as usize;
        let rest = order.remove(k);
        lemma_some_undone(blocks, rest, (n - 1) as nat);
        let i = choose|i: int| 0 <= i < n - 1 && !#[trigger] done_by(rest, (n - 1) as nat)[i];
        assert(!rest.contains(i as usize));
        assert(!order.contains(i as usize)) by {
            if order.contains(i as usize) {
                let m = choose|m: int| 0 <= m < order.len() && order[m] == i as usize;
                if m < k {
                    assert(rest[m] == i as usize);
                } else if m > k {
                    assert(rest[m - 1] == i as usize);
                }
            }
        }
        assert(!done_by(order, n)[i]);
    }
}

/// Finds out which blocks are derived, and in which order blocks can be done.
pub fn analyze_dependencies(hcl_program: &HclProgram) -> (analysis: DependencyAnalysis)
    ensures
        is_analysis(hcl_program.deep_view().resources, analysis.deep_view()),
{
    broadcast use group_take;

    let blocks = &hcl_program.resources;
    let ghost models = blocks.deep_view();
    let ghost n = models.len();
    let mut block_kinds: Vec<((String, String), BlockKind)> = Vec::new();
    let mut done: Vec<bool> = Vec::new();
    let mut i: usize = 0;
    while i < blocks.len()
        invariant
            i <= blocks.len(),
            models == blocks.deep_view(),
            block_kinds.len() == i,
            done.len() == i,
            forall|k: int| 0 <= k < i ==> (#[trigger] block_kinds@[k]).deep_view() == kinds_of(models)[k],
            forall|k: int| 0 <= k < i ==> !#[trigger] done@[k],
        decreases blocks.len() - i,
    {
        assert(models[i as int] == blocks@[i as int].deep_view());
        let block = &blocks[i];
        block_kinds.push(((block.block_type.clone(), block.label.clone()), find_kind(block)));
        done.push(false);
        i += 1;
    }
    assert(block_kinds.deep_view() =~= kinds_of(models));
    let mut topo_order: Vec<(String, String)> = Vec::new();
    let ghost mut order: Seq<usize> = Seq::empty();
    assert(done@ =~= done_by(order, n));
    while topo_order.len() < blocks.len()
        invariant
            models == blocks.deep_view(),
            n == models.len(),
            n == blocks@.len(),
            order.len() == topo_order@.len(),
            order.len() <= n,
            done@ == done_by(order, n),
            forall|k: int|
                0 <= k < order.len() ==> is_next(
                    models,
                    done_by(order.take(k), n),
                    (#[trigger] order[k]) as int,
                ),
            forall|k: int|
                0 <= k < order.len() ==> (#[trigger] topo_order@[k]).deep_view() == ids_in(
                    models,
                    order,
                )[k],
        decreases n - topo_order@.len(),
    {
        proof {
            assert(blocks.len() == n);
            lemma_some_undone(models, order, n);
        }
        let next: usize = next_block(blocks, &done);
        let ghost longer = order.push(next);
        assert(is_next(models, done_by(order, n), next as int));
        assert(models[next as int] == blocks@[next as int].deep_view());
        done.set(next, true);
        topo_order.push((blocks[next].block_type.clone(), blocks[next].label.clone()));
        proof {
            assert forall|k: int| 0 <= k < longer.len() implies is_next(
                models,
                done_by(longer.take(k), n),
                (#[trigger] longer[k]) as int,
            ) by {
                if k < order.len() {
                    assert(longer.take(k) =~= order.take(k));
                    assert(longer[k] == order[k]);
                } else {
                    assert(longer.take(k) =~= order);
                }
            }
            assert forall|i: int| 0 <= i < n implies done@[i] == done_by(longer, n)[i] by {
                if order.contains(i as usize) {
                    let m = choose|m: int| 0 <= m < order.len() && order[m] == i as usize;
                    assert(longer[m] == i as usize);
                }
                assert(longer[order.len() as int] == next);
                if longer.contains(i as usize) && i != next {
                    let m = choose|m: int| 0 <= m < longer.len() && longer[m] == i as usize;
                    assert(order[m] == i as usize);
                }
            }
            assert(done@ =~= done_by(longer, n));
            assert forall|k: int| 0 <= k < longer.len() implies (
            #[trigger] topo_order@[k]).deep_view() == ids_in(models, longer)[k] by {
                if k < order.len() {
                    assert(longer[k] == order[k]);
                }
            }
            order = longer;
        }
    }
    assert(topo_order.deep_view() =~= ids_in(models, order));
    assert(is_block_order(models, order));
    DependencyAnalysis { block_kinds, topo_order }
}

/// Every block stands in the order once.
pub proof fn law_order_has_all_blocks(blocks: Seq<HclResourceModel>, order: Seq<usize>)
    requires
        is_block_order(blocks, order),
        blocks.len() <= usize::MAX,
    ensures
        order.no_duplicates(),
        forall|i: usize| i < blocks.len() ==> #[trigger] order.contains(i),
{
    let n = blocks.len();
    assert forall|i: int, j: int| 0 <= i < j < order.len() implies order[i] != order[j] by {
        assert(is_next(blocks, done_by(order.take(j), n), order[j] as int));
        if order[i] == order[j] {
            assert(order.take(j)[i] == order[j]);
            assert(done_by(order.take(j), n)[order[j] as int]);
        }
    }
    assert forall|i: usize| i < n implies #[trigger] order.contains(i) by {
        if !order.contains(i) {
            lemma_pigeon(order, n, i);
        }
    }
}

proof fn lemma_pigeon(order: Seq<usize>, n: nat, missing: usize)
    requires
        order.no_duplicates(),
        missing < n,
        !order.contains(missing),
        order.len() >= n,
    ensures
        exists|k: int| 0 <= k < order.len() && #[trigger] order[k] >= n,
    decreases n,
{
    if forall|k: int| 0 <= k < order.len() ==> (#[trigger] order[k]) < n {
        let top = (n - 1) as usize;
        if order.contains(top) {
            let k = choose|k: int| 0 <= k < order.len() && order[k] == top;
            let rest = order.remove(k);
            assert(missing != top);
            assert forall|i: int, j: int| 0 <= i < j < rest.len() implies rest[i] != rest[j] by {
                let a = if i < k {
                    i
                } else {
                    i + 1
                };
                let b = if j < k {
                    j
                } else {
                    j + 1
                };
                assert(rest[i] == order[a] && rest[j] == order[b]);
            }
            assert(!rest.contains(missing)) by {
                if rest.contains(missing) {
                    let m = choose|m: int| 0 <= m < rest.len() && rest[m] == missing;
                    let a = if m < k {
                        m
                    } else {
                        m + 1
                    };
                    assert(order[a] == missing);
                }
            }
            lemma_pigeon(rest, (n - 1) as nat, missing);
            let m = choose|m: int| 0 <= m < rest.len() && #[trigger] rest[m] >= n - 1;
            let a = if m < k {
                m
            } else {
                m + 1
            };
            assert(order[a] == rest[m]);
            assert(order[a] != order[k]);
        } else {
            if n > 1 && missing != top {
                lemma_pigeon(order, (n - 1) as nat, missing);
                let m = choose|m: int| 0 <= m < order.len() && #[trigger] order[m] >= n - 1;
                assert(order[m] == top);
            } else if n > 1 {
                lemma_pigeon_all(order, (n - 1) as nat);
                let m = choose|m: int| 0 <= m < order.len() && #[trigger] order[m] >= n - 1;
                assert(order[m] == top);
            } else {
                assert(order[0] < 1);
                assert(order[0] == top);
            }
        }
    }
}

proof fn lemma_pigeon_all(order: Seq<usize>, n: nat)
    requires
        order.no_duplicates(),
        order.len() > n,
    ensures
        exists|k: int| 0 <= k < order.len() && #[trigger] order[k] >= n,
    decreases n,
{
    if n == 0 {
        assert(order[0] >= 0);
    } else {
        let top = (n - 1) as usize;
        if forall|k: int| 0 <= k < order.len() ==> (#[trigger] order[k]) < n {
            if order.contains(top) {
                let k = choose|k: int| 0 <= k < order.len() && order[k] == top;
                let rest = order.remove(k);
                assert forall|i: int, j: int| 0 <= i < j < rest.len() implies rest[i] != rest[j] by {
                    let a = if i < k {
                        i
                    } else {
                        i + 1
                    };
                    let b = if j < k {
                        j
                    } else {
                        j + 1
                    };
                    assert(rest[i] == order[a] && rest[j] == order[b]);
                }
                lemma_pigeon_all(rest, (n - 1) as nat);
                let m = choose|m: int| 0 <= m < rest.len() && #[trigger] rest[m] >= n - 1;
                let a = if m < k {
                    m
                } else {
                    m + 1
                };
                assert(order[a] == rest[m]);
                assert(order[a] != order[k]);
            } else {
                lemma_pigeon_all(order, (n - 1) as nat);
                let m = choose|m: int| 0 <= m < order.len() && #[trigger] order[m] >= n - 1;
                assert(order[m] == top);
            }
        }
    }
}

/// Where references do not run in circles, a block comes behind every block that
/// it refers to. That they do not run in circles is shown by levels: a block
/// stands above every block that it refers to.
pub proof fn law_references_come_first(
    blocks: Seq<HclResourceModel>,
    order: Seq<usize>,
    levels: Seq<nat>,
    k: int,
    j: int,
)
    requires
        is_block_order(blocks, order),
        blocks.len() <= usize::MAX,
        levels.len() == blocks.len(),
        forall|a: int, b: int|
            0 <= a < blocks.len() && 0 <= b < blocks.len() && refers_to(
                #[trigger] blocks[a],
                #[trigger] blocks[b],
            ) ==> levels[b] < levels[a],
        0 <= k < order.len(),
        0 <= j < blocks.len(),
        refers_to(blocks[order[k] as int], blocks[j]),
    ensures
        order.take(k).contains(j as usize),
{
    let n = blocks.len();
    let done = done_by(order.take(k), n);
    let i = order[k] as int;
    assert(is_next(blocks, done, i));
    if !is_ready(blocks, done, i) {
        lemma_lowest_is_ready(blocks, done, levels, i);
        let w = choose|w: int| 0 <= w < n && !done[w] && #[trigger] is_ready(blocks, done, w);
        assert(!is_ready(blocks, done, w));
    }
    assert(refers_to(blocks[i], blocks[j]));
    assert(done[j]);
}

proof fn lemma_lowest_is_ready(
    blocks: Seq<HclResourceModel>,
    done: Seq<bool>,
    levels: Seq<nat>,
    i: int,
)
    requires
        done.len() == blocks.len(),
        levels.len() == blocks.len(),
        forall|a: int, b: int|
            0 <= a < blocks.len() && 0 <= b < blocks.len() && refers_to(
                #[trigger] blocks[a],
                #[trigger] blocks[b],
            ) ==> levels[b] < levels[a],
        0 <= i < blocks.len(),
        !done[i],
    ensures
        exists|w: int| 0 <= w < blocks.len() && !done[w] && #[trigger] is_ready(blocks, done, w),
    decreases levels[i],
{
    if !is_ready(blocks, done, i) {
        let j = choose|j: int|
            0 <= j < blocks.len() && refers_to(blocks[i], #[trigger] blocks[j]) && !done[j];
        assert(levels[j] < levels[i]);
        lemma_lowest_is_ready(blocks, done, levels, j);
    }
}

/// Blocks that refer to none of the others are taken in the order in which they stand.
pub proof fn law_independent_blocks_stay_in_order(
    blocks: Seq<HclResourceModel>,
    order: Seq<usize>,
    k: int,
)
    requires
        blocks.len() <= usize::MAX,
        is_block_order(blocks, order),
        forall|i: int, j: int|
            0 <= i < blocks.len() && 0 <= j < blocks.len() ==> !#[trigger] refers_to(
                blocks[i],
                blocks[j],
            ),
        0 <= k < order.len(),
    ensures
        order[k] == k,
    decreases k,
{
    let before = order.take(k);
    let done = done_by(before, blocks.len());
    assert forall|j: int| 0 <= j < k implies #[trigger] order[j] == j by {
        law_independent_blocks_stay_in_order(blocks, order, j);
    }
    assert(is_next(blocks, done, order[k] as int));
    assert forall|j: int| 0 <= j < blocks.len() implies #[trigger] is_ready(
        blocks,
        done,
        j,
    ) by {}
    assert forall|j: int| 0 <= j < blocks.len() implies #[trigger] done[j] == (j < k) by {
        if j < k {
            assert(before[j] == j as usize);
        } else if before.contains(j as usize) {
            let i = choose|i: int| 0 <= i < before.len() && before[i] == j as usize;
            assert(order[i] == i);
        }
    }
    if order[k] > k {
        assert(is_ready(blocks, done, k));
        assert(done[k] == (k < k));
    }
}

} // verus!
