//! Putting things in the order of their names.
use vstd::prelude::*;
use vstd::string::*;
use crate::lists::{empty, group_take, take_first};
use crate::planning::collections::{CollectionSignature, CollectionSignatureModel};

verus! {

/// Whether a text comes before another: by the first characters that differ, or as
/// the beginning of the other.
pub open spec fn comes_before(a: Seq<char>, b: Seq<char>) -> bool
    decreases a.len(),
{
    if b.len() == 0 {
        false
    } else if a.len() == 0 {
        true
    } else if a[0] == b[0] {
        comes_before(a.skip(1), b.skip(1))
    } else {
        a[0] < b[0]
    }
}

proof fn lemma_comes_before_at(a: Seq<char>, b: Seq<char>, i: int)
    requires
        0 <= i <= a.len(),
        i <= b.len(),
        forall|k: int| 0 <= k < i ==> a[k] == b[k],
    ensures
        comes_before(a, b) == comes_before(a.skip(i), b.skip(i)),
    decreases i,
{
    if i == 0 {
        assert(a.skip(0) =~= a);
        assert(b.skip(0) =~= b);
    } else {
        assert(a[0] == b[0]);
        assert forall|k: int| 0 <= k < i - 1 implies a.skip(1)[k] == b.skip(1)[k] by {
            assert(a[k + 1] == b[k + 1]);
        }
        lemma_comes_before_at(a.skip(1), b.skip(1), i - 1);
        assert(a.skip(1).skip(i - 1) =~= a.skip(i));
        assert(b.skip(1).skip(i - 1) =~= b.skip(i));
    }
}

/// Whether a text comes before another.
pub fn is_before(a: &str, b: &str) -> (answer: bool)
    ensures
        answer == comes_before(a@, b@),
{
    let a_len: usize = a.unicode_len();
    let b_len: usize = b.unicode_len();
    let mut i: usize = 0;
    while i < a_len && i < b_len
        invariant
            i <= a_len,
            i <= b_len,
            a_len == a@.len(),
            b_len == b@.len(),
            forall|k: int| 0 <= k < i ==> a@[k] == b@[k],
        decreases a_len - i,
    {
        let x = a.get_char(i);
        let y = b.get_char(i);
        if x != y {
            proof {
                lemma_comes_before_at(a@, b@, i as int);
                assert(a@.skip(i as int)[0] == x);
                assert(b@.skip(i as int)[0] == y);
            }
            return x < y;
        }
        i += 1;
    }
    proof {
        lemma_comes_before_at(a@, b@, i as int);
    }
    i < b_len
}

/// A model with a name to put it in order by.
pub trait Titled: Sized {
    spec fn title(self) -> Seq<char>;
}

/// A value whose model has a name.
pub trait Entitled: DeepView where <Self as DeepView>::V: Titled {
    fn title_str(&self) -> (title: &str)
        ensures
            title@ == self.deep_view().title(),
    ;
}

impl Titled for CollectionSignatureModel {
    open spec fn title(self) -> Seq<char> {
        self.name()
    }
}

impl Entitled for CollectionSignature {
    fn title_str(&self) -> (title: &str) {
        self.name()
    }
}

impl<B> Titled for (Seq<char>, B) {
    open spec fn title(self) -> Seq<char> {
        self.0
    }
}

impl<B: DeepView> Entitled for (String, B) {
    fn title_str(&self) -> (title: &str) {
        self.0.as_str()
    }
}

impl<B> Titled for (CollectionSignatureModel, B) {
    open spec fn title(self) -> Seq<char> {
        self.0.name()
    }
}

impl<B: DeepView> Entitled for (CollectionSignature, B) {
    fn title_str(&self) -> (title: &str) {
        self.0.name()
    }
}

/// Where an item goes in a list: behind all items that do not come after it.
pub open spec fn slot<M: Titled>(list: Seq<M>, item: M) -> nat
    decreases list.len(),
{
    if list.len() == 0 {
        0
    } else if comes_before(item.title(), list.last().title()) {
        slot(list.drop_last(), item)
    } else {
        list.len()
    }
}

/// The items in the order of their names.
pub open spec fn by_title<M: Titled>(items: Seq<M>) -> Seq<M>
    decreases items.len(),
{
    if items.len() == 0 {
        Seq::empty()
    } else {
        let front = by_title(items.drop_last());
        front.insert(slot(front, items.last()) as int, items.last())
    }
}

proof fn lemma_slot<M: Titled>(list: Seq<M>, item: M)
    ensures
        slot(list, item) <= list.len(),
    decreases list.len(),
{
    if list.len() > 0 {
        lemma_slot(list.drop_last(), item);
    }
}

fn find_slot<T: Entitled>(list: &Vec<T>, item: &T) -> (place: usize) where
    <T as DeepView>::V: Titled,

    ensures
        place == slot(list.deep_view(), item.deep_view()),
        place <= list@.len(),
{
    broadcast use group_take;

    let ghost model = list.deep_view();
    let mut i: usize = list.len();
    assert(model.take(i as int) =~= model);
    while i > 0
        invariant
            i <= list.len(),
            model == list.deep_view(),
            slot(model, item.deep_view()) == slot(model.take(i as int), item.deep_view()),
        decreases i,
    {
        let ghost front = model.take(i as int);
        assert(model[i - 1] == list@[i - 1].deep_view());
        assert(front.last() == model[i - 1]);
        assert(front.drop_last() =~= model.take(i - 1));
        if !is_before(item.title_str(), list[i - 1].title_str()) {
            return i;
        }
        i -= 1;
    }
    0
}

/// Puts items in the order of their names.
pub fn sort_by_title<T: Entitled>(items: Vec<T>) -> (out: Vec<T>) where
    <T as DeepView>::V: Titled,

    ensures
        out.deep_view() == by_title(items.deep_view()),
{
    broadcast use group_take;

    let ghost model = items.deep_view();
    let mut items = items;
    let mut out: Vec<T> = empty();
    let ghost mut done: int = 0;
    assert(items.deep_view() =~= model.skip(0));
    while items.len() > 0
        invariant
            0 <= done <= model.len(),
            done + items@.len() == model.len(),
            items.deep_view() == model.skip(done),
            out.deep_view() == by_title(model.take(done)),
        decreases items@.len(),
    {
        assert(model.take(done + 1).drop_last() == model.take(done));
        assert(items.deep_view()[0] == model[done]);
        let item = take_first(&mut items);
        assert(model.skip(done).skip(1) =~= model.skip(done + 1));
        let place: usize = find_slot(&out, &item);
        let ghost before = out.deep_view();
        let ghost before_items = out@;
        let ghost value = item.deep_view();
        out.insert(place, item);
        proof {
            assert(out@ == before_items.insert(place as int, item));
            assert forall|k: int| 0 <= k < out@.len() implies out.deep_view()[k] == before.insert(
                place as int,
                value,
            )[k] by {
                assert(out.deep_view()[k] == out@[k].deep_view());
            }
            assert(out.deep_view() =~= before.insert(place as int, value));
            done = done + 1;
        }
    }
    assert(model.take(done) =~= model);
    out
}

/// Whether no item comes before an item that stands in front of it.
pub open spec fn is_in_order<M: Titled>(items: Seq<M>) -> bool {
    forall|i: int, j: int|
        0 <= i < j < items.len() ==> !comes_before(
            (#[trigger] items[j]).title(),
            (#[trigger] items[i]).title(),
        )
}

proof fn lemma_not_before_trans(a: Seq<char>, b: Seq<char>, c: Seq<char>)
    requires
        !comes_before(b, a),
        !comes_before(c, b),
    ensures
        !comes_before(c, a),
    decreases a.len(),
{
    if a.len() > 0 && c.len() > 0 && b.len() > 0 {
        if a[0] == c[0] && b[0] == a[0] {
            lemma_not_before_trans(a.skip(1), b.skip(1), c.skip(1));
        }
    }
}

proof fn lemma_before_not_after(a: Seq<char>, b: Seq<char>)
    requires
        comes_before(a, b),
    ensures
        !comes_before(b, a),
    decreases a.len(),
{
    if a.len() > 0 && b.len() > 0 && a[0] == b[0] {
        lemma_before_not_after(a.skip(1), b.skip(1));
    }
}

proof fn lemma_slot_order<M: Titled>(list: Seq<M>, item: M)
    requires
        is_in_order(list),
    ensures
        forall|k: int|
            0 <= k < slot(list, item) ==> !comes_before(item.title(), (#[trigger] list[k]).title()),
        forall|k: int|
            slot(list, item) <= k < list.len() ==> !comes_before(
                (#[trigger] list[k]).title(),
                item.title(),
            ),
    decreases list.len(),
{
    lemma_slot(list, item);
    if list.len() > 0 {
        let n = list.len() - 1;
        let front = list.drop_last();
        if comes_before(item.title(), list.last().title()) {
            assert(is_in_order(front)) by {
                assert forall|i: int, j: int| 0 <= i < j < front.len() implies !comes_before(
                    (#[trigger] front[j]).title(),
                    (#[trigger] front[i]).title(),
                ) by {
                    assert(front[i] == list[i] && front[j] == list[j]);
                }
            }
            lemma_slot(front, item);
            lemma_slot_order(front, item);
            lemma_before_not_after(item.title(), list.last().title());
            assert forall|k: int| 0 <= k < slot(list, item) implies !comes_before(
                item.title(),
                (#[trigger] list[k]).title(),
            ) by {
                assert(front[k] == list[k]);
            }
            assert forall|k: int| slot(list, item) <= k < list.len() implies !comes_before(
                (#[trigger] list[k]).title(),
                item.title(),
            ) by {
                if k < n {
                    assert(front[k] == list[k]);
                }
            }
        } else {
            assert forall|k: int| 0 <= k < slot(list, item) implies !comes_before(
                item.title(),
                (#[trigger] list[k]).title(),
            ) by {
                if k < n {
                    assert(!comes_before(list[n].title(), list[k].title()));
                    lemma_not_before_trans(list[k].title(), list[n].title(), item.title());
                }
            }
        }
    }
}

/// Texts come in the order of a dictionary: by their first characters, and where these
/// are the same, by what is behind them; the empty text comes first.
pub proof fn law_order_of_a_dictionary(c: char, a: Seq<char>, d: char, b: Seq<char>)
    ensures
        comes_before(seq![c] + a, seq![d] + b) <==> c < d || (c == d && comes_before(a, b)),
        comes_before(Seq::empty(), seq![d] + b),
        !comes_before(a, Seq::empty()),
{
    let x = seq![c] + a;
    let y = seq![d] + b;
    assert(x.skip(1) =~= a);
    assert(y.skip(1) =~= b);
    assert(x[0] == c && y[0] == d);
}

/// Putting items in the order of their names keeps every item, and leaves none
/// before one that it comes after.
pub proof fn law_by_title<M: Titled>(items: Seq<M>)
    ensures
        is_in_order(by_title(items)),
        by_title(items).to_multiset() == items.to_multiset(),
    decreases items.len(),
{
    broadcast use vstd::seq_lib::group_to_multiset_ensures;

    if items.len() > 0 {
        let front = by_title(items.drop_last());
        let item = items.last();
        law_by_title(items.drop_last());
        lemma_slot(front, item);
        lemma_slot_order(front, item);
        let place = slot(front, item) as int;
        let all = by_title(items);
        assert(items =~= items.drop_last().push(item));
        assert forall|i: int, j: int| 0 <= i < j < all.len() implies !comes_before(
            (#[trigger] all[j]).title(),
            (#[trigger] all[i]).title(),
        ) by {
            if j < place {
                assert(all[i] == front[i] && all[j] == front[j]);
            } else if j == place {
                assert(all[i] == front[i]);
            } else if i < place {
                assert(all[i] == front[i] && all[j] == front[j - 1]);
            } else if i == place {
                assert(all[j] == front[j - 1]);
            } else {
                assert(all[i] == front[i - 1] && all[j] == front[j - 1]);
            }
        }
    }
}

} // verus!
