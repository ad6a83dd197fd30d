//! What is written of relations, and where.
use vstd::prelude::*;
use vstd::string::*;
use crate::text::{nat_text, usize_to_text};

verus! {

/// What stands before the size of a relation.
pub open spec fn size_title(name: Seq<char>, is_recursive: bool) -> Seq<char> {
    if is_recursive {
        "Delta of (recursive) "@ + name
    } else {
        "Size of (non-recursive) "@ + name
    }
}

pub fn size_prefix(name: &str, is_recursive: bool) -> (out: String)
    ensures
        out@ == size_title(name@, is_recursive),
{
    let mut out = (if is_recursive {
        "Delta of (recursive) "
    } else {
        "Size of (non-recursive) "
    }).to_owned();
    out.append(name);
    out
}

/// The file that a worker writes its part of a relation to.
pub fn part_path(file_path: &str, worker_id: usize) -> (out: String)
    ensures
        out@ == file_path@ + nat_text(worker_id as nat),
{
    let mut out = file_path.to_owned();
    out.append(usize_to_text(worker_id).as_str());
    out
}

/// The parts that are there, one after the other.
pub open spec fn merged(parts: Seq<Option<Seq<char>>>) -> Seq<char>
    decreases parts.len(),
{
    if parts.len() == 0 {
        Seq::empty()
    } else {
        match parts.last() {
            Some(part) => merged(parts.drop_last()) + part,
            None => merged(parts.drop_last()),
        }
    }
}

/// Puts the parts of a relation that the workers wrote together; a part that
/// could not be read is passed over.
pub fn merge_parts(parts: &Vec<Option<String>>) -> (out: String)
    ensures
        out@ == merged(parts.deep_view()),
{
    broadcast use crate::lists::group_take;

    let ghost model = parts.deep_view();
    let mut out = String::new();
    let mut i: usize = 0;
    while i < parts.len()
        invariant
            i <= parts.len(),
            model == parts.deep_view(),
            out@ == merged(model.take(i as int)),
        decreases parts.len() - i,
    {
        assert(model.take(i + 1).drop_last() == model.take(i as int));
        assert(model[i as int] == parts@[i as int].deep_view());
        match &parts[i] {
            Some(part) => {
                out.append(part.as_str());
            },
            None => {},
        }
        i += 1;
    }
    out
}

/// The parts of two lots of workers are put together one after the other; a part that is
/// not there counts for nothing.
pub proof fn law_parts_are_put_together(
    a: Seq<Option<Seq<char>>>,
    b: Seq<Option<Seq<char>>>,
    part: Seq<char>,
)
    ensures
        merged(Seq::empty()) == Seq::<char>::empty(),
        merged(seq![None]) == Seq::<char>::empty(),
        merged(seq![Some(part)]) == part,
        merged(a + b) == merged(a) + merged(b),
    decreases b.len(),
{
    let none = Seq::<Option<Seq<char>>>::empty();
    assert(seq![None::<Seq<char>>].drop_last() =~= none);
    assert(seq![Some(part)].drop_last() =~= none);
    assert(merged(none) =~= Seq::empty());
    assert(merged(seq![Some(part)]) =~= part);
    if b.len() == 0 {
        assert(a + b =~= a);
        assert(merged(a) + merged(b) =~= merged(a));
    } else {
        law_parts_are_put_together(a, b.drop_last(), part);
        assert((a + b).drop_last() =~= a + b.drop_last());
        assert(merged(a + b) =~= merged(a) + merged(b));
    }
}

/// What stands before a size tells which relation it is of, and whether the relation is
/// recursive.
pub proof fn law_size_titles_tell_relations_apart(
    name: Seq<char>,
    is_recursive: bool,
    other: Seq<char>,
    is_other_recursive: bool,
)
    requires
        size_title(name, is_recursive) == size_title(other, is_other_recursive),
    ensures
        is_recursive == is_other_recursive,
        name == other,
{
    reveal_strlit("Delta of (recursive) ");
    reveal_strlit("Size of (non-recursive) ");
    let x = size_title(name, is_recursive);
    let y = size_title(other, is_other_recursive);
    assert("Delta of (recursive) "@[0] == 'D');
    assert("Size of (non-recursive) "@[0] == 'S');
    assert(x[0] == if is_recursive {
        'D'
    } else {
        'S'
    });
    assert(y[0] == if is_other_recursive {
        'D'
    } else {
        'S'
    });
    let n = if is_recursive {
        "Delta of (recursive) "@.len() as int
    } else {
        "Size of (non-recursive) "@.len() as int
    };
    assert(x.skip(n) =~= name);
    assert(y.skip(n) =~= other);
}

} // verus!
