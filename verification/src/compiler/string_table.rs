//! Numbers for texts.
use vstd::prelude::*;
use crate::lists::{empty, push};

verus! {

/// Texts under numbers, each once.
#[derive(Debug)]
pub struct StringTable {
    pub id_to_str: Vec<String>,
}

/// The place of a text in a table.
pub open spec fn place_in(table: Seq<Seq<char>>, s: Seq<char>) -> int {
    choose|i: int| 0 <= i < table.len() && table[i] == s
}

/// A table with a text in it: behind the others, unless it is there.
pub open spec fn table_with(table: Seq<Seq<char>>, s: Seq<char>) -> Seq<Seq<char>> {
    if table.contains(s) {
        table
    } else {
        table.push(s)
    }
}

/// The number of a text once it is in a table: its place, cut down to 32 bits.
pub open spec fn number_of(table: Seq<Seq<char>>, s: Seq<char>) -> i32 {
    if table.contains(s) {
        place_in(table, s) as i32
    } else {
        table.len() as i32
    }
}

/// The text under a number.
pub open spec fn text_under(table: Seq<Seq<char>>, id: i32) -> Option<Seq<char>> {
    if 0 <= id < table.len() {
        Some(table[id as int])
    } else {
        None
    }
}

proof fn lemma_place(table: Seq<Seq<char>>, s: Seq<char>, i: int)
    requires
        table.no_duplicates(),
        0 <= i < table.len(),
        table[i] == s,
    ensures
        place_in(table, s) == i,
{
    let k = place_in(table, s);
    assert(0 <= k < table.len() && table[k] == s);
}

impl Default for StringTable {
    fn default() -> (table: Self)
        ensures
            table.wf(),
            table.table() == Seq::<Seq<char>>::empty(),
    {
        StringTable::new()
    }
}

impl StringTable {
    pub open spec fn table(&self) -> Seq<Seq<char>> {
        self.id_to_str.deep_view()
    }

    /// Whether no text stands twice.
    pub open spec fn wf(&self) -> bool {
        self.table().no_duplicates()
    }

    pub fn new() -> (table: Self)
        ensures
            table.wf(),
            table.table() == Seq::<Seq<char>>::empty(),
    {
        StringTable { id_to_str: empty() }
    }

    /// The number of a text; the text is entered if it is not there.
    pub fn intern(&mut self, s: &str) -> (id: i32)
        requires
            old(self).wf(),
        ensures
            final(self).wf(),
            final(self).table() == table_with(old(self).table(), s@),
            id == number_of(old(self).table(), s@),
    {
        let ghost table = self.table();
        let mut i: usize = 0;
        while i < self.id_to_str.len()
            invariant
                i <= self.id_to_str.len(),
                table == self.table(),
                table == old(self).table(),
                self.wf(),
                forall|k: int| 0 <= k < i ==> #[trigger] table[k] != s@,
            decreases self.id_to_str.len() - i,
        {
            assert(table[i as int] == self.id_to_str@[i as int]@);
            if crate::text::same_text(self.id_to_str[i].as_str(), s) {
                proof {
                    assert(table.contains(s@));
                    lemma_place(table, s@, i as int);
                }
                return #[verifier::truncate] (i as i32);
            }
            i += 1;
        }
        let id: i32 = #[verifier::truncate] (self.id_to_str.len() as i32);
        assert(!table.contains(s@));
        push(&mut self.id_to_str, s.to_owned());
        assert(self.table().no_duplicates()) by {
            let after = self.table();
            assert forall|i: int, j: int|
                0 <= i < after.len() && 0 <= j < after.len() && i != j implies after[i]
                != after[j] by {
                if i < table.len() && j < table.len() {
                    assert(table[i] != table[j]);
                } else if i < table.len() {
                    assert(table.contains(table[i]));
                } else {
                    assert(table.contains(table[j]));
                }
            }
        }
        id
    }

    /// The number of a text; where it is not there, the one that it would get.
    pub fn number(&self, s: &str) -> (id: i32)
        requires
            self.wf(),
        ensures
            id == number_of(self.table(), s@),
    {
        let ghost table = self.table();
        let mut i: usize = 0;
        while i < self.id_to_str.len()
            invariant
                i <= self.id_to_str.len(),
                table == self.table(),
                self.wf(),
                forall|k: int| 0 <= k < i ==> #[trigger] table[k] != s@,
            decreases self.id_to_str.len() - i,
        {
            assert(table[i as int] == self.id_to_str@[i as int]@);
            if crate::text::same_text(self.id_to_str[i].as_str(), s) {
                proof {
                    assert(table.contains(s@));
                    lemma_place(table, s@, i as int);
                }
                return #[verifier::truncate] (i as i32);
            }
            i += 1;
        }
        assert(!table.contains(s@));
        #[verifier::truncate] (self.id_to_str.len() as i32)
    }

    /// The text under a number.
    pub fn decode(&self, id: i32) -> (s: Option<&str>)
        ensures
            match s {
                Some(s) => text_under(self.table(), id) == Some(s@),
                None => text_under(self.table(), id) is None,
            },
    {
        if id < 0 {
            return None;
        }
        let i: usize = id as usize;
        if i < self.id_to_str.len() {
            assert(self.table()[i as int] == self.id_to_str@[i as int]@);
            Some(self.id_to_str[i].as_str())
        } else {
            None
        }
    }
}

/// A text that was entered is found again under its number, entering it again
/// gives the same number and changes nothing, and entering other texts does not
/// change it; as long as the numbers of the table fit in 32 bits.
pub proof fn law_interned_text_is_found(table: Seq<Seq<char>>, s: Seq<char>, other: Seq<char>)
    requires
        table.no_duplicates(),
        table.len() <= i32::MAX,
    ensures
        text_under(table_with(table, s), number_of(table, s)) == Some(s),
        number_of(table_with(table, s), s) == number_of(table, s),
        table_with(table_with(table, s), s) == table_with(table, s),
        text_under(table_with(table_with(table, s), other), number_of(table, s)) == Some(s),
        table_with(table, s).no_duplicates(),
{
    let after = table_with(table, s);
    if table.contains(s) {
        let i = choose|i: int| 0 <= i < table.len() && table[i] == s;
        lemma_place(table, s, i);
    } else {
        assert(after[table.len() as int] == s);
        assert(after.contains(s));
        assert forall|i: int, j: int|
            0 <= i < after.len() && 0 <= j < after.len() && i != j implies after[i] != after[j] by {
            if i < table.len() && j < table.len() {
                assert(table[i] != table[j]);
            } else if i < table.len() {
                assert(table.contains(table[i]));
            } else {
                assert(table.contains(table[j]));
            }
        }
        lemma_place(after, s, table.len() as int);
    }
}

/// Different texts have different numbers, as long as these fit in 32 bits.
pub proof fn law_numbers_are_distinct(table: Seq<Seq<char>>, a: Seq<char>, b: Seq<char>)
    requires
        table.no_duplicates(),
        table.len() < i32::MAX,
        a != b,
    ensures
        number_of(table, a) != number_of(table_with(table, a), b),
{
    law_interned_text_is_found(table, a, b);
    law_interned_text_is_found(table_with(table, a), b, b);
}

} // verus!
