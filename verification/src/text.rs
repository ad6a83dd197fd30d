//! Text as sequences of characters: decimal numbers, joining, equality.
use vstd::prelude::*;
use vstd::string::*;
use crate::lists::{empty, group_take, lemma_push_drop, push};

verus! {

/// The decimal digit `d` as a character.
pub open spec fn digit(d: int) -> char {
    (d + 48) as char
}

/// A natural number in decimal, without leading zeros.
pub open spec fn nat_text(n: nat) -> Seq<char>
    decreases n,
{
    if n < 10 {
        seq![digit(n as int)]
    } else {
        nat_text(n / 10).push(digit((n % 10) as int))
    }
}

/// An integer in decimal, with `-` in front of a negative one.
pub open spec fn int_text(i: int) -> Seq<char> {
    if i < 0 {
        seq!['-'] + nat_text((-i) as nat)
    } else {
        nat_text(i as nat)
    }
}

/// `parts` one after the other with `separator` between neighbours.
pub open spec fn join_text(parts: Seq<Seq<char>>, separator: Seq<char>) -> Seq<char>
    decreases parts.len(),
{
    if parts.len() == 0 {
        Seq::empty()
    } else if parts.len() == 1 {
        parts[0]
    } else {
        join_text(parts.drop_last(), separator) + separator + parts.last()
    }
}

/// The parts of a text between separators.
pub open spec fn split_text(s: Seq<char>, separator: char) -> Seq<Seq<char>>
    decreases s.len(),
{
    if s.len() == 0 {
        seq![Seq::empty()]
    } else {
        let front = split_text(s.drop_last(), separator);
        if s.last() == separator {
            front.push(Seq::empty())
        } else {
            front.drop_last().push(front.last().push(s.last()))
        }
    }
}

pub open spec fn is_digit(c: char) -> bool {
    '0' <= c <= '9'
}

pub open spec fn all_digits(s: Seq<char>) -> bool {
    forall|i: int| 0 <= i < s.len() ==> is_digit(#[trigger] s[i])
}

/// The number that a sequence of decimal digits denotes.
pub open spec fn digits_value(s: Seq<char>) -> nat
    decreases s.len(),
{
    if s.len() == 0 {
        0
    } else {
        digits_value(s.drop_last()) * 10 + (s.last() as nat - 48) as nat
    }
}

/// The integer that a text denotes: one or more digits with an optional sign.
pub open spec fn int_value(s: Seq<char>) -> Option<int> {
    let signed = s.len() > 0 && (s[0] == '-' || s[0] == '+');
    let digits = if signed { s.subrange(1, s.len() as int) } else { s };
    if digits.len() == 0 || !all_digits(digits) {
        None
    } else if signed && s[0] == '-' {
        Some(-(digits_value(digits) as int))
    } else {
        Some(digits_value(digits) as int)
    }
}

/// The value of a text as a 32 bit integer, where it has one.
pub open spec fn i32_value(s: Seq<char>) -> Option<i32> {
    match int_value(s) {
        Some(v) if i32::MIN <= v <= i32::MAX => Some(v as i32),
        _ => None,
    }
}

/// A model that has a written form.
pub trait Written: Sized {
    spec fn text(self) -> Seq<char>;
}

/// The written forms of all items, in order.
pub open spec fn texts<M: Written>(items: Seq<M>) -> Seq<Seq<char>> {
    Seq::new(items.len(), |i: int| items[i].text())
}

/// A value that can be written out as its model says.
pub trait Render: DeepView where <Self as DeepView>::V: Written {
    fn to_string(&self) -> (out: String)
        ensures
            out@ == self.deep_view().text(),
    ;
}

/// Writes out all items.
pub fn render_all<T: Render>(items: &Vec<T>) -> (out: Vec<String>) where <T as DeepView>::V: Written
    ensures
        out.deep_view() == texts(items.deep_view()),
{
    let mut out: Vec<String> = Vec::new();
    let mut i: usize = 0;
    while i < items.len()
        invariant
            i <= items.len(),
            out.len() == i,
            forall|k: int| 0 <= k < i ==> (#[trigger] out[k])@ == items.deep_view()[k].text(),
        decreases items.len() - i,
    {
        out.push(items[i].to_string());
        i += 1;
    }
    assert(out.deep_view() =~= texts(items.deep_view()));
    out
}

/// Whether two texts are the same.
pub fn same_text(a: &str, b: &str) -> (same: bool)
    ensures
        same == (a@ == b@),
{
    a.to_owned() == b.to_owned()
}

/// Whether `list` holds `item`.
pub fn contains_text(list: &Vec<String>, item: &str) -> (found: bool)
    ensures
        found == list.deep_view().contains(item@),
{
    let mut i: usize = 0;
    while i < list.len()
        invariant
            i <= list.len(),
            forall|k: int| 0 <= k < i ==> list.deep_view()[k] != item@,
        decreases list.len() - i,
    {
        if same_text(list[i].as_str(), item) {
            assert(list.deep_view()[i as int] == item@);
            return true;
        }
        i += 1;
    }
    false
}

/// Appends one decimal digit.
pub fn push_digit(out: &mut String, d: u64)
    requires
        d < 10,
    ensures
        final(out)@ == old(out)@.push(digit(d as int)),
{
    let s: &str = if d == 0 {
        "0"
    } else if d == 1 {
        "1"
    } else if d == 2 {
        "2"
    } else if d == 3 {
        "3"
    } else if d == 4 {
        "4"
    } else if d == 5 {
        "5"
    } else if d == 6 {
        "6"
    } else if d == 7 {
        "7"
    } else if d == 8 {
        "8"
    } else {
        "9"
    };
    proof {
        reveal_strlit("0");
        reveal_strlit("1");
        reveal_strlit("2");
        reveal_strlit("3");
        reveal_strlit("4");
        reveal_strlit("5");
        reveal_strlit("6");
        reveal_strlit("7");
        reveal_strlit("8");
        reveal_strlit("9");
    }
    assert(s@ =~= seq![digit(d as int)]);
    let ghost before = out@;
    out.append(s);
    assert(out@ =~= before.push(digit(d as int)));
}

fn append_nat(out: &mut String, n: u64)
    ensures
        final(out)@ == old(out)@ + nat_text(n as nat),
    decreases n,
{
    let ghost before = out@;
    if n >= 10 {
        append_nat(out, n / 10);
        push_digit(out, n % 10);
        assert(out@ =~= before + nat_text(n as nat));
    } else {
        push_digit(out, n);
        assert(out@ =~= before + nat_text(n as nat));
    }
}

/// `n` in decimal.
pub fn usize_to_text(n: usize) -> (out: String)
    ensures
        out@ == nat_text(n as nat),
{
    let mut out = String::new();
    append_nat(&mut out, n as u64);
    assert(out@ =~= nat_text(n as nat));
    out
}

/// `n` in decimal.
pub fn u64_to_text(n: u64) -> (out: String)
    ensures
        out@ == nat_text(n as nat),
{
    let mut out = String::new();
    append_nat(&mut out, n);
    assert(out@ =~= nat_text(n as nat));
    out
}

/// `n` in decimal.
pub fn i64_to_text(n: i64) -> (out: String)
    ensures
        out@ == int_text(n as int),
{
    let mut out = String::new();
    if n < 0 {
        proof {
            reveal_strlit("-");
        }
        out.append("-");
        append_nat(&mut out, (-(n as i128)) as u64);
    } else {
        append_nat(&mut out, n as u64);
    }
    assert(out@ =~= int_text(n as int));
    out
}

/// `n` in decimal.
pub fn i32_to_text(n: i32) -> (out: String)
    ensures
        out@ == int_text(n as int),
{
    let mut out = String::new();
    if n < 0 {
        proof {
            reveal_strlit("-");
        }
        out.append("-");
        append_nat(&mut out, (-(n as i64)) as u64);
    } else {
        append_nat(&mut out, n as u64);
    }
    assert(out@ =~= int_text(n as int));
    out
}

/// `parts` one after the other with `separator` between neighbours.
pub fn join(parts: &Vec<String>, separator: &str) -> (out: String)
    ensures
        out@ == join_text(parts.deep_view(), separator@),
{
    broadcast use group_take;

    let mut out = String::new();
    let mut i: usize = 0;
    while i < parts.len()
        invariant
            i <= parts.len(),
            out@ == join_text(parts.deep_view().take(i as int), separator@),
        decreases parts.len() - i,
    {
        let ghost model = parts.deep_view();
        assert(model.take(i + 1).drop_last() == model.take(i as int));
        let ghost before = out@;
        if i > 0 {
            out.append(separator);
        }
        out.append(parts[i].as_str());
        if i == 0 {
            assert(before =~= Seq::empty());
            assert(model.take(1)[0] == model[0]);
        }
        assert(out@ =~= join_text(model.take(i + 1), separator@));
        i += 1;
    }
    out
}

pub proof fn lemma_split_pieces(s: Seq<char>, separator: char)
    ensures
        split_text(s, separator).len() > 0,
    decreases s.len(),
{
    if s.len() > 0 {
        lemma_split_pieces(s.drop_last(), separator);
    }
}

/// Cuts a text into the parts between separators.
pub fn split_str(s: &str, separator: char) -> (parts: Vec<String>)
    ensures
        parts.deep_view() == split_text(s@, separator),
{
    broadcast use group_take;

    let len: usize = s.unicode_len();
    let mut parts: Vec<String> = empty();
    let mut start: usize = 0;
    let mut i: usize = 0;
    assert(parts.deep_view().push(s@.subrange(0, 0)) =~= seq![Seq::empty()]);
    while i < len
        invariant
            start <= i <= len,
            len == s@.len(),
            parts.deep_view().push(s@.subrange(start as int, i as int)) == split_text(
                s@.take(i as int),
                separator,
            ),
        decreases len - i,
    {
        let ghost before = parts.deep_view().push(s@.subrange(start as int, i as int));
        assert(s@.take(i + 1).drop_last() == s@.take(i as int));
        if s.get_char(i) == separator {
            push(&mut parts, s.substring_char(start, i).to_owned());
            start = i + 1;
            assert(s@.subrange(start as int, i + 1) =~= Seq::empty());
            assert(parts.deep_view().push(s@.subrange(start as int, i + 1)) =~= before.push(
                Seq::empty(),
            ));
        } else {
            assert(s@.subrange(start as int, i + 1) =~= before.last().push(s@[i as int]));
            assert(parts.deep_view().push(s@.subrange(start as int, i + 1))
                =~= before.drop_last().push(before.last().push(s@[i as int])));
        }
        i += 1;
    }
    push(&mut parts, s.substring_char(start, len).to_owned());
    parts
}

/// The 32 bit integer that `s` denotes, where it denotes one.
pub fn parse_i32(s: &str) -> (value: Option<i32>)
    ensures
        value == i32_value(s@),
{
    broadcast use group_take;

    let len: usize = s.unicode_len();
    if len == 0 {
        return None;
    }
    let first = s.get_char(0);
    let signed = first == '-' || first == '+';
    let start: usize = if signed { 1 } else { 0 };
    let ghost digits = if signed { s@.subrange(1, s@.len() as int) } else { s@ };
    assert(digits =~= s@.subrange(start as int, len as int));
    let mut value: i64 = 0;
    let mut i: usize = start;
    if start == len {
        return None;
    }
    while i < len
        invariant
            start <= i <= len,
            start <= 1,
            len == s@.len(),
            digits == s@.subrange(start as int, len as int),
            digits == (if signed { s@.subrange(1, s@.len() as int) } else { s@ }),
            signed == (s@[0] == '-' || s@[0] == '+'),
            len > 0,
            all_digits(digits.take(i - start)),
            digits_value(digits.take(i - start)) <= 2147483648 ==> value == digits_value(digits.take(i - start)),
            digits_value(digits.take(i - start)) > 2147483648 ==> value == 2147483649,
            0 <= value <= 2147483649,
        decreases len - i,
    {
        let c = s.get_char(i);
        assert(c == digits[i - start]);
        if c < '0' || c > '9' {
            assert(!all_digits(digits)) by {
                assert(!is_digit(digits[i - start]));
            }
            return None;
        }
        let d: i64 = (c as u32 - 48) as i64;
        assert(digits.take(i - start + 1).drop_last() == digits.take(i - start));
        assert(digits.take(i - start + 1).last() == c);
        value = value * 10 + d;
        if value > 2147483648 {
            value = 2147483649;
        }
        i += 1;
    }
    assert(digits.take(i - start) == digits);
    assert(digits.len() > 0);
    assert(int_value(s@) is Some);
    if first == '-' {
        let v: i64 = -value;
        if v >= -2147483648 {
            Some(v as i32)
        } else {
            None
        }
    } else if value <= 2147483647 {
        Some(value as i32)
    } else {
        None
    }
}

pub proof fn lemma_nat_text_digits(n: nat)
    ensures
        all_digits(nat_text(n)),
        nat_text(n).len() > 0,
        digits_value(nat_text(n)) == n,
    decreases n,
{
    broadcast use lemma_push_drop;

    if n < 10 {
        assert(nat_text(n).drop_last() =~= Seq::empty());
        assert(digits_value(nat_text(n).drop_last()) == 0);
    } else {
        lemma_nat_text_digits(n / 10);
        let shorter = nat_text(n / 10);
        assert(nat_text(n) == shorter.push(digit((n % 10) as int)));
    }
}

/// Reading a written integer gives that integer back.
pub proof fn law_int_text_round_trip(i: int)
    ensures
        int_value(int_text(i)) == Some(i),
{
    if i < 0 {
        lemma_nat_text_digits((-i) as nat);
        let s = int_text(i);
        assert(s.subrange(1, s.len() as int) =~= nat_text((-i) as nat));
    } else {
        lemma_nat_text_digits(i as nat);
        assert(is_digit(nat_text(i as nat)[0]));
    }
}

/// Writing a 32 bit integer and reading it back gives the integer.
pub proof fn law_i32_text_round_trip(i: i32)
    ensures
        i32_value(int_text(i as int)) == Some(i),
{
    law_int_text_round_trip(i as int);
}

/// A number is written digit by digit, the last one behind what is written of the others,
/// and a negative one with a minus in front of its opposite.
pub proof fn law_numbers_are_written(n: nat, d: nat)
    requires
        d < 10,
    ensures
        int_text(d as int) == seq![('0' as int + d) as char],
        n > 0 ==> int_text((10 * n + d) as int) == int_text(n as int) + int_text(d as int),
        n > 0 ==> int_text(-n) == seq!['-'] + int_text(n as int),
{
    if n > 0 {
        assert((10 * n + d) / 10 == n);
        assert((10 * n + d) % 10 == d);
        assert(int_text((10 * n + d) as int) =~= int_text(n as int) + int_text(d as int));
    }
}

/// Different integers are written differently.
pub proof fn law_int_text_injective(i: int, j: int)
    requires
        int_text(i) == int_text(j),
    ensures
        i == j,
{
    law_int_text_round_trip(i);
    law_int_text_round_trip(j);
}

/// A numeral is read digit by digit: one more digit makes it ten times as much and the
/// digit. A minus in front turns the number around, and a plus does not change it.
pub proof fn law_numerals(s: Seq<char>, d: char)
    requires
        s.len() > 0,
        forall|i: int| 0 <= i < s.len() ==> '0' <= #[trigger] s[i] <= '9',
        '0' <= d <= '9',
    ensures
        int_value(seq![d]) == Some(d as int - '0' as int),
        int_value(s) matches Some(v) && v >= 0 && int_value(s.push(d)) == Some(
            10 * v + (d as int - '0' as int),
        ) && int_value(seq!['-'] + s) == Some(-v) && int_value(seq!['+'] + s) == Some(v),
{
    let more = s.push(d);
    let minus = seq!['-'] + s;
    let plus = seq!['+'] + s;
    assert('0' <= s[0] <= '9');
    assert(more[0] == s[0]);
    assert(more.drop_last() =~= s);
    assert forall|i: int| 0 <= i < more.len() implies is_digit(#[trigger] more[i]) by {
        if i < s.len() {
            assert('0' <= s[i] <= '9');
        }
    }
    assert(minus.subrange(1, minus.len() as int) =~= s);
    assert(plus.subrange(1, plus.len() as int) =~= s);
    assert(seq![d].drop_last() =~= Seq::empty());
    assert(digits_value(seq![d].drop_last()) == 0);
    assert forall|i: int| 0 <= i < seq![d].len() implies is_digit(#[trigger] seq![d][i]) by {}
}

/// Only numerals denote integers: one or more digits, with at most one sign in front.
pub proof fn law_only_numerals(s: Seq<char>)
    ensures
        int_value(s) is Some ==> s.len() > 0 && '0' <= s.last() <= '9' && ('0' <= s[0] <= '9'
            || s[0] == '-' || s[0] == '+') && forall|i: int|
            0 < i < s.len() ==> '0' <= #[trigger] s[i] <= '9',
{
    if int_value(s) is Some && (s[0] == '-' || s[0] == '+') {
        let digits = s.subrange(1, s.len() as int);
        assert forall|i: int| 0 < i < s.len() implies '0' <= #[trigger] s[i] <= '9' by {
            assert(digits[i - 1] == s[i]);
        }
        assert(s[s.len() - 1] == s.last());
    } else if int_value(s) is Some {
        assert(is_digit(s[0]));
        assert(is_digit(s[s.len() - 1]));
    }
}

/// A separator stands between neighbours and nowhere else: parts that are joined in two
/// lots are joined by one more separator between the lots.
pub proof fn law_joined_lots(a: Seq<Seq<char>>, b: Seq<Seq<char>>, separator: Seq<char>)
    requires
        a.len() > 0,
        b.len() > 0,
    ensures
        join_text(Seq::empty(), separator) == Seq::<char>::empty(),
        a.len() == 1 ==> join_text(a, separator) == a[0],
        join_text(a + b, separator) == join_text(a, separator) + separator + join_text(
            b,
            separator,
        ),
    decreases b.len(),
{
    assert((a + b).drop_last() =~= a + b.drop_last());
    assert((a + b).last() == b.last());
    if b.len() == 1 {
        assert((a + b).drop_last() =~= a);
    } else {
        law_joined_lots(a, b.drop_last(), separator);
        assert(join_text(a + b, separator) =~= join_text(a, separator) + separator + join_text(
            b,
            separator,
        ));
    }
}

/// A text without a separator is one part, and a separator between texts is where their
/// parts part.
pub proof fn law_parts_part_at_separators(a: Seq<char>, b: Seq<char>, separator: char)
    ensures
        !a.contains(separator) ==> split_text(a, separator) == seq![a],
        split_text(a.push(separator) + b, separator) == split_text(a, separator) + split_text(
            b,
            separator,
        ),
    decreases b.len(),
{
    if !a.contains(separator) {
        lemma_split_whole(Seq::empty(), a, separator);
        assert(Seq::<char>::empty() + a =~= a);
        assert(split_text(a, separator) =~= seq![a]);
    }
    let all = a.push(separator) + b;
    let first = split_text(a, separator);
    if b.len() == 0 {
        assert(all =~= a.push(separator));
        assert(all.drop_last() =~= a);
        assert(split_text(all, separator) =~= first + split_text(b, separator));
    } else {
        let front = b.drop_last();
        law_parts_part_at_separators(a, front, separator);
        lemma_split_pieces(front, separator);
        assert(all.drop_last() =~= a.push(separator) + front);
        let second = split_text(front, separator);
        assert((first + second).last() == second.last());
        assert(split_text(all, separator) =~= first + split_text(b, separator));
    }
}

/// Parts that do not hold the separator are found again where they are joined by
/// it.
pub proof fn law_split_undoes_join(parts: Seq<Seq<char>>, separator: char)
    requires
        parts.len() > 0,
        forall|i: int| 0 <= i < parts.len() ==> !(#[trigger] parts[i]).contains(separator),
    ensures
        split_text(join_text(parts, seq![separator]), separator) == parts,
    decreases parts.len(),
{
    if parts.len() == 1 {
        lemma_split_whole(Seq::empty(), parts[0], separator);
        assert(Seq::<char>::empty() + parts[0] =~= parts[0]);
        assert(split_text(Seq::<char>::empty(), separator) =~= seq![Seq::empty()]);
        assert(split_text(parts[0], separator) =~= parts);
    } else {
        let front = parts.drop_last();
        assert forall|i: int| 0 <= i < front.len() implies !(#[trigger] front[i]).contains(
            separator,
        ) by {
            assert(front[i] == parts[i]);
        }
        law_split_undoes_join(front, separator);
        let start = join_text(front, seq![separator]);
        let next = start + seq![separator];
        assert(next.drop_last() =~= start);
        assert(split_text(next, separator) == front.push(Seq::empty()));
        lemma_split_whole(next, parts.last(), separator);
        assert(front.push(Seq::empty()).drop_last() =~= front);
        assert(Seq::<char>::empty() + parts.last() =~= parts.last());
        assert(front.push(parts.last()) =~= parts);
    }
}

/// A text without separators goes to the end of the last part.
pub proof fn lemma_split_whole(start: Seq<char>, s: Seq<char>, separator: char)
    requires
        !s.contains(separator),
    ensures
        split_text(start + s, separator) == split_text(start, separator).drop_last().push(
            split_text(start, separator).last() + s,
        ),
    decreases s.len(),
{
    lemma_split_pieces(start, separator);
    let before = split_text(start, separator);
    if s.len() == 0 {
        assert(start + s =~= start);
        assert(before.last() + s =~= before.last());
        assert(before.drop_last().push(before.last()) =~= before);
    } else {
        let shorter = s.drop_last();
        assert forall|k: int| 0 <= k < shorter.len() implies shorter[k] != separator by {
            assert(s.contains(s[k]));
        }
        lemma_split_whole(start, shorter, separator);
        assert(s.contains(s.last()));
        assert((start + s).drop_last() =~= start + shorter);
        assert((start + s).last() == s.last());
        let middle = split_text(start + shorter, separator);
        assert(middle.drop_last() =~= before.drop_last());
        assert(middle.last().push(s.last()) =~= before.last() + s);
    }
}

/// The characters of a written integer are digits and a sign.
pub proof fn lemma_int_text_chars(i: int, c: char)
    requires
        int_text(i).contains(c),
    ensures
        is_digit(c) || c == '-',
{
    let n = if i < 0 { (-i) as nat } else { i as nat };
    lemma_nat_text_digits(n);
    let k = int_text(i).index_of(c);
    assert(int_text(i)[k] == c);
    if i < 0 && k > 0 {
        assert(nat_text(n)[k - 1] == c);
    }
}

} // verus!
