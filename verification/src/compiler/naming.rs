//! Names of variables and of pairs.
use vstd::prelude::*;
use vstd::string::*;
use crate::text::{law_int_text_injective, nat_text, split_str, split_text, usize_to_text};

verus! {

/// What `char::to_uppercase` gives for a character.
pub uninterp spec fn uppercase_of(c: char) -> Seq<char>;

/// `char::to_uppercase`: the uppercase of a character, one or more characters.
#[verifier::external_body]
fn to_uppercase(c: char) -> (out: String)
    ensures
        out@ == uppercase_of(c),
        out@.len() > 0,
{
    c.to_uppercase().to_string()
}

/// The uppercase of a character. That of the first 128 characters is written out.
pub open spec fn upper(c: char) -> Seq<char> {
    if 'a' <= c <= 'z' {
        seq![((c as u32) - 32) as char]
    } else if (c as u32) < 128 {
        seq![c]
    } else {
        uppercase_of(c)
    }
}

/// A text with its first character in uppercase.
pub open spec fn capitalized(part: Seq<char>) -> Seq<char> {
    if part.len() == 0 {
        part
    } else {
        upper(part[0]) + part.skip(1)
    }
}

/// Parts with their first characters in uppercase, one after the other.
pub open spec fn capitalized_all(parts: Seq<Seq<char>>) -> Seq<char>
    decreases parts.len(),
{
    if parts.len() == 0 {
        Seq::empty()
    } else {
        capitalized_all(parts.drop_last()) + capitalized(parts.last())
    }
}

/// The name of a variable: words joined by underscores are put together, each with
/// its first character in uppercase.
pub open spec fn variable_name(s: Seq<char>) -> Seq<char> {
    capitalized_all(split_text(s, '_'))
}

/// Puts the uppercase of the first character of a text behind another text.
fn append_upper(out: &mut String, part: &str)
    requires
        part@.len() > 0,
    ensures
        final(out)@ == old(out)@ + upper(part@[0]),
{
    let c = part.get_char(0);
    if 'a' <= c && c <= 'z' {
        let letters = "ABCDEFGHIJKLMNOPQRSTUVWXYZ";
        proof {
            reveal_strlit("ABCDEFGHIJKLMNOPQRSTUVWXYZ");
        }
        let k: usize = (c as u32 - 97) as usize;
        let letter = letters.substring_char(k, k + 1);
        assert(letters@[k as int] == ((c as u32) - 32) as char);
        assert(letter@ =~= upper(c));
        out.append(letter);
    } else if (c as u32) < 128 {
        let letter = part.substring_char(0, 1);
        assert(letter@ =~= upper(c));
        out.append(letter);
    } else {
        out.append(to_uppercase(c).as_str());
    }
}

/// The name of a variable for a name that is made of words joined by underscores.
pub fn to_datalog_var(s: &str) -> (out: String)
    ensures
        out@ == variable_name(s@),
{
    broadcast use crate::lists::group_take;

    let parts = split_str(s, '_');
    let ghost model = parts.deep_view();
    let mut out = String::new();
    let mut i: usize = 0;
    while i < parts.len()
        invariant
            i <= parts.len(),
            model == parts.deep_view(),
            out@ == capitalized_all(model.take(i as int)),
        decreases parts.len() - i,
    {
        assert(model.take(i + 1).drop_last() == model.take(i as int));
        assert(model[i as int] == parts@[i as int]@);
        let part = parts[i].as_str();
        let len: usize = part.unicode_len();
        let ghost before = out@;
        if len > 0 {
            append_upper(&mut out, part);
            let rest = part.substring_char(1, len);
            assert(rest@ =~= part@.skip(1));
            out.append(rest);
            assert(out@ =~= before + capitalized(part@));
        } else {
            assert(before + capitalized(part@) =~= before);
        }
        i += 1;
    }
    out
}

/// Whether a text has only characters of the first 128.
pub open spec fn is_ascii(s: Seq<char>) -> bool {
    forall|i: int| 0 <= i < s.len() ==> ((#[trigger] s[i]) as u32) < 128
}

/// Whether every character of a text is among the first 128 and no underscore.
pub open spec fn is_plain(s: Seq<char>) -> bool {
    forall|i: int| 0 <= i < s.len() ==> ((#[trigger] s[i]) as u32) < 128 && s[i] != '_'
}

proof fn lemma_split_plain(s: Seq<char>)
    requires
        is_ascii(s),
    ensures
        split_text(s, '_').len() > 0,
        forall|k: int|
            0 <= k < split_text(s, '_').len() ==> is_plain(#[trigger] split_text(s, '_')[k]),
        is_plain(s) ==> split_text(s, '_') == seq![s],
    decreases s.len(),
{
    if s.len() > 0 {
        let front = s.drop_last();
        assert(is_ascii(front)) by {
            assert forall|i: int| 0 <= i < front.len() implies ((#[trigger] front[i]) as u32) < 128 by {
                assert(front[i] == s[i]);
            }
        }
        lemma_split_plain(front);
        let before = split_text(front, '_');
        let after = split_text(s, '_');
        assert((s[s.len() - 1] as u32) < 128);
        assert forall|k: int| 0 <= k < after.len() implies is_plain(#[trigger] after[k]) by {
            if k < after.len() - 1 {
                assert(after[k] == before[k]);
            } else if s.last() != '_' {
                assert(is_plain(before[before.len() - 1]));
                assert(after[k] == before.last().push(s.last()));
            }
        }
        if is_plain(s) {
            assert(is_plain(front)) by {
                assert forall|i: int| 0 <= i < front.len() implies (
                (#[trigger] front[i]) as u32) < 128 && front[i] != '_' by {
                    assert(front[i] == s[i]);
                }
            }
            assert(s[s.len() - 1] != '_');
            assert(after =~= seq![s]) by {
                assert(front.push(s.last()) =~= s);
            }
        }
    } else {
        assert(s =~= Seq::empty());
    }
}

proof fn lemma_capitalized_plain(part: Seq<char>)
    requires
        is_plain(part),
    ensures
        is_plain(capitalized(part)),
        capitalized(part).len() == part.len(),
        capitalized(capitalized(part)) == capitalized(part),
        part.len() > 0 && 'a' <= part[0] <= 'z' ==> 'A' <= capitalized(part)[0] <= 'Z',
{
    if part.len() > 0 {
        let c = part[0];
        let all = capitalized(part);
        assert((c as u32) < 128 && c != '_');
        assert(all[0] == upper(c)[0]);
        assert forall|i: int| 0 <= i < all.len() implies ((#[trigger] all[i]) as u32) < 128 && all[i]
            != '_' by {
            if i > 0 {
                assert(all[i] == part[i]);
            }
        }
        assert(upper(all[0]) =~= seq![all[0]]);
        assert(capitalized(all) =~= all);
    }
}

proof fn lemma_all_plain(parts: Seq<Seq<char>>)
    requires
        forall|k: int| 0 <= k < parts.len() ==> is_plain(#[trigger] parts[k]),
    ensures
        is_plain(capitalized_all(parts)),
        capitalized(capitalized_all(parts)) == capitalized_all(parts),
        parts.len() > 0 && parts[0].len() > 0 ==> capitalized_all(parts).len() > 0
            && capitalized_all(parts)[0] == capitalized(parts[0])[0],
    decreases parts.len(),
{
    if parts.len() > 0 {
        let front = parts.drop_last();
        assert forall|k: int| 0 <= k < front.len() implies is_plain(#[trigger] front[k]) by {
            assert(front[k] == parts[k]);
        }
        lemma_all_plain(front);
        assert(is_plain(parts[parts.len() - 1]));
        lemma_capitalized_plain(parts.last());
        let a = capitalized_all(front);
        let b = capitalized(parts.last());
        let all = a + b;
        assert forall|i: int| 0 <= i < all.len() implies ((#[trigger] all[i]) as u32) < 128 && all[i]
            != '_' by {
            if i < a.len() {
                assert(all[i] == a[i]);
            } else {
                assert(all[i] == b[i - a.len()]);
            }
        }
        if a.len() > 0 {
            assert(all[0] == a[0]);
            assert(capitalized(a)[0] == a[0]);
            assert(upper(a[0])[0] == a[0]);
            assert((a[0] as u32) < 128);
            assert(capitalized(all) =~= all);
        } else {
            assert(all =~= b);
        }
        if parts[0].len() > 0 {
            if front.len() > 0 {
                assert(front[0] == parts[0]);
            } else {
                assert(a =~= Seq::empty());
                assert(all =~= b);
            }
        }
    }
}

/// The name of a variable has no underscore and is its own name of a variable. If
/// it is made for a name that starts with a small letter, it is not empty and
/// starts with a capital letter.
pub proof fn law_variable_names(s: Seq<char>)
    requires
        is_ascii(s),
    ensures
        is_plain(variable_name(s)),
        variable_name(variable_name(s)) == variable_name(s),
        s.len() > 0 && 'a' <= s[0] <= 'z' ==> variable_name(s).len() > 0 && 'A'
            <= variable_name(s)[0] <= 'Z',
{
    let parts = split_text(s, '_');
    lemma_split_plain(s);
    lemma_all_plain(parts);
    let name = variable_name(s);
    assert(is_ascii(name)) by {
        assert forall|i: int| 0 <= i < name.len() implies ((#[trigger] name[i]) as u32) < 128 by {}
    }
    lemma_split_plain(name);
    assert(capitalized_all(seq![name]) == capitalized(name)) by {
        assert(seq![name].drop_last() =~= Seq::empty());
        assert(capitalized_all(Seq::empty()) =~= Seq::empty());
        assert(capitalized_all(seq![name]) =~= capitalized(name));
    }
    if s.len() > 0 && 'a' <= s[0] <= 'z' {
        lemma_first_part(s);
        lemma_capitalized_plain(parts[0]);
    }
}

proof fn lemma_first_part(s: Seq<char>)
    requires
        s.len() > 0,
        s[0] != '_',
    ensures
        split_text(s, '_').len() > 0,
        split_text(s, '_')[0].len() > 0,
        split_text(s, '_')[0][0] == s[0],
    decreases s.len(),
{
    let front = s.drop_last();
    let after = split_text(s, '_');
    if front.len() > 0 {
        assert(front[0] == s[0]);
        lemma_first_part(front);
        let before = split_text(front, '_');
        if s.last() == '_' {
            assert(after[0] == before[0]);
        } else if before.len() == 1 {
            assert(after[0] == before[0].push(s.last()));
        } else {
            assert(after[0] == before[0]);
        }
    } else {
        assert(split_text(front, '_') =~= seq![Seq::empty()]);
        assert(after[0] == Seq::<char>::empty().push(s.last()));
    }
}

/// A name for a pair of names.
pub open spec fn pair_name(a: Seq<char>, b: Seq<char>) -> Seq<char> {
    nat_text(a.len()) + " "@ + a + b
}

pub fn name_pair(a: &str, b: &str) -> (out: String)
    ensures
        out@ == pair_name(a@, b@),
{
    let mut out = usize_to_text(a.unicode_len());
    out.append(" ");
    out.append(a);
    out.append(b);
    out
}

proof fn lemma_no_space(n: nat)
    ensures
        forall|i: int| 0 <= i < nat_text(n).len() ==> #[trigger] nat_text(n)[i] != ' ',
    decreases n,
{
    if n >= 10 {
        lemma_no_space(n / 10);
        let front = nat_text(n / 10);
        assert forall|i: int| 0 <= i < nat_text(n).len() implies #[trigger] nat_text(n)[i] != ' ' by {
            if i < front.len() {
                assert(nat_text(n)[i] == front[i]);
            }
        }
    }
}

/// Different pairs have different names.
pub proof fn law_pair_names_differ(a: Seq<char>, b: Seq<char>, c: Seq<char>, d: Seq<char>)
    requires
        pair_name(a, b) == pair_name(c, d),
    ensures
        a == c,
        b == d,
{
    reveal_strlit(" ");
    let x = nat_text(a.len());
    let y = nat_text(c.len());
    let s = pair_name(a, b);
    lemma_no_space(a.len());
    lemma_no_space(c.len());
    assert(s[x.len() as int] == ' ');
    assert(pair_name(c, d)[y.len() as int] == ' ');
    if x.len() < y.len() {
        assert(pair_name(c, d)[x.len() as int] == y[x.len() as int]);
    }
    if y.len() < x.len() {
        assert(s[y.len() as int] == x[y.len() as int]);
    }
    assert(x =~= y) by {
        assert forall|i: int| 0 <= i < x.len() implies x[i] == y[i] by {
            assert(s[i] == x[i]);
            assert(pair_name(c, d)[i] == y[i]);
        }
    }
    law_int_text_injective(a.len() as int, c.len() as int);
    let start = (x.len() + 1) as int;
    assert(a =~= c) by {
        assert forall|i: int| 0 <= i < a.len() implies a[i] == c[i] by {
            assert(s[start + i] == a[i]);
            assert(pair_name(c, d)[start + i] == c[i]);
        }
    }
    assert(s.len() == x.len() + 1 + a.len() + b.len());
    assert(pair_name(c, d).len() == y.len() + 1 + c.len() + d.len());
    assert(b =~= d) by {
        assert forall|i: int| 0 <= i < b.len() implies b[i] == d[i] by {
            assert(s[start + a.len() + i] == b[i]);
            assert(pair_name(c, d)[start + a.len() + i] == d[i]);
        }
    }
}

} // verus!
