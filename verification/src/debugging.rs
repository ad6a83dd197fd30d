//! Titles around what is shown for debugging.
use vstd::prelude::*;
use vstd::utf8::{char_is_scalar, encode_scalar, encode_utf8};
use vstd::string::*;

verus! {

/// How many bytes a character takes in UTF-8.
pub open spec fn char_bytes(c: char) -> nat {
    if (c as u32) < 0x80 {
        1
    } else if (c as u32) < 0x800 {
        2
    } else if (c as u32) < 0x10000 {
        3
    } else {
        4
    }
}

/// How many bytes a text takes in UTF-8.
pub open spec fn text_bytes(s: Seq<char>) -> nat
    decreases s.len(),
{
    if s.len() == 0 {
        0
    } else {
        text_bytes(s.drop_last()) + char_bytes(s.last())
    }
}

/// A line of dashes.
pub open spec fn dashes(count: nat) -> Seq<char> {
    Seq::new(count, |i: int| '-')
}

/// How many dashes stand on either side of a title inside a line.
pub const DASH_COUNT: usize = 32;

/// Something below a title: in a line of dashes, or between two lines as long as
/// the title. Without a title it stands alone.
pub open spec fn info_text(title: Seq<char>, sub_title: bool, content: Seq<char>) -> Seq<char> {
    if title.len() == 0 {
        content + "\n"@
    } else if sub_title {
        "\n"@ + dashes(DASH_COUNT as nat) + " "@ + title + " "@ + dashes(DASH_COUNT as nat) + "\n"@
            + content + "\n"@
    } else {
        "\n"@ + dashes(text_bytes(title)) + "\n"@ + title + "\n"@ + dashes(text_bytes(title))
            + "\n"@ + content + "\n"@
    }
}

fn append_dashes(out: &mut String, count: usize)
    ensures
        final(out)@ == old(out)@ + dashes(count as nat),
{
    let ghost before = out@;
    proof {
        reveal_strlit("-");
    }
    assert(before + dashes(0) =~= before);
    let mut i: usize = 0;
    while i < count
        invariant
            i <= count,
            "-"@.len() == 1,
            "-"@[0] == '-',
            out@ == before + dashes(i as nat),
        decreases count - i,
    {
        out.append("-");
        assert(before + dashes(i as nat) + "-"@ =~= before + dashes((i + 1) as nat));
        i += 1;
    }
}

/// Writes dashes, as many as a title takes bytes.
fn append_frame(out: &mut String, title: &str)
    ensures
        final(out)@ == old(out)@ + dashes(text_bytes(title@)),
{
    broadcast use crate::lists::group_take;

    let ghost before = out@;
    let len: usize = title.unicode_len();
    assert(before + dashes(0) =~= before);
    let mut i: usize = 0;
    while i < len
        invariant
            i <= len,
            len == title@.len(),
            out@ == before + dashes(text_bytes(title@.take(i as int))),
        decreases len - i,
    {
        assert(title@.take(i + 1).drop_last() == title@.take(i as int));
        let c = title.get_char(i);
        let bytes: usize = if (c as u32) < 0x80 {
            1
        } else if (c as u32) < 0x800 {
            2
        } else if (c as u32) < 0x10000 {
            3
        } else {
            4
        };
        let ghost so_far = text_bytes(title@.take(i as int));
        append_dashes(out, bytes);
        assert(before + dashes(so_far) + dashes(bytes as nat) =~= before + dashes(
            so_far + bytes as nat,
        ));
        i += 1;
    }
}

/// What is shown below a title.
pub fn display_info(info_title: &str, sub_title: bool, content: &str) -> (out: String)
    ensures
        out@ == info_text(info_title@, sub_title, content@),
{
    if info_title.unicode_len() == 0 {
        let mut out = content.to_owned();
        out.append("\n");
        return out;
    }
    let mut out = "\n".to_owned();
    if sub_title {
        append_dashes(&mut out, DASH_COUNT);
        out.append(" ");
        out.append(info_title);
        out.append(" ");
        append_dashes(&mut out, DASH_COUNT);
    } else {
        append_frame(&mut out, info_title);
        out.append("\n");
        out.append(info_title);
        out.append("\n");
        append_frame(&mut out, info_title);
    }
    out.append("\n");
    out.append(content);
    out.append("\n");
    out
}

/// The frame around a title is as long as the title in bytes of its encoding.
pub proof fn law_titles_are_counted_in_bytes(title: Seq<char>)
    ensures
        text_bytes(title) == encode_utf8(title).len(),
        dashes(text_bytes(title)).len() == encode_utf8(title).len(),
    decreases title.len(),
{
    if title.len() > 0 {
        let rest = title.drop_first();
        law_titles_are_counted_in_bytes(rest);
        lemma_bytes_from_front(title);
        char_is_scalar(title[0]);
        assert(encode_scalar(title[0] as u32).len() == char_bytes(title[0]));
    }
}

proof fn lemma_bytes_from_front(s: Seq<char>)
    requires
        s.len() > 0,
    ensures
        text_bytes(s) == char_bytes(s[0]) + text_bytes(s.drop_first()),
    decreases s.len(),
{
    if s.len() == 1 {
        assert(s.drop_last() =~= Seq::empty());
        assert(s.drop_first() =~= Seq::empty());
        assert(text_bytes(s.drop_last()) == 0);
        assert(text_bytes(s.drop_first()) == 0);
    } else {
        lemma_bytes_from_front(s.drop_last());
        assert(s.drop_first().drop_last() =~= s.drop_last().drop_first());
        assert(s.drop_first().last() == s.last());
    }
}

/// What is shown ends with the content on lines of its own. A title stands before it: in
/// a frame of dashes above and below, or as a subtitle between dashes on one line.
pub proof fn law_content_comes_last(title: Seq<char>, sub_title: bool, content: Seq<char>)
    ensures
        title.len() == 0 ==> info_text(title, sub_title, content) == content + "\n"@,
        title.len() > 0 ==> info_text(title, sub_title, content) == info_text(
            title,
            sub_title,
            Seq::empty(),
        ).drop_last() + content + "\n"@,
        title.len() > 0 && !sub_title ==> info_text(title, sub_title, content) == "\n"@ + dashes(
            encode_utf8(title).len(),
        ) + "\n"@ + title + "\n"@ + dashes(encode_utf8(title).len()) + "\n"@ + content + "\n"@,
        title.len() > 0 && sub_title ==> info_text(title, sub_title, content) == "\n"@ + dashes(
            DASH_COUNT as nat,
        ) + " "@ + title + " "@ + dashes(DASH_COUNT as nat) + "\n"@ + content + "\n"@,
{
    reveal_strlit("\n");
    law_titles_are_counted_in_bytes(title);
    let bare = info_text(title, sub_title, Seq::empty());
    if title.len() > 0 {
        assert(bare.last() == '\n');
        assert(bare.drop_last() + content + "\n"@ =~= info_text(title, sub_title, content));
    }
}

} // verus!
