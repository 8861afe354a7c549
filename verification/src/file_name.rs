//! The name of a chunk's backing file.

use crate::math::IVec2;
use crate::text::{digit, int_text, nat_text};
use vstd::prelude::*;
use vstd::string::StringExecFns;

verus! {

/// The bytes `bytes` as characters, one for one.
pub open spec fn as_chars(bytes: Seq<u8>) -> Seq<char> {
    Seq::new(bytes.len(), |i: int| bytes[i] as char)
}

/// The name of the backing file of the chunk at `index`: the folder
/// `world`, then the two coordinates with `_` between them, then `.ron`.
pub open spec fn file_name_spec(index: IVec2) -> Seq<char> {
    "world/"@ + as_chars(int_text(index.x as int)) + "_"@ + as_chars(int_text(index.y as int))
        + ".ron"@
}

/// The decimal digit `d` as text.
fn digit_str(d: u8) -> (s: &'static str)
    requires
        d < 10,
    ensures
        s@ == as_chars(seq![digit(d as int)]),
{
    proof {
        reveal_strlit("0");
        reveal_strlit("1");
        reveal_strlit("2");
        reveal_strlit("3");
        reveal_strlit("4");
        reveal_strlit("5");
        reveal_strlit("6");
        reveal_strlit("7");
        reveal_strlit("8");
        reveal_strlit("9");
    }
    let s = match d {
        0 => "0",
        1 => "1",
        2 => "2",
        3 => "3",
        4 => "4",
        5 => "5",
        6 => "6",
        7 => "7",
        8 => "8",
        _ => "9",
    };
    assert(s@ =~= as_chars(seq![digit(d as int)]));
    s
}

/// Writes the decimal text of `n` at the end of `out`.
fn append_nat(out: &mut String, n: u64)
    ensures
        final(out)@ == old(out)@ + as_chars(nat_text(n as nat)),
    decreases n,
{
    if n >= 10 {
        append_nat(out, n / 10);
    }
    out.append(digit_str((n % 10) as u8));
    assert(final(out)@ =~= old(out)@ + as_chars(nat_text(n as nat)));
}

/// Writes the decimal text of `v` at the end of `out`.
fn append_int(out: &mut String, v: i32)
    ensures
        final(out)@ == old(out)@ + as_chars(int_text(v as int)),
{
    if v < 0 {
        proof {
            reveal_strlit("-");
        }
        out.append("-");
        let n: u64 = (-(v as i64)) as u64;
        append_nat(out, n);
        assert(final(out)@ =~= old(out)@ + as_chars(int_text(v as int)));
    } else {
        append_nat(out, v as u64);
    }
}

/// Names the backing file of the chunk at `index`.
pub fn file_name(index: IVec2) -> (name: String)
    ensures
        name@ == file_name_spec(index),
{
    let mut name = String::from_str("world/");
    append_int(&mut name, index.x);
    name.append("_");
    append_int(&mut name, index.y);
    name.append(".ron");
    name
}

/// Two chunks have the same backing file only if they are the same chunk.
pub proof fn lemma_file_name_injective(a: IVec2, b: IVec2)
    requires
        file_name_spec(a) == file_name_spec(b),
    ensures
        a == b,
{
    reveal_strlit("world/");
    reveal_strlit("_");
    reveal_strlit(".ron");
    let ax = int_text(a.x as int);
    let ay = int_text(a.y as int);
    let bx = int_text(b.x as int);
    let by = int_text(b.y as int);
    let under = seq!['_' as u8];
    let ext = seq!['.' as u8, 'r' as u8, 'o' as u8, 'n' as u8];
    let head = seq!['w' as u8, 'o' as u8, 'r' as u8, 'l' as u8, 'd' as u8, '/' as u8];
    let whole_a = head + (ax + (under + (ay + ext)));
    let whole_b = head + (bx + (under + (by + ext)));
    assert(as_chars(whole_a) =~= file_name_spec(a));
    assert(as_chars(whole_b) =~= file_name_spec(b));
    assert(whole_a =~= whole_b) by {
        assert(whole_a.len() == as_chars(whole_a).len());
        assert(whole_b.len() == as_chars(whole_b).len());
        assert forall|i: int| 0 <= i < whole_a.len() implies whole_a[i] == whole_b[i] by {
            assert(as_chars(whole_a)[i] == as_chars(whole_b)[i]);
            assert(whole_a[i] as char == whole_b[i] as char);
        }
    }
    let rest_a = ax + (under + (ay + ext));
    let rest_b = bx + (under + (by + ext));
    assert(whole_a.subrange(head.len() as int, whole_a.len() as int) =~= rest_a);
    assert(whole_b.subrange(head.len() as int, whole_b.len() as int) =~= rest_b);
    assert((under + (ay + ext))[0] == '_' as u8);
    assert((under + (by + ext))[0] == '_' as u8);
    crate::text::lemma_int_text_unique(a.x as int, under + (ay + ext), b.x as int, under + (by + ext));
    let tail_a = ay + ext;
    let tail_b = by + ext;
    assert((under + tail_a).subrange(1, (under + tail_a).len() as int) =~= tail_a);
    assert((under + tail_b).subrange(1, (under + tail_b).len() as int) =~= tail_b);
    assert(ext[0] == '.' as u8);
    crate::text::lemma_int_text_unique(a.y as int, ext, b.y as int, ext);
}

} // verus!
