//! The on-disk form of a list: UTF-8 text, one item per line.
//!
//! Reading splits the bytes into lines the way `BufRead::lines` does: each
//! line ends at a `\n`, which is dropped together with a `\r` just before it;
//! a last line without `\n` counts only when it is not empty. A line that is
//! not valid UTF-8 is skipped. Writing puts each item on a line of its own.

use vstd::prelude::*;
use vstd::utf8::*;

verus! {

/// A line without the `\r` that ended it, if any.
pub open spec fn strip_cr(l: Seq<u8>) -> Seq<u8> {
    if l.len() > 0 && l.last() == 13u8 {
        l.drop_last()
    } else {
        l
    }
}

/// The lines ended so far, and the bytes of the line under way.
pub open spec fn lines_acc(b: Seq<u8>) -> (Seq<Seq<u8>>, Seq<u8>)
    decreases b.len(),
{
    if b.len() == 0 {
        (seq![], seq![])
    } else {
        let (ls, cur) = lines_acc(b.drop_last());
        if b.last() == 10u8 {
            (ls.push(strip_cr(cur)), seq![])
        } else {
            (ls, cur.push(b.last()))
        }
    }
}

/// The raw lines of a file's bytes.
pub open spec fn lines_of(b: Seq<u8>) -> Seq<Seq<u8>> {
    let (ls, cur) = lines_acc(b);
    if cur.len() > 0 {
        ls.push(cur)
    } else {
        ls
    }
}

/// The lines that are valid UTF-8, decoded, in order.
pub open spec fn decoded(ls: Seq<Seq<u8>>) -> Seq<Seq<char>>
    decreases ls.len(),
{
    if ls.len() == 0 {
        seq![]
    } else if valid_utf8(ls.last()) {
        decoded(ls.drop_last()).push(decode_utf8(ls.last()))
    } else {
        decoded(ls.drop_last())
    }
}

/// The items that a file's bytes hold, in file order.
pub open spec fn loaded_items(b: Seq<u8>) -> Seq<Seq<char>> {
    decoded(lines_of(b))
}

/// The bytes of a file that holds `items`, each on a line of its own.
pub open spec fn file_bytes(items: Seq<Seq<char>>) -> Seq<u8>
    decreases items.len(),
{
    if items.len() == 0 {
        seq![]
    } else {
        file_bytes(items.drop_last()) + encode_utf8(items.last()) + seq![10u8]
    }
}

/// An item that fits on one line: it holds no `\n` and no `\r`.
pub open spec fn single_line(s: Seq<char>) -> bool {
    !s.contains('\n') && !s.contains('\r')
}

/// Relies on `std::str::from_utf8`: it accepts exactly the byte sequences that
/// are valid UTF-8, and the `str` it then returns holds those bytes.
#[verifier::external_body]
fn decode_line(b: &[u8]) -> (r: Option<String>)
    ensures
        r is Some <==> valid_utf8(b@),
        r matches Some(s) ==> s@ == decode_utf8(b@),
{
    match std::str::from_utf8(b) {
        Ok(s) => Some(s.to_string()),
        Err(_) => None,
    }
}

/// Splits a file's bytes into its raw lines.
pub fn split_lines(content: &[u8]) -> (r: Vec<Vec<u8>>)
    ensures
        r@.map_values(|l: Vec<u8>| l@) == lines_of(content@),
{
    let mut lines: Vec<Vec<u8>> = Vec::new();
    let mut cur: Vec<u8> = Vec::new();
    let mut i: usize = 0;
    assert(content@.subrange(0, 0) =~= Seq::<u8>::empty());
    assert(lines@.map_values(|l: Vec<u8>| l@) =~= Seq::<Seq<u8>>::empty());
    while i < content.len()
        invariant
            i <= content@.len(),
            (lines@.map_values(|l: Vec<u8>| l@), cur@) == lines_acc(content@.subrange(0, i as int)),
        decreases content@.len() - i,
    {
        let ghost pre = content@.subrange(0, i as int);
        let ghost next = content@.subrange(0, i + 1);
        assert(next.drop_last() =~= pre);
        let ghost old_lines = lines@.map_values(|l: Vec<u8>| l@);
        let byte = content[i];
        if byte == 10u8 {
            let n = cur.len();
            if n > 0 && cur[n - 1] == 13u8 {
                cur.pop();
            }
            let ghost done = cur@;
            lines.push(cur);
            cur = Vec::new();
            assert(lines@.map_values(|l: Vec<u8>| l@) =~= old_lines.push(done));
            assert(cur@ =~= Seq::<u8>::empty());
        } else {
            cur.push(byte);
            assert(lines@.map_values(|l: Vec<u8>| l@) =~= old_lines);
        }
        i = i + 1;
    }
    assert(content@.subrange(0, content@.len() as int) =~= content@);
    if cur.len() > 0 {
        let ghost old_lines = lines@.map_values(|l: Vec<u8>| l@);
        let ghost last = cur@;
        lines.push(cur);
        assert(lines@.map_values(|l: Vec<u8>| l@) =~= old_lines.push(last));
    }
    lines
}

/// Decodes each line that is valid UTF-8, and skips the others.
pub fn decode_lines(content: &[u8]) -> (r: Vec<String>)
    ensures
        r@.map_values(|s: String| s@) == loaded_items(content@),
{
    let lines = split_lines(content);
    let ghost ls = lines@.map_values(|l: Vec<u8>| l@);
    let mut r: Vec<String> = Vec::new();
    let mut i: usize = 0;
    assert(ls.subrange(0, 0) =~= Seq::<Seq<u8>>::empty());
    assert(r@.map_values(|s: String| s@) =~= Seq::<Seq<char>>::empty());
    while i < lines.len()
        invariant
            i <= lines@.len(),
            ls == lines@.map_values(|l: Vec<u8>| l@),
            r@.map_values(|s: String| s@) == decoded(ls.subrange(0, i as int)),
        decreases lines@.len() - i,
    {
        assert(ls.subrange(0, i + 1).drop_last() =~= ls.subrange(0, i as int));
        let ghost before = r@.map_values(|s: String| s@);
        match decode_line(lines[i].as_slice()) {
            Some(s) => {
                let ghost v = s@;
                r.push(s);
                assert(r@.map_values(|s: String| s@) =~= before.push(v));
            },
            None => {},
        }
        i = i + 1;
    }
    assert(ls.subrange(0, ls.len() as int) =~= ls);
    r
}

/// No byte of the UTF-8 encoding of a scalar other than `\n` and `\r` is a
/// line break byte.
proof fn lemma_scalar_no_break(v: u32)
    requires
        is_scalar(v),
        v != 10,
        v != 13,
    ensures
        forall|i: int|
            0 <= i < encode_scalar(v).len() ==> #[trigger] encode_scalar(v)[i] != 10u8
                && encode_scalar(v)[i] != 13u8,
{
    assert(forall|x: u8|
        #![auto]
        (0x80u8 | x) >= 0x80u8 && (0xC0u8 | x) >= 0x80u8 && (0xE0u8 | x) >= 0x80u8 && (0xF0u8
            | x) >= 0x80u8) by (bit_vector);
    if has_width_1_encoding(v) {
        assert(((v & 0x7F) as u8) != 10u8 && ((v & 0x7F) as u8) != 13u8) by (bit_vector)
            requires
                v <= 0x7F,
                v != 10,
                v != 13,
        ;
    }
}

/// The encoding of a single-line item holds no line break byte.
proof fn lemma_encode_no_break(s: Seq<char>)
    requires
        single_line(s),
    ensures
        forall|i: int|
            0 <= i < encode_utf8(s).len() ==> #[trigger] encode_utf8(s)[i] != 10u8
                && encode_utf8(s)[i] != 13u8,
    decreases s.len(),
{
    if s.len() > 0 {
        let c = s[0];
        assert(s.contains(c));
        char_is_scalar(c);
        assert(c as u32 != 10 && c as u32 != 13) by {
            char_u32_cast(c, c as u32);
        }
        lemma_scalar_no_break(c as u32);
        let rest = s.drop_first();
        assert forall|x: char| rest.contains(x) implies s.contains(x) by {
            let k = choose|k: int| 0 <= k < rest.len() && rest[k] == x;
            assert(s[k + 1] == x);
        }
        lemma_encode_no_break(rest);
        let e = encode_scalar(c as u32);
        assert forall|i: int| 0 <= i < encode_utf8(s).len() implies #[trigger] encode_utf8(s)[i]
            != 10u8 && encode_utf8(s)[i] != 13u8 by {
            if i >= e.len() {
                assert(encode_utf8(s)[i] == encode_utf8(rest)[i - e.len()]);
            }
        }
    }
}

/// Bytes without `\n` after a finished line make up the line under way.
proof fn lemma_acc_segment(pre: Seq<u8>, seg: Seq<u8>)
    requires
        lines_acc(pre).1.len() == 0,
        forall|i: int| 0 <= i < seg.len() ==> #[trigger] seg[i] != 10u8,
    ensures
        lines_acc(pre + seg) == (lines_acc(pre).0, seg),
    decreases seg.len(),
{
    if seg.len() == 0 {
        assert(pre + seg =~= pre);
        assert(lines_acc(pre).1 =~= seg);
    } else {
        let shorter = seg.drop_last();
        lemma_acc_segment(pre, shorter);
        assert((pre + seg).drop_last() =~= pre + shorter);
        assert(shorter.push(seg.last()) =~= seg);
    }
}

/// The lines of a written file are the encodings of its items.
proof fn lemma_file_lines(items: Seq<Seq<char>>)
    requires
        forall|i: int| 0 <= i < items.len() ==> single_line(#[trigger] items[i]),
    ensures
        lines_acc(file_bytes(items)) == (
        items.map_values(|s: Seq<char>| encode_utf8(s)),
        Seq::<u8>::empty(),
        ),
    decreases items.len(),
{
    if items.len() == 0 {
        assert(items.map_values(|s: Seq<char>| encode_utf8(s)) =~= Seq::<Seq<u8>>::empty());
        assert(lines_acc(file_bytes(items)).1 =~= Seq::<u8>::empty());
    } else {
        let init = items.drop_last();
        let last = items.last();
        assert(single_line(items[items.len() - 1]));
        lemma_file_lines(init);
        let e = encode_utf8(last);
        lemma_encode_no_break(last);
        lemma_acc_segment(file_bytes(init), e);
        let b = file_bytes(items);
        assert(b.drop_last() =~= file_bytes(init) + e);
        assert(strip_cr(e) == e);
        assert(items.map_values(|s: Seq<char>| encode_utf8(s)) =~= init.map_values(
            |s: Seq<char>| encode_utf8(s),
        ).push(e));
        assert(lines_acc(b).1 =~= Seq::<u8>::empty());
    }
}

/// Decoding the encodings of items gives the items back.
proof fn lemma_decode_encoded(items: Seq<Seq<char>>)
    ensures
        decoded(items.map_values(|s: Seq<char>| encode_utf8(s))) == items,
    decreases items.len(),
{
    let ls = items.map_values(|s: Seq<char>| encode_utf8(s));
    if items.len() == 0 {
        assert(decoded(ls) =~= items);
    } else {
        let init = items.drop_last();
        lemma_decode_encoded(init);
        assert(ls.drop_last() =~= init.map_values(|s: Seq<char>| encode_utf8(s)));
        encode_utf8_valid_utf8(items.last());
        encode_utf8_decode_utf8(items.last());
        assert(decoded(ls) =~= items);
    }
}

/// Writing single-line items to a file and reading the file back gives the
/// same items, in the same order, and so the same set.
pub proof fn lemma_save_then_load(items: Seq<Seq<char>>)
    requires
        forall|i: int| 0 <= i < items.len() ==> single_line(#[trigger] items[i]),
    ensures
        loaded_items(file_bytes(items)) == items,
        loaded_items(file_bytes(items)).to_set() == items.to_set(),
{
    lemma_file_lines(items);
    lemma_decode_encoded(items);
}

} // verus!
