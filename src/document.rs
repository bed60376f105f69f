//! Document source adapter: decodes a document's bytes whatever their encoding,
//! and defines the line coordinates that edit instructions refer to.
use vstd::prelude::*;
use vstd::utf8::{valid_utf8, decode_utf8};
use crate::text::{decimal, decimal_digits, push_all, chars_of, string_of};

verus! {

/// The pieces of `s` between line feeds (one more piece than there are line feeds).
pub open spec fn pieces(s: Seq<char>) -> Seq<Seq<char>>
    decreases s.len(),
{
    if s.len() == 0 {
        seq![Seq::<char>::empty()]
    } else {
        let p = pieces(s.drop_last());
        if s.last() == '\n' {
            p.push(Seq::<char>::empty())
        } else {
            p.update(p.len() - 1, p.last().push(s.last()))
        }
    }
}

/// The lines of `s`: split at each line feed, where a final line feed ends
/// the last line rather than starting an empty one. Carriage returns are kept.
pub open spec fn lines_of(s: Seq<char>) -> Seq<Seq<char>> {
    let p = pieces(s);
    if p.last().len() == 0 {
        p.drop_last()
    } else {
        p
    }
}

/// The lines joined with a single line feed between neighbours.
pub open spec fn join_lines(ls: Seq<Seq<char>>) -> Seq<char>
    decreases ls.len(),
{
    if ls.len() == 0 {
        Seq::<char>::empty()
    } else if ls.len() == 1 {
        ls[0]
    } else {
        join_lines(ls.drop_last()) + seq!['\n'] + ls.last()
    }
}

pub open spec fn ends_with_newline(s: Seq<char>) -> bool {
    s.len() > 0 && s.last() == '\n'
}

/// The contents of a vector of lines.
pub open spec fn lines_view(v: Seq<Vec<char>>) -> Seq<Seq<char>> {
    v.map_values(|l: Vec<char>| l@)
}

/// One line of the numbered listing: its 1-based ordinal, a bar, a space, the line.
pub open spec fn numbered_line(i: int, line: Seq<char>) -> Seq<char> {
    decimal((i + 1) as nat) + seq!['|', ' '] + line
}

/// The numbered listing of a document: each line prefixed by its ordinal.
pub open spec fn numbered(s: Seq<char>) -> Seq<char> {
    let ls = lines_of(s);
    join_lines(Seq::new(ls.len(), |i: int| numbered_line(i, ls[i])))
}

pub open spec fn has_utf16_bom(b: Seq<u8>) -> bool {
    b.len() >= 2 && b[0] == 0xFFu8 && b[1] == 0xFEu8
}

/// Little-endian 16-bit units of `b`; an odd last byte is left out.
pub open spec fn le_units(b: Seq<u8>) -> Seq<u16> {
    Seq::new(b.len() / 2, |i: int| (b[2 * i] as int + 256 * (b[2 * i + 1] as int)) as u16)
}

/// What `String::from_utf8_lossy` makes of some bytes.
pub uninterp spec fn lossy_utf8_text(b: Seq<u8>) -> Seq<char>;

/// What `String::from_utf16_lossy` makes of some 16-bit units.
pub uninterp spec fn lossy_utf16_text(u: Seq<u16>) -> Seq<char>;

/// The text of a document: strict UTF-8 where the bytes are valid UTF-8;
/// else UTF-16LE after a byte-order mark; else UTF-8 with replacement characters.
pub open spec fn document_text(b: Seq<u8>) -> Seq<char> {
    if valid_utf8(b) {
        decode_utf8(b)
    } else if has_utf16_bom(b) {
        lossy_utf16_text(le_units(b.subrange(2, b.len() as int)))
    } else {
        lossy_utf8_text(b)
    }
}

/// Relies on `std::str::from_utf8`: it succeeds exactly on valid UTF-8, with the characters encoded.
#[verifier::external_body]
fn strict_utf8(b: &[u8]) -> (r: Option<String>)
    ensures
        r.is_some() == valid_utf8(b@),
        r.is_some() ==> r.unwrap()@ == decode_utf8(b@),
{
    std::str::from_utf8(b).ok().map(|s| s.to_string())
}

/// Relies on `String::from_utf8_lossy`: valid UTF-8 is decoded as it stands.
#[verifier::external_body]
pub(crate) fn lossy_utf8(b: &[u8]) -> (r: String)
    ensures
        r@ == lossy_utf8_text(b@),
        valid_utf8(b@) ==> r@ == decode_utf8(b@),
{
    String::from_utf8_lossy(b).into_owned()
}

/// Relies on `String::from_utf16_lossy`.
#[verifier::external_body]
fn lossy_utf16(u: &[u16]) -> (r: String)
    ensures
        r@ == lossy_utf16_text(u@),
{
    String::from_utf16_lossy(u)
}

/// Pairs the bytes of `b` from index `from` on into little-endian 16-bit units.
fn units_le(b: &[u8], from: usize) -> (r: Vec<u16>)
    requires
        from <= b@.len(),
    ensures
        r@ == le_units(b@.subrange(from as int, b@.len() as int)),
{
    let ghost tail = b@.subrange(from as int, b@.len() as int);
    let len: usize = b.len();
    let n: usize = (len - from) / 2;
    let mut r: Vec<u16> = Vec::new();
    let mut i: usize = 0;
    while i < n
        invariant
            from <= b@.len(),
            len == b@.len(),
            n == (b@.len() - from) / 2,
            tail == b@.subrange(from as int, b@.len() as int),
            i <= n,
            r@ == le_units(tail).subrange(0, i as int),
        decreases n - i,
    {
        assert(2 * i + 1 < b@.len() - from) by (nonlinear_arith)
            requires
                i < n,
                n == (b@.len() - from) / 2,
        ;
        let lo = b[from + 2 * i] as u16;
        let hi = b[from + 2 * i + 1] as u16;
        let u: u16 = lo + 256 * hi;
        proof {
            assert(tail[2 * i as int] == b@[from + 2 * i]);
            assert(tail[2 * i as int + 1] == b@[from + 2 * i + 1]);
        }
        r.push(u);
        i = i + 1;
        assert(r@ =~= le_units(tail).subrange(0, i as int));
    }
    assert(r@ =~= le_units(tail));
    r
}

/// Decodes a document's bytes: strict UTF-8 first; on failure UTF-16LE when the
/// bytes start with the marker `FF FE`, else UTF-8 with replacement characters.
pub fn decode_document(bytes: &[u8]) -> (r: String)
    ensures
        r@ == document_text(bytes@),
{
    match strict_utf8(bytes) {
        Some(s) => s,
        None => {
            if bytes.len() >= 2 && bytes[0] == 0xFFu8 && bytes[1] == 0xFEu8 {
                let units = units_le(bytes, 2);
                lossy_utf16(units.as_slice())
            } else {
                lossy_utf8(bytes)
            }
        },
    }
}

/// Splits text into its lines.
pub fn split_lines(s: &[char]) -> (r: Vec<Vec<char>>)
    ensures
        lines_view(r@) == lines_of(s@),
{
    let mut done: Vec<Vec<char>> = Vec::new();
    let mut cur: Vec<char> = Vec::new();
    let mut i: usize = 0;
    assert(s@.subrange(0, 0) =~= Seq::<char>::empty());
    assert(lines_view(done@).push(cur@) =~= pieces(Seq::<char>::empty()));
    while i < s.len()
        invariant
            i <= s@.len(),
            lines_view(done@).push(cur@) == pieces(s@.subrange(0, i as int)),
        decreases s@.len() - i,
    {
        let c = s[i];
        let ghost pre = s@.subrange(0, i as int);
        assert(s@.subrange(0, i + 1).drop_last() =~= pre);
        i = i + 1;
        if c == '\n' {
            done.push(cur);
            cur = Vec::new();
            assert(lines_view(done@).push(cur@) =~= pieces(pre).push(Seq::<char>::empty()));
        } else {
            cur.push(c);
            assert(lines_view(done@).push(cur@) =~= pieces(pre).update(
                pieces(pre).len() - 1,
                pieces(pre).last().push(c),
            ));
        }
    }
    assert(s@.subrange(0, s@.len() as int) =~= s@);
    if cur.len() > 0 {
        done.push(cur);
        done
    } else {
        assert(lines_view(done@) =~= pieces(s@).drop_last());
        done
    }
}

/// Joins lines with a single line feed between neighbours.
pub fn join_with_newlines(ls: &Vec<Vec<char>>) -> (r: Vec<char>)
    ensures
        r@ == join_lines(lines_view(ls@)),
{
    let mut out: Vec<char> = Vec::new();
    let mut i: usize = 0;
    while i < ls.len()
        invariant
            i <= ls@.len(),
            out@ == join_lines(lines_view(ls@).subrange(0, i as int)),
        decreases ls@.len() - i,
    {
        let ghost before = lines_view(ls@).subrange(0, i as int);
        if i > 0 {
            out.push('\n');
        }
        push_all(&mut out, ls[i].as_slice());
        i = i + 1;
        assert(lines_view(ls@).subrange(0, i as int).drop_last() =~= before);
        assert(out@ =~= join_lines(lines_view(ls@).subrange(0, i as int)));
    }
    assert(lines_view(ls@).subrange(0, ls@.len() as int) =~= lines_view(ls@));
    out
}

/// The document rendered with each line prefixed by its 1-based ordinal
/// (`"1| Version 4"`), lines joined by line feeds, in the same line
/// coordinates as edit instructions use.
pub fn numbered_listing(content: &str) -> (r: String)
    ensures
        r@ == numbered(content@),
{
    let chars = chars_of(content);
    let ls = split_lines(chars.as_slice());
    let ghost lv = lines_view(ls@);
    let ghost target = Seq::new(lv.len(), |i: int| numbered_line(i, lv[i]));
    let mut out: Vec<char> = Vec::new();
    let mut i: usize = 0;
    while i < ls.len()
        invariant
            i <= ls@.len(),
            lv == lines_view(ls@),
            target == Seq::new(lv.len(), |j: int| numbered_line(j, lv[j])),
            out@ == join_lines(target.subrange(0, i as int)),
        decreases ls@.len() - i,
    {
        let ghost before = target.subrange(0, i as int);
        if i > 0 {
            out.push('\n');
        }
        let ordinal = decimal_digits(i as u64 + 1);
        push_all(&mut out, ordinal.as_slice());
        out.push('|');
        out.push(' ');
        push_all(&mut out, ls[i].as_slice());
        i = i + 1;
        assert(target.subrange(0, i as int).drop_last() =~= before);
        assert(out@ =~= join_lines(target.subrange(0, i as int)));
    }
    assert(target.subrange(0, ls@.len() as int) =~= target);
    string_of(out.as_slice())
}

} // verus!
