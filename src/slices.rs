use vstd::prelude::*;

use vstd::string::StringSliceAdditionalSpecFns;
use vstd::utf8::{
    char_is_scalar, encode_scalar, encode_utf8, encode_utf8_decode_utf8, encode_utf8_first_scalar,
    encode_utf8_valid_utf8, is_char_boundary, pop_first_scalar,
};

verus! {

/// Relies on indexing a `str` by a byte range (`&s[lo..hi]`): the result is
/// the part of `s` made of its UTF-8 bytes from `lo` up to `hi`. The indexing
/// panics unless both ends lie on character boundaries.
#[verifier::external_body]
fn byte_slice<'a>(s: &'a str, lo: usize, hi: usize) -> (r: &'a str)
    requires
        lo <= hi <= s.spec_bytes().len(),
        is_char_boundary(s.spec_bytes(), lo as int),
        is_char_boundary(s.spec_bytes(), hi as int),
    ensures
        r.spec_bytes() == s.spec_bytes().subrange(lo as int, hi as int),
{
    &s[lo..hi]
}

/// The number of UTF-8 bytes that the first `i` characters of `s` take.
pub open spec fn byte_offset(s: Seq<char>, i: int) -> nat {
    encode_utf8(s.take(i)).len()
}

proof fn lemma_encode_concat(a: Seq<char>, b: Seq<char>)
    ensures
        encode_utf8(a + b) == encode_utf8(a) + encode_utf8(b),
    decreases a.len(),
{
    if a.len() == 0 {
        assert(a + b =~= b);
        assert(encode_utf8(a) + encode_utf8(b) =~= encode_utf8(b));
    } else {
        assert((a + b).drop_first() =~= a.drop_first() + b);
        lemma_encode_concat(a.drop_first(), b);
        assert(encode_utf8(a + b) =~= encode_utf8(a) + encode_utf8(b));
    }
}

proof fn lemma_prefix_ends_on_boundary(a: Seq<char>, b: Seq<char>)
    ensures
        is_char_boundary(encode_utf8(a + b), encode_utf8(a).len() as int),
    decreases a.len(),
{
    broadcast use encode_utf8_valid_utf8;

    let bytes = encode_utf8(a + b);
    if a.len() > 0 {
        let rest = a.drop_first();
        assert((a + b).drop_first() =~= rest + b);
        encode_utf8_first_scalar(a + b);
        lemma_encode_concat(a, b);
        lemma_prefix_ends_on_boundary(rest, b);
        assert(pop_first_scalar(bytes) =~= encode_utf8(rest + b));
        char_is_scalar(a[0]);
        assert(encode_scalar(a[0] as u32).len() > 0);
    }
}

/// How far one more character moves the byte offset.
pub proof fn lemma_offset_step(s: Seq<char>, i: int)
    requires
        0 <= i < s.len(),
    ensures
        byte_offset(s, i + 1) == byte_offset(s, i) + encode_scalar(s[i] as u32).len(),
        byte_offset(s, i + 1) <= encode_utf8(s).len(),
{
    assert(s.take(i + 1) =~= s.take(i) + seq![s[i]]);
    lemma_encode_concat(s.take(i), seq![s[i]]);
    assert(seq![s[i]].drop_first() =~= Seq::<char>::empty());
    assert(encode_utf8(seq![s[i]]) =~= encode_scalar(s[i] as u32)) by {
        reveal_with_fuel(encode_utf8, 2);
    }
    assert(s =~= s.take(i + 1) + s.skip(i + 1));
    lemma_encode_concat(s.take(i + 1), s.skip(i + 1));
}

/// The number of bytes that `c` takes in UTF-8.
pub fn utf8_width(c: char) -> (w: usize)
    ensures
        w == encode_scalar(c as u32).len(),
{
    proof {
        char_is_scalar(c);
    }
    let v = c as u32;
    if v <= 0x7F {
        1
    } else if v <= 0x7FF {
        2
    } else if v <= 0xFFFF {
        3
    } else {
        4
    }
}

/// The characters of `s` from `lo` up to `hi`, found by the byte offsets of
/// those two positions without a walk over the text.
pub fn slice_chars<'a>(s: &'a str, lo: usize, hi: usize, lo_byte: usize, hi_byte: usize) -> (r:
    &'a str)
    requires
        lo <= hi <= s@.len(),
        lo_byte == byte_offset(s@, lo as int),
        hi_byte == byte_offset(s@, hi as int),
    ensures
        r@ == s@.subrange(lo as int, hi as int),
{
    let ghost head = s@.take(lo as int);
    let ghost part = s@.subrange(lo as int, hi as int);
    let ghost tail = s@.skip(hi as int);
    proof {
        assert(s@ =~= head + (part + tail));
        assert(s@.take(hi as int) =~= head + part);
        assert(s@ =~= (head + part) + tail);
        lemma_encode_concat(head, part + tail);
        lemma_encode_concat(part, tail);
        lemma_encode_concat(head, part);
        lemma_prefix_ends_on_boundary(head, part + tail);
        lemma_prefix_ends_on_boundary(head + part, tail);
    }
    let r = byte_slice(s, lo_byte, hi_byte);
    proof {
        assert(s.spec_bytes().subrange(lo_byte as int, hi_byte as int) =~= encode_utf8(part));
        encode_utf8_decode_utf8(r@);
        encode_utf8_decode_utf8(part);
    }
    r
}

} // verus!
