//! Scalar-value addressing of text: slicing a string at scalar offsets and
//! collecting its scalar values, so that the matching algorithms never touch
//! byte offsets.  Only this module converts between the two addressing
//! schemes, by walking encoded-unit boundaries.

use vstd::prelude::*;
use vstd::string::StrSliceExecFns;
use vstd::string::StringSliceAdditionalSpecFns;
use vstd::utf8::*;

verus! {

/// Collects the Unicode scalar values of `s` into a vector, so that the
/// matching algorithms can address text by scalar-value offset.
pub fn chars_of(s: &str) -> (v: Vec<char>)
    ensures
        v@ == s@,
{
    let n = s.unicode_len();
    let mut v: Vec<char> = Vec::new();
    let mut i: usize = 0;
    while i < n
        invariant
            n == s@.len(),
            i <= n,
            v@ == s@.subrange(0, i as int),
        decreases n - i,
    {
        let c = s.get_char(i);
        v.push(c);
        i = i + 1;
        proof {
            assert(v@ =~= s@.subrange(0, i as int));
        }
    }
    proof {
        assert(v@ =~= s@);
    }
    v
}

/// The UTF-8 encoding of a concatenation is the concatenation of the
/// encodings.
proof fn lemma_encode_concat(a: Seq<char>, b: Seq<char>)
    ensures
        encode_utf8(a + b) == encode_utf8(a) + encode_utf8(b),
    decreases a.len(),
{
    if a.len() == 0 {
        assert(a + b =~= b);
        assert(encode_utf8(a) + encode_utf8(b) =~= encode_utf8(b));
    } else {
        assert((a + b).len() > 0);
        assert((a + b)[0] == a[0]);
        assert((a + b).drop_first() =~= a.drop_first() + b);
        lemma_encode_concat(a.drop_first(), b);
        assert(encode_utf8(a + b) =~= encode_utf8(a) + encode_utf8(b));
    }
}

/// The byte length of the encoding of the first `i` scalar values marks a
/// character boundary in the encoding of the whole sequence.
proof fn lemma_boundary_at_char(chars: Seq<char>, i: int)
    requires
        0 <= i <= chars.len(),
    ensures
        is_char_boundary(encode_utf8(chars), encode_utf8(chars.subrange(0, i)).len() as int),
    decreases i,
{
    broadcast use encode_utf8_valid_utf8;
    broadcast use char_is_scalar;

    let bytes = encode_utf8(chars);
    let pre = chars.subrange(0, i);
    let idx = encode_utf8(pre).len() as int;
    if i == 0 {
        assert(pre =~= Seq::<char>::empty());
        assert(idx == 0);
    } else {
        encode_utf8_first_scalar(chars);
        assert(pop_first_scalar(bytes) =~= encode_utf8(chars.drop_first()));
        assert(pre[0] == chars[0]);
        assert(pre.drop_first() =~= chars.drop_first().subrange(0, i - 1));
        assert(encode_utf8(pre) == encode_scalar(chars[0] as u32) + encode_utf8(
            chars.drop_first().subrange(0, i - 1),
        ));
        lemma_boundary_at_char(chars.drop_first(), i - 1);
        assert(idx - length_of_first_scalar(bytes) == encode_utf8(
            chars.drop_first().subrange(0, i - 1),
        ).len());
        // idx stays within the whole encoding
        lemma_encode_concat(pre, chars.subrange(i, chars.len() as int));
        assert(pre + chars.subrange(i, chars.len() as int) =~= chars);
        assert(idx <= bytes.len());
        assert(is_char_boundary(bytes, idx));
    }
}

fn scalar_width(c: char) -> (r: usize)
    ensures
        r == encode_scalar(c as u32).len(),
{
    proof {
        char_is_scalar(c);
    }
    let u = c as u32;
    if u < 0x80 {
        1
    } else if u < 0x800 {
        2
    } else if u < 0x10000 {
        3
    } else {
        4
    }
}

/// Maps the scalar-value offset `i` to the byte offset where that scalar
/// value's encoding starts (or, for `i` equal to the scalar count, to the
/// total byte length).
fn byte_offset_of(string: &str, i: usize) -> (b: usize)
    requires
        i <= string@.len(),
    ensures
        b == encode_utf8(string@.subrange(0, i as int)).len(),
        b <= string.spec_bytes().len(),
{
    let byte_view = string.as_bytes();
    let total = byte_view.len();
    let mut b: usize = 0;
    let mut t: usize = 0;
    proof {
        assert(string@.subrange(0, 0) =~= Seq::<char>::empty());
    }
    while t < i
        invariant
            i <= string@.len(),
            t <= i,
            total == string.spec_bytes().len(),
            b == encode_utf8(string@.subrange(0, t as int)).len(),
            b <= total,
        decreases i - t,
    {
        let c = string.get_char(t);
        let w = scalar_width(c);
        proof {
            let pre = string@.subrange(0, t as int);
            let one = seq![string@[t as int]];
            assert(one.drop_first() =~= Seq::<char>::empty());
            assert(encode_utf8(Seq::<char>::empty()) =~= Seq::<u8>::empty());
            assert(encode_utf8(one) == encode_scalar(one[0] as u32) + encode_utf8(
                one.drop_first(),
            ));
            assert(encode_utf8(one) =~= encode_scalar(string@[t as int] as u32));
            lemma_encode_concat(pre, one);
            assert(string@.subrange(0, t + 1) =~= pre + one);
            lemma_encode_concat(string@.subrange(0, t + 1), string@.subrange(t + 1, string@.len() as int));
            assert(string@.subrange(0, t + 1) + string@.subrange(t + 1, string@.len() as int)
                =~= string@);
            assert(b + w <= total);
        }
        b = b + w;
        t = t + 1;
    }
    b
}

/// Returns the substring of `string` spanning the scalar-value offsets
/// `[low, high)`.  Both offsets count Unicode scalar values, never bytes,
/// so the result is well formed on multi-byte text, and a degenerate range
/// returns the empty string at once.  Out-of-range offsets are a caller
/// error, ruled out by the precondition.
pub fn slice_utf8<'a>(string: &'a str, low: usize, high: usize) -> (r: &'a str)
    requires
        low <= high,
        high <= string@.len(),
    ensures
        r@ == string@.subrange(low as int, high as int),
{
    broadcast use encode_utf8_decode_utf8;
    broadcast use encode_utf8_valid_utf8;

    if low == high {
        let r = "";
        proof {
            reveal_strlit("");
            assert(r@ =~= string@.subrange(low as int, high as int));
        }
        return r;
    }
    let ghost n = string@.len() as int;
    let ghost target = string@.subrange(low as int, high as int);
    let b_lo = byte_offset_of(string, low);
    let b_hi = byte_offset_of(string, high);
    proof {
        lemma_boundary_at_char(string@, low as int);
        lemma_encode_concat(string@.subrange(0, low as int), string@.subrange(low as int, n));
        assert(string@.subrange(0, low as int) + string@.subrange(low as int, n) =~= string@);
        lemma_encode_concat(string@.subrange(0, low as int), target);
        assert(string@.subrange(0, low as int) + target =~= string@.subrange(0, high as int));
        assert(b_hi == b_lo + encode_utf8(target).len());
    }
    let (_, rest) = string.split_at(b_lo);
    proof {
        let tail = string@.subrange(low as int, n);
        assert(rest.spec_bytes() =~= encode_utf8(tail));
        assert(decode_utf8(encode_utf8(rest@)) == rest@);
        assert(decode_utf8(encode_utf8(tail)) == tail);
        assert(rest@ == tail);
        lemma_boundary_at_char(tail, high - low);
        assert(tail.subrange(0, high - low) =~= target);
        assert(is_char_boundary(rest.spec_bytes(), b_hi - b_lo));
        lemma_encode_concat(target, tail.subrange(high - low, tail.len() as int));
        assert(target + tail.subrange(high - low, tail.len() as int) =~= tail);
        assert(encode_utf8(tail).subrange(0, encode_utf8(target).len() as int) =~= encode_utf8(
            target,
        ));
    }
    let (mid, _) = rest.split_at(b_hi - b_lo);
    proof {
        assert(mid.spec_bytes() =~= encode_utf8(target));
        assert(decode_utf8(encode_utf8(mid@)) == mid@);
        assert(decode_utf8(encode_utf8(target)) == target);
    }
    mid
}

} // verus!
