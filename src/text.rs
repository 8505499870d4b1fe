//! Byte offsets into UTF-8 text: which offsets fall between characters, and
//! how to cut a string at two such offsets.
use vstd::prelude::*;
use vstd::string::StringSliceAdditionalSpecFns;
use vstd::utf8::*;

verus! {

/// The bytes of a string, as UTF-8.
pub open spec fn utf8_of(s: Seq<char>) -> Seq<u8> {
    encode_utf8(s)
}

/// Offset `k` of `bytes` lies between two characters (or at either end).
pub open spec fn on_boundary(bytes: Seq<u8>, k: int) -> bool {
    k == 0 || k == bytes.len() || (0 < k < bytes.len() && !is_continuation_byte(bytes[k]))
}

proof fn lemma_after_ascii(b: Seq<u8>, i: int)
    requires
        valid_utf8(b),
        0 <= i,
        i + 1 < b.len(),
        b[i] <= 0x7f,
    ensures
        !is_continuation_byte(b[i + 1]),
    decreases b.len(),
{
    let l = length_of_first_scalar(b);
    let p = pop_first_scalar(b);
    assert(valid_first_scalar(b) && valid_utf8(p));
    if i < l {
        if i == 0 {
            assert(l == 1);
            assert(p.len() > 0);
            assert(valid_first_scalar(p));
            assert(p[0] == b[1]);
        } else {
            assert(is_continuation_byte(b[i]));
        }
    } else {
        assert(p[i - l] == b[i]);
        lemma_after_ascii(p, i - l);
        assert(p[i - l + 1] == b[i + 1]);
    }
}

/// An ASCII byte of valid UTF-8 is a whole character: both of its sides are
/// boundaries.
pub proof fn lemma_ascii_sides(b: Seq<u8>, i: int)
    requires
        valid_utf8(b),
        0 <= i < b.len(),
        b[i] <= 0x7f,
    ensures
        on_boundary(b, i),
        on_boundary(b, i + 1),
{
    if i + 1 < b.len() {
        lemma_after_ascii(b, i);
    }
}

proof fn lemma_on_boundary(b: Seq<u8>, k: int)
    requires
        valid_utf8(b),
        on_boundary(b, k),
    ensures
        is_char_boundary(b, k),
{
    is_char_boundary_start_end_of_seq(b);
    if 0 < k < b.len() {
        is_char_boundary_iff_not_is_continuation_byte(b, k);
    }
}

/// The slice of `source` between byte offsets `start` and `end`.
pub fn slice_str<'a>(source: &'a str, start: usize, end: usize) -> (r: &'a str)
    requires
        start <= end <= source.spec_bytes().len(),
        on_boundary(source.spec_bytes(), start as int),
        on_boundary(source.spec_bytes(), end as int),
    ensures
        r.spec_bytes() == source.spec_bytes().subrange(start as int, end as int),
{
    let ghost bytes = source.spec_bytes();
    proof {
        encode_utf8_valid_utf8(source@);
        lemma_on_boundary(bytes, start as int);
        valid_utf8_split(bytes, start as int);
    }
    let (_, tail) = source.split_at(start);
    proof {
        let tb = tail.spec_bytes();
        assert(tb =~= bytes.subrange(start as int, bytes.len() as int));
        if end > start && end < bytes.len() {
            assert(tb[end - start] == bytes[end as int]);
        }
        assert(on_boundary(tb, end - start));
        lemma_on_boundary(tb, end - start);
    }
    let (mid, _) = tail.split_at(end - start);
    proof {
        assert(mid.spec_bytes() =~= bytes.subrange(start as int, end as int));
    }
    mid
}

/// The text of `source` between byte offsets `start` and `end`.
pub fn slice_text(source: &str, start: usize, end: usize) -> (r: String)
    requires
        start <= end <= source.spec_bytes().len(),
        on_boundary(source.spec_bytes(), start as int),
        on_boundary(source.spec_bytes(), end as int),
    ensures
        utf8_of(r@) == source.spec_bytes().subrange(start as int, end as int),
{
    slice_str(source, start, end).to_owned()
}

} // verus!
