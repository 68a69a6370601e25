//! Captured process output: the bounded buffer that a process or terminal
//! writes into.
use vstd::prelude::*;
use vstd::utf8::{decode_utf8, encode_utf8, is_char_boundary};

verus! {

/// Above this many bytes, an output buffer is cut down.
pub const OUTPUT_LIMIT: usize = 200_000;

/// How many of the newest bytes a buffer keeps when it is cut down.
pub const OUTPUT_KEEP: usize = 160_000;

/// The UTF-8 bytes of `s`.
pub open spec fn utf8(s: Seq<char>) -> Seq<u8> {
    encode_utf8(s)
}

/// The bytes that a buffer holding `bytes` keeps: all of them up to the
/// limit, else the newest `OUTPUT_KEEP`.
pub open spec fn limited(bytes: Seq<u8>) -> Seq<u8> {
    if bytes.len() > OUTPUT_LIMIT {
        bytes.skip(bytes.len() - OUTPUT_KEEP)
    } else {
        bytes
    }
}

/// Appending `chunk` to a buffer holding `buf` cuts it at a character
/// boundary, so it can be done without a panic.
pub open spec fn can_append(buf: Seq<char>, chunk: Seq<char>) -> bool {
    let bytes = utf8(buf + chunk);
    bytes.len() > OUTPUT_LIMIT ==> is_char_boundary(bytes, bytes.len() - OUTPUT_KEEP)
}

/// Removes the first `at` bytes of `s` (`String::replace_range(..at, "")`).
#[verifier::external_body]
fn drop_leading_bytes(s: &mut String, at: usize)
    requires
        is_char_boundary(encode_utf8(old(s)@), at as int),
    ensures
        encode_utf8(final(s)@) == encode_utf8(old(s)@).skip(at as int),
{
    s.replace_range(..at, "");
}

proof fn lemma_utf8_concat(a: Seq<char>, b: Seq<char>)
    ensures
        utf8(a + b) == utf8(a) + utf8(b),
    decreases a.len(),
{
    if a.len() == 0 {
        assert(a + b =~= b);
        assert(utf8(a) + utf8(b) =~= utf8(b));
    } else {
        lemma_utf8_concat(a.drop_first(), b);
        assert((a + b).drop_first() =~= a.drop_first() + b);
        assert((a + b)[0] == a[0]);
        assert(utf8(a + b) =~= utf8(a) + utf8(b));
    }
}

proof fn lemma_utf8_len_at_least(s: Seq<char>)
    ensures
        utf8(s).len() >= s.len(),
    decreases s.len(),
{
    if s.len() > 0 {
        lemma_utf8_len_at_least(s.drop_first());
        assert(vstd::utf8::encode_scalar(s[0] as u32).len() >= 1);
    }
}

/// A suffix of `old + chunk` that is at least as long in bytes as `chunk`
/// holds all of `chunk`.
proof fn lemma_suffix_keeps_chunk(old: Seq<char>, chunk: Seq<char>, out: Seq<char>)
    requires
        out.is_suffix_of(old + chunk),
        utf8(out).len() >= utf8(chunk).len(),
    ensures
        chunk.is_suffix_of(out),
{
    let w = old + chunk;
    if out.len() >= chunk.len() {
        assert forall|k: int| 0 <= k < chunk.len() implies chunk[k] == out[out.len() - chunk.len() + k] by {
            assert(chunk[k] == w[old.len() + k]);
            assert(out[out.len() - chunk.len() + k] == w[w.len() - out.len() + out.len() - chunk.len() + k]);
        }
        assert(chunk =~= out.subrange(out.len() - chunk.len(), out.len() as int));
    } else {
        let m = chunk.len() - out.len();
        let front = chunk.take(m);
        assert forall|k: int| 0 <= k < out.len() implies out[k] == chunk[m + k] by {
            assert(out[k] == w[w.len() - out.len() + k]);
            assert(chunk[m + k] == w[old.len() + m + k]);
        }
        assert(chunk =~= front + out);
        lemma_utf8_concat(front, out);
        lemma_utf8_len_at_least(front);
        assert(false);
    }
}

/// Appends `chunk` to the output buffer `output`; past `OUTPUT_LIMIT`
/// bytes, only the newest `OUTPUT_KEEP` bytes stay.
pub fn append_limited(output: &mut String, chunk: &str)
    requires
        utf8(old(output)@ + chunk@).len() <= usize::MAX,
        can_append(old(output)@, chunk@),
    ensures
        utf8(final(output)@) == limited(utf8(old(output)@ + chunk@)),
        utf8(final(output)@).len() <= OUTPUT_LIMIT,
        final(output)@.is_suffix_of(old(output)@ + chunk@),
        utf8(chunk@).len() <= OUTPUT_KEEP ==> chunk@.is_suffix_of(final(output)@),
{
    let ghost whole = old(output)@ + chunk@;
    output.append(chunk);
    let len = output.as_str().len();
    if len > OUTPUT_LIMIT {
        let keep_from = len.saturating_sub(OUTPUT_KEEP);
        drop_leading_bytes(output, keep_from);
        proof {
            let bytes = utf8(whole);
            vstd::utf8::encode_utf8_valid_utf8(whole);
            vstd::utf8::encode_utf8_decode_utf8(whole);
            vstd::utf8::encode_utf8_decode_utf8(output@);
            vstd::utf8::decode_utf8_split(bytes, keep_from as int);
            assert(bytes.skip(keep_from as int) =~= bytes.subrange(keep_from as int, bytes.len() as int));
            let head = decode_utf8(bytes.subrange(0, keep_from as int));
            assert(whole =~= head + output@);
            assert(whole.subrange(whole.len() - output@.len(), whole.len() as int) =~= output@);
            if utf8(chunk@).len() <= OUTPUT_KEEP {
                lemma_suffix_keeps_chunk(old(output)@, chunk@, output@);
            }
        }
    } else {
        assert(whole.subrange(whole.len() - output@.len(), whole.len() as int) =~= output@);
        proof {
            lemma_utf8_concat(old(output)@, chunk@);
            lemma_suffix_keeps_chunk(old(output)@, chunk@, output@);
        }
    }
}

/// The text gathered in `output`, which is left empty (a terminal read).
pub fn drain_output(output: &mut String) -> (chunk: String)
    ensures
        chunk@ == old(output)@,
        final(output)@ == Seq::<char>::empty(),
{
    let chunk = output.clone();
    *output = String::new();
    chunk
}

} // verus!
