//! ASCII runs inside UTF-8 text: where a string may be cut, and what the cut
//! piece holds.

use vstd::prelude::*;
use vstd::utf8::*;
use crate::grammar::text_of;

verus! {

/// The byte after an ASCII byte begins a character, or is the end.
pub proof fn lemma_boundary_after_ascii(bytes: Seq<u8>, k: int)
    requires
        valid_utf8(bytes),
        0 < k <= bytes.len(),
        bytes[k - 1] < 128,
    ensures
        is_char_boundary(bytes, k),
{
    if k == bytes.len() {
        is_char_boundary_start_end_of_seq(bytes);
    } else {
        is_char_boundary_iff_not_is_continuation_byte(bytes, k - 1);
        valid_utf8_split(bytes, k - 1);
        let tail = bytes.subrange(k - 1, bytes.len() as int);
        assert(tail[0] == bytes[k - 1]);
        assert(tail[1] == bytes[k]);
        assert(length_of_first_scalar(tail) == 1);
        assert(valid_utf8(pop_first_scalar(tail)));
        assert(is_char_boundary(tail, 1)) by {
            reveal_with_fuel(is_char_boundary, 2);
        }
        is_char_boundary_iff_not_is_continuation_byte(tail, 1);
        is_char_boundary_iff_not_is_continuation_byte(bytes, k);
    }
}

/// Text whose encoding is all ASCII has one character for each byte.
pub proof fn lemma_ascii_text(chars: Seq<char>, bytes: Seq<u8>)
    requires
        encode_utf8(chars) == bytes,
        forall|i: int| 0 <= i < bytes.len() ==> #[trigger] bytes[i] < 128,
    ensures
        chars == text_of(bytes),
{
    let plain = text_of(bytes);
    assert(is_ascii_chars(plain));
    is_ascii_chars_encode_utf8(plain);
    assert(encode_utf8(plain) =~= bytes);
    encode_utf8_decode_utf8(plain);
    encode_utf8_decode_utf8(chars);
}

} // verus!
