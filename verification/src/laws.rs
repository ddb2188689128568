//! Laws that relate several operations, stated over the same spec functions
//! the operations' contracts use.
use crate::buffer::retain_spec;
use crate::codec;
use vstd::prelude::*;
use vstd::utf8::*;

verus! {

/// Appending one character and then removing the last character returns that
/// character and restores the previous content: for well-formed content `s`,
/// the extended content `s + encode_scalar(c)` is well-formed, its last
/// scalar is exactly `c`'s encoding, and the bytes before it are `s`.
/// Together with the contracts of `push` and `pop`, this is the append/pop
/// round trip.
pub proof fn lemma_push_pop_round_trip(s: Seq<u8>, c: char)
    requires
        valid_utf8(s),
    ensures
        ({
            let t = s + encode_scalar(c as u32);
            &&& valid_utf8(t)
            &&& length_of_last_scalar(t) == encode_scalar(c as u32).len()
            &&& decode_last_scalar(t) == c as u32
            &&& t.subrange(0, s.len() as int) == s
        }),
{
    char_is_scalar(c);
    let e = encode_scalar(c as u32);
    let t = s + e;
    let n = t.len() as int;
    let w = e.len() as int;
    // e is a well-formed single-scalar sequence.
    let cs = seq![c];
    assert(cs.drop_first() =~= Seq::<char>::empty());
    assert(encode_utf8(Seq::<char>::empty()) =~= Seq::<u8>::empty());
    assert(encode_utf8(cs) == encode_scalar(c as u32) + encode_utf8(cs.drop_first()));
    assert(encode_utf8(cs) =~= e);
    encode_utf8_valid_utf8(cs);
    valid_utf8_concat(s, e);
    // Its first scalar decodes back to c.
    encode_utf8_first_scalar(cs);
    assert(decode_first_scalar(e) == c as u32);
    assert(length_of_first_scalar(e) == w);
    // The byte pattern of e tells the backward scan where to stop.
    codec::lemma_encode_scalar_shape(c as u32);
    assert(forall|k: int| 0 <= k < w ==> t[n - w + k] == e[k]);
    assert(!is_continuation_byte(t[n - w]));
    assert(forall|k: int| 1 <= k < w ==> is_continuation_byte(#[trigger] t[n - w + k]));
    assert(length_of_last_scalar(t) == w);
    assert(decode_last_scalar(t) == decode_first_scalar(e)) by {
        if w == 2 {
            assert(t[n - 2] == e[0] && t[n - 1] == e[1]);
        } else if w == 3 {
            assert(t[n - 3] == e[0] && t[n - 2] == e[1] && t[n - 1] == e[2]);
        } else if w == 4 {
            assert(t[n - 4] == e[0] && t[n - 3] == e[1] && t[n - 2] == e[2] && t[n - 1] == e[3]);
        }
    }
    assert(t.subrange(0, s.len() as int) =~= s);
}

/// Two characters with the same scalar value are the same character, so the
/// round trip above pins down the character `pop` returns.
pub proof fn lemma_scalar_char_unique(a: char, b: char)
    requires
        a as u32 == b as u32,
    ensures
        a == b,
{
    char_u32_cast(a, a as u32);
    char_u32_cast(b, b as u32);
}

/// A predicate that accepts every character makes `retain` the identity on
/// content.
pub proof fn lemma_retain_all(s: Seq<u8>, p: spec_fn(char) -> bool)
    requires
        valid_utf8(s),
        forall|c: char| #[trigger] p(c),
    ensures
        retain_spec(s, p) == s,
{
    lemma_filter_all(decode_utf8(s), p);
    decode_utf8_encode_utf8(s);
}

/// A predicate that rejects every character makes `retain` empty the
/// content.
pub proof fn lemma_retain_none(s: Seq<u8>, p: spec_fn(char) -> bool)
    requires
        valid_utf8(s),
        forall|c: char| !#[trigger] p(c),
    ensures
        retain_spec(s, p) == Seq::<u8>::empty(),
{
    lemma_filter_nothing(decode_utf8(s), p);
    assert(encode_utf8(Seq::<char>::empty()) =~= Seq::<u8>::empty());
}

proof fn lemma_filter_all(cs: Seq<char>, p: spec_fn(char) -> bool)
    requires
        forall|c: char| #[trigger] p(c),
    ensures
        cs.filter(p) == cs,
    decreases cs.len(),
{
    reveal_with_fuel(Seq::<_>::filter, 1);
    if cs.len() == 0 {
        assert(cs.filter(p) =~= cs);
    } else {
        lemma_filter_all(cs.drop_last(), p);
        assert(cs.filter(p) =~= cs);
    }
}

proof fn lemma_filter_nothing(cs: Seq<char>, p: spec_fn(char) -> bool)
    requires
        forall|c: char| !#[trigger] p(c),
    ensures
        cs.filter(p) == Seq::<char>::empty(),
    decreases cs.len(),
{
    reveal_with_fuel(Seq::<_>::filter, 1);
    if cs.len() == 0 {
        assert(cs.filter(p) =~= Seq::<char>::empty());
    } else {
        lemma_filter_nothing(cs.drop_last(), p);
        assert(cs.filter(p) =~= Seq::<char>::empty());
    }
}

} // verus!
