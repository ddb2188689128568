//! Encoding, decoding and validation of UTF-8 bytes.
//!
//! The specification side comes from `vstd::utf8`: `valid_utf8` describes a
//! well-formed byte sequence, `encode_scalar` the encoding of one Unicode
//! scalar value, and `decode_first_scalar` / `decode_last_scalar` the scalar
//! read at either end of a sequence. This module supplies the executable
//! counterparts and the lemmas about the *last* scalar of a sequence that
//! `vstd` does not provide.
use vstd::prelude::*;
use vstd::utf8::*;

verus! {

/// Relies on std's `char::from_u32`: returns `Some` exactly for Unicode
/// scalar values (at most 0x10FFFF and not a surrogate), and the returned
/// character has the given scalar value.
pub assume_specification[ char::from_u32 ](v: u32) -> (r: Option<char>)
    ensures
        r is Some <==> is_scalar(v),
        r is Some ==> r.unwrap() as u32 == v,
;

/// Where decoding that starts at offset `i` first gets stuck: the offset of
/// the first byte that does not begin a well-formed scalar encoding, or the
/// length of the sequence when nothing gets stuck.
pub open spec fn utf8_prefix_len_from(s: Seq<u8>, i: int) -> int
    decreases s.len() - i when 0 <= i <= s.len()
{
    if i == s.len() {
        i
    } else if valid_first_scalar(s.subrange(i, s.len() as int)) {
        utf8_prefix_len_from(s, i + length_of_first_scalar(s.subrange(i, s.len() as int)))
    } else {
        i
    }
}

/// The length of the longest well-formed UTF-8 prefix of `s`; equivalently,
/// the offset of the first invalid byte when `s` is not valid UTF-8.
pub open spec fn utf8_valid_up_to(s: Seq<u8>) -> int {
    utf8_prefix_len_from(s, 0)
}

/// Checks whether a well-formed scalar encoding starts at offset `i` and
/// returns its value and byte width.
pub fn check_scalar_at(s: &[u8], i: usize) -> (r: Option<(u32, usize)>)
    requires
        i < s@.len(),
    ensures
        ({
            let suf = s@.subrange(i as int, s@.len() as int);
            match r {
                Some(cw) => {
                    &&& valid_first_scalar(suf)
                    &&& cw.0 == decode_first_scalar(suf)
                    &&& cw.1 == length_of_first_scalar(suf)
                    &&& 1 <= cw.1 <= 4
                    &&& i + cw.1 <= s@.len()
                    &&& is_scalar(cw.0)
                },
                None => !valid_first_scalar(suf),
            }
        }),
{
    let ghost suf = s@.subrange(i as int, s@.len() as int);
    let n: usize = s.len();
    let b0: u8 = s[i];
    assert(b0 == suf[0]);
    if b0 < 0x80 {
        Some(((b0 & 0x7F) as u32, 1))
    } else if b0 < 0xC0 {
        None
    } else if b0 < 0xE0 {
        if n - i < 2 {
            return None;
        }
        let b1: u8 = s[i + 1];
        assert(b1 == suf[1]);
        if !(0x80 <= b1 && b1 <= 0xBF) {
            return None;
        }
        let cp: u32 = (((b0 & 0x1F) as u32) << 6u32) | ((b1 & 0x3F) as u32);
        assert(cp == codepoint_width_2(b0, b1));
        if cp < 0x80 {
            return None;
        }
        assert(cp <= 0x7FF) by (bit_vector)
            requires
                cp == (((b0 & 0x1F) as u32) << 6u32) | ((b1 & 0x3F) as u32),
        ;
        Some((cp, 2))
    } else if b0 < 0xF0 {
        if n - i < 3 {
            return None;
        }
        let b1: u8 = s[i + 1];
        let b2: u8 = s[i + 2];
        assert(b1 == suf[1] && b2 == suf[2]);
        if !(0x80 <= b1 && b1 <= 0xBF) || !(0x80 <= b2 && b2 <= 0xBF) {
            return None;
        }
        let cp: u32 = (((b0 & 0x0F) as u32) << 12u32) | (((b1 & 0x3F) as u32) << 6u32) | ((b2
            & 0x3F) as u32);
        assert(cp == codepoint_width_3(b0, b1, b2));
        if cp < 0x800 {
            return None;
        }
        if 0xD800 <= cp && cp <= 0xDFFF {
            return None;
        }
        assert(cp <= 0xFFFF) by (bit_vector)
            requires
                cp == (((b0 & 0x0F) as u32) << 12u32) | (((b1 & 0x3F) as u32) << 6u32) | ((b2
                    & 0x3F) as u32),
        ;
        Some((cp, 3))
    } else if b0 < 0xF8 {
        if n - i < 4 {
            return None;
        }
        let b1: u8 = s[i + 1];
        let b2: u8 = s[i + 2];
        let b3: u8 = s[i + 3];
        assert(b1 == suf[1] && b2 == suf[2] && b3 == suf[3]);
        if !(0x80 <= b1 && b1 <= 0xBF) || !(0x80 <= b2 && b2 <= 0xBF) || !(0x80 <= b3 && b3
            <= 0xBF) {
            return None;
        }
        let cp: u32 = (((b0 & 0x07) as u32) << 18u32) | (((b1 & 0x3F) as u32) << 12u32) | (((b2
            & 0x3F) as u32) << 6u32) | ((b3 & 0x3F) as u32);
        assert(cp == codepoint_width_4(b0, b1, b2, b3));
        if cp < 0x10000 || cp > 0x10FFFF {
            return None;
        }
        Some((cp, 4))
    } else {
        None
    }
}

/// Validates that a byte sequence is well-formed UTF-8, reporting the offset
/// of the first invalid byte when it is not.
pub fn validate_utf8(s: &[u8]) -> (r: Result<(), usize>)
    ensures
        r is Ok <==> valid_utf8(s@),
        r is Err ==> {
            &&& r.unwrap_err() == utf8_valid_up_to(s@)
            &&& r.unwrap_err() < s@.len()
            &&& valid_utf8(s@.subrange(0, r.unwrap_err() as int))
        },
{
    let n: usize = s.len();
    let mut i: usize = 0;
    while i < n
        invariant
            0 <= i <= n,
            n == s@.len(),
            partial_valid_utf8(s@, i as int),
            utf8_prefix_len_from(s@, 0) == utf8_prefix_len_from(s@, i as int),
        decreases n - i,
    {
        let ghost suf = s@.subrange(i as int, s@.len() as int);
        match check_scalar_at(s, i) {
            Some((_cp, w)) => {
                proof {
                    partial_valid_utf8_extend(s@, i as int);
                }
                i = i + w;
            },
            None => {
                proof {
                    assert(suf.len() > 0);
                    assert(!valid_utf8(suf));
                    partial_valid_partial_invalid_utf8(s@, i as int);
                }
                return Err(i);
            },
        }
    }
    proof {
        assert(s@.subrange(0, n as int) =~= s@);
    }
    Ok(())
}

/// Encodes one character as its 1- to 4-byte UTF-8 form.
pub fn encode_char(c: char) -> (r: Vec<u8>)
    ensures
        r@ == encode_scalar(c as u32),
        1 <= r@.len() <= 4,
        valid_utf8(r@),
{
    proof {
        char_is_scalar(c);
    }
    let n: u32 = c as u32;
    let mut v: Vec<u8> = Vec::new();
    if n < 0x80 {
        v.push((n & 0x7F) as u8);
    } else if n < 0x800 {
        v.push(0xC0u8 | (((n >> 6u32) & 0x1F) as u8));
        v.push(0x80u8 | ((n & 0x3F) as u8));
    } else if n < 0x10000 {
        v.push(0xE0u8 | (((n >> 12u32) & 0x0F) as u8));
        v.push(0x80u8 | (((n >> 6u32) & 0x3F) as u8));
        v.push(0x80u8 | ((n & 0x3F) as u8));
    } else {
        v.push(0xF0u8 | (((n >> 18u32) & 0x07) as u8));
        v.push(0x80u8 | (((n >> 12u32) & 0x3F) as u8));
        v.push(0x80u8 | (((n >> 6u32) & 0x3F) as u8));
        v.push(0x80u8 | ((n & 0x3F) as u8));
    }
    proof {
        assert(v@ =~= encode_scalar(c as u32));
        let cs = seq![c];
        assert(cs.drop_first() =~= Seq::<char>::empty());
        assert(encode_utf8(cs.drop_first()) =~= Seq::<u8>::empty());
        assert(cs[0] == c);
        assert(encode_utf8(cs) == encode_scalar(c as u32) + encode_utf8(cs.drop_first()));
        assert(encode_utf8(cs) =~= encode_scalar(c as u32));
        encode_utf8_valid_utf8(cs);
    }
    v
}

/// The encoding of a scalar starts with one leading (non-continuation) byte
/// and continues with continuation bytes only.
pub proof fn lemma_encode_scalar_shape(v: u32)
    requires
        is_scalar(v),
    ensures
        1 <= encode_scalar(v).len() <= 4,
        !is_continuation_byte(encode_scalar(v)[0]),
        forall|k: int|
            1 <= k < encode_scalar(v).len() ==> is_continuation_byte(#[trigger] encode_scalar(v)[k]),
{
    assert((v & 0x7F) < 0x80) by (bit_vector);
    assert({
        let b = 0xC0u8 | (((v >> 6u32) & 0x1F) as u8);
        0xC0 <= b <= 0xDF
    }) by (bit_vector);
    assert({
        let b = 0xE0u8 | (((v >> 12u32) & 0x0F) as u8);
        0xE0 <= b <= 0xEF
    }) by (bit_vector);
    assert({
        let b = 0xF0u8 | (((v >> 18u32) & 0x07) as u8);
        0xF0 <= b <= 0xF7
    }) by (bit_vector);
    assert(forall|x: u32| 0x80 <= (0x80u8 | ((#[trigger] (x & 0x3F)) as u8)) <= 0xBF) by (bit_vector);
}

/// What holds of the last scalar of a well-formed sequence: its width and
/// value as given by the backward scan, that the bytes before it are again
/// well-formed, and that its own bytes are exactly the encoding of its value.
pub proof fn lemma_last_scalar(s: Seq<u8>)
    requires
        valid_utf8(s),
        s.len() > 0,
    ensures
        1 <= length_of_last_scalar(s) <= 4,
        length_of_last_scalar(s) <= s.len(),
        is_scalar(decode_last_scalar(s)),
        encode_scalar(decode_last_scalar(s)) =~= take_last_scalar(s),
        valid_utf8(s.subrange(0, s.len() - length_of_last_scalar(s))),
        is_char_boundary(s, s.len() - length_of_last_scalar(s)),
    decreases s.len(),
{
    let n = s.len() as int;
    let fw = length_of_first_scalar(s);
    let rest = pop_first_scalar(s);
    let first = take_first_scalar(s);
    if rest.len() == 0 {
        assert(s =~= first);
        lemma_first_scalar_shape(s);
        let cp = decode_first_scalar(s);
        if fw == 1 {
            assert(length_of_last_scalar(s) == 1);
            assert(decode_last_scalar(s) == cp);
        } else if fw == 2 {
            assert(length_of_last_scalar(s) == 2);
            assert(decode_last_scalar(s) == cp);
        } else if fw == 3 {
            assert(length_of_last_scalar(s) == 3);
            assert(decode_last_scalar(s) == cp);
        } else {
            assert(length_of_last_scalar(s) == 4);
            assert(decode_last_scalar(s) == cp);
        }
        assert(take_last_scalar(s) =~= s);
        decode_utf8_first_scalar(s);
        assert((cp as char) as u32 == cp);
        assert(encode_scalar(cp) =~= take_first_scalar(s));
        assert(s.subrange(0, 0) =~= Seq::<u8>::empty());
    } else {
        lemma_last_scalar(rest);
        lemma_first_scalar_shape(s);
        let m = rest.len() as int;
        let w = length_of_last_scalar(rest);
        let d = decode_last_scalar(rest);
        // The trailing byte pattern of `rest` is known from its last scalar's
        // encoding.
        lemma_encode_scalar_shape(d);
        let e = encode_scalar(d);
        assert(e =~= take_last_scalar(rest));
        assert(e.len() == w);
        assert(forall|k: int| 0 <= k < m ==> rest[k] == s[fw + k]);
        assert(!is_continuation_byte(s[n - w])) by {
            assert(rest[m - w] == e[0]);
        }
        assert(forall|j: int| 1 <= j < w ==> is_continuation_byte(#[trigger] s[n - w + j])) by {
            assert(forall|j: int| 1 <= j < w ==> rest[m - w + j] == #[trigger] e[j]);
        }
        // The backward scan over `s` therefore stops exactly where it stops
        // over `rest`.
        assert(length_of_last_scalar(s) == w);
        assert(decode_last_scalar(s) == d) by {
            if w == 2 {
                assert(s[n - 2] == rest[m - 2] && s[n - 1] == rest[m - 1]);
            } else if w == 3 {
                assert(s[n - 3] == rest[m - 3] && s[n - 2] == rest[m - 2] && s[n - 1] == rest[m
                    - 1]);
            } else if w == 4 {
                assert(s[n - 4] == rest[m - 4] && s[n - 3] == rest[m - 3] && s[n - 2] == rest[m
                    - 2] && s[n - 1] == rest[m - 1]);
            }
        }
        assert(take_last_scalar(s) =~= take_last_scalar(rest));
        // The prefix before the last scalar: first scalar plus the matching
        // prefix of `rest`.
        let prefix = s.subrange(0, n - w);
        let rest_prefix = rest.subrange(0, m - w);
        assert(valid_utf8(first)) by {
            lemma_single_scalar_valid(s);
        }
        valid_utf8_concat(first, rest_prefix);
        assert(prefix =~= first + rest_prefix);
        // Boundary: recurse through the first scalar.
        assert(is_char_boundary(s, n - w)) by {
            assert(n - w > 0);
            assert(is_char_boundary(rest, m - w));
        }
    }
}

/// A well-formed sequence that begins with a scalar encoding has a
/// non-continuation byte first and continuation bytes through that encoding;
/// the decoded value is a Unicode scalar.
proof fn lemma_first_scalar_shape(s: Seq<u8>)
    requires
        valid_first_scalar(s),
    ensures
        1 <= length_of_first_scalar(s) <= 4,
        length_of_first_scalar(s) <= s.len(),
        !is_continuation_byte(s[0]),
        forall|k: int|
            1 <= k < length_of_first_scalar(s) ==> is_continuation_byte(#[trigger] s[k]),
        is_scalar(decode_first_scalar(s)),
{
    let b0 = s[0];
    let cp = decode_first_scalar(s);
    if is_leading_byte_width_1(b0) {
        assert((b0 & 0x7F) < 0x80) by (bit_vector);
    } else if is_leading_byte_width_2(b0) {
        let b1 = s[1];
        assert(codepoint_width_2(b0, b1) <= 0x7FF) by (bit_vector);
    } else if is_leading_byte_width_3(b0) {
        let b1 = s[1];
        let b2 = s[2];
        assert(codepoint_width_3(b0, b1, b2) <= 0xFFFF) by (bit_vector);
    } else {
        assert(is_leading_byte_width_4(b0));
    }
}

/// A sequence that is exactly one scalar encoding is well-formed UTF-8.
proof fn lemma_single_scalar_valid(s: Seq<u8>)
    requires
        valid_first_scalar(s),
    ensures
        valid_utf8(take_first_scalar(s)),
{
    let first = take_first_scalar(s);
    let fw = length_of_first_scalar(s);
    assert(forall|k: int| 0 <= k < fw ==> first[k] == s[k]);
    assert(valid_leading_and_continuation_bytes_first_codepoint(first));
    assert(decode_first_codepoint(first) == decode_first_codepoint(s));
    assert(length_of_first_codepoint(first) == length_of_first_codepoint(s));
    assert(valid_first_scalar(first));
    assert(pop_first_scalar(first) =~= Seq::<u8>::empty());
    assert(valid_utf8(pop_first_scalar(first)));
}

/// Decodes the last character of a well-formed sequence and reports its width.
pub fn decode_last(s: &[u8]) -> (r: (char, usize))
    requires
        valid_utf8(s@),
        s@.len() > 0,
    ensures
        r.0 as u32 == decode_last_scalar(s@),
        r.1 == length_of_last_scalar(s@),
        1 <= r.1 <= 4,
        r.1 <= s@.len(),
        encode_scalar(r.0 as u32) == take_last_scalar(s@),
        valid_utf8(s@.subrange(0, s@.len() - r.1 as int)),
        is_char_boundary(s@, s@.len() - r.1 as int),
{
    proof {
        lemma_last_scalar(s@);
    }
    let n: usize = s.len();
    let b1: u8 = s[n - 1];
    let (cp, w): (u32, usize) = if !(0x80 <= b1 && b1 <= 0xBF) {
        ((b1 & 0x7F) as u32, 1)
    } else {
        let b2: u8 = s[n - 2];
        if !(0x80 <= b2 && b2 <= 0xBF) {
            ((((b2 & 0x1F) as u32) << 6u32) | ((b1 & 0x3F) as u32), 2)
        } else {
            let b3: u8 = s[n - 3];
            if !(0x80 <= b3 && b3 <= 0xBF) {
                ((((b3 & 0x0F) as u32) << 12u32) | (((b2 & 0x3F) as u32) << 6u32) | ((b1
                    & 0x3F) as u32), 3)
            } else {
                let b4: u8 = s[n - 4];
                ((((b4 & 0x07) as u32) << 18u32) | (((b3 & 0x3F) as u32) << 12u32) | (((b2
                    & 0x3F) as u32) << 6u32) | ((b1 & 0x3F) as u32), 4)
            }
        }
    };
    assert(cp == decode_last_scalar(s@));
    let c: char = char::from_u32(cp).unwrap();
    (c, w)
}

/// Decodes the character whose encoding starts at offset `i` of a well-formed
/// sequence and reports its width.
pub fn decode_at(s: &[u8], i: usize) -> (r: (char, usize))
    requires
        valid_utf8(s@),
        is_char_boundary(s@, i as int),
        i < s@.len(),
    ensures
        ({
            let suf = s@.subrange(i as int, s@.len() as int);
            &&& r.0 as u32 == decode_first_scalar(suf)
            &&& r.1 == length_of_first_scalar(suf)
            &&& 1 <= r.1 <= 4
            &&& i + r.1 <= s@.len()
            &&& encode_scalar(r.0 as u32) == take_first_scalar(suf)
            &&& is_scalar(r.0 as u32)
        }),
{
    let ghost suf = s@.subrange(i as int, s@.len() as int);
    proof {
        valid_utf8_split(s@, i as int);
        assert(valid_utf8(suf));
        assert(valid_first_scalar(suf));
        decode_utf8_first_scalar(suf);
        lemma_first_scalar_shape(suf);
    }
    let r: Option<(u32, usize)> = check_scalar_at(s, i);
    let (cp, w): (u32, usize) = r.unwrap();
    let c: char = char::from_u32(cp).unwrap();
    proof {
        assert((cp as char) as u32 == cp);
    }
    (c, w)
}


/// Encoding a character sequence with one more character at the end appends
/// that character's encoding.
pub proof fn lemma_encode_utf8_snoc(cs: Seq<char>, c: char)
    ensures
        encode_utf8(cs.push(c)) == encode_utf8(cs) + encode_scalar(c as u32),
    decreases cs.len(),
{
    if cs.len() == 0 {
        assert(cs.push(c)[0] == c);
        assert(cs.push(c).drop_first() =~= Seq::<char>::empty());
        assert(encode_utf8(Seq::<char>::empty()) =~= Seq::<u8>::empty());
        assert(encode_utf8(cs.push(c)) == encode_scalar(c as u32) + encode_utf8(
            cs.push(c).drop_first(),
        ));
        assert(encode_utf8(cs.push(c)) =~= encode_utf8(cs) + encode_scalar(c as u32));
    } else {
        lemma_encode_utf8_snoc(cs.drop_first(), c);
        assert(cs.push(c).drop_first() =~= cs.drop_first().push(c));
        assert(cs.push(c)[0] == cs[0]);
        assert(encode_utf8(cs.push(c)) =~= encode_utf8(cs) + encode_scalar(c as u32));
    }
}

/// From a character boundary, the next boundary lies one scalar width
/// further, and the longer prefix is still well-formed.
pub proof fn lemma_boundary_step(s: Seq<u8>, i: int)
    requires
        valid_utf8(s),
        is_char_boundary(s, i),
        0 <= i < s.len(),
    ensures
        ({
            let w = length_of_first_scalar(s.subrange(i, s.len() as int));
            &&& 1 <= w <= 4
            &&& i + w <= s.len()
            &&& is_char_boundary(s, i + w)
            &&& valid_utf8(s.subrange(0, i + w))
        }),
{
    valid_utf8_split(s, i);
    let suf = s.subrange(i, s.len() as int);
    assert(valid_utf8(suf));
    lemma_first_scalar_shape(suf);
    let w = length_of_first_scalar(suf);
    if i + w == s.len() {
        is_char_boundary_start_end_of_seq(s);
    } else {
        let tail = pop_first_scalar(suf);
        assert(valid_utf8(tail));
        assert(tail.len() > 0);
        lemma_first_scalar_shape(tail);
        assert(tail[0] == s[i + w]);
        assert(!is_continuation_byte(s[i + w]));
        is_char_boundary_iff_not_is_continuation_byte(s, i + w);
    }
    assert(partial_valid_utf8(s, i));
    partial_valid_utf8_extend(s, i);
}

} // verus!
