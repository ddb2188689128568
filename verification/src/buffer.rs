//! The tagged storage and the buffer type built on it.
use crate::codec;
use crate::errors::{BoundaryViolation, FromUtf8Error, InvalidArgument};
use crate::growth;
use vstd::prelude::*;
use vstd::slice::slice_subrange;
use vstd::string::StringSliceAdditionalSpecFns;
use vstd::utf8::*;

verus! {

/// Where the bytes live: directly in the structure, or in an owned
/// heap allocation whose length is the buffer's capacity.
#[derive(Debug)]
enum Storage {
    Inline { data: [u8; 23] },
    Heap { buf: Vec<u8> },
}

/// A growable, UTF-8 text buffer. Values of up to 23 bytes are held inline;
/// once a value outgrows that, the buffer moves to the heap and stays there.
#[derive(Debug)]
pub struct TextBuffer {
    len: usize,
    storage: Storage,
}

impl View for TextBuffer {
    type V = Seq<u8>;

    /// The content: the used prefix of the backing store.
    closed spec fn view(&self) -> Seq<u8> {
        self.buf_spec().take(self.clipped_len() as int)
    }
}

impl TextBuffer {
    /// The whole backing store, padding bytes included.
    pub closed spec fn buf_spec(self) -> Seq<u8> {
        match self.storage {
            Storage::Inline { data } => data@,
            Storage::Heap { buf } => buf@,
        }
    }

    /// Total bytes available before the next growth or escalation.
    pub closed spec fn spec_capacity(self) -> nat {
        self.buf_spec().len()
    }

    /// True once the buffer has escalated to the heap.
    pub closed spec fn spec_overflowed(self) -> bool {
        self.storage is Heap
    }

    spec fn clipped_len(self) -> nat {
        if self.len <= self.buf_spec().len() {
            self.len as nat
        } else {
            self.buf_spec().len()
        }
    }

    /// Well-formedness: the used length fits the backing store and the
    /// content is valid UTF-8.
    pub closed spec fn wf(self) -> bool {
        &&& self.len <= self.buf_spec().len()
        &&& valid_utf8(self@)
    }

    /// Creates an empty buffer held inline.
    pub fn new() -> (r: TextBuffer)
        ensures
            r.wf(),
            r@ == Seq::<u8>::empty(),
            !r.spec_overflowed(),
            r.spec_capacity() == 23,
            r.buf_spec() == Seq::new(23, |i: int| 0u8),
    {
        let r = TextBuffer { len: 0, storage: Storage::Inline { data: [0u8; 23] } };
        proof {
            assert(r.buf_spec() =~= Seq::new(23, |i: int| 0u8));
            assert(r@ =~= Seq::<u8>::empty());
        }
        r
    }

    /// The length of the content in bytes.
    pub fn len(&self) -> (r: usize)
        requires
            self.wf(),
        ensures
            r == self@.len(),
    {
        self.len
    }

    /// Reads one byte of the backing store.
    fn byte_at(&self, i: usize) -> (b: u8)
        requires
            i < self.clipped_len() || i < self.spec_capacity(),
        ensures
            b == self.buf_spec()[i as int],
    {
        match &self.storage {
            Storage::Inline { data } => data[i],
            Storage::Heap { buf } => buf[i],
        }
    }

    /// Writes one byte of the backing store; the single place where the
    /// two representations are written.
    fn set_byte(&mut self, i: usize, b: u8)
        requires
            i < old(self).spec_capacity(),
        ensures
            final(self).len == old(self).len,
            final(self).spec_overflowed() == old(self).spec_overflowed(),
            final(self).buf_spec() == old(self).buf_spec().update(i as int, b),
    {
        match &mut self.storage {
            Storage::Inline { data } => {
                data[i] = b;
            },
            Storage::Heap { buf } => {
                buf[i] = b;
            },
        }
    }

    /// The number of bytes that can be stored before the next growth.
    pub fn capacity(&self) -> (r: usize)
        ensures
            r == self.spec_capacity(),
    {
        match &self.storage {
            Storage::Inline { .. } => 23,
            Storage::Heap { buf } => buf.len(),
        }
    }

    /// True once this buffer has escalated to the heap.
    pub fn overflowed(&self) -> (r: bool)
        ensures
            r == self.spec_overflowed(),
    {
        match &self.storage {
            Storage::Inline { .. } => false,
            Storage::Heap { .. } => true,
        }
    }

    /// Borrows the content as bytes.
    pub fn as_bytes(&self) -> (r: &[u8])
        ensures
            r@ == self@,
    {
        let cap = self.capacity();
        let m: usize = if self.len <= cap {
            self.len
        } else {
            cap
        };
        let r = match &self.storage {
            Storage::Inline { data } => slice_subrange(data.as_slice(), 0, m),
            Storage::Heap { buf } => slice_subrange(buf.as_slice(), 0, m),
        };
        proof {
            assert(r@ =~= self@);
        }
        r
    }

    /// Creates an empty buffer with a heap allocation of exactly `capacity`
    /// bytes.
    pub fn with_capacity(capacity: usize) -> (r: TextBuffer)
        requires
            capacity > 0,
        ensures
            r.wf(),
            r@ == Seq::<u8>::empty(),
            r.spec_overflowed(),
            r.spec_capacity() == capacity,
    {
        let buf: Vec<u8> = vec![0u8; capacity];
        let r = TextBuffer { len: 0, storage: Storage::Heap { buf } };
        proof {
            assert(r@ =~= Seq::<u8>::empty());
        }
        r
    }

    /// Like `with_capacity`, but reports a zero request as an error instead
    /// of ruling it out.
    pub fn try_with_capacity(capacity: usize) -> (r: Result<TextBuffer, InvalidArgument>)
        ensures
            r is Ok <==> capacity > 0,
            r is Ok ==> {
                &&& r.unwrap().wf()
                &&& r.unwrap()@ == Seq::<u8>::empty()
                &&& r.unwrap().spec_overflowed()
                &&& r.unwrap().spec_capacity() == capacity
            },
    {
        if capacity == 0 {
            Err(InvalidArgument)
        } else {
            Ok(TextBuffer::with_capacity(capacity))
        }
    }

    /// Shortens the content to `new_len` bytes; a no-op when `new_len` is
    /// not below the current length. Never touches the allocation.
    pub fn truncate(&mut self, new_len: usize)
        requires
            old(self).wf(),
            new_len <= old(self)@.len() ==> is_char_boundary(old(self)@, new_len as int),
        ensures
            final(self).wf(),
            new_len <= old(self)@.len() ==> final(self)@ == old(self)@.subrange(0, new_len as int),
            new_len > old(self)@.len() ==> final(self)@ == old(self)@,
            final(self).buf_spec() == old(self).buf_spec(),
            final(self).spec_capacity() == old(self).spec_capacity(),
            final(self).spec_overflowed() == old(self).spec_overflowed(),
    {
        if new_len <= self.len {
            proof {
                valid_utf8_split(self@, new_len as int);
                assert(self@.subrange(0, new_len as int) =~= self.buf_spec().take(new_len as int));
            }
            self.len = new_len;
        }
    }

    /// Empties the content; the allocation is kept.
    pub fn clear(&mut self)
        requires
            old(self).wf(),
        ensures
            final(self).wf(),
            final(self)@ == Seq::<u8>::empty(),
            final(self).buf_spec() == old(self).buf_spec(),
            final(self).spec_capacity() == old(self).spec_capacity(),
            final(self).spec_overflowed() == old(self).spec_overflowed(),
    {
        proof {
            is_char_boundary_start_end_of_seq(self@);
            assert(old(self)@.subrange(0, 0) =~= Seq::<u8>::empty());
        }
        self.truncate(0);
    }

    /// Grows the heap allocation to `new_cap` bytes, keeping the bytes that
    /// were already there.
    fn grow_heap_to(&mut self, new_cap: usize)
        requires
            old(self).spec_overflowed(),
            new_cap >= old(self).spec_capacity(),
        ensures
            final(self).spec_overflowed(),
            final(self).len == old(self).len,
            final(self).spec_capacity() == new_cap,
            final(self).buf_spec().take(old(self).spec_capacity() as int) == old(self).buf_spec(),
    {
        match &mut self.storage {
            Storage::Heap { buf } => {
                buf.resize(new_cap, 0u8);
                proof {
                    assert(buf@.take(old(self).spec_capacity() as int) =~= old(self).buf_spec());
                }
            },
            Storage::Inline { .. } => {
                proof {
                    assert(false);
                }
            },
        }
    }

    /// Moves an inline buffer to a fresh heap allocation of `new_cap` bytes,
    /// copying the content.
    fn escalate(&mut self, new_cap: usize)
        requires
            !old(self).spec_overflowed(),
            old(self).len <= old(self).spec_capacity(),
            new_cap >= old(self).len,
        ensures
            final(self).spec_overflowed(),
            final(self).len == old(self).len,
            final(self).spec_capacity() == new_cap,
            final(self).buf_spec().take(old(self).len as int) == old(self).buf_spec().take(
                old(self).len as int,
            ),
            final(self)@ == old(self)@,
    {
        let n = self.len;
        let mut buf: Vec<u8> = vec![0u8; new_cap];
        let mut i: usize = 0;
        while i < n
            invariant
                0 <= i <= n,
                n == self.len,
                self == old(self),
                n <= self.spec_capacity(),
                !self.spec_overflowed(),
                n <= buf@.len(),
                buf@.len() == new_cap,
                forall|k: int| 0 <= k < i ==> buf@[k] == old(self).buf_spec()[k],
            decreases n - i,
        {
            let b = self.byte_at(i);
            buf[i] = b;
            i = i + 1;
        }
        self.storage = Storage::Heap { buf };
        proof {
            assert(final(self).buf_spec().take(n as int) =~= old(self).buf_spec().take(n as int));
            assert(final(self)@ =~= old(self)@);
        }
    }

    /// Copies `bytes` into the backing store starting at offset `at`.
    fn write_bytes_at(&mut self, at: usize, bytes: &[u8])
        requires
            at + bytes@.len() <= old(self).spec_capacity(),
        ensures
            final(self).len == old(self).len,
            final(self).spec_overflowed() == old(self).spec_overflowed(),
            final(self).buf_spec().len() == old(self).buf_spec().len(),
            forall|k: int| 0 <= k < at ==> final(self).buf_spec()[k] == old(self).buf_spec()[k],
            forall|k: int|
                at <= k < at + bytes@.len() ==> final(self).buf_spec()[k] == bytes@[k - at],
            forall|k: int|
                at + bytes@.len() <= k < old(self).buf_spec().len() ==> final(self).buf_spec()[k]
                    == old(self).buf_spec()[k],
    {
        let n = bytes.len();
        let cap: usize = self.capacity();
        let mut i: usize = 0;
        while i < n
            invariant
                0 <= i <= n,
                n == bytes@.len(),
                at + n <= cap,
                cap == self.spec_capacity(),
                at + n <= self.buf_spec().len(),
                self.len == old(self).len,
                self.spec_overflowed() == old(self).spec_overflowed(),
                self.buf_spec().len() == old(self).buf_spec().len(),
                forall|k: int| 0 <= k < at ==> self.buf_spec()[k] == old(self).buf_spec()[k],
                forall|k: int| at <= k < at + i ==> self.buf_spec()[k] == bytes@[k - at],
                forall|k: int|
                    at + n <= k < old(self).buf_spec().len() ==> self.buf_spec()[k] == old(self).buf_spec()[k],
            decreases n - i,
        {
            let b = bytes[i];
            self.set_byte(at + i, b);
            i = i + 1;
        }
    }

    /// Appends `count` content bytes that have already been written at the
    /// end of the backing store.
    fn commit(&mut self, count: usize)
        requires
            old(self).len + count <= old(self).spec_capacity(),
            old(self).len + count <= usize::MAX,
        ensures
            final(self).len == old(self).len + count,
            final(self).buf_spec() == old(self).buf_spec(),
            final(self).spec_overflowed() == old(self).spec_overflowed(),
            final(self)@ == old(self).buf_spec().take(old(self).len + count),
    {
        self.len = self.len + count;
        proof {
            assert(self@ =~= self.buf_spec().take(self.len as int));
        }
    }

    /// Appends one character, encoding it in place; a single-character
    /// append escalates to a fixed 32-byte heap allocation and otherwise
    /// grows by doubling.
    pub fn push(&mut self, item: char)
        requires
            old(self).wf(),
            old(self)@.len() + 4 <= usize::MAX,
        ensures
            final(self).wf(),
            final(self)@ == old(self)@ + encode_scalar(item as u32),
            old(self).spec_overflowed() ==> final(self).spec_overflowed(),
            final(self).spec_capacity() >= old(self).spec_capacity(),
            ({
                let need = old(self)@.len() + encode_scalar(item as u32).len();
                &&& (!old(self).spec_overflowed() && need <= 23 ==> !final(self).spec_overflowed() && final(self).spec_capacity() == 23)
                &&& (!old(self).spec_overflowed() && need > 23 ==> final(self).spec_overflowed()
                    && final(self).spec_capacity() == 32)
                &&& (old(self).spec_overflowed() && need <= old(self).spec_capacity() ==> final(self).spec_overflowed() && final(self).spec_capacity() == old(self).spec_capacity())
                &&& (old(self).spec_overflowed() && need > old(self).spec_capacity() ==> final(self).spec_capacity() == growth::incr_cap(
                    old(self).spec_capacity() as int,
                    need as int,
                ))
            }),
    {
        let enc: Vec<u8> = codec::encode_char(item);
        self.append_encoded(enc.as_slice());
    }

    /// Appends already-encoded bytes under the incremental growth rule.
    fn append_encoded(&mut self, enc: &[u8])
        requires
            old(self).wf(),
            valid_utf8(enc@),
            1 <= enc@.len() <= 4,
            old(self)@.len() + 4 <= usize::MAX,
        ensures
            final(self).wf(),
            final(self)@ == old(self)@ + enc@,
            old(self).spec_overflowed() ==> final(self).spec_overflowed(),
            final(self).spec_capacity() >= old(self).spec_capacity(),
            ({
                let need = old(self)@.len() + enc@.len();
                &&& (!old(self).spec_overflowed() && need <= 23 ==> !final(self).spec_overflowed() && final(self).spec_capacity() == 23)
                &&& (!old(self).spec_overflowed() && need > 23 ==> final(self).spec_overflowed()
                    && final(self).spec_capacity() == 32)
                &&& (old(self).spec_overflowed() && need <= old(self).spec_capacity() ==> final(self).spec_overflowed() && final(self).spec_capacity() == old(self).spec_capacity())
                &&& (old(self).spec_overflowed() && need > old(self).spec_capacity() ==> final(self).spec_capacity() == growth::incr_cap(
                    old(self).spec_capacity() as int,
                    need as int,
                ))
            }),
    {
        let w: usize = enc.len();
        let need: usize = self.len + w;
        if !self.overflowed() {
            if need > 23 {
                self.escalate(32);
            }
        } else {
            let cap = self.capacity();
            if need > cap {
                let nc = growth::incremental_capacity(cap, need);
                self.grow_heap_to(nc);
            }
        }
        let ghost mid = *self;
        proof {
            assert(mid@ =~= old(self)@);
        }
        self.write_bytes_at(self.len, enc);
        self.commit(w);
        proof {
            assert(self@ =~= old(self)@ + enc@);
            valid_utf8_concat(old(self)@, enc@);
        }
    }

    /// Appends a string's bytes under the bulk growth rule: the next power
    /// of two at or above the required length.
    pub fn push_str(&mut self, item: &str)
        requires
            old(self).wf(),
            old(self)@.len() + item.spec_bytes().len() <= usize::MAX,
        ensures
            final(self).wf(),
            final(self)@ == old(self)@ + item.spec_bytes(),
            old(self).spec_overflowed() ==> final(self).spec_overflowed(),
            final(self).spec_capacity() >= old(self).spec_capacity(),
            ({
                let need = old(self)@.len() + item.spec_bytes().len();
                &&& (!old(self).spec_overflowed() && need <= 23 ==> !final(self).spec_overflowed() && final(self).spec_capacity() == 23)
                &&& (!old(self).spec_overflowed() && need > 23 ==> final(self).spec_overflowed()
                    && final(self).spec_capacity() == growth::bulk_cap(need as int))
                &&& (old(self).spec_overflowed() && need <= old(self).spec_capacity() ==> final(self).spec_overflowed() && final(self).spec_capacity() == old(self).spec_capacity())
                &&& (old(self).spec_overflowed() && need > old(self).spec_capacity() ==> final(self).spec_capacity() == growth::bulk_cap(need as int))
            }),
    {
        let bytes: &[u8] = item.as_bytes();
        proof {
            encode_utf8_valid_utf8(item@);
        }
        let n_more: usize = bytes.len();
        let need: usize = self.len + n_more;
        if !self.overflowed() {
            if need > 23 {
                let nc = growth::bulk_capacity(need);
                self.escalate(nc);
            }
        } else {
            let cap = self.capacity();
            if need > cap {
                let nc = growth::bulk_capacity(need);
                proof {
                    growth::lemma_bulk_cap_at_least(need as int);
                }
                self.grow_heap_to(nc);
            }
        }
        let ghost mid = *self;
        proof {
            assert(mid@ =~= old(self)@);
        }
        self.write_bytes_at(self.len, bytes);
        self.commit(n_more);
        proof {
            assert(self@ =~= old(self)@ + item.spec_bytes());
            valid_utf8_concat(old(self)@, item.spec_bytes());
        }
    }

    /// Makes sure at least `additional` more bytes fit without another
    /// allocation, growing by the bulk rule even from inline storage.
    pub fn reserve(&mut self, additional: usize)
        requires
            old(self).wf(),
            old(self)@.len() + additional <= usize::MAX,
        ensures
            final(self).wf(),
            final(self)@ == old(self)@,
            final(self).spec_capacity() >= old(self)@.len() + additional,
            final(self).spec_capacity() >= old(self).spec_capacity(),
            old(self).spec_overflowed() ==> final(self).spec_overflowed(),
            ({
                let need = old(self)@.len() + additional;
                &&& (!old(self).spec_overflowed() && need <= 23 ==> *final(self) == *old(self))
                &&& (!old(self).spec_overflowed() && need > 23 ==> final(self).spec_overflowed()
                    && final(self).spec_capacity() == growth::bulk_cap(need as int))
                &&& (old(self).spec_overflowed() && need <= old(self).spec_capacity() ==> *final(self) == *old(self))
                &&& (old(self).spec_overflowed() && need > old(self).spec_capacity() ==> final(self).spec_capacity() == growth::bulk_cap(need as int))
            }),
    {
        let need: usize = self.len + additional;
        if !self.overflowed() {
            if need > 23 {
                let nc = growth::bulk_capacity(need);
                self.escalate(nc);
            }
        } else {
            let cap = self.capacity();
            if need > cap {
                let nc = growth::bulk_capacity(need);
                proof {
                    growth::lemma_bulk_cap_at_least(need as int);
                }
                self.grow_heap_to(nc);
                proof {
                    assert(self@ =~= old(self)@);
                }
            }
        }
    }

    /// Removes and returns the last character, or `None` when empty.
    pub fn pop(&mut self) -> (r: Option<char>)
        requires
            old(self).wf(),
        ensures
            final(self).wf(),
            old(self)@.len() == 0 ==> r is None && *final(self) == *old(self),
            old(self)@.len() > 0 ==> {
                &&& r is Some
                &&& r.unwrap() as u32 == decode_last_scalar(old(self)@)
                &&& old(self)@ == final(self)@ + encode_scalar(r.unwrap() as u32)
                &&& final(self)@ == old(self)@.subrange(
                    0,
                    old(self)@.len() - length_of_last_scalar(old(self)@),
                )
            },
            final(self).buf_spec() == old(self).buf_spec(),
            final(self).spec_capacity() == old(self).spec_capacity(),
            final(self).spec_overflowed() == old(self).spec_overflowed(),
    {
        if self.len == 0 {
            return None;
        }
        let (c, w): (char, usize) = {
            let bs = self.as_bytes();
            codec::decode_last(bs)
        };
        self.len = self.len - w;
        proof {
            assert(self@ =~= old(self)@.subrange(0, old(self)@.len() - w));
            assert(old(self)@ =~= self@ + encode_scalar(c as u32));
        }
        Some(c)
    }

    /// Removes and returns the character whose encoding starts at byte
    /// offset `idx`, shifting the bytes after it left by its width.
    pub fn remove(&mut self, idx: usize) -> (r: char)
        requires
            old(self).wf(),
            idx < old(self)@.len(),
            is_char_boundary(old(self)@, idx as int),
        ensures
            final(self).wf(),
            ({
                let suf = old(self)@.subrange(idx as int, old(self)@.len() as int);
                let w = length_of_first_scalar(suf);
                &&& r as u32 == decode_first_scalar(suf)
                &&& encode_scalar(r as u32) == old(self)@.subrange(idx as int, idx + w)
                &&& final(self)@ == old(self)@.subrange(0, idx as int) + old(self)@.subrange(
                    idx + w,
                    old(self)@.len() as int,
                )
                &&& final(self)@.len() == old(self)@.len() - w
            }),
            final(self).spec_capacity() == old(self).spec_capacity(),
            final(self).spec_overflowed() == old(self).spec_overflowed(),
    {
        let ghost s0 = old(self)@;
        let (c, w): (char, usize) = {
            let bs = self.as_bytes();
            codec::decode_at(bs, idx)
        };
        let n: usize = self.len;
        let mut j: usize = idx + w;
        while j < n
            invariant
                idx + w <= j <= n,
                1 <= w,
                idx + w <= n,
                n == self.len,
                self.len == old(self).len,
                n <= self.spec_capacity(),
                self.spec_capacity() == old(self).spec_capacity(),
                self.spec_overflowed() == old(self).spec_overflowed(),
                self.buf_spec().len() == old(self).buf_spec().len(),
                forall|k: int| 0 <= k < idx ==> self.buf_spec()[k] == old(self).buf_spec()[k],
                forall|k: int|
                    idx <= k < j - w ==> self.buf_spec()[k] == old(self).buf_spec()[k + w],
                forall|k: int|
                    j <= k < old(self).buf_spec().len() ==> self.buf_spec()[k] == old(self).buf_spec()[k],
            decreases n - j,
        {
            let b = self.byte_at(j);
            self.set_byte(j - w, b);
            j = j + 1;
        }
        self.len = n - w;
        proof {
            let suf = s0.subrange(idx as int, s0.len() as int);
            assert(self@ =~= s0.subrange(0, idx as int) + s0.subrange(idx + w, s0.len() as int));
            assert(encode_scalar(c as u32) =~= s0.subrange(idx as int, idx + w)) by {
                assert(encode_scalar(c as u32) =~= take_first_scalar(suf));
            }
            // Well-formedness: the prefix is valid by the split lemma; the
            // tail is what remains of the valid suffix after its first scalar.
            valid_utf8_split(s0, idx as int);
            assert(valid_utf8(suf));
            assert(pop_first_scalar(suf) =~= s0.subrange(idx + w, s0.len() as int));
            valid_utf8_concat(s0.subrange(0, idx as int), s0.subrange(idx + w, s0.len() as int));
        }
        c
    }

    /// Reallocates a heap-backed buffer down to exactly its length; a no-op
    /// while inline.
    pub fn shrink_to_fit(&mut self)
        requires
            old(self).wf(),
        ensures
            final(self).wf(),
            final(self)@ == old(self)@,
            final(self).spec_overflowed() == old(self).spec_overflowed(),
            !old(self).spec_overflowed() ==> *final(self) == *old(self),
            old(self).spec_overflowed() ==> final(self).spec_capacity() == old(self)@.len(),
    {
        let n: usize = self.len;
        match &mut self.storage {
            Storage::Inline { .. } => {},
            Storage::Heap { buf } => {
                buf.truncate(n);
                proof {
                    assert(self@ =~= old(self)@);
                }
            },
        }
    }

    /// Adopts a byte vector as heap storage after checking it is valid
    /// UTF-8; rejected bytes come back with the offset of the first invalid
    /// byte. The reported capacity equals the adopted byte length: a source
    /// allocation's spare capacity is not observable here.
    pub fn from_utf8(vec: Vec<u8>) -> (r: Result<TextBuffer, FromUtf8Error>)
        ensures
            r is Ok <==> valid_utf8(vec@),
            r is Ok ==> {
                &&& r.unwrap().wf()
                &&& r.unwrap()@ == vec@
                &&& r.unwrap().spec_overflowed()
                &&& r.unwrap().spec_capacity() == vec@.len()
            },
            r is Err ==> {
                &&& r.unwrap_err().spec_bytes() == vec@
                &&& r.unwrap_err().spec_valid_up_to() == codec::utf8_valid_up_to(vec@)
                &&& r.unwrap_err().spec_valid_up_to() < vec@.len()
                &&& valid_utf8(vec@.subrange(0, r.unwrap_err().spec_valid_up_to() as int))
            },
    {
        match codec::validate_utf8(vec.as_slice()) {
            Ok(()) => {
                let n: usize = vec.len();
                let r = TextBuffer { len: n, storage: Storage::Heap { buf: vec } };
                proof {
                    assert(r@ =~= r.buf_spec());
                }
                Ok(r)
            },
            Err(off) => Err(FromUtf8Error::new(vec, off)),
        }
    }

    /// Adopts a byte vector whose well-formedness the caller guarantees,
    /// skipping validation. The reported capacity equals the adopted byte
    /// length: a source allocation's spare capacity is not observable here.
    pub fn from_utf8_unchecked(vec: Vec<u8>) -> (r: TextBuffer)
        requires
            valid_utf8(vec@),
        ensures
            r.wf(),
            r@ == vec@,
            r.spec_overflowed(),
            r.spec_capacity() == vec@.len(),
    {
        let n: usize = vec.len();
        let r = TextBuffer { len: n, storage: Storage::Heap { buf: vec } };
        proof {
            assert(r@ =~= r.buf_spec());
        }
        r
    }

    /// Consumes the buffer and hands out exactly its content: an inline
    /// source copies its bytes into a fresh allocation, a heap source
    /// transfers its allocation, cut down to the length.
    pub fn into_bytes(self) -> (r: Vec<u8>)
        requires
            self.wf(),
        ensures
            r@ == self@,
    {
        let TextBuffer { len, storage } = self;
        match storage {
            Storage::Inline { data } => {
                let v = vstd::slice::slice_to_vec(slice_subrange(data.as_slice(), 0, len));
                proof {
                    assert(v@ =~= self@);
                }
                v
            },
            Storage::Heap { mut buf } => {
                buf.truncate(len);
                proof {
                    assert(buf@ =~= self@);
                }
                buf
            },
        }
    }

    /// Builds a buffer from a string slice: inline when its bytes fit, else
    /// a heap allocation sized by the bulk rule.
    pub fn from_str(item: &str) -> (r: TextBuffer)
        ensures
            r.wf(),
            r@ == item.spec_bytes(),
            item.spec_bytes().len() <= 23 ==> !r.spec_overflowed() && r.spec_capacity() == 23
                && r.buf_spec() == item.spec_bytes() + Seq::new(
                (23 - item.spec_bytes().len()) as nat,
                |i: int| 0u8,
            ),
            item.spec_bytes().len() > 23 ==> r.spec_overflowed() && r.spec_capacity()
                == growth::bulk_cap(item.spec_bytes().len() as int),
    {
        let bytes: &[u8] = item.as_bytes();
        proof {
            encode_utf8_valid_utf8(item@);
        }
        let n: usize = bytes.len();
        if n <= 23 {
            let mut r = TextBuffer::new();
            r.write_bytes_at(0, bytes);
            r.commit(n);
            proof {
                assert(r@ =~= item.spec_bytes());
                assert(r.buf_spec() =~= item.spec_bytes() + Seq::new(
                    (23 - item.spec_bytes().len()) as nat,
                    |i: int| 0u8,
                ));
            }
            r
        } else {
            let cap = growth::bulk_capacity(n);
            let buf: Vec<u8> = vec![0u8; cap];
            let mut r = TextBuffer { len: 0, storage: Storage::Heap { buf } };
            r.write_bytes_at(0, bytes);
            r.commit(n);
            proof {
                assert(r@ =~= item.spec_bytes());
            }
            r
        }
    }

    /// Converts a host string into a heap-backed buffer by adopting its
    /// bytes; no validation is needed. The reported capacity equals the
    /// adopted byte length: a source allocation's spare capacity is not
    /// observable here.
    pub fn from_string(string: String) -> (r: TextBuffer)
        ensures
            r.wf(),
            r@ == encode_utf8(string@),
            r.spec_overflowed(),
            r.spec_capacity() == encode_utf8(string@).len(),
    {
        proof {
            encode_utf8_valid_utf8(string@);
        }
        let v = crate::host::string_into_bytes(string);
        TextBuffer::from_utf8_unchecked(v)
    }

    /// Borrows the content as text.
    pub fn as_str(&self) -> (r: &str)
        requires
            self.wf(),
        ensures
            r.spec_bytes() == self@,
    {
        crate::host::bytes_as_str(self.as_bytes())
    }

    /// True when `i` is the end of the content or the start of an encoded
    /// character.
    pub fn is_char_boundary(&self, i: usize) -> (r: bool)
        requires
            self.wf(),
        ensures
            r == (i <= self@.len() && is_char_boundary(self@, i as int)),
    {
        if i > self.len {
            return false;
        }
        if i == self.len {
            proof {
                is_char_boundary_start_end_of_seq(self@);
            }
            return true;
        }
        let b = self.byte_at(i);
        proof {
            assert(b == self@[i as int]);
            is_char_boundary_iff_not_is_continuation_byte(self@, i as int);
        }
        !(0x80 <= b && b <= 0xBF)
    }

    /// Like `truncate`, but reports an offset inside a multi-byte character
    /// as a `BoundaryViolation` and leaves the buffer unchanged.
    pub fn try_truncate(&mut self, new_len: usize) -> (r: Result<(), BoundaryViolation>)
        requires
            old(self).wf(),
        ensures
            final(self).wf(),
            r is Ok <==> (new_len > old(self)@.len() || is_char_boundary(
                old(self)@,
                new_len as int,
            )),
            r is Ok && new_len <= old(self)@.len() ==> final(self)@ == old(self)@.subrange(
                0,
                new_len as int,
            ),
            r is Ok && new_len > old(self)@.len() ==> final(self)@ == old(self)@,
            r is Err ==> *final(self) == *old(self),
            final(self).spec_capacity() == old(self).spec_capacity(),
            final(self).spec_overflowed() == old(self).spec_overflowed(),
    {
        if new_len > self.len {
            return Ok(());
        }
        if self.is_char_boundary(new_len) {
            self.truncate(new_len);
            Ok(())
        } else {
            Err(BoundaryViolation)
        }
    }

    /// Like `remove`, but reports an offset that is out of range or not a
    /// character start as a `BoundaryViolation` and leaves the buffer
    /// unchanged.
    pub fn try_remove(&mut self, idx: usize) -> (r: Result<char, BoundaryViolation>)
        requires
            old(self).wf(),
        ensures
            final(self).wf(),
            r is Ok <==> (idx < old(self)@.len() && is_char_boundary(old(self)@, idx as int)),
            r is Ok ==> ({
                let suf = old(self)@.subrange(idx as int, old(self)@.len() as int);
                let w = length_of_first_scalar(suf);
                &&& r.unwrap() as u32 == decode_first_scalar(suf)
                &&& final(self)@ == old(self)@.subrange(0, idx as int) + old(self)@.subrange(
                    idx + w,
                    old(self)@.len() as int,
                )
            }),
            r is Err ==> *final(self) == *old(self),
            final(self).spec_capacity() == old(self).spec_capacity(),
            final(self).spec_overflowed() == old(self).spec_overflowed(),
    {
        if idx < self.len && self.is_char_boundary(idx) {
            Ok(self.remove(idx))
        } else {
            Err(BoundaryViolation)
        }
    }
}


/// Lexicographic byte order, the order of the content's code points.
pub open spec fn lex_cmp(a: Seq<u8>, b: Seq<u8>) -> core::cmp::Ordering
    decreases a.len(),
{
    if a.len() == 0 && b.len() == 0 {
        core::cmp::Ordering::Equal
    } else if a.len() == 0 {
        core::cmp::Ordering::Less
    } else if b.len() == 0 {
        core::cmp::Ordering::Greater
    } else if a[0] < b[0] {
        core::cmp::Ordering::Less
    } else if a[0] > b[0] {
        core::cmp::Ordering::Greater
    } else {
        lex_cmp(a.drop_first(), b.drop_first())
    }
}

impl Clone for TextBuffer {
    /// Deep-copies the content. An inline buffer clones to an inline buffer;
    /// a heap-backed buffer whose content would fit inline re-optimises to an
    /// inline clone (the source stays heap-backed); otherwise the clone gets
    /// a fresh heap allocation of the same capacity.
    fn clone(&self) -> (res: Self)
        ensures
            res@ == self@,
            self.wf() ==> res.wf(),
            !self.spec_overflowed() ==> !res.spec_overflowed() && res.buf_spec()
                == self.buf_spec() && res.spec_capacity() == self.spec_capacity(),
            self.spec_overflowed() && self@.len() <= 23 ==> !res.spec_overflowed()
                && res.spec_capacity() == 23,
            self.spec_overflowed() && self@.len() > 23 ==> res.spec_overflowed()
                && res.spec_capacity() == self.spec_capacity(),
    {
        match &self.storage {
            Storage::Inline { data } => {
                let res = TextBuffer { len: self.len, storage: Storage::Inline { data: *data } };
                proof {
                    assert(res@ =~= self@);
                }
                res
            },
            Storage::Heap { buf } => {
                let cap: usize = buf.len();
                let m: usize = if self.len <= cap {
                    self.len
                } else {
                    cap
                };
                if m <= 23 {
                    let mut data: [u8; 23] = [0u8; 23];
                    let mut i: usize = 0;
                    while i < m
                        invariant
                            0 <= i <= m,
                            m <= 23,
                            m <= buf@.len(),
                            forall|k: int| 0 <= k < i ==> data@[k] == buf@[k],
                        decreases m - i,
                    {
                        data[i] = buf[i];
                        i = i + 1;
                    }
                    let res = TextBuffer { len: m, storage: Storage::Inline { data } };
                    proof {
                        assert(res@ =~= self@);
                    }
                    res
                } else {
                    let mut nb: Vec<u8> = vec![0u8; cap];
                    let mut i: usize = 0;
                    while i < m
                        invariant
                            0 <= i <= m,
                            m <= cap,
                            m <= buf@.len(),
                            nb@.len() == cap,
                            forall|k: int| 0 <= k < i ==> nb@[k] == buf@[k],
                        decreases m - i,
                    {
                        let b: u8 = buf[i];
                        nb[i] = b;
                        i = i + 1;
                    }
                    let res = TextBuffer { len: m, storage: Storage::Heap { buf: nb } };
                    proof {
                        assert(res@ =~= self@);
                    }
                    res
                }
            },
        }
    }
}

impl PartialEq for TextBuffer {
    /// Content equality: the representation is not observable here.
    fn eq(&self, other: &Self) -> (r: bool) {
        let a: &[u8] = self.as_bytes();
        let b: &[u8] = other.as_bytes();
        let n: usize = a.len();
        if n != b.len() {
            return false;
        }
        let mut i: usize = 0;
        while i < n
            invariant
                0 <= i <= n,
                n == a@.len(),
                n == b@.len(),
                a@ == self@,
                b@ == other@,
                forall|k: int| 0 <= k < i ==> a@[k] == b@[k],
            decreases n - i,
        {
            if a[i] != b[i] {
                return false;
            }
            i = i + 1;
        }
        proof {
            assert(self@ =~= other@);
        }
        true
    }
}

impl vstd::std_specs::cmp::PartialEqSpecImpl for TextBuffer {
    open spec fn obeys_eq_spec() -> bool {
        true
    }

    open spec fn eq_spec(&self, other: &Self) -> bool {
        self@ == other@
    }
}

impl PartialOrd for TextBuffer {
    /// Lexicographic byte-wise comparison of the content, the same order
    /// code points give on valid UTF-8.
    fn partial_cmp(&self, other: &Self) -> (r: Option<core::cmp::Ordering>) {
        let a: &[u8] = self.as_bytes();
        let b: &[u8] = other.as_bytes();
        let na: usize = a.len();
        let nb: usize = b.len();
        let mut i: usize = 0;
        proof {
            assert(a@.skip(0) =~= a@);
            assert(b@.skip(0) =~= b@);
        }
        while i < na && i < nb
            invariant
                0 <= i <= na,
                0 <= i <= nb,
                na == a@.len(),
                nb == b@.len(),
                a@ == self@,
                b@ == other@,
                lex_cmp(a@.skip(i as int), b@.skip(i as int)) == lex_cmp(a@, b@),
            decreases na - i,
        {
            let x: u8 = a[i];
            let y: u8 = b[i];
            proof {
                assert(a@.skip(i as int)[0] == x);
                assert(b@.skip(i as int)[0] == y);
            }
            if x < y {
                return Some(core::cmp::Ordering::Less);
            }
            if x > y {
                return Some(core::cmp::Ordering::Greater);
            }
            proof {
                assert(a@.skip(i as int).drop_first() =~= a@.skip(i as int + 1));
                assert(b@.skip(i as int).drop_first() =~= b@.skip(i as int + 1));
            }
            i = i + 1;
        }
        proof {
            assert(i == na || i == nb);
            if i == na {
                assert(a@.skip(i as int) =~= Seq::<u8>::empty());
            }
            if i == nb {
                assert(b@.skip(i as int) =~= Seq::<u8>::empty());
            }
        }
        if na == nb {
            Some(core::cmp::Ordering::Equal)
        } else if na < nb {
            proof {
                assert(b@.skip(i as int).len() > 0);
            }
            Some(core::cmp::Ordering::Less)
        } else {
            proof {
                assert(a@.skip(i as int).len() > 0);
            }
            Some(core::cmp::Ordering::Greater)
        }
    }
}

impl vstd::std_specs::cmp::PartialOrdSpecImpl for TextBuffer {
    open spec fn obeys_partial_cmp_spec() -> bool {
        true
    }

    open spec fn partial_cmp_spec(&self, other: &Self) -> Option<core::cmp::Ordering> {
        Some(lex_cmp(self@, other@))
    }
}


/// A buffer that has not escalated always offers exactly the inline
/// capacity of 23 bytes, whatever its content.
pub proof fn lemma_inline_capacity(b: TextBuffer)
    ensures
        !b.spec_overflowed() ==> b.spec_capacity() == 23,
{
}

impl Eq for TextBuffer {

}

impl Default for TextBuffer {
    /// The default buffer is empty and inline.
    fn default() -> (r: TextBuffer)
        ensures
            r.wf(),
            r@ == Seq::<u8>::empty(),
            !r.spec_overflowed(),
            r.spec_capacity() == 23,
    {
        TextBuffer::new()
    }
}

/// The content `retain` keeps: the encoding of those characters of `s` that
/// satisfy `p`, in their original order.
pub open spec fn retain_spec(s: Seq<u8>, p: spec_fn(char) -> bool) -> Seq<u8>
    recommends
        valid_utf8(s),
{
    encode_utf8(decode_utf8(s).filter(p))
}

impl TextBuffer {
    /// Keeps only the characters the predicate accepts, compacting the
    /// survivors in order with one left-to-right pass. Neither the capacity
    /// nor the representation changes.
    pub fn retain<F: Fn(char) -> bool>(&mut self, f: F)
        requires
            old(self).wf(),
            forall|c: char| #[trigger] f.requires((c,)),
        ensures
            final(self).wf(),
            final(self).spec_capacity() == old(self).spec_capacity(),
            final(self).spec_overflowed() == old(self).spec_overflowed(),
            final(self)@.len() <= old(self)@.len(),
            forall|p: spec_fn(char) -> bool|
                (forall|c: char, b: bool| f.ensures((c,), b) ==> b == p(c)) ==> final(self)@
                    == #[trigger] retain_spec(old(self)@, p),
    {
        let mut kept: Vec<u8> = Vec::new();
        let n: usize = self.len;
        let mut i: usize = 0;
        proof {
            is_char_boundary_start_end_of_seq(self@);
            assert(kept@ =~= Seq::<u8>::empty());
            assert forall|p: spec_fn(char) -> bool| Seq::<u8>::empty() == #[trigger] retain_spec(
                self@.take(0),
                p,
            ) by {
                reveal_with_fuel(Seq::<_>::filter, 2);
                assert(self@.take(0) =~= Seq::<u8>::empty());
                assert(decode_utf8(self@.take(0)) =~= Seq::<char>::empty());
                assert(decode_utf8(self@.take(0)).filter(p) =~= Seq::<char>::empty());
                assert(encode_utf8(decode_utf8(self@.take(0)).filter(p)) =~= Seq::<u8>::empty());
            }
        }
        while i < n
            invariant
                0 <= i <= n,
                *self == *old(self),
                self.wf(),
                n == self@.len(),
                n == self.len,
                is_char_boundary(self@, i as int),
                kept@.len() <= i,
                valid_utf8(kept@),
                forall|c: char| #[trigger] f.requires((c,)),
                forall|p: spec_fn(char) -> bool|
                    (forall|c: char, b: bool| f.ensures((c,), b) ==> b == p(c)) ==> kept@
                        == #[trigger] retain_spec(self@.take(i as int), p),
            decreases n - i,
        {
            let ghost s = self@;
            let ghost old_i = i as int;
            let (c, w): (char, usize) = {
                let bs = self.as_bytes();
                codec::decode_at(bs, i)
            };
            proof {
                codec::lemma_boundary_step(s, i as int);
            }
            let keep: bool = f(c);
            let ghost kept_before = kept@;
            if keep {
                let enc: Vec<u8> = codec::encode_char(c);
                let we: usize = enc.len();
                let mut k: usize = 0;
                while k < we
                    invariant
                        0 <= k <= we,
                        we == enc@.len(),
                        kept@ == kept_before + enc@.take(k as int),
                    decreases we - k,
                {
                    let b: u8 = enc[k];
                    kept.push(b);
                    proof {
                        assert(kept@ =~= kept_before + enc@.take(k as int + 1));
                    }
                    k = k + 1;
                }
                proof {
                    assert(enc@.take(we as int) =~= encode_scalar(c as u32));
                    assert(kept@ == kept_before + encode_scalar(c as u32));
                    valid_utf8_concat(kept_before, encode_scalar(c as u32));
                }
            }
            proof {
                let t1 = s.take(old_i);
                let t2 = s.take(old_i + w);
                let suf = s.subrange(old_i, s.len() as int);
                let encc = t2.subrange(old_i, old_i + w);
                assert(valid_utf8(t2));
                is_char_boundary_iff_not_is_continuation_byte(s, old_i);
                is_char_boundary_iff_not_is_continuation_byte(t2, old_i);
                decode_utf8_split(t2, old_i);
                assert(t2.subrange(0, old_i) =~= t1);
                assert(encc =~= take_first_scalar(suf));
                assert(encc == encode_scalar(c as u32));
                let cs1 = seq![c];
                assert(cs1.drop_first() =~= Seq::<char>::empty());
                assert(encode_utf8(Seq::<char>::empty()) =~= Seq::<u8>::empty());
                assert(encode_utf8(cs1) == encode_scalar(c as u32) + encode_utf8(
                    cs1.drop_first(),
                ));
                assert(encode_utf8(cs1) =~= encode_scalar(c as u32));
                encode_utf8_decode_utf8(cs1);
                assert(decode_utf8(encc) == cs1);
                assert(decode_utf8(t2) == decode_utf8(t1) + cs1);
                // kept` now matches the longer prefix for every predicate the
                // closure's contract pins down.
                assert forall|p: spec_fn(char) -> bool|
                    (forall|c2: char, b2: bool|
                        f.ensures((c2,), b2) ==> b2 == p(c2)) implies kept@
                    == #[trigger] retain_spec(self@.take(old_i + w), p) by {
                    reveal_with_fuel(Seq::<_>::filter, 2);
                    assert(f.ensures((c,), keep));
                    assert(keep == p(c));
                    assert(kept_before == retain_spec(s.take(old_i), p));
                    Seq::filter_distributes_over_add(decode_utf8(t1), cs1, p);
                    assert(cs1.drop_last() =~= Seq::<char>::empty());
                    assert(decode_utf8(t2).filter(p) == decode_utf8(t1).filter(p) + cs1.filter(
                        p,
                    ));
                    if p(c) {
                        assert(cs1.filter(p) =~= seq![c]);
                        codec::lemma_encode_utf8_snoc(decode_utf8(t1).filter(p), c);
                        assert(decode_utf8(t1).filter(p).push(c) =~= decode_utf8(t1).filter(p)
                            + cs1);
                        assert(kept@ =~= retain_spec(t2, p));
                    } else {
                        assert(cs1.filter(p) =~= Seq::<char>::empty());
                        assert(decode_utf8(t2).filter(p) =~= decode_utf8(t1).filter(p));
                        assert(kept@ =~= retain_spec(t2, p));
                    }
                }
                // the survivors never outgrow the bytes scanned
                assert(kept@.len() <= old_i + w) by {
                    if keep {
                        assert(kept@.len() == kept_before.len() + encode_scalar(
                            c as u32,
                        ).len());
                    }
                }
            }
            i = i + w;
        }
        proof {
            assert(self@.take(n as int) =~= self@);
        }
        let klen: usize = kept.len();
        self.write_bytes_at(0, kept.as_slice());
        self.len = klen;
        proof {
            assert(self@ =~= kept@);
        }
    }
}

} // verus!

