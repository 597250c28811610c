//! Incremental UTF-8 decoding for the streaming reader.
//!
//! Raw input arrives in arbitrary chunks, so the encoding of one character
//! may be split across a chunk boundary.  The decoder consumes whole
//! scalars and holds the trailing partial encoding over to the next chunk,
//! so that validation never spuriously rejects an input because of where a
//! chunk happened to end.  The specification is `vstd::utf8`: on success
//! the decoded characters encode back to exactly the bytes consumed, and a
//! failure means no continuation of the input could have been valid UTF-8.

use vstd::prelude::*;
use vstd::utf8::{
    decode_first_codepoint, encode_scalar, encode_utf8, is_continuation_byte,
    is_leading_byte_width_1, is_leading_byte_width_2, is_leading_byte_width_3,
    is_leading_byte_width_4, is_scalar, length_of_first_scalar, pop_first_scalar,
    valid_first_scalar, valid_utf8,
};
use crate::error::Error;

verus! {

/// The width that a leading byte announces for its scalar's encoding;
/// zero for a byte that cannot lead an encoding.
pub open spec fn lead_width(b: u8) -> int {
    if is_leading_byte_width_1(b) {
        1
    } else if is_leading_byte_width_2(b) {
        2
    } else if is_leading_byte_width_3(b) {
        3
    } else if is_leading_byte_width_4(b) {
        4
    } else {
        0
    }
}

/// Computes the announced width of a leading byte.
fn lead_width_exec(b: u8) -> (w: usize)
    ensures
        w == lead_width(b),
{
    if b <= 0x7f {
        1
    } else if 0xc0 <= b && b <= 0xdf {
        2
    } else if 0xe0 <= b && b <= 0xef {
        3
    } else if 0xf0 <= b && b <= 0xf7 {
        4
    } else {
        0
    }
}

/// The shape of held-over bytes: empty, or a multi-byte leading byte
/// followed by too few continuation bytes to complete its scalar.
pub open spec fn incomplete_tail(held: Seq<u8>) -> bool {
    held.len() == 0 || {
        &&& 1 <= held.len() < lead_width(held[0])
        &&& forall|k: int| 1 <= k < held.len() ==> is_continuation_byte(#[trigger] held[k])
    }
}

/// An input that ends in a non-empty incomplete tail is not valid UTF-8.
pub proof fn lemma_incomplete_not_valid(held: Seq<u8>)
    requires
        incomplete_tail(held),
        held.len() > 0,
    ensures
        !valid_utf8(held),
{
    assert(!valid_first_scalar(held));
}

/// A valid prefix followed by an invalid suffix is invalid as a whole.
pub proof fn lemma_prefix_invalid(prefix: Seq<u8>, suffix: Seq<u8>)
    requires
        valid_utf8(prefix),
        !valid_utf8(suffix),
    ensures
        !valid_utf8(prefix + suffix),
{
    let full = prefix + suffix;
    assert(full.subrange(0, prefix.len() as int) =~= prefix);
    assert(full.subrange(prefix.len() as int, full.len() as int) =~= suffix);
    vstd::utf8::partial_valid_partial_invalid_utf8(full, prefix.len() as int);
}

/// If the bytes from position `i` on can begin no valid scalar however the
/// input continues, then no continuation of the input is valid, provided
/// the bytes before `i` are.
proof fn lemma_error_propagates(data: Seq<u8>, i: int)
    requires
        0 <= i < data.len(),
        valid_utf8(data.take(i)),
        forall|rest: Seq<u8>| !valid_first_scalar(#[trigger] (data.skip(i) + rest)),
    ensures
        forall|rest: Seq<u8>| !valid_utf8(#[trigger] (data + rest)),
{
    assert forall|rest: Seq<u8>| !valid_utf8(#[trigger] (data + rest)) by {
        let full = data + rest;
        assert(full.subrange(0, i) =~= data.take(i));
        assert(full.subrange(i, full.len() as int) =~= data.skip(i) + rest);
        assert(!valid_first_scalar(data.skip(i) + rest));
        assert((data.skip(i) + rest).len() > 0);
        assert(!valid_utf8(data.skip(i) + rest));
        vstd::utf8::partial_valid_partial_invalid_utf8(full, i);
    }
}

/// The one-byte codepoint is bounded by its seven data bits.
proof fn lemma_cp1_bound(b0: u8)
    by (bit_vector)
    ensures
        ((b0 & 0x7f) as u32) <= 0x7f,
{
}

/// The two-byte codepoint is bounded by its eleven data bits.
proof fn lemma_cp2_bound(b0: u8, b1: u8)
    by (bit_vector)
    ensures
        ((((b0 & 0x1f) as u32) << 6) | ((b1 & 0x3f) as u32)) <= 0x7ff,
{
}

/// The three-byte codepoint is bounded by its sixteen data bits.
proof fn lemma_cp3_bound(b0: u8, b1: u8, b2: u8)
    by (bit_vector)
    ensures
        ((((b0 & 0x0f) as u32) << 12) | (((b1 & 0x3f) as u32) << 6) | ((b2 & 0x3f) as u32))
            <= 0xffff,
{
}

/// Appending one character appends exactly its scalar's encoding.
pub proof fn lemma_encode_utf8_push(s: Seq<char>, c: char)
    ensures
        encode_utf8(s.push(c)) == encode_utf8(s) + encode_scalar(c as u32),
{
    assert(s.push(c) =~= s + seq![c]);
    crate::wordlist::lemma_encode_concat(s, seq![c]);
    assert(seq![c].drop_first() =~= Seq::<char>::empty());
    assert(encode_utf8(Seq::<char>::empty()) =~= Seq::<u8>::empty());
    assert(encode_utf8(seq![c].drop_first()) =~= Seq::<u8>::empty());
    assert(seq![c][0] == c);
    assert(encode_utf8(seq![c]) =~= encode_scalar(c as u32));
    assert(encode_utf8(s + seq![c]) =~= encode_utf8(s) + encode_scalar(c as u32));
}

/// Relies on `char::from_u32` of core: it returns the character of a
/// Unicode scalar value, and `None` exactly for the values above
/// `0x10FFFF` or inside the surrogate range.
pub assume_specification[ char::from_u32 ](i: u32) -> (r: Option<char>)
    ensures
        r == if is_scalar(i) {
            Some(i as char)
        } else {
            None::<char>
        },
;

/// Appends all bytes of `src` to `dst`.
fn append_bytes(dst: &mut Vec<u8>, src: &Vec<u8>)
    ensures
        final(dst)@ == old(dst)@ + src@,
{
    let n = src.len();
    let mut i: usize = 0;
    while i < n
        invariant
            0 <= i <= n,
            n == src@.len(),
            dst@ =~= old(dst)@ + src@.take(i as int),
        decreases n - i,
    {
        dst.push(src[i]);
        i = i + 1;
    }
    proof {
        assert(old(dst)@ + src@.take(n as int) =~= old(dst)@ + src@);
    }
}

/// Copies the byte range `[from, to)` of `v`.
fn copy_byte_range(v: &Vec<u8>, from: usize, to: usize) -> (r: Vec<u8>)
    requires
        from <= to <= v@.len(),
    ensures
        r@ == v@.subrange(from as int, to as int),
{
    let mut r: Vec<u8> = Vec::new();
    let mut i: usize = from;
    while i < to
        invariant
            from <= i <= to <= v@.len(),
            r@ =~= v@.subrange(from as int, i as int),
        decreases to - i,
    {
        r.push(v[i]);
        i = i + 1;
    }
    proof {
        assert(r@ =~= v@.subrange(from as int, to as int));
    }
    r
}

/// The incremental decoder: it carries the partial encoding that ended the
/// previous chunk over to the next one.
pub struct StreamDecoder {
    held: Vec<u8>,
}

impl StreamDecoder {
    /// The held-over bytes are always a well-formed partial encoding.
    pub closed spec fn wf(&self) -> bool {
        incomplete_tail(self.held@)
    }

    /// The bytes consumed but not yet decoded.
    pub closed spec fn held_bytes(&self) -> Seq<u8> {
        self.held@
    }

    /// A fresh decoder holding nothing.
    pub fn new() -> (s: StreamDecoder)
        ensures
            s.wf(),
            s.held_bytes() == Seq::<u8>::empty(),
    {
        let s = StreamDecoder { held: Vec::new() };
        proof {
            assert(s.held@ =~= Seq::<u8>::empty());
        }
        s
    }

    /// Decodes one more chunk, appending the decoded characters to `out`.
    /// On success the characters decoded so far, re-encoded, together with
    /// the held-over bytes, are exactly the bytes fed so far.  On failure
    /// no continuation of the fed bytes could have been valid UTF-8.
    pub fn push_chunk(&mut self, out: &mut Vec<char>, chunk: &Vec<u8>) -> (r: Result<(), Error>)
        requires
            old(self).wf(),
        ensures
            match r {
                Ok(()) => {
                    &&& final(self).wf()
                    &&& encode_utf8(final(out)@) + final(self).held_bytes() == encode_utf8(
                        old(out)@,
                    ) + old(self).held_bytes() + chunk@
                    &&& old(out)@.is_prefix_of(final(out)@)
                },
                Err(e) => {
                    &&& e == Error::InvalidUtf8
                    &&& forall|rest: Seq<u8>|
                        !valid_utf8(#[trigger] (old(self).held_bytes() + chunk@ + rest))
                },
            },
    {
        broadcast use vstd::utf8::encode_utf8_valid_utf8;

        let ghost orig_held = self.held@;
        let ghost base_out = out@;
        let mut data: Vec<u8> = Vec::new();
        append_bytes(&mut data, &self.held);
        append_bytes(&mut data, chunk);
        self.held = Vec::new();
        proof {
            assert(data@ =~= orig_held + chunk@);
            assert(self.held@ =~= Seq::<u8>::empty());
            assert(data@.take(0) =~= Seq::<u8>::empty());
            assert(out@.skip(base_out.len() as int) =~= Seq::<char>::empty());
        }
        let n = data.len();
        let mut i: usize = 0;
        while i < n
            invariant
                0 <= i <= n,
                n == data@.len(),
                data@ == orig_held + chunk@,
                orig_held == old(self).held_bytes(),
                base_out == old(out)@,
                base_out.is_prefix_of(out@),
                self.held@ == Seq::<u8>::empty(),
                data@.take(i as int) == encode_utf8(out@.skip(base_out.len() as int)),
            decreases n - i,
        {
            let b0 = data[i];
            let w = lead_width_exec(b0);
            let remaining = n - i;
            if w == 0 {
                proof {
                    assert forall|rest: Seq<u8>|
                        !valid_first_scalar(#[trigger] (data@.skip(i as int) + rest)) by {
                        assert((data@.skip(i as int) + rest)[0] == b0);
                    }
                    assert(valid_utf8(data@.take(i as int))) by {
                        vstd::utf8::encode_utf8_valid_utf8(out@.skip(base_out.len() as int));
                    }
                    lemma_error_propagates(data@, i as int);
                    assert forall|rest: Seq<u8>|
                        !valid_utf8(#[trigger] (old(self).held_bytes() + chunk@ + rest)) by {
                        assert(old(self).held_bytes() + chunk@ + rest =~= data@ + rest);
                        assert(!valid_utf8(data@ + rest));
                    }
                }
                return Err(Error::InvalidUtf8);
            }
            if w > remaining {
                // the chunk ends inside this scalar's encoding: check what
                // is present and hold it over
                let mut k: usize = 1;
                while k < remaining
                    invariant
                        1 <= k <= remaining,
                        remaining == n - i,
                        0 <= i < n,
                        n == data@.len(),
                        data@ == orig_held + chunk@,
                        orig_held == old(self).held_bytes(),
                        data@.take(i as int) == encode_utf8(out@.skip(base_out.len() as int)),
                        b0 == data@[i as int],
                        w == lead_width(b0),
                        2 <= w,
                        w > remaining,
                        forall|j: int|
                            1 <= j < k ==> is_continuation_byte(#[trigger] data@[i + j]),
                    decreases remaining - k,
                {
                    let b = data[i + k];
                    if !(0x80 <= b && b <= 0xbf) {
                        proof {
                            assert forall|rest: Seq<u8>|
                                !valid_first_scalar(
                                    #[trigger] (data@.skip(i as int) + rest),
                                ) by {
                                let s = data@.skip(i as int) + rest;
                                assert(s[0] == b0);
                                assert(s[k as int] == data@[i as int + k as int]);
                            }
                            assert(valid_utf8(data@.take(i as int))) by {
                        vstd::utf8::encode_utf8_valid_utf8(out@.skip(base_out.len() as int));
                    }
                            lemma_error_propagates(data@, i as int);
                            assert forall|rest: Seq<u8>|
                                !valid_utf8(#[trigger] (old(self).held_bytes() + chunk@ + rest)) by {
                                assert(old(self).held_bytes() + chunk@ + rest =~= data@ + rest);
                                assert(!valid_utf8(data@ + rest));
                            }
                        }
                        return Err(Error::InvalidUtf8);
                    }
                    k = k + 1;
                }
                self.held = copy_byte_range(&data, i, n);
                proof {
                    assert(self.held@[0] == b0);
                    assert forall|j: int| 1 <= j < self.held@.len() implies is_continuation_byte(
                        #[trigger] self.held@[j],
                    ) by {
                        assert(self.held@[j] == data@[i as int + j]);
                    }
                    assert(incomplete_tail(self.held@));
                    assert(data@.take(i as int) + data@.subrange(i as int, n as int) =~= data@);
                    assert(out@ =~= base_out + out@.skip(base_out.len() as int));
                    crate::wordlist::lemma_encode_concat(
                        base_out,
                        out@.skip(base_out.len() as int),
                    );
                    assert(encode_utf8(out@) + self.held@ =~= encode_utf8(base_out) + data@);
                    assert(encode_utf8(out@) + self.held@ =~= encode_utf8(old(out)@) + old(
                        self,
                    ).held_bytes() + chunk@);
                }
                return Ok(());
            }
            // the whole encoding is present: check the continuation bytes
            let mut k: usize = 1;
            while k < w
                invariant
                    1 <= k <= w,
                    w <= remaining,
                    remaining == n - i,
                    0 <= i < n,
                    n == data@.len(),
                    data@ == orig_held + chunk@,
                    orig_held == old(self).held_bytes(),
                    data@.take(i as int) == encode_utf8(out@.skip(base_out.len() as int)),
                    w == lead_width(data@[i as int]),
                    b0 == data@[i as int],
                    forall|j: int| 1 <= j < k ==> is_continuation_byte(#[trigger] data@[i + j]),
                decreases w - k,
            {
                let b = data[i + k];
                if !(0x80 <= b && b <= 0xbf) {
                    proof {
                        assert forall|rest: Seq<u8>|
                            !valid_first_scalar(#[trigger] (data@.skip(i as int) + rest)) by {
                            let s = data@.skip(i as int) + rest;
                            assert(s[0] == b0);
                            assert(s[k as int] == data@[i as int + k as int]);
                        }
                        assert(valid_utf8(data@.take(i as int))) by {
                            vstd::utf8::encode_utf8_valid_utf8(out@.skip(base_out.len() as int));
                        }
                        lemma_error_propagates(data@, i as int);
                        assert forall|rest: Seq<u8>|
                            !valid_utf8(#[trigger] (old(self).held_bytes() + chunk@ + rest)) by {
                            assert(old(self).held_bytes() + chunk@ + rest =~= data@ + rest);
                            assert(!valid_utf8(data@ + rest));
                        }
                    }
                    return Err(Error::InvalidUtf8);
                }
                k = k + 1;
            }
            // assemble the codepoint exactly as the specification reads it
            let cp: u32 = if w == 1 {
                (b0 & 0x7f) as u32
            } else if w == 2 {
                (((b0 & 0x1f) as u32) << 6) | ((data[i + 1] & 0x3f) as u32)
            } else if w == 3 {
                (((b0 & 0x0f) as u32) << 12) | (((data[i + 1] & 0x3f) as u32) << 6) | ((data[i
                    + 2] & 0x3f) as u32)
            } else {
                (((b0 & 0x07) as u32) << 18) | (((data[i + 1] & 0x3f) as u32) << 12) | (((data[i
                    + 2] & 0x3f) as u32) << 6) | ((data[i + 3] & 0x3f) as u32)
            };
            let ghost s = data@.skip(i as int);
            proof {
                assert(s[0] == b0);
                if w >= 2 {
                    assert(s[1] == data@[i as int + 1]);
                }
                if w >= 3 {
                    assert(s[2] == data@[i as int + 2]);
                }
                if w >= 4 {
                    assert(s[3] == data@[i as int + 3]);
                }
                assert(cp == decode_first_codepoint(s));
            }
            let bad = if w == 2 {
                cp < 0x80
            } else if w == 3 {
                cp < 0x800 || (0xd800 <= cp && cp <= 0xdfff)
            } else if w == 4 {
                cp < 0x10000 || cp > 0x10ffff
            } else {
                false
            };
            if bad {
                proof {
                    assert forall|rest: Seq<u8>|
                        !valid_first_scalar(#[trigger] (data@.skip(i as int) + rest)) by {
                        let t = data@.skip(i as int) + rest;
                        assert(t[0] == b0);
                        if w >= 2 {
                            assert(t[1] == data@[i as int + 1]);
                        }
                        if w >= 3 {
                            assert(t[2] == data@[i as int + 2]);
                        }
                        if w >= 4 {
                            assert(t[3] == data@[i as int + 3]);
                        }
                        assert(decode_first_codepoint(t) == cp);
                    }
                    assert(valid_utf8(data@.take(i as int))) by {
                        vstd::utf8::encode_utf8_valid_utf8(out@.skip(base_out.len() as int));
                    }
                    lemma_error_propagates(data@, i as int);
                    assert forall|rest: Seq<u8>|
                        !valid_utf8(#[trigger] (old(self).held_bytes() + chunk@ + rest)) by {
                        assert(old(self).held_bytes() + chunk@ + rest =~= data@ + rest);
                        assert(!valid_utf8(data@ + rest));
                    }
                }
                return Err(Error::InvalidUtf8);
            }
            proof {
                lemma_cp1_bound(b0);
                if w >= 2 {
                    lemma_cp2_bound(b0, data@[i as int + 1]);
                }
                if w >= 3 {
                    lemma_cp3_bound(b0, data@[i as int + 1], data@[i as int + 2]);
                }
                assert(valid_first_scalar(s));
                assert(length_of_first_scalar(s) == w);
                assert(is_scalar(cp));
            }
            let c = match char::from_u32(cp) {
                Some(c) => c,
                None => vstd::pervasive::unreached(),
            };
            proof {
                let piece = data@.subrange(i as int, i as int + w as int);
                assert(piece =~= s.take(w as int));
                assert(piece[0] == s[0]);
                if w >= 2 {
                    assert(piece[1] == s[1]);
                }
                if w >= 3 {
                    assert(piece[2] == s[2]);
                }
                if w >= 4 {
                    assert(piece[3] == s[3]);
                }
                assert(valid_first_scalar(piece));
                assert(length_of_first_scalar(piece) == w);
                assert(pop_first_scalar(piece) =~= Seq::<u8>::empty());
                assert(valid_utf8(Seq::<u8>::empty()));
                assert(valid_utf8(pop_first_scalar(piece)));
                assert(valid_utf8(piece));
                vstd::utf8::decode_utf8_first_scalar(piece);
                assert(vstd::utf8::decode_first_scalar(piece) == cp);
                vstd::utf8::char_u32_cast(c, cp);
                assert(vstd::utf8::take_first_scalar(piece) =~= piece);
                assert(encode_scalar(c as u32) == piece);
                lemma_encode_utf8_push(out@.skip(base_out.len() as int), c);
                assert((out@.push(c)).skip(base_out.len() as int) =~= out@.skip(
                    base_out.len() as int,
                ).push(c));
                assert(data@.take(i as int + w as int) =~= data@.take(i as int) + piece);
            }
            out.push(c);
            proof {
                assert(base_out.is_prefix_of(out@));
            }
            i = i + w;
        }
        proof {
            assert(data@.take(n as int) =~= data@);
            assert(out@ =~= base_out + out@.skip(base_out.len() as int));
            crate::wordlist::lemma_encode_concat(base_out, out@.skip(base_out.len() as int));
            assert(encode_utf8(out@) + self.held@ =~= encode_utf8(base_out) + data@);
            assert(encode_utf8(out@) + self.held@ =~= encode_utf8(old(out)@) + old(
                self,
            ).held_bytes() + chunk@);
        }
        Ok(())
    }

    /// Ends the stream: fails if a partial encoding is still held over,
    /// because the input then ended in the middle of one character.
    pub fn finish(&self) -> (r: Result<(), Error>)
        requires
            self.wf(),
        ensures
            match r {
                Ok(()) => self.held_bytes() == Seq::<u8>::empty(),
                Err(e) => e == Error::InvalidUtf8 && !valid_utf8(self.held_bytes()),
            },
    {
        if self.held.len() == 0 {
            proof {
                assert(self.held@ =~= Seq::<u8>::empty());
            }
            Ok(())
        } else {
            proof {
                lemma_incomplete_not_valid(self.held@);
            }
            Err(Error::InvalidUtf8)
        }
    }
}

} // verus!
