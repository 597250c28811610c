//! The compute part of the buffered input layer: admission checks before
//! reading, and UTF-8 assembly of the raw chunks that arrive from the
//! standard input.  The raw reads themselves are the caller's concern.

use vstd::prelude::*;
use vstd::utf8::{decode_utf8, encode_utf8, valid_utf8};
use crate::encoding::{lemma_prefix_invalid, StreamDecoder};
use crate::error::Error;
use crate::memory::{is_memory_enough_with, mem_fits, IO_BUF_SIZE};
use crate::params::Params;

verus! {

/// The views of a vector of byte chunks.
pub open spec fn byte_views(s: Seq<Vec<u8>>) -> Seq<Seq<u8>> {
    s.map_values(|v: Vec<u8>| v@)
}

/// Flattening distributes over concatenation of chunk lists.
proof fn lemma_flatten_concat(a: Seq<Seq<u8>>, b: Seq<Seq<u8>>)
    ensures
        (a + b).flatten() == a.flatten() + b.flatten(),
    decreases a.len(),
{
    if a.len() == 0 {
        assert(a + b =~= b);
        assert(a.flatten() + b.flatten() =~= b.flatten());
    } else {
        lemma_flatten_concat(a.drop_first(), b);
        assert((a + b).drop_first() =~= a.drop_first() + b);
        assert((a + b).first() == a.first());
        assert((a + b).flatten() =~= a.flatten() + b.flatten());
    }
}

/// The pre-read admission check for a file input: an empty file is
/// refused as a no-op, and when the whole file must be held in memory for
/// sorting or deduplication, its size must stay below the available
/// memory less five I/O buffers' worth of overhead.
pub fn input_admission(params: &Params, file_size: usize, avl_mem: usize) -> (r: Result<(), Error>)
    ensures
        match r {
            Ok(()) => file_size > 0 && ((params.sort || params.unique) ==> (file_size as int)
                < avl_mem as int - 5 * (IO_BUF_SIZE as int)),
            Err(e) => if file_size == 0 {
                e == Error::EmptyInput
            } else {
                e == Error::LowMemory && (params.sort || params.unique) && (file_size as int)
                    >= avl_mem as int - 5 * (IO_BUF_SIZE as int)
            },
        },
{
    if file_size == 0 {
        return Err(Error::EmptyInput);
    }
    if params.sort || params.unique {
        if avl_mem < 5 * IO_BUF_SIZE || file_size >= avl_mem - 5 * IO_BUF_SIZE {
            return Err(Error::LowMemory);
        }
    }
    Ok(())
}

/// The admission check before a whole known-size file is read: reading
/// `file_size` bytes must leave the memory reserve untouched.  On success
/// the caller pre-sizes its buffer to the returned capacity and performs
/// the read.
pub fn read_from_file(file_size: usize, avl_mem: usize) -> (r: Result<usize, Error>)
    ensures
        r == if mem_fits(avl_mem as int, file_size as int) {
            Ok::<usize, Error>(file_size)
        } else {
            Err::<usize, Error>(Error::LowMemory)
        },
{
    if is_memory_enough_with(avl_mem, file_size) {
        Ok(file_size)
    } else {
        Err(Error::LowMemory)
    }
}

/// Assembles the raw chunks read from the standard input into the decoded
/// input text.  Validation is incremental — a character split across a
/// chunk boundary is held over, never rejected — and the result is
/// exactly the decoding of the concatenated bytes: the chunk boundaries
/// leave no trace.
pub fn read_from_stdin(chunks: &Vec<Vec<u8>>) -> (r: Result<Vec<char>, Error>)
    ensures
        match r {
            Ok(out) => valid_utf8(byte_views(chunks@).flatten()) && out@ == decode_utf8(
                byte_views(chunks@).flatten(),
            ),
            Err(e) => e == Error::InvalidUtf8 && !valid_utf8(byte_views(chunks@).flatten()),
        },
{
    broadcast use vstd::utf8::encode_utf8_valid_utf8;

    let ghost all = byte_views(chunks@).flatten();
    let mut dec = StreamDecoder::new();
    let mut out: Vec<char> = Vec::new();
    let n = chunks.len();
    let mut i: usize = 0;
    proof {
        assert(byte_views(chunks@.take(0)).flatten() =~= Seq::<u8>::empty());
        assert(encode_utf8(out@) =~= Seq::<u8>::empty());
        assert(encode_utf8(out@) + dec.held_bytes() =~= byte_views(chunks@.take(0)).flatten());
    }
    while i < n
        invariant
            0 <= i <= n,
            n == chunks@.len(),
            all == byte_views(chunks@).flatten(),
            dec.wf(),
            encode_utf8(out@) + dec.held_bytes() == byte_views(chunks@.take(i as int)).flatten(),
        decreases n - i,
    {
        let ghost held0 = dec.held_bytes();
        let ghost out0 = out@;
        let res = dec.push_chunk(&mut out, &chunks[i]);
        proof {
            assert(byte_views(chunks@.take(i as int + 1)) =~= byte_views(
                chunks@.take(i as int),
            ).push(chunks@[i as int]@));
            byte_views(chunks@.take(i as int)).lemma_flatten_push(chunks@[i as int]@);
        }
        match res {
            Ok(()) => {
                proof {
                    assert(encode_utf8(out@) + dec.held_bytes() =~= byte_views(
                        chunks@.take(i as int + 1),
                    ).flatten());
                }
            },
            Err(e) => {
                proof {
                    let rest = byte_views(chunks@.skip(i as int + 1)).flatten();
                    assert(byte_views(chunks@) =~= byte_views(chunks@.take(i as int))
                        + byte_views(chunks@.skip(i as int)));
                    lemma_flatten_concat(
                        byte_views(chunks@.take(i as int)),
                        byte_views(chunks@.skip(i as int)),
                    );
                    assert(byte_views(chunks@.skip(i as int)) =~= seq![chunks@[i as int]@]
                        + byte_views(chunks@.skip(i as int + 1)));
                    lemma_flatten_concat(
                        seq![chunks@[i as int]@],
                        byte_views(chunks@.skip(i as int + 1)),
                    );
                    seq![chunks@[i as int]@].lemma_flatten_singleton();
                    assert(seq![chunks@[i as int]@].flatten() =~= chunks@[i as int]@);
                    assert(!valid_utf8(held0 + chunks@[i as int]@ + rest));
                    vstd::utf8::encode_utf8_valid_utf8(out0);
                    lemma_prefix_invalid(
                        encode_utf8(out0),
                        held0 + chunks@[i as int]@ + rest,
                    );
                    assert(all =~= encode_utf8(out0) + (held0 + chunks@[i as int]@ + rest));
                }
                return Err(e);
            },
        }
        i = i + 1;
    }
    proof {
        assert(chunks@.take(n as int) =~= chunks@);
    }
    match dec.finish() {
        Ok(()) => {
            proof {
                assert(encode_utf8(out@) + dec.held_bytes() =~= encode_utf8(out@));
                assert(all == encode_utf8(out@));
                vstd::utf8::encode_utf8_decode_utf8(out@);
            }
            Ok(out)
        },
        Err(e) => {
            proof {
                lemma_prefix_invalid(encode_utf8(out@), dec.held_bytes());
                assert(all =~= encode_utf8(out@) + dec.held_bytes());
            }
            Err(e)
        },
    }
}

} // verus!
