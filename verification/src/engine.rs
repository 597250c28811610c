//! The pipeline engine: selects the batch or the streaming strategy and
//! applies the operations in their mandated order.
//!
//! Batch order: length filter, then per-entry reversal, then either sort
//! followed by adjacent deduplication, or order-preserving deduplication
//! alone.  Streaming order per entry: trim, length filter, uniqueness
//! check with memory admission, reversal, emission.

use vstd::prelude::*;
use crate::error::Error;
use crate::memory::{mem_fits, MIN_AVL_MEM};
use crate::params::Params;
use crate::text::{
    byte_len, char_seq_le, contains_entry, copy_entry, entry_byte_len, entry_views,
    in_length_range, in_range, split_lines, split_lines_exec, trim, trim_spec,
};
use crate::wordlist::{
    dedup_adj_spec, dedup_adjacent, dedup_first_spec, dedup_unsorted, entries_of, from_buffer,
    in_range_fn, length_filter, rev_entry, rev_entry_fn, reverse_each, reverse_graphemes,
    sort_bytewise, wordlist_take,
};

verus! {

/// The wordlist after the byte-length filter, where one is configured.
pub open spec fn spec_filtered(p: Params, es: Seq<Seq<char>>) -> Seq<Seq<char>> {
    if p.min_len is Some || p.max_len is Some {
        es.filter(in_range_fn(p.min_len_or_default(), p.max_len_or_default()))
    } else {
        es
    }
}

/// The wordlist after the filter and the per-entry reversal.
pub open spec fn spec_transformed(p: Params, es: Seq<Seq<char>>) -> Seq<Seq<char>> {
    if p.reverse {
        spec_filtered(p, es).map_values(rev_entry_fn())
    } else {
        spec_filtered(p, es)
    }
}

/// The wordlist after the batch operations, in their mandated order.
pub open spec fn spec_apply_ops(p: Params, es: Seq<Seq<char>>) -> Seq<Seq<char>> {
    let es2 = spec_transformed(p, es);
    if p.sort && p.unique {
        dedup_adj_spec(es2.sort_by(char_seq_le()))
    } else if p.sort {
        es2.sort_by(char_seq_le())
    } else if p.unique {
        dedup_first_spec(es2)
    } else {
        es2
    }
}

/// The full batch result for a raw input text.
pub open spec fn spec_stock(p: Params, buffer: Seq<char>) -> Seq<Seq<char>> {
    spec_apply_ops(p, entries_of(buffer))
}

/// Batch mode: materializes the wordlist out of the whole input, applies
/// the operations in the mandated order, and hands the result out.  The
/// only failure is a denied memory admission for the wordlist, judged
/// against the given available-memory level.
pub fn stock_mode(params: &Params, buffer: &Vec<char>, avl_mem: usize) -> (r: Result<
    Vec<Vec<char>>,
    Error,
>)
    ensures
        match r {
            Ok(wl) => mem_fits(avl_mem as int, wordlist_take(buffer@)) && entry_views(wl@)
                == spec_stock(*params, buffer@),
            Err(e) => e == Error::LowMemory && !mem_fits(avl_mem as int, wordlist_take(buffer@)),
        },
{
    let mut wl = match from_buffer(buffer, avl_mem) {
        Ok(w) => w,
        Err(e) => {
            return Err(e);
        },
    };
    if params.has_length_range() {
        let min_len = match params.min_len {
            Some(m) => m,
            None => 0,
        };
        let max_len = match params.max_len {
            Some(m) => m,
            None => usize::MAX,
        };
        length_filter(&mut wl, min_len, max_len);
    }
    if params.reverse {
        reverse_each(&mut wl);
    }
    if params.sort && params.unique {
        sort_bytewise(&mut wl);
        dedup_adjacent(&mut wl);
    } else if params.sort {
        sort_bytewise(&mut wl);
    } else if params.unique {
        dedup_unsorted(&mut wl);
    }
    Ok(wl)
}

/// Runs the pipeline over an in-memory input with the strategy the
/// configuration selects: streaming when `pipe` is set, batch otherwise.
pub fn run(params: &Params, buffer: &Vec<char>, avl_mem: usize) -> (r: Result<Vec<Vec<char>>, Error>)
    requires
        params.valid(),
    ensures
        params.pipe ==> match r {
            Ok(out) => spec_pipe(*params, buffer@, avl_mem as int) == Ok::<Seq<Seq<char>>, Error>(
                entry_views(out@),
            ),
            Err(e) => spec_pipe(*params, buffer@, avl_mem as int) == Err::<Seq<Seq<char>>, Error>(
                e,
            ),
        },
        !params.pipe ==> match r {
            Ok(wl) => mem_fits(avl_mem as int, wordlist_take(buffer@)) && entry_views(wl@)
                == spec_stock(*params, buffer@),
            Err(e) => e == Error::LowMemory && !mem_fits(avl_mem as int, wordlist_take(buffer@)),
        },
{
    if params.pipe {
        pipe_mode(params, buffer, avl_mem)
    } else {
        stock_mode(params, buffer, avl_mem)
    }
}

/// The retained unique entries of a streaming run.
pub struct PipeState {
    /// Every entry that has been emitted so far, when `unique` is on.
    pub uniques: Vec<Vec<char>>,
}

impl PipeState {
    /// A fresh streaming state with no retained entries.
    pub fn new() -> (s: PipeState)
        ensures
            s.uniques@.len() == 0,
    {
        PipeState { uniques: Vec::new() }
    }
}

/// True when the line survives the per-entry checks: non-empty after
/// trimming, byte length within bounds, and not a duplicate of a retained
/// entry when `unique` is on.
pub open spec fn step_keeps(p: Params, uniques: Seq<Seq<char>>, line: Seq<char>) -> bool {
    let t = trim_spec(line);
    &&& t.len() > 0
    &&& in_range(t, p.min_len_or_default(), p.max_len_or_default())
    &&& !(p.unique && uniques.contains(t))
}

/// True when the memory oracle admits the step: retaining a fresh unique
/// entry must leave the reserve untouched; every other step is free.
pub open spec fn step_admitted(p: Params, uniques: Seq<Seq<char>>, line: Seq<char>, avl: int) -> bool {
    !(step_keeps(p, uniques, line) && p.unique) || mem_fits(
        avl,
        byte_len(trim_spec(line)) as int,
    )
}

/// The retained entries after the step.
pub open spec fn step_uniques(p: Params, uniques: Seq<Seq<char>>, line: Seq<char>) -> Seq<
    Seq<char>,
> {
    if step_keeps(p, uniques, line) && p.unique {
        uniques.push(trim_spec(line))
    } else {
        uniques
    }
}

/// What the step emits: the trimmed entry, reversed when `reverse` is on,
/// or nothing when the line is filtered out.
pub open spec fn step_emit(p: Params, uniques: Seq<Seq<char>>, line: Seq<char>) -> Option<
    Seq<char>,
> {
    if step_keeps(p, uniques, line) {
        Some(
            if p.reverse {
                rev_entry(trim_spec(line))
            } else {
                trim_spec(line)
            },
        )
    } else {
        None
    }
}

/// One streaming step: trims the line, applies the length filter, the
/// uniqueness check and the memory admission, and hands back the entry to
/// write, already reversed if requested.  `Ok(None)` discards the line.
pub fn pipe_step(params: &Params, state: &mut PipeState, line: &Vec<char>, avl_mem: usize) -> (r:
    Result<Option<Vec<char>>, Error>)
    ensures
        match r {
            Ok(emit) => {
                &&& step_admitted(
                    *params,
                    entry_views(old(state).uniques@),
                    line@,
                    avl_mem as int,
                )
                &&& entry_views(final(state).uniques@) == step_uniques(
                    *params,
                    entry_views(old(state).uniques@),
                    line@,
                )
                &&& match emit {
                    Some(e) => step_emit(*params, entry_views(old(state).uniques@), line@)
                        == Some(e@),
                    None => step_emit(*params, entry_views(old(state).uniques@), line@)
                        is None,
                }
            },
            Err(e) => {
                &&& e == Error::LowMemory
                &&& !step_admitted(
                    *params,
                    entry_views(old(state).uniques@),
                    line@,
                    avl_mem as int,
                )
                &&& final(state).uniques@ == old(state).uniques@
            },
        },
{
    let mut t = trim(line);
    if t.len() == 0 {
        return Ok(None);
    }
    let min_len = match params.min_len {
        Some(m) => m,
        None => 0,
    };
    let max_len = match params.max_len {
        Some(m) => m,
        None => usize::MAX,
    };
    if !in_length_range(&t, min_len, max_len) {
        return Ok(None);
    }
    if params.unique {
        if contains_entry(&state.uniques, &t) {
            return Ok(None);
        }
        let take = entry_byte_len(&t);
        if !(take <= avl_mem as u128 && avl_mem as u128 - take >= MIN_AVL_MEM as u128) {
            return Err(Error::LowMemory);
        }
        let kept = copy_entry(&t);
        state.uniques.push(kept);
        proof {
            assert(entry_views(state.uniques@) =~= entry_views(old(state).uniques@).push(
                trim_spec(line@),
            ));
        }
    }
    if params.reverse {
        t = reverse_graphemes(&t);
    }
    Ok(Some(t))
}

/// The streaming run over a sequence of lines, threading the retained
/// entries through the steps; the emitted entries in order, or the first
/// admission failure.
pub open spec fn spec_pipe_lines(
    p: Params,
    uniques: Seq<Seq<char>>,
    lines: Seq<Seq<char>>,
    avl: int,
) -> Result<Seq<Seq<char>>, Error>
    decreases lines.len(),
{
    if lines.len() == 0 {
        Ok(Seq::empty())
    } else {
        let line = lines.first();
        if !step_admitted(p, uniques, line, avl) {
            Err(Error::LowMemory)
        } else {
            match spec_pipe_lines(p, step_uniques(p, uniques, line), lines.drop_first(), avl) {
                Ok(out) => Ok(
                    match step_emit(p, uniques, line) {
                        Some(e) => seq![e] + out,
                        None => out,
                    },
                ),
                Err(e) => Err(e),
            }
        }
    }
}

/// The full streaming result for a raw input text: its lines, each taken
/// through the per-entry steps.
pub open spec fn spec_pipe(p: Params, buffer: Seq<char>, avl: int) -> Result<Seq<Seq<char>>, Error> {
    spec_pipe_lines(p, Seq::empty(), split_lines(buffer), avl)
}

/// Streaming mode over an in-memory input: every line is taken through
/// the per-entry steps in order, and the emitted entries are collected.
/// The caller writes and flushes each emitted entry before handing the
/// next line in; this function is that same loop run to completion.
pub fn pipe_mode(params: &Params, buffer: &Vec<char>, avl_mem: usize) -> (r: Result<
    Vec<Vec<char>>,
    Error,
>)
    ensures
        match r {
            Ok(out) => spec_pipe(*params, buffer@, avl_mem as int) == Ok::<
                Seq<Seq<char>>,
                Error,
            >(entry_views(out@)),
            Err(e) => spec_pipe(*params, buffer@, avl_mem as int) == Err::<
                Seq<Seq<char>>,
                Error,
            >(e),
        },
{
    let ghost avl = avl_mem as int;
    let lines = split_lines_exec(buffer);
    let n = lines.len();
    let mut state = PipeState::new();
    let mut out: Vec<Vec<char>> = Vec::new();
    let mut i: usize = 0;
    let ghost lv = entry_views(lines@);
    proof {
        assert(entry_views(state.uniques@) =~= Seq::<Seq<char>>::empty());
        assert(lv.skip(0) =~= lv);
        assert(entry_views(out@) =~= Seq::<Seq<char>>::empty());
        assert(entry_views(out@) + lv =~= lv);
        if spec_pipe_lines(*params, entry_views(state.uniques@), lv.skip(0), avl) is Ok {
            assert(entry_views(out@) + spec_pipe_lines(
                *params,
                entry_views(state.uniques@),
                lv.skip(0),
                avl,
            )->Ok_0 =~= spec_pipe_lines(*params, entry_views(state.uniques@), lv.skip(0), avl)->Ok_0);
        }
    }
    while i < n
        invariant
            0 <= i <= n,
            n == lines@.len(),
            lv == entry_views(lines@),
            avl == avl_mem as int,
            spec_pipe(*params, buffer@, avl) == spec_pipe_lines(*params, Seq::empty(), lv, avl),
            match spec_pipe_lines(*params, entry_views(state.uniques@), lv.skip(i as int), avl) {
                Ok(rest) => spec_pipe(*params, buffer@, avl) == Ok::<Seq<Seq<char>>, Error>(
                    entry_views(out@) + rest,
                ),
                Err(e) => spec_pipe(*params, buffer@, avl) == Err::<Seq<Seq<char>>, Error>(e),
            },
        decreases n - i,
    {
        let ghost us = entry_views(state.uniques@);
        let ghost rem = lv.skip(i as int);
        proof {
            assert(rem.len() > 0);
            assert(rem.first() == lv[i as int]);
            assert(rem.drop_first() =~= lv.skip(i as int + 1));
            assert(lv[i as int] == lines@[i as int]@);
        }
        let step = pipe_step(params, &mut state, &lines[i], avl_mem);
        match step {
            Err(e) => {
                proof {
                    assert(spec_pipe_lines(*params, us, rem, avl) == Err::<
                        Seq<Seq<char>>,
                        Error,
                    >(Error::LowMemory));
                }
                return Err(e);
            },
            Ok(emit) => {
                let ghost out_old = entry_views(out@);
                let ghost prefix: Seq<Seq<char>> = match step_emit(*params, us, lv[i as int]) {
                    Some(e) => seq![e],
                    None => Seq::empty(),
                };
                match emit {
                    Some(e) => {
                        out.push(e);
                        proof {
                            assert(entry_views(out@) =~= out_old + prefix);
                        }
                    },
                    None => {
                        proof {
                            assert(entry_views(out@) =~= out_old + prefix);
                        }
                    },
                }
                proof {
                    let tail = spec_pipe_lines(
                        *params,
                        entry_views(state.uniques@),
                        lv.skip(i as int + 1),
                        avl,
                    );
                    assert(spec_pipe_lines(
                        *params,
                        step_uniques(*params, us, lv[i as int]),
                        rem.drop_first(),
                        avl,
                    ) == tail);
                    if tail is Ok {
                        let rest2 = tail->Ok_0;
                        assert(spec_pipe_lines(*params, us, rem, avl) == Ok::<
                            Seq<Seq<char>>,
                            Error,
                        >(prefix + rest2));
                        assert(out_old + (prefix + rest2) =~= (out_old + prefix) + rest2);
                    } else {
                        assert(spec_pipe_lines(*params, us, rem, avl) == tail);
                    }
                }
            },
        }
        i = i + 1;
    }
    proof {
        assert(lv.skip(n as int) =~= Seq::<Seq<char>>::empty());
        assert(spec_pipe_lines(*params, entry_views(state.uniques@), lv.skip(n as int), avl)
            == Ok::<Seq<Seq<char>>, Error>(Seq::empty()));
        assert(entry_views(out@) + Seq::<Seq<char>>::empty() =~= entry_views(out@));
    }
    Ok(out)
}

} // verus!
