//! The laws the library states about itself, each proved once and for all
//! inputs: identity of deduplication on duplicate-free lists, preservation
//! of first-seen order, reversal as an involution, the length bounds and
//! non-emptiness of everything the batch pipeline emits, and the
//! monotonicity of memory admission.

use vstd::prelude::*;
use crate::engine::{
    spec_apply_ops, spec_filtered, spec_pipe_lines, spec_transformed, step_admitted, step_uniques,
};
use crate::memory::mem_fits;
use crate::params::Params;
use crate::text::{
    char_seq_le, in_range, lemma_byte_len_ge_len, lemma_char_seq_le_total_ordering,
};
use crate::wordlist::{
    dedup_adj_spec, dedup_first_spec, graphemes_of, lemma_dedup_first_contains,
    lemma_rev_entry_preserves_bytes, rev_entry, rev_entry_fn, wordlist_take,
};

verus! {

/// Order-preserving deduplication leaves an already-unique wordlist
/// untouched: with no duplicates, every entry is its own first occurrence.
pub proof fn lemma_dedup_identity(s: Seq<Seq<char>>)
    requires
        forall|i: int, j: int| 0 <= i < j < s.len() ==> s[i] != s[j],
    ensures
        dedup_first_spec(s) == s,
    decreases s.len(),
{
    if s.len() > 0 {
        let d = s.drop_last();
        lemma_dedup_identity(d);
        if d.contains(s.last()) {
            let i = choose|i: int| 0 <= i < d.len() && d[i] == s.last();
            assert(s[i] == s[s.len() - 1]);
            assert(false);
        }
        assert(dedup_first_spec(s) =~= s);
    }
}

/// The position of the first occurrence of `x` in `s`.
pub open spec fn first_index(s: Seq<Seq<char>>, x: Seq<char>) -> int
    decreases s.len(),
{
    if s.len() == 0 {
        0
    } else if s.first() == x {
        0
    } else {
        1 + first_index(s.drop_first(), x)
    }
}

/// What the first-occurrence position means.
pub proof fn lemma_first_index_props(s: Seq<Seq<char>>, x: Seq<char>)
    requires
        s.contains(x),
    ensures
        0 <= first_index(s, x) < s.len(),
        s[first_index(s, x)] == x,
        forall|j: int| 0 <= j < first_index(s, x) ==> s[j] != x,
    decreases s.len(),
{
    if s.first() != x {
        assert(s.drop_first().contains(x)) by {
            let i = choose|i: int| 0 <= i < s.len() && s[i] == x;
            assert(s.drop_first()[i - 1] == x);
        }
        lemma_first_index_props(s.drop_first(), x);
        assert forall|j: int| 0 <= j < first_index(s, x) implies s[j] != x by {
            if j > 0 {
                assert(s.drop_first()[j - 1] == s[j]);
            }
        }
    }
}

/// Dropping the last element does not move an earlier first occurrence.
proof fn lemma_first_index_drop_last(s: Seq<Seq<char>>, x: Seq<char>)
    requires
        s.len() > 0,
        s.drop_last().contains(x),
    ensures
        first_index(s, x) == first_index(s.drop_last(), x),
    decreases s.len(),
{
    let d = s.drop_last();
    if s.first() != x {
        assert(d.first() == s.first());
        assert(d.drop_first().contains(x)) by {
            let i = choose|i: int| 0 <= i < d.len() && d[i] == x;
            assert(i > 0);
            assert(d.drop_first()[i - 1] == x);
        }
        assert(s.drop_first().drop_last() =~= d.drop_first());
        lemma_first_index_drop_last(s.drop_first(), x);
    }
}

/// A last element with no earlier occurrence first occurs at the end.
proof fn lemma_first_index_fresh_last(s: Seq<Seq<char>>, x: Seq<char>)
    requires
        s.len() > 0,
        s.last() == x,
        !s.drop_last().contains(x),
    ensures
        first_index(s, x) == s.len() - 1,
    decreases s.len(),
{
    if s.len() > 1 {
        assert(s.first() == s.drop_last()[0]);
        assert(s.first() != x);
        assert(s.drop_first().last() == x);
        assert(!s.drop_first().drop_last().contains(x)) by {
            if s.drop_first().drop_last().contains(x) {
                let i = choose|i: int|
                    0 <= i < s.drop_first().drop_last().len() && s.drop_first().drop_last()[i]
                        == x;
                assert(s.drop_last()[i + 1] == x);
            }
        }
        lemma_first_index_fresh_last(s.drop_first(), x);
    }
}

/// Deduplication preserves first-seen order: of any two retained entries,
/// the earlier one first occurred earlier in the input.
pub proof fn lemma_dedup_preserves_order(s: Seq<Seq<char>>)
    ensures
        forall|i: int, j: int|
            0 <= i < j < dedup_first_spec(s).len() ==> first_index(s, dedup_first_spec(s)[i])
                < first_index(s, dedup_first_spec(s)[j]),
    decreases s.len(),
{
    if s.len() > 0 {
        let d = s.drop_last();
        let p = dedup_first_spec(d);
        lemma_dedup_preserves_order(d);
        assert forall|i: int, j: int|
            0 <= i < j < dedup_first_spec(s).len() implies first_index(
            s,
            dedup_first_spec(s)[i],
        ) < first_index(s, dedup_first_spec(s)[j]) by {
            if d.contains(s.last()) {
                assert(dedup_first_spec(s) == p);
                assert(p.contains(p[i]) && p.contains(p[j]));
                lemma_dedup_first_contains(d, p[i]);
                lemma_dedup_first_contains(d, p[j]);
                lemma_first_index_drop_last(s, p[i]);
                lemma_first_index_drop_last(s, p[j]);
            } else {
                assert(dedup_first_spec(s) == p.push(s.last()));
                if j < p.len() {
                    assert(p.push(s.last())[i] == p[i]);
                    assert(p.push(s.last())[j] == p[j]);
                    assert(p.contains(p[i]) && p.contains(p[j]));
                    lemma_dedup_first_contains(d, p[i]);
                    lemma_dedup_first_contains(d, p[j]);
                    lemma_first_index_drop_last(s, p[i]);
                    lemma_first_index_drop_last(s, p[j]);
                } else {
                    assert(p.push(s.last())[j] == s.last());
                    assert(p.push(s.last())[i] == p[i]);
                    assert(p.contains(p[i]));
                    lemma_dedup_first_contains(d, p[i]);
                    lemma_first_index_drop_last(s, p[i]);
                    lemma_first_index_props(d, p[i]);
                    lemma_first_index_fresh_last(s, s.last());
                }
            }
        }
    }
}

/// Grapheme reversal applied twice gives the original entry back, for an
/// entry whose cluster list concatenates back to it and whose reversal
/// segments into exactly the reversed cluster list.  The second premise
/// can fail for degenerate entries — one that begins with an unattached
/// combining mark re-segments differently after reversal — and such
/// entries are the known exception to the involution.
pub proof fn lemma_reverse_involution(s: Seq<char>)
    requires
        graphemes_of(s).flatten() == s,
        graphemes_of(rev_entry(s)) == graphemes_of(s).reverse(),
    ensures
        rev_entry(rev_entry(s)) == s,
{
    assert(graphemes_of(s).reverse().reverse() =~= graphemes_of(s));
}

/// Everything the batch operations emit was present after the filter and
/// the reversal: sorting and both deduplications only drop or reorder.
pub proof fn lemma_apply_ops_membership(p: Params, es: Seq<Seq<char>>, x: Seq<char>)
    requires
        spec_apply_ops(p, es).contains(x),
    ensures
        spec_transformed(p, es).contains(x),
{
    let es2 = spec_transformed(p, es);
    if p.sort && p.unique {
        lemma_dedup_adj_sub(es2.sort_by(char_seq_le()), x);
        lemma_char_seq_le_total_ordering();
        es2.lemma_sort_by_ensures(char_seq_le());
    } else if p.sort {
        lemma_char_seq_le_total_ordering();
        es2.lemma_sort_by_ensures(char_seq_le());
    } else if p.unique {
        lemma_dedup_first_contains(es2, x);
    }
}

/// Adjacent deduplication only drops entries.
pub proof fn lemma_dedup_adj_sub(s: Seq<Seq<char>>, x: Seq<char>)
    requires
        dedup_adj_spec(s).contains(x),
    ensures
        s.contains(x),
    decreases s.len(),
{
    if s.len() > 0 {
        let p = dedup_adj_spec(s.drop_last());
        if s.len() >= 2 && s.last() == s[s.len() - 2] {
            lemma_dedup_adj_sub(s.drop_last(), x);
            let i = choose|i: int| 0 <= i < s.drop_last().len() && s.drop_last()[i] == x;
            assert(s[i] == x);
        } else {
            let i = choose|i: int| 0 <= i < p.push(s.last()).len() && p.push(s.last())[i] == x;
            if i < p.len() {
                assert(p.contains(x));
                lemma_dedup_adj_sub(s.drop_last(), x);
                let k = choose|k: int| 0 <= k < s.drop_last().len() && s.drop_last()[k] == x;
                assert(s[k] == x);
            } else {
                assert(s.last() == x);
                assert(s[s.len() - 1] == x);
            }
        }
    }
}

/// Everything the filter-and-reverse stage emits is an in-range entry or
/// the reversal of one.
proof fn lemma_transformed_shape(p: Params, es: Seq<Seq<char>>, x: Seq<char>)
    requires
        spec_transformed(p, es).contains(x),
    ensures
        exists|e: Seq<char>|
            spec_filtered(p, es).contains(e) && x == (if p.reverse {
                rev_entry(e)
            } else {
                e
            }),
{
    let es1 = spec_filtered(p, es);
    if p.reverse {
        let i = choose|i: int|
            0 <= i < es1.map_values(rev_entry_fn()).len() && es1.map_values(rev_entry_fn())[i]
                == x;
        assert(es1.contains(es1[i]) && x == rev_entry(es1[i]));
    } else {
        assert(es1.contains(x));
    }
}

/// Every entry the batch pipeline emits has a byte length within the
/// configured bounds, provided each input entry's grapheme clusters
/// concatenate back to the entry (which holds of the segmenter, and which
/// the reversal records for every entry it touches).
pub proof fn lemma_emitted_lengths_bounded(p: Params, es: Seq<Seq<char>>)
    requires
        p.min_len is Some || p.max_len is Some,
        forall|e: Seq<char>| es.contains(e) ==> #[trigger] graphemes_of(e).flatten() == e,
    ensures
        forall|j: int|
            0 <= j < spec_apply_ops(p, es).len() ==> in_range(
                #[trigger] spec_apply_ops(p, es)[j],
                p.min_len_or_default(),
                p.max_len_or_default(),
            ),
{
    let min = p.min_len_or_default();
    let max = p.max_len_or_default();
    let pred = crate::wordlist::in_range_fn(min, max);
    assert forall|j: int| 0 <= j < spec_apply_ops(p, es).len() implies in_range(
        #[trigger] spec_apply_ops(p, es)[j],
        min,
        max,
    ) by {
        let x = spec_apply_ops(p, es)[j];
        assert(spec_apply_ops(p, es).contains(x));
        lemma_apply_ops_membership(p, es, x);
        lemma_transformed_shape(p, es, x);
        let e = choose|e: Seq<char>|
            spec_filtered(p, es).contains(e) && x == (if p.reverse {
                rev_entry(e)
            } else {
                e
            });
        let i = choose|i: int|
            0 <= i < spec_filtered(p, es).len() && spec_filtered(p, es)[i] == e;
        es.lemma_filter_pred(pred, i);
        es.lemma_filter_contains_rev(pred, e);
        if p.reverse {
            lemma_rev_entry_preserves_bytes(e);
        }
    }
}

/// No entry the batch pipeline emits is empty, under the same segmentation
/// premise: the non-empty filter at the boundary drops empty entries, the
/// length filter and the deduplications only drop entries, and reversal
/// preserves the byte length.
pub proof fn lemma_emitted_entries_nonempty(p: Params, es: Seq<Seq<char>>)
    requires
        forall|e: Seq<char>| es.contains(e) ==> #[trigger] graphemes_of(e).flatten() == e,
        forall|k: int| 0 <= k < es.len() ==> #[trigger] es[k].len() > 0,
    ensures
        forall|j: int|
            0 <= j < spec_apply_ops(p, es).len() ==> #[trigger] spec_apply_ops(p, es)[j].len()
                > 0,
{
    let min = p.min_len_or_default();
    let max = p.max_len_or_default();
    let pred = crate::wordlist::in_range_fn(min, max);
    assert forall|j: int| 0 <= j < spec_apply_ops(p, es).len() implies #[trigger] spec_apply_ops(
        p,
        es,
    )[j].len() > 0 by {
        let x = spec_apply_ops(p, es)[j];
        assert(spec_apply_ops(p, es).contains(x));
        lemma_apply_ops_membership(p, es, x);
        lemma_transformed_shape(p, es, x);
        let e = choose|e: Seq<char>|
            spec_filtered(p, es).contains(e) && x == (if p.reverse {
                rev_entry(e)
            } else {
                e
            });
        if p.min_len is Some || p.max_len is Some {
            es.lemma_filter_contains_rev(pred, e);
        }
        let k = choose|k: int| 0 <= k < es.len() && es[k] == e;
        assert(es[k].len() > 0);
        if p.reverse {
            lemma_rev_entry_preserves_bytes(e);
            lemma_byte_len_ge_len(e);
            lemma_byte_len_ge_len(rev_entry(e));
        }
    }
}

/// Batch admission is monotone in the available memory: a wordlist that is
/// refused at some level is refused at every lower level.
pub proof fn lemma_batch_admission_monotonic(buffer: Seq<char>, avl1: int, avl2: int)
    requires
        !mem_fits(avl1, wordlist_take(buffer)),
        avl2 <= avl1,
    ensures
        !mem_fits(avl2, wordlist_take(buffer)),
{
}

/// Streaming admission is monotone in the available memory: a run that
/// fails admission at some level also fails at every lower level.
pub proof fn lemma_pipe_admission_monotonic(
    p: Params,
    uniques: Seq<Seq<char>>,
    lines: Seq<Seq<char>>,
    avl1: int,
    avl2: int,
)
    requires
        spec_pipe_lines(p, uniques, lines, avl1) is Err,
        avl2 <= avl1,
    ensures
        spec_pipe_lines(p, uniques, lines, avl2) is Err,
    decreases lines.len(),
{
    if lines.len() > 0 {
        let line = lines.first();
        if step_admitted(p, uniques, line, avl1) && step_admitted(p, uniques, line, avl2) {
            lemma_pipe_admission_monotonic(
                p,
                step_uniques(p, uniques, line),
                lines.drop_first(),
                avl1,
                avl2,
            );
        }
    }
}


/// Membership is decided elementwise at the front.
proof fn lemma_contains_front(s: Seq<Seq<char>>, x: Seq<char>)
    requires
        s.len() > 0,
    ensures
        s.contains(x) == (s.first() == x || s.drop_first().contains(x)),
{
    if s.contains(x) {
        let i = choose|i: int| 0 <= i < s.len() && s[i] == x;
        if i > 0 {
            assert(s.drop_first()[i - 1] == x);
        }
    }
    if s.drop_first().contains(x) {
        let i = choose|i: int| 0 <= i < s.drop_first().len() && s.drop_first()[i] == x;
        assert(s[i + 1] == x);
    }
}

/// Membership after a push is membership before, or the new element.
proof fn lemma_contains_push(s: Seq<Seq<char>>, y: Seq<char>, x: Seq<char>)
    ensures
        s.push(y).contains(x) == (s.contains(x) || x == y),
{
    if s.contains(x) {
        let i = choose|i: int| 0 <= i < s.len() && s[i] == x;
        assert(s.push(y)[i] == x);
    }
    if x == y {
        assert(s.push(y)[s.len() as int] == x);
    }
    if s.push(y).contains(x) {
        let i = choose|i: int| 0 <= i < s.push(y).len() && s.push(y)[i] == x;
        if i < s.len() {
            assert(s[i] == x);
        }
    }
}

/// The first occurrences in `s` of the values that are not yet in `seen`,
/// in order: what a streaming uniqueness check emits when its retained
/// list starts as `seen`.
pub open spec fn fresh_firsts(seen: Seq<Seq<char>>, s: Seq<Seq<char>>) -> Seq<Seq<char>>
    decreases s.len(),
{
    if s.len() == 0 {
        s
    } else if seen.contains(s.first()) {
        fresh_firsts(seen, s.drop_first())
    } else {
        seq![s.first()] + fresh_firsts(seen.push(s.first()), s.drop_first())
    }
}

/// How the streaming selection reacts to one more trailing element.
proof fn lemma_fresh_firsts_push(seen: Seq<Seq<char>>, s: Seq<Seq<char>>, x: Seq<char>)
    ensures
        fresh_firsts(seen, s.push(x)) == if seen.contains(x) || s.contains(x) {
            fresh_firsts(seen, s)
        } else {
            fresh_firsts(seen, s).push(x)
        },
    decreases s.len(),
{
    if s.len() == 0 {
        assert(s.push(x).first() == x);
        assert(s.push(x).drop_first() =~= Seq::<Seq<char>>::empty());
        assert(fresh_firsts(seen, Seq::<Seq<char>>::empty()) == Seq::<Seq<char>>::empty());
        assert(fresh_firsts(seen, s) == s);
        if seen.contains(x) {
            assert(fresh_firsts(seen, s.push(x)) =~= fresh_firsts(seen, s));
        } else {
            assert(fresh_firsts(seen.push(x), Seq::<Seq<char>>::empty())
                == Seq::<Seq<char>>::empty());
            assert(seq![x] + Seq::<Seq<char>>::empty() =~= s.push(x));
            assert(fresh_firsts(seen, s.push(x)) =~= fresh_firsts(seen, s).push(x));
        }
    } else {
        let f = s.first();
        assert(s.push(x).first() == f);
        assert(s.push(x).drop_first() =~= s.drop_first().push(x));
        lemma_contains_front(s, x);
        if seen.contains(f) {
            lemma_fresh_firsts_push(seen, s.drop_first(), x);
            if f == x {
                assert(seen.contains(x));
            }
        } else {
            lemma_fresh_firsts_push(seen.push(f), s.drop_first(), x);
            lemma_contains_push(seen, f, x);
            if !(seen.contains(x) || s.contains(x)) {
                assert(seq![f] + fresh_firsts(seen.push(f), s.drop_first()).push(x) =~= (seq![f]
                    + fresh_firsts(seen.push(f), s.drop_first())).push(x));
            }
        }
    }
}

/// The predicate that keeps the values outside `seen`.
pub open spec fn not_in_fn(seen: Seq<Seq<char>>) -> spec_fn(Seq<char>) -> bool {
    |x: Seq<char>| !seen.contains(x)
}

/// The streaming selection is the batch deduplication with the already
/// retained values dropped.
proof fn lemma_fresh_firsts_dedup(seen: Seq<Seq<char>>, s: Seq<Seq<char>>)
    ensures
        fresh_firsts(seen, s) == dedup_first_spec(s).filter(not_in_fn(seen)),
    decreases s.len(),
{
    if s.len() == 0 {
        assert(fresh_firsts(seen, s) =~= dedup_first_spec(s).filter(not_in_fn(seen)));
    } else {
        let d = s.drop_last();
        let last = s.last();
        lemma_fresh_firsts_dedup(seen, d);
        assert(d.push(last) =~= s);
        lemma_fresh_firsts_push(seen, d, last);
        if d.contains(last) {
            assert(dedup_first_spec(s) == dedup_first_spec(d));
        } else {
            assert(dedup_first_spec(s) == dedup_first_spec(d).push(last));
            dedup_first_spec(d).lemma_filter_push(last, not_in_fn(seen));
        }
    }
}

/// A filter whose predicate holds of every element changes nothing.
proof fn lemma_filter_all_true(s: Seq<Seq<char>>, pred: spec_fn(Seq<char>) -> bool)
    requires
        forall|i: int| 0 <= i < s.len() ==> pred(#[trigger] s[i]),
    ensures
        s.filter(pred) == s,
    decreases s.len(),
{
    if s.len() > 0 {
        let d = s.drop_last();
        assert(forall|i: int| 0 <= i < d.len() ==> pred(#[trigger] d[i])) by {
            assert(forall|i: int| 0 <= i < d.len() ==> d[i] == s[i]);
        }
        lemma_filter_all_true(d, pred);
        assert(pred(s[s.len() - 1]));
        assert(d.push(s.last()) =~= s);
        d.lemma_filter_push(s.last(), pred);
        assert(d.filter(pred).push(s.last()) =~= s);
    }
}

/// Deduplicating after reversing each entry equals reversing each entry
/// after deduplicating, provided the reversal tells the entries apart.
proof fn lemma_dedup_map_commute(s: Seq<Seq<char>>)
    requires
        forall|i: int, j: int|
            0 <= i < s.len() && 0 <= j < s.len() ==> (rev_entry(#[trigger] s[i]) == rev_entry(
                #[trigger] s[j],
            ) ==> s[i] == s[j]),
    ensures
        dedup_first_spec(s.map_values(rev_entry_fn())) == dedup_first_spec(s).map_values(
            rev_entry_fn(),
        ),
    decreases s.len(),
{
    if s.len() > 0 {
        let d = s.drop_last();
        let m = s.map_values(rev_entry_fn());
        assert(m.drop_last() =~= d.map_values(rev_entry_fn()));
        assert(m.last() == rev_entry(s.last()));
        lemma_dedup_map_commute(d);
        assert(m.drop_last().contains(m.last()) == d.contains(s.last())) by {
            if m.drop_last().contains(m.last()) {
                let i = choose|i: int|
                    0 <= i < m.drop_last().len() && m.drop_last()[i] == m.last();
                assert(rev_entry(s[i]) == rev_entry(s[s.len() - 1]));
                assert(s[i] == s.last());
                assert(d[i] == s.last());
            }
            if d.contains(s.last()) {
                let i = choose|i: int| 0 <= i < d.len() && d[i] == s.last();
                assert(m.drop_last()[i] == m.last());
            }
        }
        if !d.contains(s.last()) {
            assert(dedup_first_spec(d).map_values(rev_entry_fn()).push(rev_entry(s.last()))
                =~= (dedup_first_spec(d).push(s.last())).map_values(rev_entry_fn()));
        }
    }
}

/// What one full streaming run selects and emits, for lines that are
/// already trimmed and non-empty: the in-range lines, deduplicated
/// against the retained list when `unique` is on, each reversed when
/// `reverse` is on.
pub open spec fn spec_stream_result(
    p: Params,
    uniques: Seq<Seq<char>>,
    lines: Seq<Seq<char>>,
) -> Seq<Seq<char>> {
    let kept = lines.filter(
        crate::wordlist::in_range_fn(p.min_len_or_default(), p.max_len_or_default()),
    );
    let selected = if p.unique {
        fresh_firsts(uniques, kept)
    } else {
        kept
    };
    if p.reverse {
        selected.map_values(rev_entry_fn())
    } else {
        selected
    }
}

/// A streaming run over trimmed, non-empty, admitted lines never fails
/// and emits exactly the stream selection.
proof fn lemma_pipe_characterize(
    p: Params,
    uniques: Seq<Seq<char>>,
    lines: Seq<Seq<char>>,
    avl: int,
)
    requires
        forall|k: int|
            0 <= k < lines.len() ==> crate::text::trim_spec(#[trigger] lines[k]) == lines[k],
        forall|k: int| 0 <= k < lines.len() ==> #[trigger] lines[k].len() > 0,
        forall|k: int|
            0 <= k < lines.len() ==> mem_fits(avl, crate::text::byte_len(#[trigger] lines[k]) as int),
    ensures
        spec_pipe_lines(p, uniques, lines, avl) == Ok::<Seq<Seq<char>>, crate::error::Error>(
            spec_stream_result(p, uniques, lines),
        ),
    decreases lines.len(),
{
    let pred = crate::wordlist::in_range_fn(p.min_len_or_default(), p.max_len_or_default());
    if lines.len() == 0 {
        assert(Seq::<Seq<char>>::empty().filter(pred) =~= Seq::<Seq<char>>::empty());
        assert(spec_stream_result(p, uniques, lines) =~= Seq::<Seq<char>>::empty());
    } else {
        let line = lines.first();
        let rest = lines.drop_first();
        assert(lines[0] == line);
        assert(crate::text::trim_spec(line) == line);
        assert(line.len() > 0);
        assert(mem_fits(avl, crate::text::byte_len(line) as int));
        assert(forall|k: int|
            0 <= k < rest.len() ==> crate::text::trim_spec(#[trigger] rest[k]) == rest[k]
                && rest[k].len() > 0 && mem_fits(avl, crate::text::byte_len(rest[k]) as int)) by {
            assert(forall|k: int| 0 <= k < rest.len() ==> #[trigger] rest[k] == lines[k + 1]);
        }
        assert(lines =~= seq![line] + rest);
        rest.lemma_filter_prepend(line, pred);
        let uq2 = crate::engine::step_uniques(p, uniques, line);
        lemma_pipe_characterize(p, uq2, rest, avl);
        if !pred(line) {
            assert(spec_stream_result(p, uniques, lines) == spec_stream_result(p, uq2, rest))
                by {
                assert((seq![line] + rest).filter(pred) == rest.filter(pred));
            }
        } else if p.unique && uniques.contains(line) {
            assert((seq![line] + rest).filter(pred) =~= seq![line] + rest.filter(pred));
            assert(fresh_firsts(uniques, seq![line] + rest.filter(pred)) == fresh_firsts(
                uniques,
                rest.filter(pred),
            )) by {
                assert((seq![line] + rest.filter(pred)).first() == line);
                assert((seq![line] + rest.filter(pred)).drop_first() =~= rest.filter(pred));
            }
            assert(spec_stream_result(p, uniques, lines) == spec_stream_result(p, uq2, rest));
        } else {
            // the line is kept and emitted
            assert((seq![line] + rest.filter(pred)).first() == line);
            assert((seq![line] + rest.filter(pred)).drop_first() =~= rest.filter(pred));
            if p.unique {
                assert(fresh_firsts(uniques, seq![line] + rest.filter(pred)) == seq![line]
                    + fresh_firsts(uniques.push(line), rest.filter(pred)));
                assert(uq2 == uniques.push(line));
            }
            let selected_rest = if p.unique {
                fresh_firsts(uq2, rest.filter(pred))
            } else {
                rest.filter(pred)
            };
            if p.reverse {
                assert((seq![line] + selected_rest).map_values(rev_entry_fn()) =~= seq![
                    rev_entry(line),
                ] + selected_rest.map_values(rev_entry_fn()));
            }
            assert(spec_stream_result(p, uniques, lines) =~= seq![
                match crate::engine::step_emit(p, uniques, line) {
                    Some(e) => e,
                    None => line,
                },
            ] + spec_stream_result(p, uq2, rest));
        }
    }
}

/// A streaming run and a batch run agree whenever no sort is requested,
/// for entries that are already trimmed and non-empty, whose byte lengths
/// are representable and admitted, and which the reversal tells apart
/// when both `unique` and `reverse` are on.  An entry with surrounding
/// whitespace breaks the premise — the batch trims the whole text once
/// while the stream trims every line — and so does a pair of distinct
/// entries with equal reversals, such as an entry beginning with an
/// unattached combining mark.
pub proof fn lemma_streaming_matches_batch(p: Params, es: Seq<Seq<char>>, avl: int)
    requires
        !p.sort,
        forall|k: int|
            0 <= k < es.len() ==> crate::text::trim_spec(#[trigger] es[k]) == es[k],
        forall|k: int| 0 <= k < es.len() ==> #[trigger] es[k].len() > 0,
        forall|k: int|
            0 <= k < es.len() ==> crate::text::byte_len(#[trigger] es[k]) <= usize::MAX as nat,
        forall|k: int|
            0 <= k < es.len() ==> mem_fits(avl, crate::text::byte_len(#[trigger] es[k]) as int),
        p.unique && p.reverse ==> forall|i: int, j: int|
            0 <= i < es.len() && 0 <= j < es.len() ==> (rev_entry(#[trigger] es[i]) == rev_entry(
                #[trigger] es[j],
            ) ==> es[i] == es[j]),
    ensures
        spec_pipe_lines(p, Seq::empty(), es, avl) == Ok::<Seq<Seq<char>>, crate::error::Error>(
            spec_apply_ops(p, es),
        ),
{
    let pred = crate::wordlist::in_range_fn(p.min_len_or_default(), p.max_len_or_default());
    lemma_pipe_characterize(p, Seq::empty(), es, avl);
    let kept = es.filter(pred);
    // the batch filter stage equals the stream filter stage
    assert(spec_filtered(p, es) == kept) by {
        if !(p.min_len is Some || p.max_len is Some) {
            assert(forall|i: int| 0 <= i < es.len() ==> pred(#[trigger] es[i])) by {
                assert(forall|i: int|
                    0 <= i < es.len() ==> crate::text::byte_len(#[trigger] es[i])
                        <= usize::MAX as nat);
            }
            lemma_filter_all_true(es, pred);
        }
    }
    if p.unique {
        lemma_fresh_firsts_dedup(Seq::empty(), kept);
        assert(forall|i: int|
            0 <= i < dedup_first_spec(kept).len() ==> not_in_fn(Seq::empty())(
                #[trigger] dedup_first_spec(kept)[i],
            ));
        lemma_filter_all_true(dedup_first_spec(kept), not_in_fn(Seq::empty()));
        assert(fresh_firsts(Seq::empty(), kept) == dedup_first_spec(kept));
        if p.reverse {
            assert(forall|i: int, j: int|
                0 <= i < kept.len() && 0 <= j < kept.len() ==> (rev_entry(#[trigger] kept[i])
                    == rev_entry(#[trigger] kept[j]) ==> kept[i] == kept[j])) by {
                assert forall|i: int, j: int|
                    0 <= i < kept.len() && 0 <= j < kept.len() && rev_entry(kept[i])
                        == rev_entry(kept[j]) implies kept[i] == kept[j] by {
                    es.lemma_filter_contains_rev(pred, kept[i]);
                    es.lemma_filter_contains_rev(pred, kept[j]);
                    let wi = choose|w: int| 0 <= w < es.len() && es[w] == kept[i];
                    let wj = choose|w: int| 0 <= w < es.len() && es[w] == kept[j];
                    assert(rev_entry(es[wi]) == rev_entry(es[wj]));
                }
            }
            lemma_dedup_map_commute(kept);
        }
    }
}


/// Lexicographic order on raw bytes: how UTF-8 encodings are compared.
pub open spec fn bytes_le(a: Seq<u8>, b: Seq<u8>) -> bool
    decreases a.len(),
{
    if a.len() == 0 {
        true
    } else if b.len() == 0 {
        false
    } else if a[0] < b[0] {
        true
    } else if b[0] < a[0] {
        false
    } else {
        bytes_le(a.drop_first(), b.drop_first())
    }
}

/// A shared prefix does not affect the byte comparison.
proof fn lemma_bytes_le_common_prefix(p: Seq<u8>, x: Seq<u8>, y: Seq<u8>)
    ensures
        bytes_le(p + x, p + y) == bytes_le(x, y),
    decreases p.len(),
{
    if p.len() == 0 {
        assert(p + x =~= x);
        assert(p + y =~= y);
    } else {
        assert((p + x)[0] == (p + y)[0]);
        assert((p + x).drop_first() =~= p.drop_first() + x);
        assert((p + y).drop_first() =~= p.drop_first() + y);
        lemma_bytes_le_common_prefix(p.drop_first(), x, y);
    }
}

/// A strict byte difference at position `k`, after `k` equal bytes,
/// decides the comparison whatever follows either side.
proof fn lemma_bytes_lt_concat(ea: Seq<u8>, eb: Seq<u8>, x: Seq<u8>, y: Seq<u8>, k: int)
    requires
        0 <= k < ea.len(),
        k < eb.len(),
        forall|j: int| 0 <= j < k ==> ea[j] == eb[j],
        ea[k] < eb[k],
    ensures
        bytes_le(ea + x, eb + y),
        !bytes_le(eb + y, ea + x),
    decreases k,
{
    let sa = ea + x;
    let sb = eb + y;
    assert(sa[0] == ea[0]);
    assert(sb[0] == eb[0]);
    if k == 0 {
    } else {
        assert(sa.drop_first() =~= ea.drop_first() + x);
        assert(sb.drop_first() =~= eb.drop_first() + y);
        assert(forall|j: int|
            0 <= j < k - 1 ==> #[trigger] ea.drop_first()[j] == eb.drop_first()[j]) by {
            assert(forall|j: int|
                0 <= j < k - 1 ==> ea.drop_first()[j] == ea[j + 1] && eb.drop_first()[j] == eb[j
                    + 1]);
        }
        assert(ea.drop_first()[k - 1] == ea[k]);
        assert(eb.drop_first()[k - 1] == eb[k]);
        lemma_bytes_lt_concat(ea.drop_first(), eb.drop_first(), x, y, k - 1);
    }
}

proof fn bv_order_w1(u: u32, v: u32)
    by (bit_vector)
    requires
        u < v,
        v <= 0x7F,
    ensures
        ((u & 0x7F) as u8) < ((v & 0x7F) as u8),
{
}

proof fn bv_lead_12(u: u32, v: u32)
    by (bit_vector)
    requires
        u <= 0x7F,
    ensures
        ((u & 0x7F) as u8) < (0xC0 | ((v >> 6) & 0x1F) as u8),
{
}

proof fn bv_lead_13(u: u32, v: u32)
    by (bit_vector)
    requires
        u <= 0x7F,
    ensures
        ((u & 0x7F) as u8) < (0xE0 | ((v >> 12) & 0x0F) as u8),
{
}

proof fn bv_lead_14(u: u32, v: u32)
    by (bit_vector)
    requires
        u <= 0x7F,
    ensures
        ((u & 0x7F) as u8) < (0xF0 | ((v >> 18) & 0x7) as u8),
{
}

proof fn bv_lead_23(u: u32, v: u32)
    by (bit_vector)
    ensures
        (0xC0 | ((u >> 6) & 0x1F) as u8) < (0xE0 | ((v >> 12) & 0x0F) as u8),
{
}

proof fn bv_lead_24(u: u32, v: u32)
    by (bit_vector)
    ensures
        (0xC0 | ((u >> 6) & 0x1F) as u8) < (0xF0 | ((v >> 18) & 0x7) as u8),
{
}

proof fn bv_lead_34(u: u32, v: u32)
    by (bit_vector)
    ensures
        (0xE0 | ((u >> 12) & 0x0F) as u8) < (0xF0 | ((v >> 18) & 0x7) as u8),
{
}

proof fn bv_order_w2(u: u32, v: u32)
    by (bit_vector)
    requires
        u < v,
        0x80 <= u,
        v <= 0x7FF,
    ensures
        (0xC0 | ((u >> 6) & 0x1F) as u8) <= (0xC0 | ((v >> 6) & 0x1F) as u8),
        (0xC0 | ((u >> 6) & 0x1F) as u8) == (0xC0 | ((v >> 6) & 0x1F) as u8) ==> (0x80 | (u
            & 0x3F) as u8) < (0x80 | (v & 0x3F) as u8),
{
}

proof fn bv_order_w3(u: u32, v: u32)
    by (bit_vector)
    requires
        u < v,
        0x800 <= u,
        v <= 0xFFFF,
    ensures
        (0xE0 | ((u >> 12) & 0x0F) as u8) <= (0xE0 | ((v >> 12) & 0x0F) as u8),
        (0xE0 | ((u >> 12) & 0x0F) as u8) == (0xE0 | ((v >> 12) & 0x0F) as u8) ==> (0x80 | ((u
            >> 6) & 0x3F) as u8) <= (0x80 | ((v >> 6) & 0x3F) as u8),
        (0xE0 | ((u >> 12) & 0x0F) as u8) == (0xE0 | ((v >> 12) & 0x0F) as u8) && (0x80 | ((u
            >> 6) & 0x3F) as u8) == (0x80 | ((v >> 6) & 0x3F) as u8) ==> (0x80 | (u
            & 0x3F) as u8) < (0x80 | (v & 0x3F) as u8),
{
}

proof fn bv_order_w4(u: u32, v: u32)
    by (bit_vector)
    requires
        u < v,
        0x10000 <= u,
        v <= 0x10FFFF,
    ensures
        (0xF0 | ((u >> 18) & 0x7) as u8) <= (0xF0 | ((v >> 18) & 0x7) as u8),
        (0xF0 | ((u >> 18) & 0x7) as u8) == (0xF0 | ((v >> 18) & 0x7) as u8) ==> (0x80 | ((u
            >> 12) & 0x3F) as u8) <= (0x80 | ((v >> 12) & 0x3F) as u8),
        (0xF0 | ((u >> 18) & 0x7) as u8) == (0xF0 | ((v >> 18) & 0x7) as u8) && (0x80 | ((u
            >> 12) & 0x3F) as u8) == (0x80 | ((v >> 12) & 0x3F) as u8) ==> (0x80 | ((u >> 6)
            & 0x3F) as u8) <= (0x80 | ((v >> 6) & 0x3F) as u8),
        (0xF0 | ((u >> 18) & 0x7) as u8) == (0xF0 | ((v >> 18) & 0x7) as u8) && (0x80 | ((u
            >> 12) & 0x3F) as u8) == (0x80 | ((v >> 12) & 0x3F) as u8) && (0x80 | ((u >> 6)
            & 0x3F) as u8) == (0x80 | ((v >> 6) & 0x3F) as u8) ==> (0x80 | (u & 0x3F) as u8)
            < (0x80 | (v & 0x3F) as u8),
{
}

/// A smaller scalar's UTF-8 encoding wins the byte comparison whatever
/// follows either encoding.
proof fn lemma_encode_scalar_order(u: u32, v: u32, x: Seq<u8>, y: Seq<u8>)
    requires
        vstd::utf8::is_scalar(u),
        vstd::utf8::is_scalar(v),
        u < v,
    ensures
        bytes_le(vstd::utf8::encode_scalar(u) + x, vstd::utf8::encode_scalar(v) + y),
        !bytes_le(vstd::utf8::encode_scalar(v) + y, vstd::utf8::encode_scalar(u) + x),
{
    let ea = vstd::utf8::encode_scalar(u);
    let eb = vstd::utf8::encode_scalar(v);
    if vstd::utf8::has_width_1_encoding(u) {
        if vstd::utf8::has_width_1_encoding(v) {
            bv_order_w1(u, v);
            lemma_bytes_lt_concat(ea, eb, x, y, 0);
        } else if vstd::utf8::has_width_2_encoding(v) {
            bv_lead_12(u, v);
            lemma_bytes_lt_concat(ea, eb, x, y, 0);
        } else if vstd::utf8::has_width_3_encoding(v) {
            bv_lead_13(u, v);
            lemma_bytes_lt_concat(ea, eb, x, y, 0);
        } else {
            bv_lead_14(u, v);
            lemma_bytes_lt_concat(ea, eb, x, y, 0);
        }
    } else if vstd::utf8::has_width_2_encoding(u) {
        if vstd::utf8::has_width_2_encoding(v) {
            bv_order_w2(u, v);
            if ea[0] == eb[0] {
                lemma_bytes_lt_concat(ea, eb, x, y, 1);
            } else {
                lemma_bytes_lt_concat(ea, eb, x, y, 0);
            }
        } else if vstd::utf8::has_width_3_encoding(v) {
            bv_lead_23(u, v);
            lemma_bytes_lt_concat(ea, eb, x, y, 0);
        } else {
            bv_lead_24(u, v);
            lemma_bytes_lt_concat(ea, eb, x, y, 0);
        }
    } else if vstd::utf8::has_width_3_encoding(u) {
        if vstd::utf8::has_width_3_encoding(v) {
            bv_order_w3(u, v);
            if ea[0] == eb[0] {
                if ea[1] == eb[1] {
                    lemma_bytes_lt_concat(ea, eb, x, y, 2);
                } else {
                    lemma_bytes_lt_concat(ea, eb, x, y, 1);
                }
            } else {
                lemma_bytes_lt_concat(ea, eb, x, y, 0);
            }
        } else {
            assert(vstd::utf8::has_width_4_encoding(v));
            bv_lead_34(u, v);
            lemma_bytes_lt_concat(ea, eb, x, y, 0);
        }
    } else {
        assert(vstd::utf8::has_width_4_encoding(u));
        assert(vstd::utf8::has_width_4_encoding(v));
        bv_order_w4(u, v);
        if ea[0] == eb[0] {
            if ea[1] == eb[1] {
                if ea[2] == eb[2] {
                    lemma_bytes_lt_concat(ea, eb, x, y, 3);
                } else {
                    lemma_bytes_lt_concat(ea, eb, x, y, 2);
                }
            } else {
                lemma_bytes_lt_concat(ea, eb, x, y, 1);
            }
        } else {
            lemma_bytes_lt_concat(ea, eb, x, y, 0);
        }
    }
}

/// The entry order is exactly the lexicographic comparison of the
/// entries' UTF-8 byte encodings: UTF-8 orders encodings as it orders
/// scalars.
pub proof fn lemma_lex_le_bytewise(a: Seq<char>, b: Seq<char>)
    ensures
        crate::text::lex_le(a, b) == bytes_le(
            vstd::utf8::encode_utf8(a),
            vstd::utf8::encode_utf8(b),
        ),
    decreases a.len(),
{
    broadcast use vstd::utf8::char_is_scalar;

    if a.len() == 0 {
        assert(vstd::utf8::encode_utf8(a).len() == 0);
    } else if b.len() == 0 {
        crate::text::lemma_byte_len_ge_len(a);
        assert(vstd::utf8::encode_utf8(a).len() > 0);
        assert(vstd::utf8::encode_utf8(b).len() == 0);
    } else {
        vstd::utf8::char_is_scalar(a[0]);
        vstd::utf8::char_is_scalar(b[0]);
        let u = a[0] as u32;
        let v = b[0] as u32;
        let ra = vstd::utf8::encode_utf8(a.drop_first());
        let rb = vstd::utf8::encode_utf8(b.drop_first());
        assert(vstd::utf8::encode_utf8(a) == vstd::utf8::encode_scalar(u) + ra);
        assert(vstd::utf8::encode_utf8(b) == vstd::utf8::encode_scalar(v) + rb);
        if u == v {
            lemma_bytes_le_common_prefix(vstd::utf8::encode_scalar(u), ra, rb);
            lemma_lex_le_bytewise(a.drop_first(), b.drop_first());
        } else if u < v {
            lemma_encode_scalar_order(u, v, ra, rb);
        } else {
            lemma_encode_scalar_order(v, u, rb, ra);
        }
    }
}

/// Adjacent deduplication of a sorted wordlist is sorted.
proof fn lemma_dedup_adj_sorted(s: Seq<Seq<char>>)
    requires
        vstd::relations::sorted_by(s, char_seq_le()),
    ensures
        vstd::relations::sorted_by(dedup_adj_spec(s), char_seq_le()),
    decreases s.len(),
{
    if s.len() > 0 {
        let d = s.drop_last();
        assert(forall|i: int, j: int|
            0 <= i < j < d.len() ==> char_seq_le()(#[trigger] d[i], #[trigger] d[j])) by {
            assert(forall|i: int| 0 <= i < d.len() ==> d[i] == s[i]);
        }
        lemma_dedup_adj_sorted(d);
        if !(s.len() >= 2 && s.last() == s[s.len() - 2]) {
            let p = dedup_adj_spec(d);
            assert forall|i: int, j: int|
                0 <= i < j < p.push(s.last()).len() implies char_seq_le()(
                #[trigger] p.push(s.last())[i],
                #[trigger] p.push(s.last())[j],
            ) by {
                if j == p.len() {
                    assert(p.contains(p[i]));
                    lemma_dedup_adj_sub(d, p[i]);
                    let w = choose|w: int| 0 <= w < d.len() && d[w] == p[i];
                    assert(s[w] == p[i]);
                    if s.len() == 1 {
                    } else {
                        assert(char_seq_le()(s[w], s[s.len() - 1]));
                    }
                }
            }
        }
    }
}

/// With a sort requested, the emitted wordlist is non-decreasing under
/// bytewise comparison of the entries' UTF-8 encodings.
pub proof fn lemma_sorted_output_bytewise(p: Params, es: Seq<Seq<char>>)
    requires
        p.sort,
    ensures
        forall|i: int, j: int|
            0 <= i < j < spec_apply_ops(p, es).len() ==> bytes_le(
                vstd::utf8::encode_utf8(#[trigger] spec_apply_ops(p, es)[i]),
                vstd::utf8::encode_utf8(#[trigger] spec_apply_ops(p, es)[j]),
            ),
{
    let es2 = spec_transformed(p, es);
    lemma_char_seq_le_total_ordering();
    es2.lemma_sort_by_ensures(char_seq_le());
    let sorted = es2.sort_by(char_seq_le());
    if p.unique {
        lemma_dedup_adj_sorted(sorted);
    }
    let out = spec_apply_ops(p, es);
    assert(vstd::relations::sorted_by(out, char_seq_le()));
    assert forall|i: int, j: int| 0 <= i < j < out.len() implies bytes_le(
        vstd::utf8::encode_utf8(#[trigger] out[i]),
        vstd::utf8::encode_utf8(#[trigger] out[j]),
    ) by {
        assert(char_seq_le()(out[i], out[j]));
        lemma_lex_le_bytewise(out[i], out[j]);
    }
}


/// With deduplication alone requested, an input whose entries are already
/// pairwise distinct comes through the batch operations unchanged.
pub proof fn lemma_unique_identity(p: Params, es: Seq<Seq<char>>)
    requires
        p.unique,
        !p.sort,
        !p.reverse,
        p.min_len is None,
        p.max_len is None,
        forall|i: int, j: int| 0 <= i < j < es.len() ==> es[i] != es[j],
    ensures
        spec_apply_ops(p, es) == es,
{
    lemma_dedup_identity(es);
}


/// Every entry a streaming step emits is non-empty and has its byte
/// length within the configured bounds, provided the entry's grapheme
/// clusters concatenate back to it.
pub proof fn lemma_step_emit_bounds(p: Params, uniques: Seq<Seq<char>>, line: Seq<char>)
    requires
        graphemes_of(crate::text::trim_spec(line)).flatten() == crate::text::trim_spec(line),
    ensures
        crate::engine::step_emit(p, uniques, line) matches Some(e) ==> in_range(
            e,
            p.min_len_or_default(),
            p.max_len_or_default(),
        ) && e.len() > 0,
{
    if crate::engine::step_emit(p, uniques, line) is Some {
        let t = crate::text::trim_spec(line);
        if p.reverse {
            lemma_rev_entry_preserves_bytes(t);
            lemma_byte_len_ge_len(t);
            lemma_byte_len_ge_len(rev_entry(t));
        }
    }
}


/// The batch boundary hands the operations only non-empty entries.
pub proof fn lemma_entries_of_nonempty(buffer: Seq<char>)
    ensures
        forall|k: int|
            0 <= k < crate::wordlist::entries_of(buffer).len()
                ==> #[trigger] crate::wordlist::entries_of(buffer)[k].len() > 0,
{
    let segments = crate::text::split_lines(crate::text::trim_spec(buffer));
    assert forall|k: int|
        0 <= k < crate::wordlist::entries_of(buffer).len()
            implies #[trigger] crate::wordlist::entries_of(buffer)[k].len() > 0 by {
        segments.lemma_filter_pred(crate::text::nonempty_entry(), k);
    }
}

} // verus!
