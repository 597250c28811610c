//! The wordlist store: an ordered sequence of entries with a byte-length
//! filter, grapheme-aware per-entry reversal, bytewise sorting,
//! adjacent deduplication and order-preserving deduplication.

use vstd::prelude::*;
use unicode_segmentation::UnicodeSegmentation;
use crate::error::Error;
use crate::memory::{mem_fits, MIN_AVL_MEM};
use crate::text::{
    byte_len, char_seq_le, contains_entry, copy_entry, drop_empty_entries, entries_equal,
    entry_byte_len, entry_views, in_length_range, in_range, lemma_byte_len_ge_len,
    lemma_char_seq_le_total_ordering, lex_le, lex_le_exec, nonempty_entry, split_lines,
    split_lines_exec, trim, trim_spec,
};

verus! {

/// The bookkeeping bytes that one materialized entry costs beyond its
/// content: a pointer, a length and a capacity of eight bytes each.
pub const ENTRY_OVERHEAD: usize = 24;

/// The grapheme clusters of a character sequence under the extended
/// grapheme-cluster rules of Unicode TR29, in order of appearance, as the
/// unicode-segmentation crate computes them.  The segmentation depends on
/// the characters alone.
pub uninterp spec fn graphemes_of(s: Seq<char>) -> Seq<Seq<char>>;

/// An entry reversed grapheme cluster by grapheme cluster.
pub open spec fn rev_entry(e: Seq<char>) -> Seq<char> {
    graphemes_of(e).reverse().flatten()
}

/// The reversal as a first-class function, for `map_values`.
pub open spec fn rev_entry_fn() -> spec_fn(Seq<char>) -> Seq<char> {
    |e: Seq<char>| rev_entry(e)
}

/// Relies on `UnicodeSegmentation::graphemes` of the unicode-segmentation
/// crate: the returned clusters are consecutive substrings of the input
/// that together partition it (its documentation shows each cluster with
/// its byte offset in the original), and they depend on the characters
/// alone.
#[verifier::external_body]
fn graphemes_exec(v: &Vec<char>) -> (r: Vec<Vec<char>>)
    ensures
        entry_views(r@) == graphemes_of(v@),
        entry_views(r@).flatten() == v@,
{
    let s: String = v.iter().collect();
    s.graphemes(true).map(|g| g.chars().collect()).collect()
}

/// Appends all characters of `e` to `r`.
fn append_entry(r: &mut Vec<char>, e: &Vec<char>)
    ensures
        final(r)@ == old(r)@ + e@,
{
    let n = e.len();
    let mut i: usize = 0;
    while i < n
        invariant
            0 <= i <= n,
            n == e@.len(),
            r@ =~= old(r)@ + e@.take(i as int),
        decreases n - i,
    {
        r.push(e[i]);
        i = i + 1;
    }
    proof {
        assert(old(r)@ + e@.take(n as int) =~= old(r)@ + e@);
    }
}

/// Reverses the grapheme-cluster sequence of one entry.
pub fn reverse_graphemes(v: &Vec<char>) -> (r: Vec<char>)
    ensures
        r@ == rev_entry(v@),
        graphemes_of(v@).flatten() == v@,
{
    broadcast use vstd::prelude::Seq::lemma_flatten_push;

    let gs = graphemes_exec(v);
    let ghost gv = graphemes_of(v@);
    let m = gs.len();
    let mut r: Vec<char> = Vec::new();
    let mut j: usize = 0;
    proof {
        assert(gv.reverse().take(0) =~= Seq::<Seq<char>>::empty());
        assert(r@ =~= gv.reverse().take(0).flatten());
    }
    while j < m
        invariant
            0 <= j <= m,
            m == gs@.len(),
            entry_views(gs@) == gv,
            r@ == gv.reverse().take(j as int).flatten(),
        decreases m - j,
    {
        proof {
            assert(gv.reverse().take(j as int + 1) =~= gv.reverse().take(j as int).push(
                gv[m - 1 - j as int],
            ));
            gv.reverse().take(j as int).lemma_flatten_push(gv[m - 1 - j as int]);
            assert(entry_views(gs@)[m - 1 - j as int] == gv[m - 1 - j as int]);
        }
        append_entry(&mut r, &gs[m - 1 - j]);
        j = j + 1;
    }
    proof {
        assert(gv.reverse().take(m as int) =~= gv.reverse());
    }
    r
}

/// The total byte length of a sequence of entries.
pub open spec fn total_bytes(gs: Seq<Seq<char>>) -> nat
    decreases gs.len(),
{
    if gs.len() == 0 {
        0
    } else {
        byte_len(gs.first()) + total_bytes(gs.drop_first())
    }
}

/// The UTF-8 encoding of a concatenation is the concatenation of the
/// encodings.
pub proof fn lemma_encode_concat(a: Seq<char>, b: Seq<char>)
    ensures
        vstd::utf8::encode_utf8(a + b) == vstd::utf8::encode_utf8(a) + vstd::utf8::encode_utf8(b),
    decreases a.len(),
{
    if a.len() == 0 {
        assert(a + b =~= b);
        assert(vstd::utf8::encode_utf8(a) + vstd::utf8::encode_utf8(b) =~= vstd::utf8::encode_utf8(
            b,
        ));
    } else {
        lemma_encode_concat(a.drop_first(), b);
        assert((a + b).drop_first() =~= a.drop_first() + b);
        assert(vstd::utf8::encode_utf8(a + b) =~= vstd::utf8::encode_utf8(a)
            + vstd::utf8::encode_utf8(b));
    }
}

/// Flattening a sequence of entries accumulates exactly their total byte
/// length.
pub proof fn lemma_total_bytes_flatten(gs: Seq<Seq<char>>)
    ensures
        byte_len(gs.flatten()) == total_bytes(gs),
    decreases gs.len(),
{
    if gs.len() > 0 {
        lemma_total_bytes_flatten(gs.drop_first());
        lemma_encode_concat(gs.first(), gs.drop_first().flatten());
    }
}

/// The total byte length of entries is insensitive to their order reversal.
pub proof fn lemma_total_bytes_reverse(gs: Seq<Seq<char>>)
    ensures
        total_bytes(gs.reverse()) == total_bytes(gs),
    decreases gs.len(),
{
    if gs.len() > 0 {
        let r = gs.reverse();
        assert(r =~= seq![gs.last()] + gs.drop_last().reverse());
        lemma_total_bytes_prepend(gs.last(), gs.drop_last().reverse());
        lemma_total_bytes_reverse(gs.drop_last());
        lemma_total_bytes_drop_last(gs);
    }
}

/// Splitting off the first entry splits the total byte length.
pub proof fn lemma_total_bytes_prepend(x: Seq<char>, gs: Seq<Seq<char>>)
    ensures
        total_bytes(seq![x] + gs) == byte_len(x) + total_bytes(gs),
{
    let s = seq![x] + gs;
    assert(s.first() == x);
    assert(s.drop_first() =~= gs);
}

/// Splitting off the last entry splits the total byte length.
pub proof fn lemma_total_bytes_drop_last(gs: Seq<Seq<char>>)
    requires
        gs.len() > 0,
    ensures
        total_bytes(gs) == total_bytes(gs.drop_last()) + byte_len(gs.last()),
    decreases gs.len(),
{
    if gs.len() == 1 {
        assert(gs.drop_first() =~= Seq::<Seq<char>>::empty());
        assert(gs.drop_last() =~= Seq::<Seq<char>>::empty());
        assert(gs.first() == gs.last());
    } else {
        lemma_total_bytes_drop_last(gs.drop_first());
        assert(gs.drop_first().drop_last() =~= gs.drop_last().drop_first());
        assert(gs.drop_first().last() == gs.last());
        assert(gs.drop_last().first() == gs.first());
    }
}

/// Grapheme reversal preserves the byte length of an entry whose clusters
/// concatenate back to the entry.
pub proof fn lemma_rev_entry_preserves_bytes(e: Seq<char>)
    requires
        graphemes_of(e).flatten() == e,
    ensures
        byte_len(rev_entry(e)) == byte_len(e),
{
    lemma_total_bytes_flatten(graphemes_of(e));
    lemma_total_bytes_flatten(graphemes_of(e).reverse());
    lemma_total_bytes_reverse(graphemes_of(e));
}

/// Replaces every entry with the reversal of its grapheme-cluster
/// sequence.  The second clause records, for every original entry, that its
/// clusters concatenate back to the entry itself.
pub fn reverse_each(wl: &mut Vec<Vec<char>>)
    ensures
        entry_views(final(wl)@) == entry_views(old(wl)@).map_values(rev_entry_fn()),
        forall|k: int|
            0 <= k < old(wl)@.len() ==> graphemes_of(
                #[trigger] entry_views(old(wl)@)[k],
            ).flatten() == entry_views(old(wl)@)[k],
{
    let n = wl.len();
    let mut i: usize = 0;
    while i < n
        invariant
            0 <= i <= n,
            n == wl@.len(),
            n == old(wl)@.len(),
            forall|k: int| i <= k < n ==> wl@[k] == old(wl)@[k],
            forall|k: int|
                0 <= k < i ==> #[trigger] wl@[k]@ == rev_entry(entry_views(old(wl)@)[k]),
            forall|k: int|
                0 <= k < i ==> graphemes_of(#[trigger] entry_views(old(wl)@)[k]).flatten()
                    == entry_views(old(wl)@)[k],
        decreases n - i,
    {
        let r = reverse_graphemes(&wl[i]);
        wl.set(i, r);
        i = i + 1;
    }
    proof {
        assert(entry_views(wl@) =~= entry_views(old(wl)@).map_values(rev_entry_fn()));
    }
}

/// The byte-length filter as a first-class predicate.
pub open spec fn in_range_fn(min: int, max: int) -> spec_fn(Seq<char>) -> bool {
    |e: Seq<char>| in_range(e, min, max)
}

/// Retains the entries whose UTF-8 byte length lies between `min_len` and
/// `max_len`, both inclusive, keeping their order.
pub fn length_filter(wl: &mut Vec<Vec<char>>, min_len: usize, max_len: usize)
    ensures
        entry_views(final(wl)@) == entry_views(old(wl)@).filter(
            in_range_fn(min_len as int, max_len as int),
        ),
{
    broadcast use vstd::prelude::Seq::lemma_filter_push;

    let ghost pred = in_range_fn(min_len as int, max_len as int);
    let n = wl.len();
    let mut out: Vec<Vec<char>> = Vec::new();
    let mut i: usize = 0;
    proof {
        assert(entry_views(out@) =~= entry_views(wl@.take(0)).filter(pred));
    }
    while i < n
        invariant
            0 <= i <= n,
            n == wl@.len(),
            entry_views(out@) == entry_views(wl@.take(i as int)).filter(pred),
            pred == in_range_fn(min_len as int, max_len as int),
        decreases n - i,
    {
        let ghost prev = entry_views(wl@.take(i as int));
        proof {
            assert(entry_views(wl@.take(i as int + 1)) =~= prev.push(wl@[i as int]@));
            prev.lemma_filter_push(wl@[i as int]@, pred);
        }
        if in_length_range(&wl[i], min_len, max_len) {
            let e = copy_entry(&wl[i]);
            out.push(e);
            proof {
                assert(entry_views(out@) =~= prev.filter(pred).push(wl@[i as int]@));
            }
        }
        i = i + 1;
    }
    proof {
        assert(wl@.take(n as int) =~= wl@);
    }
    *wl = out;
}

/// Adjacent deduplication: an entry equal to its immediate predecessor is
/// dropped.
pub open spec fn dedup_adj_spec(s: Seq<Seq<char>>) -> Seq<Seq<char>>
    decreases s.len(),
{
    if s.len() == 0 {
        s
    } else {
        let p = dedup_adj_spec(s.drop_last());
        if s.len() >= 2 && s.last() == s[s.len() - 2] {
            p
        } else {
            p.push(s.last())
        }
    }
}

/// Removes every entry that equals its immediate predecessor.  After a
/// sort this removes all duplicates.
pub fn dedup_adjacent(wl: &mut Vec<Vec<char>>)
    ensures
        entry_views(final(wl)@) == dedup_adj_spec(entry_views(old(wl)@)),
{
    let n = wl.len();
    let mut out: Vec<Vec<char>> = Vec::new();
    let mut i: usize = 0;
    proof {
        assert(entry_views(out@) =~= dedup_adj_spec(entry_views(wl@.take(0))));
    }
    while i < n
        invariant
            0 <= i <= n,
            n == wl@.len(),
            entry_views(out@) == dedup_adj_spec(entry_views(wl@.take(i as int))),
        decreases n - i,
    {
        let ghost cur = entry_views(wl@.take(i as int + 1));
        proof {
            assert(cur.drop_last() =~= entry_views(wl@.take(i as int)));
            assert(cur.last() == wl@[i as int]@);
        }
        let keep = if i == 0 {
            true
        } else {
            proof {
                assert(cur[cur.len() - 2] == wl@[i as int - 1]@);
            }
            !entries_equal(&wl[i], &wl[i - 1])
        };
        if keep {
            let e = copy_entry(&wl[i]);
            out.push(e);
        }
        i = i + 1;
    }
    proof {
        assert(wl@.take(n as int) =~= wl@);
    }
    *wl = out;
}

/// Inserting an element at any position adds exactly that element to the
/// multiset of a sequence.
pub proof fn lemma_insert_multiset(s: Seq<Seq<char>>, j: int, x: Seq<char>)
    requires
        0 <= j <= s.len(),
    ensures
        s.insert(j, x).to_multiset() == s.to_multiset().insert(x),
{
    broadcast use vstd::seq_lib::group_to_multiset_ensures;
    broadcast use vstd::multiset::group_multiset_axioms;

    let t1 = s.subrange(0, j);
    let t2 = s.subrange(j, s.len() as int);
    assert(s.insert(j, x) == t1.push(x) + t2);
    vstd::seq_lib::lemma_multiset_commutative(t1.push(x), t2);
    vstd::seq_lib::lemma_multiset_commutative(t1, t2);
    assert(s =~= t1 + t2);
    assert(t1.push(x).to_multiset() =~= t1.to_multiset().insert(x));
    assert(t1.to_multiset().insert(x).add(t2.to_multiset()) =~= t1.to_multiset().add(
        t2.to_multiset(),
    ).insert(x));
}

/// Sorts the wordlist by bytewise lexicographic comparison of the UTF-8
/// encodings of its entries.  Entries that compare equal are identical, so
/// the result is deterministic.
pub fn sort_bytewise(wl: &mut Vec<Vec<char>>)
    ensures
        entry_views(final(wl)@) == entry_views(old(wl)@).sort_by(char_seq_le()),
        vstd::relations::sorted_by(entry_views(final(wl)@), char_seq_le()),
{
    broadcast use vstd::seq_lib::group_to_multiset_ensures;

    let ghost leq = char_seq_le();
    let n = wl.len();
    let mut out: Vec<Vec<char>> = Vec::new();
    let mut i: usize = 0;
    proof {
        lemma_char_seq_le_total_ordering();
        assert(entry_views(out@).to_multiset() =~= entry_views(wl@.take(0)).to_multiset());
    }
    while i < n
        invariant
            0 <= i <= n,
            n == wl@.len(),
            leq == char_seq_le(),
            vstd::relations::total_ordering(leq),
            vstd::relations::sorted_by(entry_views(out@), leq),
            entry_views(out@).to_multiset() == entry_views(wl@.take(i as int)).to_multiset(),
        decreases n - i,
    {
        let x = copy_entry(&wl[i]);
        let olen = out.len();
        let mut j: usize = 0;
        while j < olen && lex_le_exec(&out[j], &x)
            invariant
                0 <= j <= olen,
                olen == out@.len(),
                x@ == wl@[i as int]@,
                forall|k: int| 0 <= k < j ==> lex_le(#[trigger] entry_views(out@)[k], x@),
            decreases olen - j,
        {
            j = j + 1;
        }
        let ghost ov = entry_views(out@);
        proof {
            lemma_insert_multiset(ov, j as int, x@);
            assert(entry_views(wl@.take(i as int + 1)) =~= entry_views(wl@.take(i as int)).push(
                wl@[i as int]@,
            ));
            if (j as int) < ov.len() {
                lemma_lex_le_total_pair(ov[j as int], x@);
            }
        }
        out.insert(j, x);
        proof {
            assert(entry_views(out@) =~= ov.insert(j as int, x@));
            entry_views(wl@.take(i as int)).to_multiset_ensures();
            assert(entry_views(wl@.take(i as int)).push(wl@[i as int]@).to_multiset()
                =~= entry_views(wl@.take(i as int)).to_multiset().insert(wl@[i as int]@));
            assert(entry_views(out@).to_multiset() == entry_views(
                wl@.take(i as int + 1),
            ).to_multiset());
            let nv = ov.insert(j as int, x@);
            assert forall|p: int, q: int| 0 <= p < q < nv.len() implies #[trigger] leq(
                nv[p],
                nv[q],
            ) by {
                ov.insert_ensures(j as int, x@);
                if p < j && q == j {
                } else if p == j && q > j {
                    if q - 1 > j {
                        assert(leq(x@, ov[j as int]));
                        assert(leq(ov[j as int], ov[q - 1]));
                    }
                } else if p < j && q > j {
                    if p < q - 1 {
                    } else {
                    }
                }
            }
        }
        i = i + 1;
    }
    proof {
        assert(wl@.take(n as int) =~= wl@);
        entry_views(wl@).lemma_sort_by_ensures(leq);
        vstd::seq_lib::lemma_sorted_unique(entry_views(out@), entry_views(wl@).sort_by(leq), leq);
    }
    *wl = out;
}

/// Totality of the entry order, stated for one pair.
proof fn lemma_lex_le_total_pair(a: Seq<char>, b: Seq<char>)
    requires
        !lex_le(a, b),
    ensures
        lex_le(b, a),
{
    crate::text::lemma_lex_le_total(a, b);
}

/// Order-preserving deduplication: only the first occurrence of each
/// distinct entry is kept.
pub open spec fn dedup_first_spec(s: Seq<Seq<char>>) -> Seq<Seq<char>>
    decreases s.len(),
{
    if s.len() == 0 {
        s
    } else {
        let p = dedup_first_spec(s.drop_last());
        if s.drop_last().contains(s.last()) {
            p
        } else {
            p.push(s.last())
        }
    }
}

/// Deduplication keeps exactly the values of the original sequence.
pub proof fn lemma_dedup_first_contains(s: Seq<Seq<char>>, x: Seq<char>)
    ensures
        dedup_first_spec(s).contains(x) == s.contains(x),
    decreases s.len(),
{
    if s.len() > 0 {
        let d = s.drop_last();
        let p = dedup_first_spec(d);
        lemma_dedup_first_contains(d, x);
        assert(s.contains(x) <==> d.contains(x) || s.last() == x) by {
            if d.contains(x) {
                let i = choose|i: int| 0 <= i < d.len() && d[i] == x;
                assert(s[i] == x);
            }
            if s.last() == x {
                assert(s[s.len() - 1] == x);
            }
            if s.contains(x) {
                let i = choose|i: int| 0 <= i < s.len() && s[i] == x;
                if i < s.len() - 1 {
                    assert(d[i] == x);
                }
            }
        }
        if !d.contains(s.last()) {
            assert(p.push(s.last()).contains(x) <==> p.contains(x) || s.last() == x) by {
                if p.contains(x) {
                    let i = choose|i: int| 0 <= i < p.len() && p[i] == x;
                    assert(p.push(s.last())[i] == x);
                }
                if s.last() == x {
                    assert(p.push(s.last())[p.len() as int] == x);
                }
                if p.push(s.last()).contains(x) {
                    let i = choose|i: int|
                        0 <= i < p.push(s.last()).len() && p.push(s.last())[i] == x;
                    if i < p.len() {
                        assert(p[i] == x);
                    }
                }
            }
        }
    }
}

/// Removes the duplicates of a wordlist while keeping the first occurrence
/// of each distinct entry in place.
pub fn dedup_unsorted(wl: &mut Vec<Vec<char>>)
    ensures
        entry_views(final(wl)@) == dedup_first_spec(entry_views(old(wl)@)),
{
    let n = wl.len();
    let mut out: Vec<Vec<char>> = Vec::new();
    let mut i: usize = 0;
    proof {
        assert(entry_views(out@) =~= dedup_first_spec(entry_views(wl@.take(0))));
    }
    while i < n
        invariant
            0 <= i <= n,
            n == wl@.len(),
            entry_views(out@) == dedup_first_spec(entry_views(wl@.take(i as int))),
        decreases n - i,
    {
        let ghost cur = entry_views(wl@.take(i as int + 1));
        proof {
            assert(cur.drop_last() =~= entry_views(wl@.take(i as int)));
            assert(cur.last() == wl@[i as int]@);
            lemma_dedup_first_contains(entry_views(wl@.take(i as int)), wl@[i as int]@);
        }
        if !contains_entry(&out, &wl[i]) {
            let e = copy_entry(&wl[i]);
            out.push(e);
        }
        i = i + 1;
    }
    proof {
        assert(wl@.take(n as int) =~= wl@);
    }
    *wl = out;
}

/// The entries of a raw input text: the whole text is trimmed once, split
/// at line feeds, and the empty segments are dropped.
pub open spec fn entries_of(s: Seq<char>) -> Seq<Seq<char>> {
    split_lines(trim_spec(s)).filter(nonempty_entry())
}

/// The anticipated cost in bytes of materializing the wordlist of input
/// `s`: per-entry bookkeeping plus the content bytes that remain once the
/// separators are discounted.
pub open spec fn wordlist_take(s: Seq<char>) -> int {
    let n = entries_of(s).len() as int;
    let content = byte_len(s) as int;
    n * (ENTRY_OVERHEAD as int) + if content >= n {
        content - n
    } else {
        0
    }
}

/// Builds the wordlist out of the raw input text: trim once, split at line
/// feeds, drop empty entries.  The materialization is admitted only if its
/// anticipated cost leaves the memory reserve untouched at the given
/// available-memory level; otherwise nothing is handed out.
pub fn from_buffer(buffer: &Vec<char>, avl_mem: usize) -> (r: Result<Vec<Vec<char>>, Error>)
    ensures
        match r {
            Ok(wl) => mem_fits(avl_mem as int, wordlist_take(buffer@)) && entry_views(wl@)
                == entries_of(buffer@),
            Err(e) => e == Error::LowMemory && !mem_fits(avl_mem as int, wordlist_take(buffer@)),
        },
{
    let t = trim(buffer);
    let lines = split_lines_exec(&t);
    let entries = drop_empty_entries(lines);
    let n_entries = entries.len();
    let buffer_len = buffer.len();
    let content = entry_byte_len(buffer);
    proof {
        lemma_byte_len_ge_len(buffer@);
        assert(buffer@.len() == buffer_len as int);
        assert(content <= 4 * (buffer_len as u128));
    }
    let overhead = (n_entries as u128) * (ENTRY_OVERHEAD as u128);
    let take = overhead + if content >= n_entries as u128 {
        content - n_entries as u128
    } else {
        0
    };
    proof {
        assert(take == wordlist_take(buffer@));
    }
    if take <= avl_mem as u128 && avl_mem as u128 - take >= MIN_AVL_MEM as u128 {
        Ok(entries)
    } else {
        Err(Error::LowMemory)
    }
}

} // verus!
