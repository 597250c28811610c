//! Text primitives for wordlist entries: Unicode whitespace trimming,
//! UTF-8 byte length, bytewise lexicographic ordering, and line splitting.
//!
//! An entry is kept as a vector of Unicode scalar values (`Vec<char>`); its
//! byte length is the length of its UTF-8 encoding.

use vstd::prelude::*;
use vstd::utf8::{encode_utf8, encode_scalar};

verus! {

broadcast use vstd::utf8::char_is_scalar;

/// True for the characters with the Unicode `White_Space` property: the set
/// that surrounding-whitespace trimming removes.
pub open spec fn is_ws_char(c: char) -> bool {
    let u = c as u32;
    u == 0x09 || u == 0x0A || u == 0x0B || u == 0x0C || u == 0x0D || u == 0x20 || u == 0x85
        || u == 0xA0 || u == 0x1680 || (0x2000 <= u && u <= 0x200A) || u == 0x2028 || u == 0x2029
        || u == 0x202F || u == 0x205F || u == 0x3000
}

/// Decides membership in the Unicode `White_Space` set.
pub fn is_whitespace_char(c: char) -> (r: bool)
    ensures
        r == is_ws_char(c),
{
    let u = c as u32;
    u == 0x09 || u == 0x0A || u == 0x0B || u == 0x0C || u == 0x0D || u == 0x20 || u == 0x85
        || u == 0xA0 || u == 0x1680 || (0x2000 <= u && u <= 0x200A) || u == 0x2028 || u == 0x2029
        || u == 0x202F || u == 0x205F || u == 0x3000
}

/// The sequence with its leading whitespace removed.
pub open spec fn trim_start_spec(s: Seq<char>) -> Seq<char>
    decreases s.len(),
{
    if s.len() > 0 && is_ws_char(s[0]) {
        trim_start_spec(s.drop_first())
    } else {
        s
    }
}

/// The sequence with its trailing whitespace removed.
pub open spec fn trim_end_spec(s: Seq<char>) -> Seq<char>
    decreases s.len(),
{
    if s.len() > 0 && is_ws_char(s.last()) {
        trim_end_spec(s.drop_last())
    } else {
        s
    }
}

/// The sequence with both its leading and its trailing whitespace removed.
pub open spec fn trim_spec(s: Seq<char>) -> Seq<char> {
    trim_end_spec(trim_start_spec(s))
}

/// Removes the surrounding whitespace of `v`.
pub fn trim(v: &Vec<char>) -> (r: Vec<char>)
    ensures
        r@ == trim_spec(v@),
{
    let n = v.len();
    let mut i: usize = 0;
    proof {
        assert(v@.skip(0) =~= v@);
    }
    while i < n && is_whitespace_char(v[i])
        invariant
            0 <= i <= n,
            n == v@.len(),
            trim_start_spec(v@) == trim_start_spec(v@.skip(i as int)),
        decreases n - i,
    {
        proof {
            assert(v@.skip(i as int).drop_first() =~= v@.skip(i as int + 1));
        }
        i = i + 1;
    }
    proof {
        assert(trim_start_spec(v@.skip(i as int)) == v@.skip(i as int));
        assert(v@.subrange(i as int, n as int) =~= v@.skip(i as int));
    }
    let mut j: usize = n;
    while j > i && is_whitespace_char(v[j - 1])
        invariant
            i <= j <= n,
            n == v@.len(),
            trim_end_spec(v@.skip(i as int)) == trim_end_spec(v@.subrange(i as int, j as int)),
        decreases j,
    {
        proof {
            assert(v@.subrange(i as int, j as int).drop_last() =~= v@.subrange(
                i as int,
                j as int - 1,
            ));
        }
        j = j - 1;
    }
    proof {
        assert(trim_end_spec(v@.subrange(i as int, j as int)) == v@.subrange(i as int, j as int));
    }
    let mut r: Vec<char> = Vec::new();
    let mut k: usize = i;
    while k < j
        invariant
            i <= k <= j <= n,
            n == v@.len(),
            r@ =~= v@.subrange(i as int, k as int),
        decreases j - k,
    {
        r.push(v[k]);
        k = k + 1;
    }
    proof {
        assert(r@ =~= v@.subrange(i as int, j as int));
    }
    r
}

/// The length in bytes of the UTF-8 encoding of the character sequence.
pub open spec fn byte_len(s: Seq<char>) -> nat {
    encode_utf8(s).len()
}

/// The number of bytes in the UTF-8 encoding of one scalar.
pub open spec fn char_width(c: char) -> int {
    let u = c as u32;
    if u < 0x80 {
        1
    } else if u < 0x800 {
        2
    } else if u < 0x10000 {
        3
    } else {
        4
    }
}

/// The encoding of one character contributes exactly its width.
pub proof fn lemma_encode_scalar_len(c: char)
    ensures
        encode_scalar(c as u32).len() == char_width(c),
        1 <= char_width(c) <= 4,
{
}

/// The byte length of a sequence splits off the width of its first
/// character.
pub proof fn lemma_byte_len_unfold(s: Seq<char>)
    requires
        s.len() > 0,
    ensures
        byte_len(s) == char_width(s[0]) + byte_len(s.drop_first()),
{
    lemma_encode_scalar_len(s[0]);
}

/// Every character takes at least one byte, so the byte length dominates
/// the character count.
pub proof fn lemma_byte_len_ge_len(s: Seq<char>)
    ensures
        byte_len(s) >= s.len(),
        byte_len(s) <= 4 * s.len(),
    decreases s.len(),
{
    if s.len() > 0 {
        lemma_byte_len_unfold(s);
        lemma_byte_len_ge_len(s.drop_first());
    }
}

/// Computes the UTF-8 byte length of an entry.  The result is exact; the
/// wide return type keeps the sum from overflowing for any vector length.
pub fn entry_byte_len(v: &Vec<char>) -> (n: u128)
    ensures
        n == byte_len(v@),
{
    let len = v.len();
    let mut n: u128 = 0;
    let mut i: usize = 0;
    proof {
        assert(v@.skip(0) =~= v@);
    }
    while i < len
        invariant
            0 <= i <= len,
            len == v@.len(),
            n <= 4 * (i as u128),
            n + byte_len(v@.skip(i as int)) == byte_len(v@),
        decreases len - i,
    {
        let u = v[i] as u32;
        let w: u128 = if u < 0x80 {
            1
        } else if u < 0x800 {
            2
        } else if u < 0x10000 {
            3
        } else {
            4
        };
        proof {
            lemma_byte_len_unfold(v@.skip(i as int));
            assert(v@.skip(i as int).drop_first() =~= v@.skip(i as int + 1));
            lemma_byte_len_ge_len(v@.skip(i as int + 1));
        }
        n = n + w;
        i = i + 1;
    }
    proof {
        assert(v@.skip(len as int) =~= Seq::<char>::empty());
    }
    n
}

/// True when the byte length of the entry lies in the inclusive range.
pub open spec fn in_range(e: Seq<char>, min: int, max: int) -> bool {
    min <= byte_len(e) <= max
}

/// Decides whether the byte length of `v` lies between `min_len` and
/// `max_len`, both inclusive.
pub fn in_length_range(v: &Vec<char>, min_len: usize, max_len: usize) -> (r: bool)
    ensures
        r == in_range(v@, min_len as int, max_len as int),
{
    let n = entry_byte_len(v);
    min_len as u128 <= n && n <= max_len as u128
}

/// Lexicographic order on character sequences by scalar value.  Because
/// UTF-8 encodes larger scalars with bytewise-larger sequences, this order
/// coincides with lexicographic comparison of the entries' UTF-8 bytes.
pub open spec fn lex_le(a: Seq<char>, b: Seq<char>) -> bool
    decreases a.len(),
{
    if a.len() == 0 {
        true
    } else if b.len() == 0 {
        false
    } else if (a[0] as u32) < (b[0] as u32) {
        true
    } else if (b[0] as u32) < (a[0] as u32) {
        false
    } else {
        lex_le(a.drop_first(), b.drop_first())
    }
}

/// The entry order as a first-class relation, for `sort_by` and
/// `sorted_by`.
pub open spec fn char_seq_le() -> spec_fn(Seq<char>, Seq<char>) -> bool {
    |a: Seq<char>, b: Seq<char>| lex_le(a, b)
}

/// The entry order relates every sequence to itself.
pub proof fn lemma_lex_le_reflexive(a: Seq<char>)
    ensures
        lex_le(a, a),
    decreases a.len(),
{
    if a.len() > 0 {
        lemma_lex_le_reflexive(a.drop_first());
    }
}

/// Any two sequences are comparable under the entry order.
pub proof fn lemma_lex_le_total(a: Seq<char>, b: Seq<char>)
    ensures
        lex_le(a, b) || lex_le(b, a),
    decreases a.len(),
{
    if a.len() > 0 && b.len() > 0 && (a[0] as u32) == (b[0] as u32) {
        lemma_lex_le_total(a.drop_first(), b.drop_first());
    }
}

/// Sequences that the entry order relates both ways are equal.
pub proof fn lemma_lex_le_antisymmetric(a: Seq<char>, b: Seq<char>)
    requires
        lex_le(a, b),
        lex_le(b, a),
    ensures
        a == b,
    decreases a.len(),
{
    if a.len() > 0 {
        vstd::utf8::char_u32_cast(a[0], a[0] as u32);
        vstd::utf8::char_u32_cast(b[0], b[0] as u32);
        assert(a[0] == b[0]);
        lemma_lex_le_antisymmetric(a.drop_first(), b.drop_first());
        assert(a =~= seq![a[0]] + a.drop_first());
        assert(b =~= seq![b[0]] + b.drop_first());
    }
}

/// The entry order is transitive.
pub proof fn lemma_lex_le_transitive(a: Seq<char>, b: Seq<char>, c: Seq<char>)
    requires
        lex_le(a, b),
        lex_le(b, c),
    ensures
        lex_le(a, c),
    decreases a.len(),
{
    if a.len() > 0 && b.len() > 0 && c.len() > 0 {
        if (a[0] as u32) == (b[0] as u32) && (b[0] as u32) == (c[0] as u32) {
            lemma_lex_le_transitive(a.drop_first(), b.drop_first(), c.drop_first());
        }
    }
}

/// The entry order is a total order in the sense of `vstd::relations`.
pub proof fn lemma_char_seq_le_total_ordering()
    ensures
        vstd::relations::total_ordering(char_seq_le()),
{
    let leq = char_seq_le();
    assert forall|a: Seq<char>| #[trigger] leq(a, a) by {
        lemma_lex_le_reflexive(a);
    }
    assert forall|a: Seq<char>, b: Seq<char>| #[trigger] leq(a, b) && #[trigger] leq(b, a)
        implies a == b by {
        lemma_lex_le_antisymmetric(a, b);
    }
    assert forall|a: Seq<char>, b: Seq<char>, c: Seq<char>|
        #[trigger] leq(a, b) && #[trigger] leq(b, c) implies leq(a, c) by {
        lemma_lex_le_transitive(a, b, c);
    }
    assert forall|a: Seq<char>, b: Seq<char>| #[trigger] leq(a, b) || #[trigger] leq(b, a) by {
        lemma_lex_le_total(a, b);
    }
}

/// Decides the entry order between two entries.
pub fn lex_le_exec(a: &Vec<char>, b: &Vec<char>) -> (r: bool)
    ensures
        r == lex_le(a@, b@),
{
    let alen = a.len();
    let blen = b.len();
    let mut i: usize = 0;
    proof {
        assert(a@.skip(0) =~= a@);
        assert(b@.skip(0) =~= b@);
    }
    while i < alen && i < blen
        invariant
            0 <= i <= alen,
            0 <= i <= blen,
            alen == a@.len(),
            blen == b@.len(),
            lex_le(a@, b@) == lex_le(a@.skip(i as int), b@.skip(i as int)),
        decreases alen - i,
    {
        let x = a[i] as u32;
        let y = b[i] as u32;
        if x < y {
            return true;
        }
        if y < x {
            return false;
        }
        proof {
            assert(a@.skip(i as int).drop_first() =~= a@.skip(i as int + 1));
            assert(b@.skip(i as int).drop_first() =~= b@.skip(i as int + 1));
        }
        i = i + 1;
    }
    i == alen
}

/// The views of a vector of entries, as a sequence of character sequences.
pub open spec fn entry_views(s: Seq<Vec<char>>) -> Seq<Seq<char>> {
    s.map_values(|v: Vec<char>| v@)
}

/// The predicate that keeps exactly the non-empty entries.
pub open spec fn nonempty_entry() -> spec_fn(Seq<char>) -> bool {
    |e: Seq<char>| e.len() > 0
}

/// The segments of the sequence between line feeds.  A sequence with `k`
/// line feeds has `k + 1` segments, some possibly empty.
pub open spec fn split_lines(s: Seq<char>) -> Seq<Seq<char>>
    decreases s.len(),
{
    if s.len() == 0 {
        seq![Seq::<char>::empty()]
    } else {
        let prev = split_lines(s.drop_last());
        if s.last() == '\n' {
            prev.push(Seq::<char>::empty())
        } else {
            prev.update(prev.len() - 1, prev.last().push(s.last()))
        }
    }
}

/// Splitting always yields at least one segment.
pub proof fn lemma_split_lines_len(s: Seq<char>)
    ensures
        split_lines(s).len() >= 1,
    decreases s.len(),
{
    if s.len() > 0 {
        lemma_split_lines_len(s.drop_last());
    }
}

/// Splits `v` at every line feed, keeping empty segments.
pub fn split_lines_exec(v: &Vec<char>) -> (r: Vec<Vec<char>>)
    ensures
        entry_views(r@) == split_lines(v@),
{
    let n = v.len();
    let mut out: Vec<Vec<char>> = Vec::new();
    let mut cur: Vec<char> = Vec::new();
    let mut i: usize = 0;
    proof {
        assert(entry_views(out@).push(cur@) =~= split_lines(v@.take(0)));
    }
    while i < n
        invariant
            0 <= i <= n,
            n == v@.len(),
            entry_views(out@).push(cur@) == split_lines(v@.take(i as int)),
        decreases n - i,
    {
        let c = v[i];
        proof {
            assert(v@.take(i as int + 1).drop_last() =~= v@.take(i as int));
            lemma_split_lines_len(v@.take(i as int));
        }
        if c == '\n' {
            let ghost prev_out = out@;
            let ghost prev_cur = cur@;
            out.push(cur);
            cur = Vec::new();
            proof {
                assert(entry_views(out@).push(cur@) =~= split_lines(v@.take(i as int)).push(
                    Seq::<char>::empty(),
                ));
            }
        } else {
            let ghost prev = entry_views(out@).push(cur@);
            cur.push(c);
            proof {
                assert(entry_views(out@).push(cur@) =~= prev.update(
                    prev.len() - 1,
                    prev.last().push(c),
                ));
            }
        }
        i = i + 1;
    }
    proof {
        assert(v@.take(n as int) =~= v@);
    }
    out.push(cur);
    proof {
        assert(entry_views(out@) =~= split_lines(v@));
    }
    out
}

/// Removes the empty entries, keeping the order of the rest.
pub fn drop_empty_entries(v: Vec<Vec<char>>) -> (r: Vec<Vec<char>>)
    ensures
        entry_views(r@) == entry_views(v@).filter(nonempty_entry()),
{
    broadcast use vstd::prelude::Seq::lemma_filter_push;

    let n = v.len();
    let mut out: Vec<Vec<char>> = Vec::new();
    let mut i: usize = 0;
    proof {
        assert(entry_views(out@) =~= entry_views(v@.take(0)).filter(nonempty_entry()));
    }
    while i < n
        invariant
            0 <= i <= n,
            n == v@.len(),
            entry_views(out@) == entry_views(v@.take(i as int)).filter(nonempty_entry()),
        decreases n - i,
    {
        let ghost prev = entry_views(v@.take(i as int));
        proof {
            assert(entry_views(v@.take(i as int + 1)) =~= prev.push(v@[i as int]@));
            prev.lemma_filter_push(v@[i as int]@, nonempty_entry());
        }
        if v[i].len() > 0 {
            let e = copy_entry(&v[i]);
            out.push(e);
            proof {
                assert(entry_views(out@) =~= prev.filter(nonempty_entry()).push(v@[i as int]@));
            }
        }
        i = i + 1;
    }
    proof {
        assert(v@.take(n as int) =~= v@);
    }
    out
}

/// Copies an entry character by character.
pub fn copy_entry(v: &Vec<char>) -> (r: Vec<char>)
    ensures
        r@ == v@,
{
    let n = v.len();
    let mut r: Vec<char> = Vec::new();
    let mut i: usize = 0;
    while i < n
        invariant
            0 <= i <= n,
            n == v@.len(),
            r@ =~= v@.take(i as int),
        decreases n - i,
    {
        r.push(v[i]);
        i = i + 1;
    }
    proof {
        assert(r@ =~= v@);
    }
    r
}

/// Decides equality of two entries.
pub fn entries_equal(a: &Vec<char>, b: &Vec<char>) -> (r: bool)
    ensures
        r == (a@ == b@),
{
    if a.len() != b.len() {
        return false;
    }
    let n = a.len();
    let mut i: usize = 0;
    while i < n
        invariant
            0 <= i <= n,
            n == a@.len(),
            n == b@.len(),
            forall|j: int| 0 <= j < i ==> a@[j] == b@[j],
        decreases n - i,
    {
        if a[i] != b[i] {
            return false;
        }
        i = i + 1;
    }
    proof {
        assert(a@ =~= b@);
    }
    true
}

/// Decides whether `list` holds an entry equal to `e`.
pub fn contains_entry(list: &Vec<Vec<char>>, e: &Vec<char>) -> (r: bool)
    ensures
        r == entry_views(list@).contains(e@),
{
    let n = list.len();
    let mut i: usize = 0;
    while i < n
        invariant
            0 <= i <= n,
            n == list@.len(),
            forall|j: int| 0 <= j < i ==> entry_views(list@)[j] != e@,
        decreases n - i,
    {
        if entries_equal(&list[i], e) {
            proof {
                assert(entry_views(list@)[i as int] == e@);
            }
            return true;
        }
        i = i + 1;
    }
    proof {
        assert(!entry_views(list@).contains(e@));
    }
    false
}

} // verus!
