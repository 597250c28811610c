//! The compute part of the buffered output layer: rendering entries into
//! the line-feed-separated output text.  The caller moves the rendered
//! characters to the real sink and handles flushing.

use vstd::prelude::*;
use crate::text::entry_views;

verus! {

/// The output text of a list of entries: every non-empty entry followed by
/// one line feed; empty entries are passed over.
pub open spec fn render_spec(es: Seq<Seq<char>>) -> Seq<char>
    decreases es.len(),
{
    if es.len() == 0 {
        Seq::empty()
    } else {
        render_spec(es.drop_last()) + if es.last().len() > 0 {
            es.last().push('\n')
        } else {
            Seq::<char>::empty()
        }
    }
}

/// Renders one entry as it is written in streaming mode: its characters
/// followed by one line feed.
pub fn render_entry(e: &Vec<char>) -> (r: Vec<char>)
    ensures
        r@ == e@.push('\n'),
{
    let mut r = crate::text::copy_entry(e);
    r.push('\n');
    r
}

/// Renders a whole wordlist: each non-empty entry followed by one line
/// feed, in order.
pub fn render_output(wl: &Vec<Vec<char>>) -> (r: Vec<char>)
    ensures
        r@ == render_spec(entry_views(wl@)),
{
    let n = wl.len();
    let mut r: Vec<char> = Vec::new();
    let mut i: usize = 0;
    proof {
        assert(r@ =~= render_spec(entry_views(wl@.take(0))));
    }
    while i < n
        invariant
            0 <= i <= n,
            n == wl@.len(),
            r@ == render_spec(entry_views(wl@.take(i as int))),
        decreases n - i,
    {
        let ghost cur = entry_views(wl@.take(i as int + 1));
        proof {
            assert(cur.drop_last() =~= entry_views(wl@.take(i as int)));
            assert(cur.last() == wl@[i as int]@);
        }
        if wl[i].len() > 0 {
            let m = wl[i].len();
            let mut k: usize = 0;
            let ghost base = r@;
            while k < m
                invariant
                    0 <= k <= m,
                    i < n,
                    n == wl@.len(),
                    m == wl@[i as int]@.len(),
                    r@ =~= base + wl@[i as int]@.take(k as int),
                decreases m - k,
            {
                r.push(wl[i][k]);
                k = k + 1;
            }
            r.push('\n');
            proof {
                assert(r@ =~= base + wl@[i as int]@.push('\n'));
            }
        }
        proof {
            assert(r@ =~= render_spec(entry_views(wl@.take(i as int + 1))));
        }
        i = i + 1;
    }
    proof {
        assert(wl@.take(n as int) =~= wl@);
    }
    r
}

} // verus!
