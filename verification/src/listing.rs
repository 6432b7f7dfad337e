//! Rendering of the debug listing: many entries joined into one body,
//! each preceded by a line feed, in order. The surrounding server
//! gathers the entries (directory contents, environment lines) and
//! serves the rendered bytes.

use vstd::prelude::*;

verus! {

/// The rendered listing: a line feed before each entry, entries in
/// order, nothing else.
pub open spec fn listing_of(items: Seq<Seq<u8>>) -> Seq<u8>
    decreases items.len(),
{
    if items.len() == 0 {
        Seq::empty()
    } else {
        listing_of(items.drop_last()) + seq![10u8] + items.last()
    }
}

/// Render the entries into one body.
pub fn render_listing(entries: &Vec<Vec<u8>>) -> (r: Vec<u8>)
    ensures
        r@ == listing_of(entries@.map_values(|e: Vec<u8>| e@)),
{
    let ghost items = entries@.map_values(|e: Vec<u8>| e@);
    let n = entries.len();
    let mut out: Vec<u8> = Vec::new();
    let mut i: usize = 0;
    proof {
        assert(items.subrange(0, 0) =~= Seq::<Seq<u8>>::empty());
    }
    while i < n
        invariant
            i <= n,
            n == entries@.len(),
            items == entries@.map_values(|e: Vec<u8>| e@),
            n == items.len(),
            out@ == listing_of(items.subrange(0, i as int)),
        decreases n - i,
    {
        let ghost opre = out@;
        out.push(10);
        let m = entries[i].len();
        let mut k: usize = 0;
        while k < m
            invariant
                k <= m,
                i < n == entries@.len(),
                m == entries@[i as int]@.len(),
                out@ == opre + seq![10u8] + entries@[i as int]@.subrange(0, k as int),
            decreases m - k,
        {
            let b = entries[i][k];
            out.push(b);
            proof {
                assert(out@ =~= opre + seq![10u8] + entries@[i as int]@.subrange(0, k + 1));
            }
            k += 1;
        }
        proof {
            assert(entries@[i as int]@.subrange(0, m as int) =~= entries@[i as int]@);
            assert(items.subrange(0, i + 1).drop_last() =~= items.subrange(0, i as int));
            assert(items.subrange(0, i + 1).last() == items[i as int]);
            assert(items[i as int] == entries@[i as int]@);
            assert(out@ =~= listing_of(items.subrange(0, i + 1)));
        }
        i += 1;
    }
    proof {
        assert(items.subrange(0, n as int) =~= items);
    }
    out
}

} // verus!
