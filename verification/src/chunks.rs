//! Cutting a length into pieces of one size.

use vstd::prelude::*;

verus! {

/// The pieces of `size` from `from` up to `len`, in order; the last one may be shorter.
pub open spec fn pieces(from: nat, len: nat, size: nat) -> Seq<(int, int)>
    decreases if from < len {
        len - from
    } else {
        0
    },
{
    if size == 0 || from >= len {
        seq![]
    } else {
        seq![(from as int, if from + size <= len {
            (from + size) as int
        } else {
            len as int
        })] + pieces(from + size, len, size)
    }
}

/// The pieces are all of the full size but the last, start at multiples of it, and cover the
/// length without gap or overlap.
pub proof fn law_pieces_cover(from: nat, len: nat, size: nat)
    requires
        size > 0,
    ensures
        forall|k: int|
            0 <= k < pieces(from, len, size).len() ==> {
                let p = #[trigger] pieces(from, len, size)[k];
                &&& from <= p.0 < p.1 <= len
                &&& p.1 - p.0 <= size
                &&& p.0 == from + k * size
                &&& p.1 < len ==> p.1 - p.0 == size
                &&& k == 0 ==> p.0 == from
                &&& k > 0 ==> p.0 == pieces(from, len, size)[k - 1].1
                &&& k == pieces(from, len, size).len() - 1 ==> p.1 == len
            },
        from < len ==> pieces(from, len, size).len() > 0,
    decreases if from < len {
        len - from
    } else {
        0
    },
{
    if from < len {
        let all = pieces(from, len, size);
        let rest = pieces(from + size, len, size);
        law_pieces_cover(from + size, len, size);
        assert forall|k: int| 0 <= k < all.len() implies {
            let p = #[trigger] all[k];
            &&& from <= p.0 < p.1 <= len
            &&& p.1 - p.0 <= size
            &&& p.0 == from + k * size
            &&& p.1 < len ==> p.1 - p.0 == size
            &&& k == 0 ==> p.0 == from
            &&& k > 0 ==> p.0 == all[k - 1].1
            &&& k == all.len() - 1 ==> p.1 == len
        } by {
            if k > 0 {
                assert(all[k] == rest[k - 1]);
                assert(k * size == (k - 1) * size + size) by (nonlinear_arith);
                if k > 1 {
                    assert(all[k - 1] == rest[k - 2]);
                }
            } else {
                assert(0 * size == 0) by (nonlinear_arith);
            }
        }
    }
}

/// The pieces that a list of positions stands for.
pub open spec fn spans(list: Seq<(usize, usize)>) -> Seq<(int, int)> {
    Seq::new(list.len(), |i: int| (list[i].0 as int, list[i].1 as int))
}

/// The pieces of `size` that a length is cut into.
pub fn cut(len: usize, size: usize) -> (r: Vec<(usize, usize)>)
    requires
        size > 0,
    ensures
        spans(r@) == pieces(0, len as nat, size as nat),
        forall|k: int| 0 <= k < r@.len() ==> (#[trigger] r@[k]).0 < r@[k].1 <= len,
{
    let ghost all = pieces(0, len as nat, size as nat);
    let mut out: Vec<(usize, usize)> = Vec::new();
    let mut from: usize = 0;
    let mut more: bool = len > 0;
    proof {
        law_pieces_cover(0, len as nat, size as nat);
    }
    let ghost mut at: nat = 0;
    while more
        invariant
            size > 0,
            all == pieces(0, len as nat, size as nat),
            more ==> from < len && at == from,
            !more ==> at >= len,
            out@.len() + pieces(at, len as nat, size as nat).len() == all.len(),
            forall|k: int|
                0 <= k < pieces(at, len as nat, size as nat).len() ==> #[trigger] all[out@.len()
                    + k] == pieces(at, len as nat, size as nat)[k],
            forall|k: int|
                0 <= k < out@.len() ==> {
                    &&& (#[trigger] out@[k]).0 == all[k].0
                    &&& out@[k].1 == all[k].1
                    &&& out@[k].0 < out@[k].1 <= len
                },
        decreases if more {
            len - from + 1
        } else {
            0
        },
    {
        let ghost here = pieces(at, len as nat, size as nat);
        let ghost n = out@.len() as int;
        let to: usize = if len - from <= size {
            len
        } else {
            from + size
        };
        proof {
            assert(all[n + 0] == here[0]);
            let rest = pieces((at + size) as nat, len as nat, size as nat);
            assert forall|k: int| 0 <= k < rest.len() implies #[trigger] all[n + 1 + k]
                == rest[k] by {
                assert(all[n + (k + 1)] == here[k + 1]);
            }
            at = (at + size) as nat;
        }
        out.push((from, to));
        if len - from <= size {
            more = false;
        } else {
            from = from + size;
        }
    }
    assert(spans(out@) =~= all);
    out
}

} // verus!
