//! The order in which a gradient seeds its inputs.
//!
//! A gradient over several argument lists seeds one input at a time: all inputs
//! of the first list in order, then those of the second, and so on. Each input
//! is seeded, the function evaluated, its derivative recorded, and the input
//! unseeded before the next one is seeded.
use vstd::prelude::*;

verus! {

/// How many inputs the lists of the given lengths hold together.
pub open spec fn total(lens: Seq<usize>) -> int
    decreases lens.len(),
{
    if lens.len() == 0 {
        0
    } else {
        total(lens.drop_last()) + lens.last()
    }
}

/// The inputs in seeding order, each as (list, position in the list).
pub open spec fn order(lens: Seq<usize>) -> Seq<(usize, usize)>
    decreases lens.len(),
{
    if lens.len() == 0 {
        Seq::empty()
    } else {
        let a = (lens.len() - 1) as usize;
        order(lens.drop_last()) + Seq::new(lens.last() as nat, |j: int| (a, j as usize))
    }
}

proof fn lemma_order_len(lens: Seq<usize>)
    ensures
        order(lens).len() == total(lens),
    decreases lens.len(),
{
    if lens.len() > 0 {
        lemma_order_len(lens.drop_last());
    }
}

/// The inputs to seed, one after the other, for argument lists of the given
/// lengths: every position of list 0 in order, then of list 1, and so on. The
/// total is counted first so that the result is allocated once. `None` where
/// the total does not fit in `usize`.
pub fn seed_order(lens: &Vec<usize>) -> (r: Option<Vec<(usize, usize)>>)
    ensures
        r is Some <==> total(lens@) <= usize::MAX,
        r matches Some(v) ==> v@ == order(lens@) && v@.len() == total(lens@),
{
    let mut cnt: usize = 0;
    let mut a: usize = 0;
    while a < lens.len()
        invariant
            a <= lens.len(),
            cnt == total(lens@.take(a as int)),
        decreases lens.len() - a,
    {
        assert(lens@.take(a + 1).drop_last() =~= lens@.take(a as int));
        if lens[a] > usize::MAX - cnt {
            proof {
                lemma_total_grows(lens@, a + 1);
            }
            return None;
        }
        cnt = cnt + lens[a];
        a += 1;
    }
    assert(lens@.take(lens.len() as int) =~= lens@);
    let mut out: Vec<(usize, usize)> = Vec::with_capacity(cnt);
    let mut a: usize = 0;
    while a < lens.len()
        invariant
            a <= lens.len(),
            out@ == order(lens@.take(a as int)),
        decreases lens.len() - a,
    {
        let ghost before = out@;
        let n = lens[a];
        let mut j: usize = 0;
        while j < n
            invariant
                j <= n,
                n == lens@[a as int],
                a < lens.len(),
                out@ == before + Seq::new(j as nat, |k: int| (a, k as usize)),
            decreases n - j,
        {
            out.push((a, j));
            j += 1;
            assert(out@ =~= before + Seq::new(j as nat, |k: int| (a, k as usize)));
        }
        assert(lens@.take(a + 1).drop_last() =~= lens@.take(a as int));
        a += 1;
    }
    assert(lens@.take(lens.len() as int) =~= lens@);
    proof {
        lemma_order_len(lens@);
    }
    Some(out)
}

/// The total of a prefix is at most the total of the whole.
proof fn lemma_total_grows(lens: Seq<usize>, k: int)
    requires
        0 <= k <= lens.len(),
    ensures
        total(lens.take(k)) <= total(lens),
    decreases lens.len() - k,
{
    if k < lens.len() {
        lemma_total_grows(lens, k + 1);
        assert(lens.take(k + 1).drop_last() =~= lens.take(k));
    } else {
        assert(lens.take(k) =~= lens);
    }
}

} // verus!
