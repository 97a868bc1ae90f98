use vstd::prelude::*;
use crate::region::PAGE_SIZE;

verus! {

/// Hands out the frames of a contiguous pool one at a time, highest first,
/// never reusing one.
#[derive(Clone, Copy, Debug, PartialEq, Eq, Structural)]
pub struct BumpFrameAllocator {
    pub lowest_address: u64,
    pub remaining: u64,
}

impl BumpFrameAllocator {
    /// Every frame still to be handed out has an address that fits in 64 bits.
    pub open spec fn wf(self) -> bool {
        self.lowest_address + self.remaining * PAGE_SIZE <= u64::MAX
    }

    /// Address of the `k`-th frame of the pool, counted from its lowest one.
    pub open spec fn frame_at(self, k: int) -> int {
        self.lowest_address + k * PAGE_SIZE
    }

    /// The state after one request, and what that request returns.
    pub open spec fn step(self) -> (BumpFrameAllocator, Option<u64>) {
        if self.remaining > 0 {
            (
                BumpFrameAllocator { remaining: (self.remaining - 1) as u64, ..self },
                Some(self.frame_at(self.remaining - 1) as u64),
            )
        } else {
            (self, None)
        }
    }

    /// What `k` successive requests return.
    pub open spec fn outputs(self, k: nat) -> Seq<Option<u64>>
        decreases k,
    {
        if k == 0 {
            Seq::empty()
        } else {
            seq![self.step().1] + self.step().0.outputs((k - 1) as nat)
        }
    }

    pub fn new(lowest_address: u64, count: u64) -> (r: Self)
        requires
            lowest_address + count * PAGE_SIZE <= u64::MAX,
        ensures
            r.lowest_address == lowest_address,
            r.remaining == count,
            r.wf(),
    {
        BumpFrameAllocator { lowest_address, remaining: count }
    }

    /// Takes the highest frame not yet handed out, or `None` when the pool is
    /// exhausted.
    pub fn allocate(&mut self) -> (r: Option<u64>)
        requires
            old(self).wf(),
        ensures
            (*final(self), r) == old(self).step(),
            final(self).wf(),
    {
        if self.remaining > 0 {
            let k = self.remaining - 1;
            proof {
                let m = self.remaining;
                assert(k * PAGE_SIZE <= m * PAGE_SIZE) by (nonlinear_arith)
                    requires k < m;
            }
            self.remaining = k;
            Some(self.lowest_address + k * PAGE_SIZE)
        } else {
            None
        }
    }
}

/// A pool of `n` frames serves exactly `n` requests, with the frames
/// `lowest + (n-1)·PAGE_SIZE` down to `lowest` in that order; each is a whole
/// page below the one before, so they are distinct and do not overlap, and
/// the request after them finds the pool exhausted.
pub proof fn lemma_pool_drains_in_order(a: BumpFrameAllocator)
    requires
        a.wf(),
    ensures
        a.outputs(a.remaining as nat + 1).len() == a.remaining + 1,
        forall|i: int| 0 <= i < a.remaining ==>
            #[trigger] a.outputs(a.remaining as nat + 1)[i]
                == Some(a.frame_at(a.remaining - 1 - i) as u64),
        forall|i: int, j: int| 0 <= i < j < a.remaining ==>
            (#[trigger] a.outputs(a.remaining as nat + 1)[i]).unwrap() as int
                >= (#[trigger] a.outputs(a.remaining as nat + 1)[j]).unwrap() + PAGE_SIZE,
        a.outputs(a.remaining as nat + 1)[a.remaining as int] == None::<u64>,
    decreases a.remaining,
{
    let n = a.remaining as nat;
    let s = a.outputs(n + 1);
    if n == 0 {
        assert(a.step().0.outputs(0) == Seq::<Option<u64>>::empty());
        assert(s =~= seq![None::<u64>]);
    } else {
        let b = a.step().0;
        assert(b.remaining == n - 1);
        assert(b.wf()) by (nonlinear_arith)
            requires a.wf(), b.remaining == a.remaining - 1, b.lowest_address == a.lowest_address;
        lemma_pool_drains_in_order(b);
        let t = b.outputs(n);
        assert(s == seq![a.step().1] + t);
        assert forall|i: int| 0 <= i < n implies #[trigger] s[i] == Some(a.frame_at(n - 1 - i) as u64) by {
            if i > 0 {
                assert(s[i] == t[i - 1]);
            }
        }
        assert forall|i: int, j: int| 0 <= i < j < n implies
            (#[trigger] s[i]).unwrap() as int >= (#[trigger] s[j]).unwrap() + PAGE_SIZE by {
            assert(s[i] == Some(a.frame_at(n - 1 - i) as u64));
            assert(s[j] == Some(a.frame_at(n - 1 - j) as u64));
            assert(a.frame_at(n - 1 - i) >= a.frame_at(n - 1 - j) + PAGE_SIZE) by (nonlinear_arith)
                requires i < j;
            assert(0 <= a.frame_at(n - 1 - j)) by (nonlinear_arith) requires j < n;
            assert(a.frame_at(n - 1 - i) <= u64::MAX) by (nonlinear_arith)
                requires a.wf(), 0 <= i, i < n, n == a.remaining;
        }
        assert(s[n as int] == t[n - 1]);
    }
}

} // verus!
