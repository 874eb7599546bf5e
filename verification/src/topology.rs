//! Which logical processors search workers are pinned to: one per physical core,
//! performance cores first.
use vstd::prelude::*;

verus! {

/// One logical-processor id per physical core, performance cores (P-cores) first, then
/// efficiency cores (E-cores), and how many of them are P-cores.
pub struct CoreTopology {
    pub ordered_lps: Vec<usize>,
    pub p_core_count: usize,
}

/// The ids of `all`, in order, that are in both `a` and `b`.
pub open spec fn ids_in_both(all: Seq<usize>, a: Seq<usize>, b: Seq<usize>) -> Seq<usize>
    decreases all.len(),
{
    if all.len() == 0 {
        Seq::empty()
    } else {
        let prev = ids_in_both(all.drop_last(), a, b);
        if a.contains(all.last()) && b.contains(all.last()) {
            prev.push(all.last())
        } else {
            prev
        }
    }
}

impl CoreTopology {
    /// The cores for `worker_count` workers, and one left over for the output thread if
    /// there is one. With no more workers than cores, the workers take a prefix; with
    /// more (oversubscription, asked for explicitly) they wrap around, so the P-cores,
    /// listed first, get their second thread before any E-core is used twice.
    pub fn claim(&self, worker_count: usize) -> (r: (Vec<usize>, Option<usize>))
        requires
            worker_count <= self.ordered_lps@.len() || self.ordered_lps@.len() > 0,
        ensures
            worker_count <= self.ordered_lps@.len() ==> {
                &&& r.0@ == self.ordered_lps@.take(worker_count as int)
                &&& r.1 == if worker_count < self.ordered_lps@.len() {
                    Some(self.ordered_lps@[worker_count as int])
                } else {
                    None
                }
            },
            worker_count > self.ordered_lps@.len() ==> {
                &&& r.0@ == Seq::new(
                    worker_count as nat,
                    |i: int| self.ordered_lps@[i % self.ordered_lps@.len() as int],
                )
                &&& r.1 is None
            },
    {
        let n = self.ordered_lps.len();
        if worker_count <= n {
            let mut workers: Vec<usize> = Vec::new();
            let mut i: usize = 0;
            while i < worker_count
                invariant
                    n == self.ordered_lps@.len(),
                    worker_count <= n,
                    i <= worker_count,
                    workers@ == self.ordered_lps@.take(i as int),
                decreases worker_count - i,
            {
                workers.push(self.ordered_lps[i]);
                assert(self.ordered_lps@.take(i + 1) =~= self.ordered_lps@.take(i as int).push(
                    self.ordered_lps@[i as int],
                ));
                i = i + 1;
            }
            let rest = if worker_count < n {
                Some(self.ordered_lps[worker_count])
            } else {
                None
            };
            return (workers, rest);
        }
        let mut workers: Vec<usize> = Vec::new();
        let mut i: usize = 0;
        while i < worker_count
            invariant
                n == self.ordered_lps@.len(),
                n > 0,
                i <= worker_count,
                workers@ == Seq::new(i as nat, |k: int| self.ordered_lps@[k % n as int]),
            decreases worker_count - i,
        {
            workers.push(self.ordered_lps[i % n]);
            assert(workers@ =~= Seq::new((i + 1) as nat, |k: int| self.ordered_lps@[k % n as int]));
            i = i + 1;
        }
        (workers, None)
    }
}

/// The ids of `all`, in order, that are in both `a` and `b`.
fn ids_in_both_exec(all: &[usize], a: &[usize], b: &[usize]) -> (r: Vec<usize>)
    ensures
        r@ == ids_in_both(all@, a@, b@),
{
    let mut out: Vec<usize> = Vec::new();
    let mut i: usize = 0;
    while i < all.len()
        invariant
            i <= all@.len(),
            out@ == ids_in_both(all@.take(i as int), a@, b@),
        decreases all@.len() - i,
    {
        assert(all@.take(i + 1).drop_last() =~= all@.take(i as int));
        assert(all@.take(i + 1).last() == all@[i as int]);
        let id = all[i];
        if contains_id(a, id) && contains_id(b, id) {
            out.push(id);
        }
        i = i + 1;
    }
    assert(all@.take(all@.len() as int) =~= all@);
    out
}

/// Is `id` in `ids`?
fn contains_id(ids: &[usize], id: usize) -> (r: bool)
    ensures
        r == ids@.contains(id),
{
    let mut i: usize = 0;
    while i < ids.len()
        invariant
            i <= ids@.len(),
            forall|k: int| 0 <= k < i ==> ids@[k] != id,
        decreases ids@.len() - i,
    {
        if ids[i] == id {
            return true;
        }
        i = i + 1;
    }
    false
}

/// The topology of a hybrid processor, from its logical-processor ids and the ids in its
/// primary-thread (one per physical core), performance-core and efficiency-core masks:
/// the primary P-core threads, then the primary E-core threads, each in id order; `None`
/// when no primary thread is on a P-core.
pub fn hybrid_topology(all: &[usize], primary: &[usize], perf: &[usize], eff: &[usize]) -> (r: Option<
    CoreTopology,
>)
    ensures
        ids_in_both(all@, primary@, perf@).len() == 0 ==> r is None,
        ids_in_both(all@, primary@, perf@).len() > 0 ==> (r matches Some(t) && t.ordered_lps@
            == ids_in_both(all@, primary@, perf@) + ids_in_both(all@, primary@, eff@) && t.p_core_count
            == ids_in_both(all@, primary@, perf@).len()),
{
    let p_lps = ids_in_both_exec(all, primary, perf);
    let e_lps = ids_in_both_exec(all, primary, eff);
    if p_lps.len() == 0 {
        return None;
    }
    let p_core_count = p_lps.len();
    let mut ordered_lps = p_lps;
    let mut i: usize = 0;
    let ghost p = ordered_lps@;
    while i < e_lps.len()
        invariant
            i <= e_lps@.len(),
            ordered_lps@ == p + e_lps@.take(i as int),
        decreases e_lps@.len() - i,
    {
        ordered_lps.push(e_lps[i]);
        assert(e_lps@.take(i + 1) =~= e_lps@.take(i as int).push(e_lps@[i as int]));
        i = i + 1;
    }
    assert(e_lps@.take(e_lps@.len() as int) =~= e_lps@);
    Some(CoreTopology { ordered_lps, p_core_count })
}

/// The topology when no P/E distinction is available: cores `0..n`, all counted as
/// P-cores.
pub fn uniform_topology(n: usize) -> (r: CoreTopology)
    ensures
        r.ordered_lps@ == Seq::new(n as nat, |i: int| i as usize),
        r.p_core_count == n,
{
    let mut ordered_lps: Vec<usize> = Vec::new();
    let mut i: usize = 0;
    while i < n
        invariant
            i <= n,
            ordered_lps@ == Seq::new(i as nat, |k: int| k as usize),
        decreases n - i,
    {
        ordered_lps.push(i);
        assert(ordered_lps@ =~= Seq::new((i + 1) as nat, |k: int| k as usize));
        i = i + 1;
    }
    CoreTopology { ordered_lps, p_core_count: n }
}


/// With no more workers than cores, on cores listed once each: no two workers share a
/// core, and the core left over for the output thread is none of theirs.
pub proof fn lemma_claim_prefix_distinct(lps: Seq<usize>, worker_count: int)
    requires
        lps.no_duplicates(),
        0 <= worker_count < lps.len(),
    ensures
        lps.take(worker_count).no_duplicates(),
        !lps.take(worker_count).contains(lps[worker_count]),
{
    let w = lps.take(worker_count);
    assert forall|i: int, j: int| 0 <= i < j < w.len() implies w[i] != w[j] by {
        assert(w[i] == lps[i] && w[j] == lps[j]);
    }
    if w.contains(lps[worker_count]) {
        let k = choose|k: int| 0 <= k < w.len() && w[k] == lps[worker_count];
        assert(lps[k] == lps[worker_count]);
    }
}

/// When oversubscribed workers wrap around (worker `k` on core `k % n`, see `claim`),
/// the second pass over the `n` cores takes every one of the first `p` (the P-cores)
/// again before it takes any E-core again.
pub proof fn lemma_second_pass_p_cores_first(n: int, p: int, k1: int, k2: int)
    requires
        0 <= p <= n,
        n <= k1 < 2 * n,
        n <= k2 < 2 * n,
        k1 % n < p,
        p <= k2 % n,
    ensures
        k1 < k2,
{
    assert(k1 % n == k1 - n && k2 % n == k2 - n) by (nonlinear_arith)
        requires
            n <= k1 < 2 * n,
            n <= k2 < 2 * n,
    ;
}

} // verus!
