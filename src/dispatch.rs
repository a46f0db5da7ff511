//! Splitting a batch of `len` elements among workers: contiguous chunks of
//! `ceil(len / workers)` elements, the last one possibly shorter. Each
//! element's result depends on that element alone, so the output does not
//! depend on the number of workers.

use vstd::prelude::*;

verus! {

/// Elements per chunk: `ceil(len / workers)`, and at least one.
pub open spec fn chunk_len(len: nat, workers: nat) -> nat {
    let c = len / workers + (if len % workers == 0 { 0nat } else { 1nat });
    if c == 0 {
        1
    } else {
        c
    }
}

/// The chunks from `start` on: `[start, min(start + c, len))`, then the
/// rest.
pub open spec fn plan_from(start: nat, len: nat, c: nat) -> Seq<(nat, nat)>
    decreases len - start,
{
    if start >= len || c == 0 {
        Seq::empty()
    } else {
        let end = if start + c < len { start + c } else { len };
        seq![(start, end)] + plan_from(end, len, c)
    }
}

/// The chunks of `len` elements for `workers` workers.
pub open spec fn plan_spec(len: nat, workers: nat) -> Seq<(nat, nat)> {
    plan_from(0, len, chunk_len(len, workers))
}

/// The results of running `f` over each chunk of the plan, concatenated.
pub open spec fn run_plan<A, B>(plan: Seq<(nat, nat)>, xs: Seq<A>, f: spec_fn(A) -> B) -> Seq<B>
    decreases plan.len(),
{
    if plan.len() == 0 {
        Seq::empty()
    } else {
        xs.subrange(plan[0].0 as int, plan[0].1 as int).map_values(f) + run_plan(
            plan.drop_first(),
            xs,
            f,
        )
    }
}

proof fn lemma_run_from<A, B>(start: nat, c: nat, xs: Seq<A>, f: spec_fn(A) -> B)
    requires
        start <= xs.len(),
        c >= 1,
    ensures
        run_plan(plan_from(start, xs.len(), c), xs, f) == xs.subrange(
            start as int,
            xs.len() as int,
        ).map_values(f),
    decreases xs.len() - start,
{
    let len = xs.len();
    if start >= len {
        assert(xs.subrange(start as int, len as int).map_values(f) =~= Seq::<B>::empty());
    } else {
        let end = if start + c < len { start + c } else { len };
        let p = plan_from(start, len, c);
        assert(p == seq![(start, end)] + plan_from(end, len, c));
        assert(p.drop_first() =~= plan_from(end, len, c));
        assert(p[0] == (start, end));
        lemma_run_from(end, c, xs, f);
        assert(xs.subrange(start as int, end as int).map_values(f) + xs.subrange(
            end as int,
            len as int,
        ).map_values(f) =~= xs.subrange(start as int, len as int).map_values(f));
    }
}

/// Dispatch determinism: whatever the number of workers, running the plan
/// gives the element-wise results in input order.
pub proof fn lemma_dispatch_deterministic<A, B>(
    xs: Seq<A>,
    f: spec_fn(A) -> B,
    w1: nat,
    w2: nat,
)
    requires
        w1 >= 1,
        w2 >= 1,
    ensures
        run_plan(plan_spec(xs.len(), w1), xs, f) == xs.map_values(f),
        run_plan(plan_spec(xs.len(), w1), xs, f) == run_plan(plan_spec(xs.len(), w2), xs, f),
{
    lemma_run_from(0, chunk_len(xs.len(), w1), xs, f);
    lemma_run_from(0, chunk_len(xs.len(), w2), xs, f);
    assert(xs.subrange(0, xs.len() as int) =~= xs);
}

/// The plan's chunks as `(start, end)` offsets.
pub fn dispatch_plan(len: usize, workers: usize) -> (r: Vec<(usize, usize)>)
    requires
        workers >= 1,
    ensures
        r.len() == plan_spec(len as nat, workers as nat).len(),
        forall|i: int|
            0 <= i < r.len() ==> (#[trigger] r[i]).0 as nat == plan_spec(len as nat, workers as nat)[i].0
                && r[i].1 as nat == plan_spec(len as nat, workers as nat)[i].1,
{
    let q = len / workers;
    proof {
        if len % workers != 0 {
            assert(workers >= 2);
            assert(q < usize::MAX) by (nonlinear_arith)
                requires
                    workers >= 2,
                    q == len / workers,
                    len <= usize::MAX,
            ;
        }
    }
    let c0: usize = if len % workers == 0 { q } else { q + 1 };
    let c: usize = if c0 == 0 { 1 } else { c0 };
    let ghost cn = chunk_len(len as nat, workers as nat);
    assert(c as nat == cn);
    let ghost full = plan_spec(len as nat, workers as nat);
    let mut r: Vec<(usize, usize)> = Vec::new();
    let mut start: usize = 0;
    proof {
        assert(full =~= Seq::<(nat, nat)>::empty() + plan_from(0, len as nat, cn));
    }
    while start < len
        invariant
            start <= len,
            c as nat == cn,
            c >= 1,
            full == plan_spec(len as nat, workers as nat),
            r@.map_values(|p: (usize, usize)| (p.0 as nat, p.1 as nat)) + plan_from(
                start as nat,
                len as nat,
                cn,
            ) == full,
        decreases len - start,
    {
        let end = if len - start > c { start + c } else { len };
        let ghost rest = plan_from(end as nat, len as nat, cn);
        proof {
            assert(plan_from(start as nat, len as nat, cn) == seq![(start as nat, end as nat)] + rest);
        }
        let ghost before = r@;
        r.push((start, end));
        proof {
            let m = |p: (usize, usize)| (p.0 as nat, p.1 as nat);
            assert(r@.map_values(m) =~= before.map_values(m).push((start as nat, end as nat)));
            assert(r@.map_values(m) + rest =~= before.map_values(m) + (seq![(start as nat, end as nat)]
                + rest));
        }
        start = end;
    }
    proof {
        let m = |p: (usize, usize)| (p.0 as nat, p.1 as nat);
        assert(plan_from(start as nat, len as nat, cn) == Seq::<(nat, nat)>::empty());
        assert(r@.map_values(m) =~= full);
        assert forall|i: int| 0 <= i < r.len() implies (#[trigger] r[i]).0 as nat == full[i].0
            && r[i].1 as nat == full[i].1 by {
            assert(r@.map_values(m)[i] == m(r@[i]));
        }
    }
    r
}

} // verus!
