//! Order-preserving matching of two block lists by maximal total similarity.
//!
//! Given a pairwise similarity table and a pairability table, `best` is the largest total
//! similarity that an order-preserving one-to-one matching of pairable entries reaches, and
//! `trace` is the matching that the traceback of the dynamic program chooses.
use vstd::prelude::*;

verus! {

/// One step of an alignment: a matched pair, an old entry left unmatched, or a new entry
/// left unmatched. Indices are positions in the old and new lists.
#[derive(Clone, Copy, Debug, PartialEq, Eq)]
pub enum Step {
    Pair(usize, usize),
    Del(usize),
    Ins(usize),
}

/// Largest similarity any single pair can have (fixed-point 2.0).
pub const MAX_PAIR_SCORE: u64 = 2_097_152;

/// Every entry of the tables is present for `n` old and `m` new entries, and scores are bounded.
pub open spec fn tables_ok(sim: Seq<Seq<u64>>, ok: Seq<Seq<bool>>, n: int, m: int) -> bool {
    &&& 0 <= n <= usize::MAX
    &&& 0 <= m <= usize::MAX
    &&& sim.len() == n
    &&& ok.len() == n
    &&& forall|i: int| 0 <= i < n ==> #[trigger] sim[i].len() == m
    &&& forall|i: int| 0 <= i < n ==> #[trigger] ok[i].len() == m
    &&& forall|i: int, j: int| 0 <= i < n && 0 <= j < m ==> #[trigger] sim[i][j] <= MAX_PAIR_SCORE
}

pub open spec fn max2(a: int, b: int) -> int {
    if a >= b { a } else { b }
}

/// Best total similarity of an order-preserving matching of the first `i` old and the first
/// `j` new entries, pairing only pairable entries.
pub open spec fn best(sim: Seq<Seq<u64>>, ok: Seq<Seq<bool>>, i: int, j: int) -> int
    decreases i, j,
{
    if i <= 0 || j <= 0 {
        0
    } else {
        let a = max2(best(sim, ok, i - 1, j), best(sim, ok, i, j - 1));
        if ok[i - 1][j - 1] {
            max2(a, best(sim, ok, i - 1, j - 1) + sim[i - 1][j - 1])
        } else {
            a
        }
    }
}

/// Whether the traceback at `(i, j)` takes the pair `(i - 1, j - 1)`.
pub open spec fn takes_pair(sim: Seq<Seq<u64>>, ok: Seq<Seq<bool>>, i: int, j: int) -> bool {
    &&& i > 0
    &&& j > 0
    &&& ok[i - 1][j - 1]
    &&& best(sim, ok, i, j) == best(sim, ok, i - 1, j - 1) + sim[i - 1][j - 1]
}

/// Whether the traceback at `(i, j)` leaves new entry `j - 1` unmatched.
pub open spec fn takes_ins(sim: Seq<Seq<u64>>, ok: Seq<Seq<bool>>, i: int, j: int) -> bool {
    j > 0 && (i == 0 || best(sim, ok, i, j) == best(sim, ok, i, j - 1))
}

/// The matching that the traceback chooses for the first `i` old and `j` new entries:
/// a pair when it achieves the optimum, else an unmatched new entry when that keeps the
/// optimum, else an unmatched old entry.
pub open spec fn trace(sim: Seq<Seq<u64>>, ok: Seq<Seq<bool>>, i: nat, j: nat) -> Seq<Step>
    decreases i + j,
{
    if i == 0 && j == 0 {
        Seq::empty()
    } else if takes_pair(sim, ok, i as int, j as int) {
        trace(sim, ok, (i - 1) as nat, (j - 1) as nat).push(Step::Pair((i - 1) as usize, (j - 1) as usize))
    } else if takes_ins(sim, ok, i as int, j as int) {
        trace(sim, ok, i, (j - 1) as nat).push(Step::Ins((j - 1) as usize))
    } else if i > 0 {
        trace(sim, ok, (i - 1) as nat, j).push(Step::Del((i - 1) as usize))
    } else {
        Seq::empty()
    }
}

/// `steps` matches the first `i` old and `j` new entries in order, each exactly once,
/// pairing only pairable entries.
pub open spec fn aligned(ok: spec_fn(int, int) -> bool, steps: Seq<Step>, i: int, j: int) -> bool
    decreases steps.len(),
{
    if steps.len() == 0 {
        i == 0 && j == 0
    } else {
        let rest = steps.drop_last();
        match steps.last() {
            Step::Pair(a, b) => a == i - 1 && b == j - 1 && i > 0 && j > 0 && ok(i - 1, j - 1)
                && aligned(ok, rest, i - 1, j - 1),
            Step::Del(a) => a == i - 1 && i > 0 && aligned(ok, rest, i - 1, j),
            Step::Ins(b) => b == j - 1 && j > 0 && aligned(ok, rest, i, j - 1),
        }
    }
}

/// Total similarity of the pairs of `steps`.
pub open spec fn score(sim: Seq<Seq<u64>>, steps: Seq<Step>) -> int
    decreases steps.len(),
{
    if steps.len() == 0 {
        0
    } else {
        let rest = score(sim, steps.drop_last());
        match steps.last() {
            Step::Pair(a, b) => rest + sim[a as int][b as int],
            _ => rest,
        }
    }
}

pub proof fn lemma_best_bounds(sim: Seq<Seq<u64>>, ok: Seq<Seq<bool>>, n: int, m: int, i: int, j: int)
    requires
        tables_ok(sim, ok, n, m),
        0 <= i <= n,
        0 <= j <= m,
    ensures
        0 <= best(sim, ok, i, j) <= i * MAX_PAIR_SCORE,
        best(sim, ok, i, j) <= j * MAX_PAIR_SCORE,
        i > 0 ==> best(sim, ok, i - 1, j) <= best(sim, ok, i, j),
        j > 0 ==> best(sim, ok, i, j - 1) <= best(sim, ok, i, j),
    decreases i, j,
{
    if i > 0 && j > 0 {
        lemma_best_bounds(sim, ok, n, m, i - 1, j);
        lemma_best_bounds(sim, ok, n, m, i, j - 1);
        lemma_best_bounds(sim, ok, n, m, i - 1, j - 1);
        assert(sim[i - 1][j - 1] <= MAX_PAIR_SCORE);
    }
}

/// The traceback's matching is a valid order-preserving matching of all entries.
pub proof fn lemma_trace_aligned(sim: Seq<Seq<u64>>, ok: Seq<Seq<bool>>, n: int, m: int, i: nat, j: nat)
    requires
        tables_ok(sim, ok, n, m),
        0 <= i <= n,
        0 <= j <= m,
    ensures
        aligned(|a: int, b: int| ok[a][b], trace(sim, ok, i, j), i as int, j as int),
    decreases i + j,
{
    if i == 0 && j == 0 {
    } else if takes_pair(sim, ok, i as int, j as int) {
        lemma_trace_aligned(sim, ok, n, m, (i - 1) as nat, (j - 1) as nat);
        let t = trace(sim, ok, i, j);
        assert(t.drop_last() == trace(sim, ok, (i - 1) as nat, (j - 1) as nat));
    } else if takes_ins(sim, ok, i as int, j as int) {
        lemma_trace_aligned(sim, ok, n, m, i, (j - 1) as nat);
        let t = trace(sim, ok, i, j);
        assert(t.drop_last() == trace(sim, ok, i, (j - 1) as nat));
    } else {
        assert(i > 0);
        lemma_best_bounds(sim, ok, n, m, i as int, j as int);
        lemma_trace_aligned(sim, ok, n, m, (i - 1) as nat, j);
        let t = trace(sim, ok, i, j);
        assert(t.drop_last() == trace(sim, ok, (i - 1) as nat, j));
    }
}

/// The traceback's matching reaches the best total similarity.
pub proof fn lemma_trace_score(sim: Seq<Seq<u64>>, ok: Seq<Seq<bool>>, n: int, m: int, i: nat, j: nat)
    requires
        tables_ok(sim, ok, n, m),
        0 <= i <= n,
        0 <= j <= m,
    ensures
        score(sim, trace(sim, ok, i, j)) == best(sim, ok, i as int, j as int),
    decreases i + j,
{
    if i == 0 && j == 0 {
    } else if takes_pair(sim, ok, i as int, j as int) {
        lemma_trace_score(sim, ok, n, m, (i - 1) as nat, (j - 1) as nat);
        let t = trace(sim, ok, i, j);
        assert(t.drop_last() == trace(sim, ok, (i - 1) as nat, (j - 1) as nat));
    } else if takes_ins(sim, ok, i as int, j as int) {
        lemma_trace_score(sim, ok, n, m, i, (j - 1) as nat);
        let t = trace(sim, ok, i, j);
        assert(t.drop_last() == trace(sim, ok, i, (j - 1) as nat));
    } else {
        assert(i > 0);
        lemma_best_bounds(sim, ok, n, m, i as int, j as int);
        lemma_trace_score(sim, ok, n, m, (i - 1) as nat, j);
        let t = trace(sim, ok, i, j);
        assert(t.drop_last() == trace(sim, ok, (i - 1) as nat, j));
    }
}

/// No order-preserving matching of pairable entries has a larger total similarity than `best`.
pub proof fn lemma_best_is_optimal(sim: Seq<Seq<u64>>, ok: Seq<Seq<bool>>, n: int, m: int, steps: Seq<Step>, i: int, j: int)
    requires
        tables_ok(sim, ok, n, m),
        0 <= i <= n,
        0 <= j <= m,
        aligned(|a: int, b: int| ok[a][b], steps, i, j),
    ensures
        score(sim, steps) <= best(sim, ok, i, j),
    decreases steps.len(),
{
    if steps.len() > 0 {
        let rest = steps.drop_last();
        lemma_best_bounds(sim, ok, n, m, i, j);
        match steps.last() {
            Step::Pair(a, b) => {
                lemma_best_is_optimal(sim, ok, n, m, rest, i - 1, j - 1);
            },
            Step::Del(a) => {
                lemma_best_is_optimal(sim, ok, n, m, rest, i - 1, j);
            },
            Step::Ins(b) => {
                lemma_best_is_optimal(sim, ok, n, m, rest, i, j - 1);
            },
        }
    }
}

/// Whether an `n` by `m` region is small enough for the full similarity table.
pub open spec fn small_region(n: int, m: int) -> bool {
    n * m <= 40000
}

proof fn lemma_small_min(n: int, m: int, i: int, j: int)
    requires
        0 <= i <= n,
        0 <= j <= m,
        small_region(n, m),
    ensures
        i <= 200 || j <= 200,
{
    if i > 200 && j > 200 {
        assert(n * m > 40000) by (nonlinear_arith)
            requires
                n >= i,
                m >= j,
                i > 200,
                j > 200,
        ;
    }
}

proof fn lemma_deep_entry(sim: &Vec<Vec<u64>>, ok: &Vec<Vec<bool>>, i: int, j: int)
    requires
        0 <= i < sim@.len(),
        0 <= i < ok@.len(),
        0 <= j < sim.deep_view()[i].len(),
        0 <= j < ok.deep_view()[i].len(),
    ensures
        sim@[i]@.len() == sim.deep_view()[i].len(),
        ok@[i]@.len() == ok.deep_view()[i].len(),
        sim@[i]@[j] == sim.deep_view()[i][j],
        ok@[i]@[j] == ok.deep_view()[i][j],
{
    assert(sim.deep_view()[i] == sim@[i].deep_view());
    assert(ok.deep_view()[i] == ok@[i].deep_view());
}

/// Fills the table of `best` values for all prefixes.
pub fn best_table(sim: &Vec<Vec<u64>>, ok: &Vec<Vec<bool>>, n: usize, m: usize) -> (dp: Vec<Vec<u64>>)
    requires
        tables_ok(sim.deep_view(), ok.deep_view(), n as int, m as int),
        small_region(n as int, m as int),
    ensures
        dp.len() == n + 1,
        forall|i: int| 0 <= i <= n ==> #[trigger] dp@[i]@.len() == m + 1,
        forall|i: int, j: int|
            0 <= i <= n && 0 <= j <= m ==> #[trigger] dp@[i]@[j] == best(
                sim.deep_view(),
                ok.deep_view(),
                i,
                j,
            ),
{
    let ghost sv = sim.deep_view();
    let ghost ov = ok.deep_view();
    let mut dp: Vec<Vec<u64>> = Vec::new();
    let mut row0: Vec<u64> = Vec::new();
    row0.push(0);
    let mut j: usize = 0;
    while j < m
        invariant
            j <= m,
            row0.len() == j + 1,
            forall|jj: int| 0 <= jj <= j ==> #[trigger] row0@[jj] == 0,
        decreases m - j,
    {
        row0.push(0);
        j = j + 1;
    }
    dp.push(row0);
    let mut i: usize = 0;
    while i < n
        invariant
            i <= n,
            sv == sim.deep_view(),
            ov == ok.deep_view(),
            tables_ok(sv, ov, n as int, m as int),
            small_region(n as int, m as int),
            dp.len() == i + 1,
            forall|ii: int| 0 <= ii <= i ==> #[trigger] dp@[ii]@.len() == m + 1,
            forall|ii: int, jj: int|
                0 <= ii <= i && 0 <= jj <= m ==> #[trigger] dp@[ii]@[jj] == best(sv, ov, ii, jj),
        decreases n - i,
    {
        let mut row: Vec<u64> = Vec::new();
        row.push(0);
        let mut j: usize = 0;
        while j < m
            invariant
                i < n,
                j <= m,
                sv == sim.deep_view(),
                ov == ok.deep_view(),
                tables_ok(sv, ov, n as int, m as int),
                small_region(n as int, m as int),
                dp.len() == i + 1,
                forall|ii: int| 0 <= ii <= i ==> #[trigger] dp@[ii]@.len() == m + 1,
                forall|ii: int, jj: int|
                    0 <= ii <= i && 0 <= jj <= m ==> #[trigger] dp@[ii]@[jj] == best(sv, ov, ii, jj),
                row.len() == j + 1,
                forall|jj: int| 0 <= jj <= j ==> #[trigger] row@[jj] == best(sv, ov, i + 1, jj),
            decreases m - j,
        {
            proof {
                lemma_best_bounds(sv, ov, n as int, m as int, i as int, j as int);
                lemma_small_min(n as int, m as int, i as int, j as int);
                lemma_deep_entry(sim, ok, i as int, j as int);
            }
            let up = dp[i][j + 1];
            let left = row[j];
            let mut v = if up >= left { up } else { left };
            if ok[i][j] {
                let diag = dp[i][j] + sim[i][j];
                if diag > v {
                    v = diag;
                }
            }
            row.push(v);
            j = j + 1;
        }
        dp.push(row);
        i = i + 1;
    }
    dp
}

/// Builds the traceback's matching from a filled table.
pub fn traceback(sim: &Vec<Vec<u64>>, ok: &Vec<Vec<bool>>, dp: &Vec<Vec<u64>>, n: usize, m: usize) -> (steps: Vec<Step>)
    requires
        tables_ok(sim.deep_view(), ok.deep_view(), n as int, m as int),
        small_region(n as int, m as int),
        dp.len() == n + 1,
        forall|i: int| 0 <= i <= n ==> #[trigger] dp@[i]@.len() == m + 1,
        forall|i: int, j: int|
            0 <= i <= n && 0 <= j <= m ==> #[trigger] dp@[i]@[j] == best(
                sim.deep_view(),
                ok.deep_view(),
                i,
                j,
            ),
    ensures
        steps@ == trace(sim.deep_view(), ok.deep_view(), n as nat, m as nat),
{
    let ghost sv = sim.deep_view();
    let ghost ov = ok.deep_view();
    let mut out: Vec<Step> = Vec::new();
    let mut i: usize = n;
    let mut j: usize = m;
    while i > 0 || j > 0
        invariant
            i <= n,
            j <= m,
            sv == sim.deep_view(),
            ov == ok.deep_view(),
            tables_ok(sv, ov, n as int, m as int),
            small_region(n as int, m as int),
            dp.len() == n + 1,
            forall|ii: int| 0 <= ii <= n ==> #[trigger] dp@[ii]@.len() == m + 1,
            forall|ii: int, jj: int|
                0 <= ii <= n && 0 <= jj <= m ==> #[trigger] dp@[ii]@[jj] == best(sv, ov, ii, jj),
            trace(sv, ov, n as nat, m as nat) == trace(sv, ov, i as nat, j as nat) + out@.reverse(),
        decreases i + j,
    {
        let ghost prev = out@;
        proof {
            if i > 0 && j > 0 {
                lemma_best_bounds(sv, ov, n as int, m as int, (i - 1) as int, (j - 1) as int);
                lemma_small_min(n as int, m as int, (i - 1) as int, (j - 1) as int);
                lemma_deep_entry(sim, ok, i - 1, j - 1);
            }
        }
        if i > 0 && j > 0 && ok[i - 1][j - 1] && dp[i][j] == dp[i - 1][j - 1] + sim[i - 1][j - 1] {
            out.push(Step::Pair(i - 1, j - 1));
            proof {
                assert(trace(sv, ov, i as nat, j as nat) == trace(sv, ov, (i - 1) as nat, (j - 1) as nat).push(Step::Pair((i - 1) as usize, (j - 1) as usize)));
                assert(out@.reverse() == seq![Step::Pair((i - 1) as usize, (j - 1) as usize)] + prev.reverse());
            }
            i = i - 1;
            j = j - 1;
        } else if j > 0 && (i == 0 || dp[i][j] == dp[i][j - 1]) {
            out.push(Step::Ins(j - 1));
            proof {
                assert(trace(sv, ov, i as nat, j as nat) == trace(sv, ov, i as nat, (j - 1) as nat).push(Step::Ins((j - 1) as usize)));
                assert(out@.reverse() == seq![Step::Ins((j - 1) as usize)] + prev.reverse());
            }
            j = j - 1;
        } else {
            out.push(Step::Del(i - 1));
            proof {
                assert(trace(sv, ov, i as nat, j as nat) == trace(sv, ov, (i - 1) as nat, j as nat).push(Step::Del((i - 1) as usize)));
                assert(out@.reverse() == seq![Step::Del((i - 1) as usize)] + prev.reverse());
            }
            i = i - 1;
        }
    }
    let mut res: Vec<Step> = Vec::new();
    let mut k: usize = out.len();
    while k > 0
        invariant
            k <= out.len(),
            res@ == out@.subrange(k as int, out.len() as int).reverse(),
        decreases k,
    {
        k = k - 1;
        res.push(out[k]);
        assert(out@.subrange(k as int, out.len() as int) == seq![out@[k as int]] + out@.subrange(k + 1, out.len() as int));
    }
    assert(out@.subrange(0, out.len() as int) == out@);
    res
}

/// The index pairing used for regions too large for the full table: position `k` of both
/// lists is paired when pairable (`okd[k]`), else left as an unmatched old and an unmatched new
/// entry.
pub open spec fn index_pairs(okd: Seq<bool>, k: nat) -> Seq<Step>
    decreases k,
{
    if k == 0 {
        Seq::empty()
    } else {
        let rest = index_pairs(okd, (k - 1) as nat);
        if okd[k - 1] {
            rest.push(Step::Pair((k - 1) as usize, (k - 1) as usize))
        } else {
            rest.push(Step::Del((k - 1) as usize)).push(Step::Ins((k - 1) as usize))
        }
    }
}

/// Unmatched old entries `start..start + t`.
pub open spec fn del_run(start: nat, t: nat) -> Seq<Step>
    decreases t,
{
    if t == 0 {
        Seq::empty()
    } else {
        del_run(start, (t - 1) as nat).push(Step::Del((start + t - 1) as usize))
    }
}

/// Unmatched new entries `start..start + t`.
pub open spec fn ins_run(start: nat, t: nat) -> Seq<Step>
    decreases t,
{
    if t == 0 {
        Seq::empty()
    } else {
        ins_run(start, (t - 1) as nat).push(Step::Ins((start + t - 1) as usize))
    }
}

pub open spec fn min_nat(a: nat, b: nat) -> nat {
    if a <= b {
        a
    } else {
        b
    }
}

/// The whole index pairing of `n` old and `m` new entries: pairs up to the shorter length,
/// then the remaining old entries, then the remaining new entries.
pub open spec fn index_steps(okd: Seq<bool>, n: nat, m: nat) -> Seq<Step> {
    let p = min_nat(n, m);
    index_pairs(okd, p) + del_run(p, (n - p) as nat) + ins_run(p, (m - p) as nat)
}

proof fn lemma_index_pairs_aligned(ok: spec_fn(int, int) -> bool, okd: Seq<bool>, k: nat)
    requires
        k <= okd.len(),
        k <= usize::MAX,
        forall|t: int| 0 <= t < k && #[trigger] okd[t] ==> ok(t, t),
    ensures
        aligned(ok, index_pairs(okd, k), k as int, k as int),
    decreases k,
{
    if k > 0 {
        lemma_index_pairs_aligned(ok, okd, (k - 1) as nat);
        let rest = index_pairs(okd, (k - 1) as nat);
        if okd[k - 1] {
            assert(ok(k - 1, k - 1));
            assert(index_pairs(okd, k).drop_last() == rest);
        } else {
            let a = rest.push(Step::Del((k - 1) as usize));
            assert(a.drop_last() == rest);
            assert(aligned(ok, a, k as int, k - 1));
            assert(index_pairs(okd, k).drop_last() == a);
        }
    }
}

proof fn lemma_del_run_aligned(ok: spec_fn(int, int) -> bool, pre: Seq<Step>, start: nat, t: nat, j: int)
    requires
        aligned(ok, pre, start as int, j),
        start + t <= usize::MAX,
    ensures
        aligned(ok, pre + del_run(start, t), (start + t) as int, j),
    decreases t,
{
    if t > 0 {
        lemma_del_run_aligned(ok, pre, start, (t - 1) as nat, j);
        assert((pre + del_run(start, t)).drop_last() == pre + del_run(start, (t - 1) as nat));
    } else {
        assert(pre + del_run(start, t) == pre);
    }
}

proof fn lemma_ins_run_aligned(ok: spec_fn(int, int) -> bool, pre: Seq<Step>, i: int, start: nat, t: nat)
    requires
        aligned(ok, pre, i, start as int),
        start + t <= usize::MAX,
    ensures
        aligned(ok, pre + ins_run(start, t), i, (start + t) as int),
    decreases t,
{
    if t > 0 {
        lemma_ins_run_aligned(ok, pre, i, start, (t - 1) as nat);
        assert((pre + ins_run(start, t)).drop_last() == pre + ins_run(start, (t - 1) as nat));
    } else {
        assert(pre + ins_run(start, t) == pre);
    }
}

/// The index pairing is a valid order-preserving matching of all entries.
pub proof fn lemma_index_steps_aligned(ok: spec_fn(int, int) -> bool, okd: Seq<bool>, n: nat, m: nat)
    requires
        okd.len() == min_nat(n, m),
        n <= usize::MAX,
        m <= usize::MAX,
        forall|t: int| 0 <= t < okd.len() && #[trigger] okd[t] ==> ok(t, t),
    ensures
        aligned(ok, index_steps(okd, n, m), n as int, m as int),
{
    let p = min_nat(n, m);
    lemma_index_pairs_aligned(ok, okd, p);
    lemma_del_run_aligned(ok, index_pairs(okd, p), p, (n - p) as nat, p as int);
    lemma_ins_run_aligned(ok, index_pairs(okd, p) + del_run(p, (n - p) as nat), n as int, p, (m - p) as nat);
}

/// Builds the index pairing from the pairability of each position.
pub fn index_pairing(okd: &Vec<bool>, n: usize, m: usize) -> (steps: Vec<Step>)
    requires
        okd@.len() == min_nat(n as nat, m as nat),
    ensures
        steps@ == index_steps(okd@, n as nat, m as nat),
{
    let p: usize = if n <= m { n } else { m };
    let mut out: Vec<Step> = Vec::new();
    let mut k: usize = 0;
    while k < p
        invariant
            k <= p,
            p == min_nat(n as nat, m as nat),
            okd@.len() == p,
            out@ == index_pairs(okd@, k as nat),
        decreases p - k,
    {
        if okd[k] {
            out.push(Step::Pair(k, k));
        } else {
            out.push(Step::Del(k));
            out.push(Step::Ins(k));
        }
        k = k + 1;
    }
    let ghost pairs = out@;
    let mut t: usize = p;
    while t < n
        invariant
            p <= t <= n,
            out@ == pairs + del_run(p as nat, (t - p) as nat),
        decreases n - t,
    {
        out.push(Step::Del(t));
        t = t + 1;
    }
    let ghost dels = out@;
    let mut t: usize = p;
    while t < m
        invariant
            p <= t <= m,
            out@ == dels + ins_run(p as nat, (t - p) as nat),
        decreases m - t,
    {
        out.push(Step::Ins(t));
        t = t + 1;
    }
    out
}

/// Every index that a matching of `i` old and `j` new entries uses lies below `i` or `j`.
pub open spec fn steps_in_range(steps: Seq<Step>, i: int, j: int) -> bool {
    forall|p: int|
        0 <= p < steps.len() ==> match #[trigger] steps[p] {
            Step::Pair(a, b) => a < i && b < j,
            Step::Del(a) => a < i,
            Step::Ins(b) => b < j,
        }
}

pub proof fn lemma_aligned_in_range(ok: spec_fn(int, int) -> bool, steps: Seq<Step>, i: int, j: int)
    requires
        aligned(ok, steps, i, j),
    ensures
        steps_in_range(steps, i, j),
    decreases steps.len(),
{
    if steps.len() > 0 {
        let rest = steps.drop_last();
        match steps.last() {
            Step::Pair(a, b) => lemma_aligned_in_range(ok, rest, i - 1, j - 1),
            Step::Del(a) => lemma_aligned_in_range(ok, rest, i - 1, j),
            Step::Ins(b) => lemma_aligned_in_range(ok, rest, i, j - 1),
        }
        assert forall|p: int| 0 <= p < steps.len() implies match #[trigger] steps[p] {
            Step::Pair(a, b) => a < i && b < j,
            Step::Del(a) => a < i,
            Step::Ins(b) => b < j,
        } by {
            if p < steps.len() - 1 {
                assert(steps[p] == rest[p]);
            }
        }
    }
}

} // verus!
