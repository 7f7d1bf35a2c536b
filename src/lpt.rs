use vstd::prelude::*;

verus! {

/// Sum of the weights of the listed items.
pub open spec fn weight_sum(w: Seq<u64>, m: Seq<int>) -> nat
    decreases m.len(),
{
    if m.len() == 0 {
        0
    } else {
        weight_sum(w, m.drop_last()) + w[m.last()] as nat
    }
}

/// The items `0..n`, in order.
pub open spec fn upto(n: int) -> Seq<int> {
    Seq::new(n as nat, |i: int| i)
}

/// Sum of all the weights.
pub open spec fn total_weight(w: Seq<u64>) -> nat {
    weight_sum(w, upto(w.len() as int))
}

pub open spec fn seq_sum(s: Seq<u64>) -> nat
    decreases s.len(),
{
    if s.len() == 0 {
        0
    } else {
        seq_sum(s.drop_last()) + s.last() as nat
    }
}

pub open spec fn nat_sum(s: Seq<nat>) -> nat
    decreases s.len(),
{
    if s.len() == 0 {
        0
    } else {
        nat_sum(s.drop_last()) + s.last()
    }
}

/// Item `i` goes before item `j`: heavier first, the lower index first among equals.
pub open spec fn goes_before(w: Seq<u64>, i: int, j: int) -> bool {
    w[i] > w[j] || (w[i] == w[j] && i < j)
}

/// First position at or after `k` whose item item `i` goes before, or the length.
pub open spec fn insert_position(w: Seq<u64>, o: Seq<int>, i: int, k: int) -> int
    decreases o.len() - k,
{
    if k < 0 || k >= o.len() {
        o.len() as int
    } else if goes_before(w, i, o[k]) {
        k
    } else {
        insert_position(w, o, i, k + 1)
    }
}

/// The first `n` items in the order in which they are placed: by weight, heaviest first,
/// equal weights in index order (each item inserted after every item that it does not
/// go before).
pub open spec fn lpt_order(w: Seq<u64>, n: int) -> Seq<int>
    decreases n,
{
    if n <= 0 {
        Seq::empty()
    } else {
        let o = lpt_order(w, n - 1);
        o.insert(insert_position(w, o, n - 1, 0), n - 1)
    }
}

/// Index of the first smallest entry.
pub open spec fn min_bucket(t: Seq<nat>) -> int
    decreases t.len(),
{
    if t.len() <= 1 {
        0
    } else {
        let m = min_bucket(t.drop_last());
        if t.last() < t[m] {
            t.len() - 1
        } else {
            m
        }
    }
}

pub open spec fn bucket_totals(w: Seq<u64>, bs: Seq<Seq<int>>) -> Seq<nat> {
    bs.map_values(|m: Seq<int>| weight_sum(w, m))
}

/// The buckets (their members, in the order placed) and each item's bucket after the
/// items of `o` were placed in turn, each into the first bucket of smallest total.
pub open spec fn lpt_state(w: Seq<u64>, o: Seq<int>, n: nat) -> (Seq<Seq<int>>, Seq<int>)
    decreases o.len(),
{
    if o.len() == 0 {
        (Seq::new(n, |b: int| Seq::<int>::empty()), Seq::new(w.len(), |i: int| 0int))
    } else {
        let (bs, asg) = lpt_state(w, o.drop_last(), n);
        let b = min_bucket(bucket_totals(w, bs));
        (bs.update(b, bs[b].push(o.last())), asg.update(o.last(), b))
    }
}

/// The members of each bucket, in the order they were placed.
pub open spec fn lpt_buckets(w: Seq<u64>, n: nat) -> Seq<Seq<int>> {
    lpt_state(w, lpt_order(w, w.len() as int), n).0
}

/// The bucket of each item.
pub open spec fn lpt_assignment(w: Seq<u64>, n: nat) -> Seq<int> {
    lpt_state(w, lpt_order(w, w.len() as int), n).1
}

/// The weights of the listed items.
pub open spec fn weights_of(w: Seq<u64>, m: Seq<int>) -> Seq<u64> {
    m.map_values(|i: int| w[i])
}

pub open spec fn as_ints(v: Seq<usize>) -> Seq<int> {
    v.map_values(|x: usize| x as int)
}

proof fn lemma_weight_sum_insert(w: Seq<u64>, o: Seq<int>, p: int, x: int)
    requires
        0 <= p <= o.len(),
    ensures
        weight_sum(w, o.insert(p, x)) == weight_sum(w, o) + w[x] as nat,
    decreases o.len(),
{
    if p == o.len() {
        assert(o.insert(p, x).drop_last() =~= o);
    } else {
        lemma_weight_sum_insert(w, o.drop_last(), p, x);
        assert(o.insert(p, x).drop_last() =~= o.drop_last().insert(p, x));
    }
}

proof fn lemma_insert_position_bounds(w: Seq<u64>, o: Seq<int>, i: int, k: int)
    requires
        0 <= k <= o.len(),
    ensures
        k <= insert_position(w, o, i, k) <= o.len(),
    decreases o.len() - k,
{
    if k < o.len() && !goes_before(w, i, o[k]) {
        lemma_insert_position_bounds(w, o, i, k + 1);
    }
}

proof fn lemma_lpt_order(w: Seq<u64>, n: int)
    requires
        0 <= n,
    ensures
        lpt_order(w, n).len() == n,
        forall|k: int| 0 <= k < n ==> 0 <= #[trigger] lpt_order(w, n)[k] < n,
        weight_sum(w, lpt_order(w, n)) == weight_sum(w, upto(n)),
    decreases n,
{
    if n > 0 {
        let o = lpt_order(w, n - 1);
        lemma_lpt_order(w, n - 1);
        lemma_insert_position_bounds(w, o, n - 1, 0);
        let p = insert_position(w, o, n - 1, 0);
        lemma_weight_sum_insert(w, o, p, n - 1);
        assert(upto(n).drop_last() =~= upto(n - 1));
        assert forall|k: int| 0 <= k < n implies 0 <= #[trigger] lpt_order(w, n)[k] < n by {
            if k < p {
            } else if k == p {
            } else {
                assert(lpt_order(w, n)[k] == o[k - 1]);
            }
        }
    }
}

proof fn lemma_weight_sum_prefix(w: Seq<u64>, o: Seq<int>, k: int)
    requires
        0 <= k <= o.len(),
    ensures
        weight_sum(w, o.take(k)) <= weight_sum(w, o),
    decreases o.len(),
{
    if k < o.len() {
        lemma_weight_sum_prefix(w, o.drop_last(), k);
        assert(o.drop_last().take(k) =~= o.take(k));
    } else {
        assert(o.take(k) =~= o);
    }
}

proof fn lemma_nat_sum_update(s: Seq<nat>, b: int, v: nat)
    requires
        0 <= b < s.len(),
    ensures
        nat_sum(s.update(b, v)) + s[b] == nat_sum(s) + v,
    decreases s.len(),
{
    if b < s.len() - 1 {
        lemma_nat_sum_update(s.drop_last(), b, v);
        assert(s.update(b, v).drop_last() =~= s.drop_last().update(b, v));
    } else {
        assert(s.update(b, v).drop_last() =~= s.drop_last());
    }
}

proof fn lemma_nat_sum_bound(s: Seq<nat>, b: int)
    requires
        0 <= b < s.len(),
    ensures
        s[b] <= nat_sum(s),
    decreases s.len(),
{
    if b < s.len() - 1 {
        lemma_nat_sum_bound(s.drop_last(), b);
    }
}

proof fn lemma_nat_sum_empty(n: nat)
    ensures
        nat_sum(Seq::new(n, |b: int| 0nat)) == 0,
    decreases n,
{
    if n > 0 {
        lemma_nat_sum_empty((n - 1) as nat);
        assert(Seq::new(n, |b: int| 0nat).drop_last() =~= Seq::new((n - 1) as nat, |b: int| 0nat));
    }
}

proof fn lemma_min_bucket_bounds(t: Seq<nat>)
    requires
        t.len() >= 1,
    ensures
        0 <= min_bucket(t) < t.len(),
        forall|b: int| 0 <= b < t.len() ==> t[min_bucket(t)] <= #[trigger] t[b],
    decreases t.len(),
{
    if t.len() > 1 {
        lemma_min_bucket_bounds(t.drop_last());
        assert forall|b: int| 0 <= b < t.len() implies t[min_bucket(t)] <= #[trigger] t[b] by {
            if b < t.len() - 1 {
                assert(t.drop_last()[b] == t[b]);
            }
        }
    }
}

fn first_smallest(totals: &Vec<u64>) -> (r: usize)
    requires
        totals@.len() >= 1,
    ensures
        r as int == min_bucket(totals@.map_values(|x: u64| x as nat)),
        r < totals@.len(),
{
    let ghost tn = totals@.map_values(|x: u64| x as nat);
    let mut best: usize = 0;
    let mut b: usize = 1;
    while b < totals.len()
        invariant
            tn == totals@.map_values(|x: u64| x as nat),
            1 <= b <= totals@.len(),
            best < b,
            best as int == min_bucket(tn.take(b as int)),
        decreases totals@.len() - b,
    {
        assert(tn.take(b + 1).drop_last() =~= tn.take(b as int));
        if totals[b] < totals[best] {
            best = b;
        }
        b = b + 1;
    }
    assert(tn.take(b as int) =~= tn);
    best
}

/// Items in the order they are placed: heaviest first, equal weights in index order.
fn placement_order(w: &Vec<u64>) -> (r: Vec<usize>)
    ensures
        as_ints(r@) == lpt_order(w@, w@.len() as int),
{
    let mut o: Vec<usize> = Vec::new();
    let mut i: usize = 0;
    while i < w.len()
        invariant
            i <= w@.len(),
            as_ints(o@) == lpt_order(w@, i as int),
        decreases w@.len() - i,
    {
        proof {
            lemma_lpt_order(w@, i as int);
        }
        let ghost go = lpt_order(w@, i as int);
        let mut k: usize = 0;
        while k < o.len() && !(w[i] > w[o[k]] || (w[i] == w[o[k]] && i < o[k]))
            invariant
                i < w@.len(),
                as_ints(o@) == go,
                go == lpt_order(w@, i as int),
                forall|j: int| 0 <= j < go.len() ==> 0 <= #[trigger] go[j] < i,
                k <= o@.len(),
                insert_position(w@, go, i as int, 0) == insert_position(w@, go, i as int, k as int),
            decreases o@.len() - k,
        {
            assert(go[k as int] == o@[k as int] as int);
            k = k + 1;
        }
        proof {
            if k < o@.len() {
                assert(go[k as int] == o@[k as int] as int);
            }
        }
        o.insert(k, i);
        assert(as_ints(o@) =~= go.insert(k as int, i as int));
        i = i + 1;
    }
    o
}

/// Places the items, heaviest first, each into the first bucket of smallest total (the
/// longest-processing-time-first rule). Gives the members of each bucket, in the order
/// placed, and the bucket of each item.
pub fn allocate(w: &Vec<u64>, n: usize) -> (r: (Vec<Vec<usize>>, Vec<usize>))
    requires
        n >= 1,
        total_weight(w@) <= u64::MAX,
    ensures
        r.0@.len() == n,
        forall|b: int| 0 <= b < n ==> as_ints(#[trigger] r.0@[b]@) == lpt_buckets(w@, n as nat)[b],
        as_ints(r.1@) == lpt_assignment(w@, n as nat),
        r.1@.len() == w@.len(),
        forall|b: int| 0 <= b < n ==> weight_sum(w@, #[trigger] lpt_buckets(w@, n as nat)[b]) <= total_weight(w@),
        forall|i: int| 0 <= i < w@.len() ==> #[trigger] r.1@[i] < n,
        forall|b: int, j: int| 0 <= b < n && 0 <= j < r.0@[b]@.len() ==> #[trigger] r.0@[b]@[j] < w@.len(),
{
    let order = placement_order(w);
    let ghost go = lpt_order(w@, w@.len() as int);
    proof {
        lemma_lpt_order(w@, w@.len() as int);
    }
    let mut buckets: Vec<Vec<usize>> = Vec::new();
    let mut totals: Vec<u64> = Vec::new();
    let mut b: usize = 0;
    while b < n
        invariant
            b <= n,
            buckets@.len() == b,
            totals@.len() == b,
            forall|c: int| 0 <= c < b ==> (#[trigger] buckets@[c])@.len() == 0,
            forall|c: int| 0 <= c < b ==> #[trigger] totals@[c] == 0,
        decreases n - b,
    {
        buckets.push(Vec::new());
        totals.push(0);
        b = b + 1;
    }
    let mut assign: Vec<usize> = Vec::new();
    let mut i: usize = 0;
    while i < w.len()
        invariant
            i <= w@.len(),
            assign@.len() == i,
            forall|j: int| 0 <= j < i ==> #[trigger] assign@[j] == 0,
        decreases w@.len() - i,
    {
        assign.push(0);
        i = i + 1;
    }
    let ghost empty_state = lpt_state(w@, go.take(0), n as nat);
    proof {
        assert(go.take(0).len() == 0);
        assert(bucket_totals(w@, empty_state.0) =~= Seq::new(n as nat, |c: int| 0nat));
        lemma_nat_sum_empty(n as nat);
        assert(totals@.map_values(|x: u64| x as nat) =~= Seq::new(n as nat, |c: int| 0nat));
        assert(weight_sum(w@, go.take(0)) == 0);
        assert(as_ints(assign@) =~= empty_state.1);
    }
    let mut k: usize = 0;
    while k < order.len()
        invariant
            as_ints(order@) == go,
            go.len() == w@.len(),
            forall|j: int| 0 <= j < go.len() ==> 0 <= #[trigger] go[j] < w@.len(),
            weight_sum(w@, go) == total_weight(w@),
            total_weight(w@) <= u64::MAX,
            k <= go.len(),
            buckets@.len() == n,
            totals@.len() == n,
            n >= 1,
            forall|c: int| 0 <= c < n ==> as_ints(#[trigger] buckets@[c]@) == lpt_state(w@, go.take(k as int), n as nat).0[c],
            lpt_state(w@, go.take(k as int), n as nat).0.len() == n,
            totals@.map_values(|x: u64| x as nat) == bucket_totals(w@, lpt_state(w@, go.take(k as int), n as nat).0),
            nat_sum(totals@.map_values(|x: u64| x as nat)) == weight_sum(w@, go.take(k as int)),
            as_ints(assign@) == lpt_state(w@, go.take(k as int), n as nat).1,
            assign@.len() == w@.len(),
            forall|j: int| 0 <= j < w@.len() ==> #[trigger] assign@[j] < n,
            forall|c: int, j: int| 0 <= c < n && 0 <= j < buckets@[c]@.len() ==> #[trigger] buckets@[c]@[j] < w@.len(),
        decreases go.len() - k,
    {
        let ghost prev = lpt_state(w@, go.take(k as int), n as nat);
        let ghost tn = totals@.map_values(|x: u64| x as nat);
        let item = order[k];
        assert(item as int == go[k as int]);
        let c = first_smallest(&totals);
        proof {
            assert(go.take(k + 1).drop_last() =~= go.take(k as int));
            lemma_weight_sum_prefix(w@, go, k + 1);
            lemma_nat_sum_bound(tn, c as int);
            lemma_nat_sum_update(tn, c as int, tn[c as int] + w@[item as int] as nat);
        }
        let t = totals[c] + w[item];
        totals.set(c, t);
        buckets[c].push(item);
        assign.set(item, c);
        proof {
            let next = lpt_state(w@, go.take(k + 1), n as nat);
            assert(next.0 == prev.0.update(c as int, prev.0[c as int].push(item as int)));
            assert(prev.0[c as int].push(item as int).drop_last() =~= prev.0[c as int]);
            assert forall|d: int| 0 <= d < n implies as_ints(#[trigger] buckets@[d]@) == next.0[d] by {
                if d == c as int {
                    assert(as_ints(buckets@[d]@) =~= next.0[d]);
                }
            }
            assert forall|d: int| 0 <= d < n implies #[trigger] totals@[d] as nat == weight_sum(w@, next.0[d]) by {
                if d == c as int {
                    assert(weight_sum(w@, next.0[d]) == weight_sum(w@, prev.0[d]) + w@[item as int] as nat);
                } else {
                    assert(tn[d] == weight_sum(w@, prev.0[d]));
                }
            }
            assert(totals@.map_values(|x: u64| x as nat) =~= bucket_totals(w@, next.0));
            assert(totals@.map_values(|x: u64| x as nat) =~= tn.update(c as int, tn[c as int] + w@[item as int] as nat));
            assert(as_ints(assign@) =~= next.1);
        }
        k = k + 1;
    }
    proof {
        assert(go.take(k as int) =~= go);
        assert forall|c: int| 0 <= c < n implies weight_sum(w@, #[trigger] lpt_buckets(w@, n as nat)[c]) <= total_weight(w@) by {
            let tn = totals@.map_values(|x: u64| x as nat);
            lemma_nat_sum_bound(tn, c);
            lemma_weight_sum_prefix(w@, go, go.len() as int);
        }
    }
    (buckets, assign)
}

/// The cells given to one process: their total and the cell count of each mesh, in the
/// order the meshes were placed.
#[derive(Clone, Debug, PartialEq, Eq, PartialOrd, Ord)]
pub struct MpiProcessAllocation {
    pub total: u64,
    pub meshes: Vec<u64>,
}

impl MpiProcessAllocation {
    pub fn new(meshes: Vec<u64>) -> (r: Self)
        requires
            seq_sum(meshes@) <= u64::MAX,
        ensures
            r.total == seq_sum(meshes@),
            r.meshes@ == meshes@,
    {
        let mut total: u64 = 0;
        let mut i: usize = 0;
        while i < meshes.len()
            invariant
                i <= meshes@.len(),
                seq_sum(meshes@) <= u64::MAX,
                total == seq_sum(meshes@.take(i as int)),
            decreases meshes@.len() - i,
        {
            proof {
                assert(meshes@.take(i + 1).drop_last() =~= meshes@.take(i as int));
                lemma_seq_sum_prefix(meshes@, i + 1);
            }
            total = total + meshes[i];
            i = i + 1;
        }
        assert(meshes@.take(i as int) =~= meshes@);
        MpiProcessAllocation { total, meshes }
    }
}

/// How the meshes were shared among the processes: one entry per process.
#[derive(Clone, Debug, PartialEq, Eq, PartialOrd, Ord)]
pub struct AllocationOutcome {
    pub processes: Vec<MpiProcessAllocation>,
}

impl AllocationOutcome {
    pub fn new() -> (r: Self)
        ensures
            r.processes@.len() == 0,
    {
        AllocationOutcome { processes: Vec::new() }
    }
}

impl Default for AllocationOutcome {
    fn default() -> (r: Self)
        ensures
            r.processes@.len() == 0,
    {
        AllocationOutcome::new()
    }
}

proof fn lemma_seq_sum_prefix(s: Seq<u64>, k: int)
    requires
        0 <= k <= s.len(),
    ensures
        seq_sum(s.take(k)) <= seq_sum(s),
    decreases s.len(),
{
    if k < s.len() {
        lemma_seq_sum_prefix(s.drop_last(), k);
        assert(s.drop_last().take(k) =~= s.take(k));
    } else {
        assert(s.take(k) =~= s);
    }
}

/// The weights of a bucket's members sum to the bucket's total.
pub proof fn lemma_weights_of_sum(w: Seq<u64>, m: Seq<int>)
    ensures
        seq_sum(weights_of(w, m)) == weight_sum(w, m),
    decreases m.len(),
{
    if m.len() > 0 {
        lemma_weights_of_sum(w, m.drop_last());
        assert(weights_of(w, m).drop_last() =~= weights_of(w, m.drop_last()));
    }
}

proof fn lemma_state_sum(w: Seq<u64>, o: Seq<int>, n: nat)
    requires
        n >= 1,
    ensures
        lpt_state(w, o, n).0.len() == n,
        nat_sum(bucket_totals(w, lpt_state(w, o, n).0)) == weight_sum(w, o),
    decreases o.len(),
{
    if o.len() == 0 {
        lemma_nat_sum_empty(n);
        assert(bucket_totals(w, lpt_state(w, o, n).0) =~= Seq::new(n, |b: int| 0nat));
    } else {
        let prev = lpt_state(w, o.drop_last(), n);
        lemma_state_sum(w, o.drop_last(), n);
        let t = bucket_totals(w, prev.0);
        lemma_min_bucket_bounds(t);
        let b = min_bucket(t);
        let x = o.last();
        lemma_nat_sum_update(t, b, t[b] + w[x] as nat);
        assert(prev.0[b].push(x).drop_last() =~= prev.0[b]);
        assert(bucket_totals(w, lpt_state(w, o, n).0) =~= t.update(b, t[b] + w[x] as nat));
    }
}

/// The processes' totals add up to all the cells: every mesh is placed once.
pub proof fn lemma_totals_add_up(w: Seq<u64>, n: nat)
    requires
        n >= 1,
    ensures
        nat_sum(bucket_totals(w, lpt_buckets(w, n))) == total_weight(w),
{
    let o = lpt_order(w, w.len() as int);
    lemma_lpt_order(w, w.len() as int);
    lemma_state_sum(w, o, n);
}

/// No process is given more cells than all the meshes hold together: the rule never does
/// worse than giving everything to one process.
pub proof fn lemma_bucket_within_total(w: Seq<u64>, n: nat, b: int)
    requires
        n >= 1,
        0 <= b < n,
    ensures
        weight_sum(w, lpt_buckets(w, n)[b]) <= total_weight(w),
{
    let o = lpt_order(w, w.len() as int);
    lemma_lpt_order(w, w.len() as int);
    lemma_state_sum(w, o, n);
    lemma_nat_sum_bound(bucket_totals(w, lpt_state(w, o, n).0), b);
}

/// The largest weight, zero for none.
pub open spec fn max_weight(w: Seq<u64>) -> nat
    decreases w.len(),
{
    if w.len() == 0 {
        0
    } else if w.last() as nat > max_weight(w.drop_last()) {
        w.last() as nat
    } else {
        max_weight(w.drop_last())
    }
}

proof fn lemma_max_weight(w: Seq<u64>, i: int)
    requires
        0 <= i < w.len(),
    ensures
        w[i] as nat <= max_weight(w),
    decreases w.len(),
{
    if i < w.len() - 1 {
        lemma_max_weight(w.drop_last(), i);
    }
}

proof fn lemma_sum_lower(t: Seq<nat>, m: nat)
    requires
        forall|c: int| 0 <= c < t.len() ==> m <= #[trigger] t[c],
    ensures
        t.len() * m <= nat_sum(t),
    decreases t.len(),
{
    if t.len() > 0 {
        lemma_sum_lower(t.drop_last(), m);
        assert(t.len() * m == (t.len() - 1) * m + m) by (nonlinear_arith);
    }
}

proof fn lemma_state_balance(w: Seq<u64>, o: Seq<int>, n: nat)
    requires
        n >= 1,
        forall|j: int| 0 <= j < o.len() ==> 0 <= #[trigger] o[j] < w.len(),
    ensures
        forall|b: int|
            0 <= b < n ==> n * #[trigger] bucket_totals(w, lpt_state(w, o, n).0)[b] <= weight_sum(w, o)
                + n * max_weight(w),
    decreases o.len(),
{
    lemma_state_sum(w, o, n);
    if o.len() == 0 {
        assert forall|b: int| 0 <= b < n implies n * #[trigger] bucket_totals(w, lpt_state(w, o, n).0)[b]
            <= weight_sum(w, o) + n * max_weight(w) by {
            assert(bucket_totals(w, lpt_state(w, o, n).0)[b] == 0);
            assert(n * 0nat == 0) by (nonlinear_arith);
            assert(0 <= n * max_weight(w)) by (nonlinear_arith);
        }
    } else {
        let prev = lpt_state(w, o.drop_last(), n);
        lemma_state_balance(w, o.drop_last(), n);
        lemma_state_sum(w, o.drop_last(), n);
        let t = bucket_totals(w, prev.0);
        lemma_min_bucket_bounds(t);
        let b = min_bucket(t);
        lemma_sum_lower(t, t[b]);
        let x = o.last();
        lemma_max_weight(w, x);
        let s0 = weight_sum(w, o.drop_last());
        let m = max_weight(w);
        let wx = w[x] as nat;
        assert(prev.0[b].push(x).drop_last() =~= prev.0[b]);
        let next = bucket_totals(w, lpt_state(w, o, n).0);
        assert forall|c: int| 0 <= c < n implies n * #[trigger] next[c] <= weight_sum(w, o) + n * m by {
            if c == b {
                assert(next[c] == t[b] + wx);
                assert(n * (t[b] + wx) <= s0 + n * m) by (nonlinear_arith)
                    requires
                        n * t[b] <= s0,
                        wx <= m,
                ;
            } else {
                assert(next[c] == t[c]);
                assert(n * t[c] <= s0 + n * m);
            }
        }
    }
}

/// Every process gets at most an even share of all the cells plus the largest mesh: the
/// greedy rule's balance guarantee.
pub proof fn lemma_bucket_balance(w: Seq<u64>, n: nat, b: int)
    requires
        n >= 1,
        0 <= b < n,
    ensures
        n * weight_sum(w, lpt_buckets(w, n)[b]) <= total_weight(w) + n * max_weight(w),
{
    let o = lpt_order(w, w.len() as int);
    lemma_lpt_order(w, w.len() as int);
    lemma_state_sum(w, o, n);
    lemma_state_balance(w, o, n);
    assert(bucket_totals(w, lpt_state(w, o, n).0)[b] == weight_sum(w, lpt_buckets(w, n)[b]));
}

/// The rule depends on the weights and the number of buckets alone: two runs on the same
/// list give the same buckets, in the same order, and the same assignment.
pub proof fn lemma_allocation_deterministic(w1: Seq<u64>, w2: Seq<u64>, n1: nat, n2: nat)
    requires
        w1 == w2,
        n1 == n2,
    ensures
        lpt_buckets(w1, n1) == lpt_buckets(w2, n2),
        lpt_assignment(w1, n1) == lpt_assignment(w2, n2),
{
}

} // verus!
