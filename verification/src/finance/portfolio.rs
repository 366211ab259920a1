use vstd::prelude::*;

verus! {

/// Burn-in of the ball walk that samples portfolios: the simplex needs a
/// longer one than the default.
pub const PORTFOLIO_BURN_IN: usize = 500;

/// Thinning of the ball walk that samples portfolios.
pub const PORTFOLIO_THINNING: usize = 5;

/// `a <= b` between the keys of two portfolio returns; a missing key stands
/// for NaN, which is not comparable with anything.
pub open spec fn key_at_most(a: Option<i64>, b: Option<i64>) -> bool {
    match (a, b) {
        (Some(x), Some(y)) => x <= y,
        _ => false,
    }
}

/// Number of the first `n` returns in `keys` that are at most `r`.
pub open spec fn rank_among(keys: Seq<Option<i64>>, r: Option<i64>, n: int) -> nat
    decreases n,
{
    if n <= 0 {
        0
    } else {
        rank_among(keys, r, n - 1) + if key_at_most(keys[n - 1], r) {
            1nat
        } else {
            0nat
        }
    }
}

/// The rank of every portfolio return among all of them: how many returns
/// (itself included) are at most it. Divided by the number of portfolios it
/// is the cross-sectional score.
pub fn cross_sectional_ranks(keys: &Vec<Option<i64>>) -> (ranks: Vec<usize>)
    ensures
        ranks@.len() == keys@.len(),
        forall|i: int|
            0 <= i < keys@.len() ==> #[trigger] ranks@[i] == rank_among(
                keys@,
                keys@[i],
                keys@.len() as int,
            ),
{
    let n = keys.len();
    let mut ranks: Vec<usize> = Vec::new();
    let mut i: usize = 0;
    while i < n
        invariant
            i <= n,
            n == keys@.len(),
            ranks@.len() == i,
            forall|k: int|
                0 <= k < i ==> #[trigger] ranks@[k] == rank_among(keys@, keys@[k], n as int),
        decreases n - i,
    {
        let r = keys[i];
        let mut count: usize = 0;
        let mut j: usize = 0;
        while j < n
            invariant
                j <= n,
                n == keys@.len(),
                i < n,
                r == keys@[i as int],
                count == rank_among(keys@, r, j as int),
                count <= j,
            decreases n - j,
        {
            let at_most = match (keys[j], r) {
                (Some(x), Some(y)) => x <= y,
                _ => false,
            };
            if at_most {
                count = count + 1;
            }
            j = j + 1;
        }
        ranks.push(count);
        i = i + 1;
    }
    ranks
}

proof fn lemma_rank_prefix_bound(keys: Seq<Option<i64>>, r: Option<i64>, n: int)
    requires
        0 <= n,
    ensures
        rank_among(keys, r, n) <= n,
    decreases n,
{
    if n > 0 {
        lemma_rank_prefix_bound(keys, r, n - 1);
    }
}

proof fn lemma_rank_counts_member(keys: Seq<Option<i64>>, i: int, n: int)
    requires
        0 <= i < n <= keys.len(),
        keys[i] is Some,
    ensures
        rank_among(keys, keys[i], n) >= 1,
    decreases n,
{
    if i < n - 1 {
        lemma_rank_counts_member(keys, i, n - 1);
    }
}

/// A rank lies between 0 and the number of portfolios, and is at least 1 for
/// a return that is not NaN: every cross-sectional score lies in `[0, 1]`.
pub proof fn lemma_rank_bounds(keys: Seq<Option<i64>>, i: int)
    requires
        0 <= i < keys.len(),
    ensures
        rank_among(keys, keys[i], keys.len() as int) <= keys.len(),
        keys[i] is Some ==> rank_among(keys, keys[i], keys.len() as int) >= 1,
{
    lemma_rank_prefix_bound(keys, keys[i], keys.len() as int);
    if keys[i] is Some {
        lemma_rank_counts_member(keys, i, keys.len() as int);
    }
}

/// A higher return never gets a lower rank.
pub proof fn lemma_rank_monotone(keys: Seq<Option<i64>>, a: Option<i64>, b: Option<i64>, n: int)
    requires
        0 <= n <= keys.len(),
        key_at_most(a, b),
    ensures
        rank_among(keys, a, n) <= rank_among(keys, b, n),
    decreases n,
{
    if n > 0 {
        lemma_rank_monotone(keys, a, b, n - 1);
    }
}

/// `key_at_most` is the integer order on present keys, and a missing key (NaN)
/// is at most nothing and has nothing at most it.
pub proof fn lemma_key_at_most_is_integer_order(a: Option<i64>, b: Option<i64>)
    ensures
        key_at_most(a, b) <==> (a is Some && b is Some && a->0 <= b->0),
        forall|x: i64, y: i64| key_at_most(Some(x), Some(y)) <==> x <= y,
{
}

/// The rank of a return `r` among the first `n` keys is the number of those
/// keys that are present and at most `r` in the integer order.
pub proof fn lemma_rank_counts_returns_at_most(keys: Seq<Option<i64>>, r: i64, n: int)
    requires
        0 <= n <= keys.len(),
    ensures
        rank_among(keys, Some(r), n) == keys.subrange(0, n).filter(
            |k: Option<i64>| k is Some && k->0 <= r,
        ).len(),
    decreases n,
{
    let pred = |k: Option<i64>| k is Some && k->0 <= r;
    reveal(Seq::filter);
    if n > 0 {
        lemma_rank_counts_returns_at_most(keys, r, n - 1);
        assert(keys.subrange(0, n).drop_last() =~= keys.subrange(0, n - 1));
        assert(keys.subrange(0, n).last() == keys[n - 1]);
    } else {
        assert(keys.subrange(0, 0) =~= Seq::<Option<i64>>::empty());
    }
}

proof fn lemma_rank_gap(keys: Seq<Option<i64>>, x: i64, y: i64, j: int, n: int)
    requires
        0 <= j < n <= keys.len(),
        keys[j] == Some(y),
        x < y,
    ensures
        rank_among(keys, Some(x), n) < rank_among(keys, Some(y), n),
    decreases n,
{
    if j < n - 1 {
        lemma_rank_gap(keys, x, y, j, n - 1);
    } else {
        lemma_rank_monotone(keys, Some(x), Some(y), n - 1);
    }
}

/// A strictly lower return gets a strictly lower rank, and NaN gets rank 0.
pub proof fn lemma_rank_strictly_increasing(keys: Seq<Option<i64>>, i: int, j: int)
    requires
        0 <= i < keys.len(),
        0 <= j < keys.len(),
    ensures
        (keys[i] is Some && keys[j] is Some && keys[i]->0 < keys[j]->0) ==> rank_among(
            keys,
            keys[i],
            keys.len() as int,
        ) < rank_among(keys, keys[j], keys.len() as int),
        keys[i] is None ==> rank_among(keys, keys[i], keys.len() as int) == 0,
{
    if keys[i] is Some && keys[j] is Some && keys[i]->0 < keys[j]->0 {
        lemma_rank_gap(keys, keys[i]->0, keys[j]->0, j, keys.len() as int);
    }
    if keys[i] is None {
        lemma_rank_of_missing(keys, keys.len() as int);
    }
}

proof fn lemma_rank_of_missing(keys: Seq<Option<i64>>, n: int)
    requires
        0 <= n,
    ensures
        rank_among(keys, None, n) == 0,
    decreases n,
{
    if n > 0 {
        lemma_rank_of_missing(keys, n - 1);
    }
}

} // verus!
