//! Splitting `m` items into `n` contiguous, near-equal shards.
use vstd::arithmetic::div_mod::*;
use vstd::arithmetic::mul::*;
use vstd::prelude::*;

verus! {

/// The shards of `m` items over `n` workers, as `(offset, length)` pairs.
///
/// With one worker, or no items, the whole range is one shard.  Otherwise every
/// shard but the last holds `m / n` items and the last one takes the remainder.
pub open spec fn split_spec(m: nat, n: nat) -> Seq<(usize, usize)>
    recommends
        n >= 1,
{
    if n == 1 || m == 0 {
        seq![(0usize, m as usize)]
    } else {
        Seq::new(
            n,
            |p: int|
                {
                    let chunk = m / n;
                    let offset = p * chunk;
                    (offset as usize, if p == n - 1 {
                        (m - offset) as usize
                    } else {
                        chunk as usize
                    })
                },
        )
    }
}

/// The end (exclusive) of a shard.
pub open spec fn part_end(part: (usize, usize)) -> int {
    part.0 + part.1
}

/// Whether index `i` lies in one of `parts`.
pub open spec fn covered(parts: Seq<(usize, usize)>, i: int) -> bool {
    exists|p: int| 0 <= p < parts.len() && #[trigger] parts[p].0 <= i < part_end(parts[p])
}

/// Computes the shards of `m` items over `n` workers (see [`split_spec`]).
pub fn split_offsets(m: usize, n: usize) -> (parts: Vec<(usize, usize)>)
    requires
        n >= 1,
    ensures
        parts@ == split_spec(m as nat, n as nat),
        n == 1 ==> parts@ == seq![(0usize, m)],
{
    if n == 1 || m == 0 {
        vec![(0, m)]
    } else {
        let chunk = m / n;
        let mut parts: Vec<(usize, usize)> = Vec::new();
        let mut p: usize = 0;
        while p < n
            invariant
                1 < n,
                0 < m,
                chunk == m / n,
                p <= n,
                parts@.len() == p,
                forall|q: int| 0 <= q < p ==> parts@[q] == #[trigger] split_spec(m as nat, n as nat)[q],
            decreases n - p,
        {
            proof {
                lemma_mul_inequality(p as int, n as int, chunk as int);
                lemma_fundamental_div_mod(m as int, n as int);
                lemma_mul_is_commutative(n as int, chunk as int);
            }
            let offset = p * chunk;
            let len = if p == n - 1 {
                m - offset
            } else {
                chunk
            };
            parts.push((offset, len));
            p = p + 1;
        }
        assert(parts@ =~= split_spec(m as nat, n as nat));
        parts
    }
}

/// The shards of `m` items over `n >= 1` workers cover `[0, m)` exactly: they
/// start at zero, each one begins where the one before it ends, the last one
/// ends at `m`, no two of them overlap, and every index lies in one of them.
pub proof fn lemma_split_covers(m: nat, n: nat)
    requires
        n >= 1,
        m <= usize::MAX,
    ensures
        ({
            let parts = split_spec(m, n);
            &&& parts.len() >= 1
            &&& parts[0].0 == 0
            &&& part_end(parts.last()) == m
            &&& forall|p: int| 0 <= p < parts.len() - 1 ==> part_end(#[trigger] parts[p]) == parts[p + 1].0
            &&& forall|p: int, q: int|
                0 <= p < q < parts.len() ==> part_end(#[trigger] parts[p]) <= #[trigger] parts[q].0
            &&& forall|i: int| 0 <= i < m ==> #[trigger] covered(parts, i)
        }),
{
    let parts = split_spec(m, n);
    if n == 1 || m == 0 {
        assert(parts[0].0 <= 0 < part_end(parts[0]) || m == 0);
        assert forall|i: int| 0 <= i < m implies #[trigger] covered(parts, i) by {
            assert(parts[0].0 <= i < part_end(parts[0]));
        }
    } else {
        let chunk: int = (m / n) as int;
        lemma_fundamental_div_mod(m as int, n as int);
        lemma_mul_is_commutative(n as int, chunk);
        assert(parts.len() == n);
        assert forall|p: int| 0 <= p < n implies (#[trigger] parts[p]).0 == p * chunk && p * chunk <= m
            && (p < n - 1 ==> part_end(parts[p]) == (p + 1) * chunk) && (p == n - 1 ==> part_end(parts[p]) == m) by {
            lemma_mul_inequality(p, n as int, chunk);
            lemma_mul_is_distributive_add_other_way(chunk, p, 1);
        }
        assert(parts.last() == parts[n - 1]);
        assert forall|p: int| 0 <= p < parts.len() - 1 implies part_end(#[trigger] parts[p]) == parts[p + 1].0 by {
            assert(parts[p + 1].0 == (p + 1) * chunk);
        }
        assert forall|p: int, q: int| 0 <= p < q < parts.len() implies part_end(#[trigger] parts[p]) <= #[trigger] parts[q].0 by {
            lemma_mul_inequality(p + 1, q, chunk);
        }
        assert forall|i: int| 0 <= i < m implies #[trigger] covered(parts, i) by {
            if chunk == 0 {
                lemma_mul_by_zero_is_zero(n - 1);
                assert(parts[n - 1].0 <= i < part_end(parts[n - 1]));
            } else {
                lemma_fundamental_div_mod(i, chunk);
                lemma_mul_is_commutative(chunk, i / chunk);
                if i / chunk < n - 1 {
                    let p = i / chunk;
                    lemma_div_pos_is_pos(i, chunk);
                    assert(parts[p].0 <= i < part_end(parts[p]));
                } else {
                    lemma_mul_inequality(n - 1, i / chunk, chunk);
                    assert(parts[n - 1].0 <= i < part_end(parts[n - 1]));
                }
            }
        }
    }
}

} // verus!
