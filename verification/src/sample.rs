use vstd::prelude::*;

use crate::rng::spec_mix;
use crate::rng::spec_step;
use crate::rng::CaptchaRng;

verus! {

/// The index pool before any draw: `0, 1, ..., n - 1`.
pub open spec fn initial_pool(n: nat) -> Seq<usize> {
    Seq::new(n, |k: int| k as usize)
}

/// Pool and generator state after the Fisher-Yates pass has settled
/// positions `i` through `m - 1`, one draw per position. The clamp on the
/// swap target only matters for pool lengths beyond the generator's
/// range, which no executable vector reaches.
pub open spec fn select_from(pool: Seq<usize>, st: u64, i: nat, m: nat) -> (Seq<usize>, u64)
    decreases m - i,
{
    if i >= m {
        (pool, st)
    } else {
        let st2 = spec_step(st);
        let off = spec_mix(st2) % ((pool.len() - i) as u64);
        let j: int = if 0 <= i + off < pool.len() {
            i + off
        } else {
            i as int
        };
        select_from(swapped(pool, i as int, j), st2, i + 1, m)
    }
}

/// Vector and generator state after the full Fisher-Yates shuffle has
/// settled positions `i` onward. The clamp on the swap target only
/// matters for lengths beyond the generator's range, which no executable
/// vector reaches.
pub open spec fn shuffle_from(s: Seq<usize>, st: u64, i: nat) -> (Seq<usize>, u64)
    decreases s.len() - i,
    via shuffle_from_decreases
{
    if i + 1 >= s.len() {
        (s, st)
    } else {
        let st2 = spec_step(st);
        let off = spec_mix(st2) % ((s.len() - i) as u64);
        let j: int = if 0 <= i + off < s.len() {
            i + off
        } else {
            i as int
        };
        shuffle_from(swapped(s, i as int, j), st2, i + 1)
    }
}

#[via_fn]
proof fn shuffle_from_decreases(s: Seq<usize>, st: u64, i: nat) {
    if i + 1 < s.len() {
        let st2 = spec_step(st);
        let off = spec_mix(st2) % ((s.len() - i) as u64);
        let j: int = if 0 <= i + off < s.len() {
            i + off
        } else {
            i as int
        };
        assert(0 <= j < s.len());
        assert(swapped(s, i as int, j).len() == s.len());
    }
}

/// `s` with the entries at `i` and `j` exchanged.
pub open spec fn swapped(s: Seq<usize>, i: int, j: int) -> Seq<usize> {
    s.update(i, s[j]).update(j, s[i])
}

/// Exchanging two entries keeps the length, keeps distinctness, and keeps
/// the set of entries.
proof fn lemma_swap_keeps(s: Seq<usize>, i: int, j: int)
    requires
        0 <= i < s.len(),
        0 <= j < s.len(),
    ensures
        swapped(s, i, j).len() == s.len(),
        s.no_duplicates() ==> swapped(s, i, j).no_duplicates(),
        forall|x: usize| swapped(s, i, j).contains(x) <==> s.contains(x),
{
    let t = swapped(s, i, j);
    assert forall|x: usize| s.contains(x) implies t.contains(x) by {
        let k = choose|k: int| 0 <= k < s.len() && s[k] == x;
        let k2: int = if k == i {
            j
        } else if k == j {
            i
        } else {
            k
        };
        assert(t[k2] == x);
    }
    assert forall|x: usize| t.contains(x) implies s.contains(x) by {
        let k = choose|k: int| 0 <= k < t.len() && t[k] == x;
        let k2: int = if k == i {
            j
        } else if k == j {
            i
        } else {
            k
        };
        assert(s[k2] == x);
    }
    if s.no_duplicates() {
        assert forall|p: int, q: int|
            0 <= p < t.len() && 0 <= q < t.len() && p != q implies t[p] != t[q] by {
            let p2: int = if p == i {
                j
            } else if p == j {
                i
            } else {
                p
            };
            let q2: int = if q == i {
                j
            } else if q == j {
                i
            } else {
                q
            };
            assert(t[p] == s[p2]);
            assert(t[q] == s[q2]);
        }
    }
}

/// Draws `m` distinct indices below `n`: a partial Fisher-Yates pass over
/// the pool `0, 1, ..., n - 1`, driven by the generator.
pub fn sample_indices(n: usize, m: usize, rng: &mut CaptchaRng) -> (r: Vec<usize>)
    requires
        m <= n,
    ensures
        r@.len() == m,
        r@.no_duplicates(),
        forall|k: int| 0 <= k < m ==> (r@[k] as int) < n,
        r@ == select_from(initial_pool(n as nat), old(rng).state, 0, m as nat).0.take(m as int),
        final(rng).state == select_from(initial_pool(n as nat), old(rng).state, 0, m as nat).1,
{
    let mut pool: Vec<usize> = Vec::new();
    let mut i: usize = 0;
    while i < n
        invariant
            i <= n,
            pool@.len() == i,
            forall|k: int| 0 <= k < i ==> (pool@[k] as int) == k,
        decreases n - i,
    {
        pool.push(i);
        i += 1;
    }
    proof {
        assert(pool@ =~= initial_pool(n as nat));
    }
    let mut t: usize = 0;
    while t < m
        invariant
            t <= m,
            m <= n,
            pool@.len() == n,
            pool@.no_duplicates(),
            forall|k: int| 0 <= k < n ==> (pool@[k] as int) < n,
            select_from(initial_pool(n as nat), old(rng).state, 0, m as nat) == select_from(
                pool@,
                rng.state,
                t as nat,
                m as nat,
            ),
        decreases m - t,
    {
        let ghost st_b = rng.state;
        let off = rng.below((n - t) as u64);
        let j: usize = t + (off as usize);
        let ghost p0 = pool@;
        let a = pool[t];
        let b = pool[j];
        pool[t] = b;
        pool[j] = a;
        proof {
            assert(pool@ == swapped(p0, t as int, j as int));
            lemma_swap_keeps(p0, t as int, j as int);
            assert forall|k: int| 0 <= k < n implies (pool@[k] as int) < n by {
                assert(pool@.contains(pool@[k]));
                let k2 = choose|k2: int| 0 <= k2 < p0.len() && p0[k2] == pool@[k];
            }
            assert(select_from(p0, st_b, t as nat, m as nat) == select_from(
                pool@,
                rng.state,
                (t + 1) as nat,
                m as nat,
            ));
        }
        t += 1;
    }
    proof {
        assert(select_from(pool@, rng.state, m as nat, m as nat) == (pool@, rng.state));
    }
    pool.truncate(m);
    proof {
        assert(pool@.no_duplicates());
    }
    pool
}

/// Permutes the vector in place (Fisher-Yates), driven by the generator:
/// the length, distinctness and the set of entries are kept.
pub fn shuffle_indices(v: &mut Vec<usize>, rng: &mut CaptchaRng)
    ensures
        final(v)@.len() == old(v)@.len(),
        old(v)@.no_duplicates() ==> final(v)@.no_duplicates(),
        forall|x: usize| final(v)@.contains(x) <==> old(v)@.contains(x),
        (final(v)@, final(rng).state) == shuffle_from(old(v)@, old(rng).state, 0),
{
    let len = v.len();
    let mut t: usize = 0;
    while t + 1 < len
        invariant
            t < len || (len == 0 && t == 0),
            v@.len() == len,
            old(v)@.no_duplicates() ==> v@.no_duplicates(),
            forall|x: usize| v@.contains(x) <==> old(v)@.contains(x),
            shuffle_from(old(v)@, old(rng).state, 0) == shuffle_from(v@, rng.state, t as nat),
        decreases len - t,
    {
        let ghost st_b = rng.state;
        let off = rng.below((len - t) as u64);
        let j: usize = t + (off as usize);
        let ghost p0 = v@;
        let a = v[t];
        let b = v[j];
        v[t] = b;
        v[j] = a;
        proof {
            assert(v@ == swapped(p0, t as int, j as int));
            lemma_swap_keeps(p0, t as int, j as int);
            assert(shuffle_from(p0, st_b, t as nat) == shuffle_from(
                v@,
                rng.state,
                (t + 1) as nat,
            ));
        }
        t += 1;
    }
    proof {
        assert(shuffle_from(v@, rng.state, t as nat) == (v@, rng.state));
    }
}

} // verus!
