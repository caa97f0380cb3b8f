//! Query-index bookkeeping shared by decommitment and verification: per-layer
//! query sets are strictly ascending index sequences, and the set of nodes a
//! verifier reconstructs at a layer is the union of that layer's queries and
//! the parents of the reconstructed nodes one layer below.

use vstd::prelude::*;
use vstd::arithmetic::power2::pow2;

verus! {

/// Strictly ascending: sorted with no duplicates.
pub open spec fn strictly_sorted(s: Seq<usize>) -> bool {
    forall|a: int, b: int| 0 <= a < b < s.len() ==> s[a] < s[b]
}

/// Every entry below `n`.
pub open spec fn bounded_by(s: Seq<usize>, n: nat) -> bool {
    forall|a: int| 0 <= a < s.len() ==> (s[a] as nat) < n
}

/// The ascending union of two strictly ascending sequences.
pub open spec fn merge_sorted(a: Seq<usize>, b: Seq<usize>) -> Seq<usize>
    decreases a.len() + b.len(),
{
    if a.len() == 0 {
        b
    } else if b.len() == 0 {
        a
    } else if a[0] < b[0] {
        seq![a[0]] + merge_sorted(a.drop_first(), b)
    } else if b[0] < a[0] {
        seq![b[0]] + merge_sorted(a, b.drop_first())
    } else {
        seq![a[0]] + merge_sorted(a.drop_first(), b.drop_first())
    }
}

/// Prepending an element shifts membership by one.
proof fn lemma_cons_contains(h: usize, rest: Seq<usize>, x: usize)
    ensures
        (seq![h] + rest).contains(x) <==> (x == h || rest.contains(x)),
{
    let s = seq![h] + rest;
    assert(s[0] == h);
    if rest.contains(x) {
        let i = choose|i: int| 0 <= i < rest.len() && rest[i] == x;
        assert(s[i + 1] == x);
    }
    if s.contains(x) {
        let i = choose|i: int| 0 <= i < s.len() && s[i] == x;
        if i > 0 {
            assert(rest[i - 1] == x);
        }
    }
}

/// The merge holds exactly the elements of its two inputs.
pub proof fn lemma_merge_contains(a: Seq<usize>, b: Seq<usize>)
    ensures
        forall|x: usize|
            #[trigger] merge_sorted(a, b).contains(x) <==> (a.contains(x) || b.contains(x)),
    decreases a.len() + b.len(),
{
    if a.len() == 0 {
    } else if b.len() == 0 {
    } else {
        assert forall|x: usize|
            #[trigger] merge_sorted(a, b).contains(x) <==> (a.contains(x) || b.contains(x)) by {
            if a[0] < b[0] {
                lemma_merge_contains(a.drop_first(), b);
                lemma_cons_contains(a[0], merge_sorted(a.drop_first(), b), x);
                lemma_cons_contains(a[0], a.drop_first(), x);
                assert(seq![a[0]] + a.drop_first() =~= a);
            } else if b[0] < a[0] {
                lemma_merge_contains(a, b.drop_first());
                lemma_cons_contains(b[0], merge_sorted(a, b.drop_first()), x);
                lemma_cons_contains(b[0], b.drop_first(), x);
                assert(seq![b[0]] + b.drop_first() =~= b);
            } else {
                lemma_merge_contains(a.drop_first(), b.drop_first());
                lemma_cons_contains(a[0], merge_sorted(a.drop_first(), b.drop_first()), x);
                lemma_cons_contains(a[0], a.drop_first(), x);
                lemma_cons_contains(b[0], b.drop_first(), x);
                assert(seq![a[0]] + a.drop_first() =~= a);
                assert(seq![b[0]] + b.drop_first() =~= b);
            }
        }
    }
}

/// Merging strictly ascending sequences gives a strictly ascending sequence.
pub proof fn lemma_merge_sorted(a: Seq<usize>, b: Seq<usize>)
    requires
        strictly_sorted(a),
        strictly_sorted(b),
    ensures
        strictly_sorted(merge_sorted(a, b)),
    decreases a.len() + b.len(),
{
    if a.len() == 0 || b.len() == 0 {
    } else {
        let m = merge_sorted(a, b);
        if a[0] < b[0] {
            assert(strictly_sorted(a.drop_first()));
            lemma_merge_sorted(a.drop_first(), b);
            lemma_merge_contains(a.drop_first(), b);
            let rest = merge_sorted(a.drop_first(), b);
            assert forall|p: int, q: int| 0 <= p < q < m.len() implies m[p] < m[q] by {
                if p == 0 {
                    assert(m[q] == rest[q - 1]);
                    assert(rest.contains(rest[q - 1]));
                    if a.drop_first().contains(rest[q - 1]) {
                        let i = choose|i: int|
                            0 <= i < a.drop_first().len() && a.drop_first()[i] == rest[q - 1];
                        assert(a[i + 1] == rest[q - 1]);
                    }
                } else {
                    assert(m[p] == rest[p - 1] && m[q] == rest[q - 1]);
                }
            }
        } else if b[0] < a[0] {
            assert(strictly_sorted(b.drop_first()));
            lemma_merge_sorted(a, b.drop_first());
            lemma_merge_contains(a, b.drop_first());
            let rest = merge_sorted(a, b.drop_first());
            assert forall|p: int, q: int| 0 <= p < q < m.len() implies m[p] < m[q] by {
                if p == 0 {
                    assert(m[q] == rest[q - 1]);
                    assert(rest.contains(rest[q - 1]));
                    if b.drop_first().contains(rest[q - 1]) {
                        let i = choose|i: int|
                            0 <= i < b.drop_first().len() && b.drop_first()[i] == rest[q - 1];
                        assert(b[i + 1] == rest[q - 1]);
                    }
                } else {
                    assert(m[p] == rest[p - 1] && m[q] == rest[q - 1]);
                }
            }
        } else {
            assert(strictly_sorted(a.drop_first()));
            assert(strictly_sorted(b.drop_first()));
            lemma_merge_sorted(a.drop_first(), b.drop_first());
            lemma_merge_contains(a.drop_first(), b.drop_first());
            let rest = merge_sorted(a.drop_first(), b.drop_first());
            assert forall|p: int, q: int| 0 <= p < q < m.len() implies m[p] < m[q] by {
                if p == 0 {
                    assert(m[q] == rest[q - 1]);
                    assert(rest.contains(rest[q - 1]));
                    if a.drop_first().contains(rest[q - 1]) {
                        let i = choose|i: int|
                            0 <= i < a.drop_first().len() && a.drop_first()[i] == rest[q - 1];
                        assert(a[i + 1] == rest[q - 1]);
                    }
                    if b.drop_first().contains(rest[q - 1]) {
                        let i = choose|i: int|
                            0 <= i < b.drop_first().len() && b.drop_first()[i] == rest[q - 1];
                        assert(b[i + 1] == rest[q - 1]);
                    }
                } else {
                    assert(m[p] == rest[p - 1] && m[q] == rest[q - 1]);
                }
            }
        }
    }
}

/// Merging bounded sequences stays bounded.
pub proof fn lemma_merge_bounded(a: Seq<usize>, b: Seq<usize>, n: nat)
    requires
        bounded_by(a, n),
        bounded_by(b, n),
    ensures
        bounded_by(merge_sorted(a, b), n),
{
    lemma_merge_contains(a, b);
    let m = merge_sorted(a, b);
    assert forall|p: int| 0 <= p < m.len() implies (m[p] as nat) < n by {
        assert(m.contains(m[p]));
    }
}

/// The ascending, deduplicated parents of a strictly ascending sequence of
/// node indices: each entry halved, repeats collapsed.
pub open spec fn parent_indices(s: Seq<usize>) -> Seq<usize>
    decreases s.len(),
{
    if s.len() == 0 {
        Seq::empty()
    } else {
        let front = parent_indices(s.drop_last());
        let p = s.last() / 2;
        if front.len() > 0 && front.last() == p {
            front
        } else {
            front.push(p)
        }
    }
}

/// The parents hold exactly the halved entries of the input, and stay
/// ascending and bounded by half the input bound.
pub proof fn lemma_parent_indices(s: Seq<usize>)
    requires
        strictly_sorted(s),
    ensures
        strictly_sorted(parent_indices(s)),
        forall|x: usize|
            #[trigger] parent_indices(s).contains(x) <==> exists|j: int|
                0 <= j < s.len() && s[j] / 2 == x,
    decreases s.len(),
{
    if s.len() == 0 {
    } else {
        let front = parent_indices(s.drop_last());
        let p = s.last() / 2;
        assert(strictly_sorted(s.drop_last()));
        lemma_parent_indices(s.drop_last());
        // every parent of a front entry is at most p
        assert forall|y: usize| #[trigger] front.contains(y) implies y <= p by {
            let j = choose|j: int| 0 <= j < s.drop_last().len() && s.drop_last()[j] / 2 == y;
            assert(s[j] == s.drop_last()[j]);
            assert(s[j] < s.last());
            vstd::arithmetic::div_mod::lemma_div_is_ordered(
                s[j] as int,
                s.last() as int,
                2,
            );
        }
        let r = parent_indices(s);
        if front.len() > 0 && front.last() == p {
            assert(r == front);
            assert forall|x: usize| #[trigger] r.contains(x) implies exists|j: int|
                0 <= j < s.len() && s[j] / 2 == x by {
                let j = choose|j: int| 0 <= j < s.drop_last().len() && s.drop_last()[j] / 2 == x;
                assert(s[j] / 2 == x);
            }
            assert forall|x: usize| (exists|j: int| 0 <= j < s.len() && s[j] / 2 == x)
                implies #[trigger] r.contains(x) by {
                let j = choose|j: int| 0 <= j < s.len() && s[j] / 2 == x;
                if j == s.len() - 1 {
                    assert(front.contains(front.last()));
                } else {
                    assert(s.drop_last()[j] / 2 == x);
                    assert(front.contains(x));
                }
            }
        } else {
            assert(r == front.push(p));
            // ascending: p differs from every front entry's bound
            assert forall|a: int, b: int| 0 <= a < b < r.len() implies r[a] < r[b] by {
                if b == r.len() - 1 {
                    assert(r[a] == front[a]);
                    assert(front.contains(front[a]));
                    assert(front[a] <= p);
                    if front.len() > 0 {
                        assert(front[a] <= front.last());
                        if front[a] == p {
                            assert(front.last() <= p);
                            assert(front.last() >= front[a]);
                        }
                    }
                } else {
                    assert(r[a] == front[a] && r[b] == front[b]);
                }
            }
            assert forall|x: usize| #[trigger] r.contains(x) implies exists|j: int|
                0 <= j < s.len() && s[j] / 2 == x by {
                let i = choose|i: int| 0 <= i < r.len() && r[i] == x;
                if i == r.len() - 1 {
                    assert(s[s.len() - 1] / 2 == x);
                } else {
                    assert(front.contains(x));
                    let j = choose|j: int|
                        0 <= j < s.drop_last().len() && s.drop_last()[j] / 2 == x;
                    assert(s[j] / 2 == x);
                }
            }
            assert forall|x: usize| (exists|j: int| 0 <= j < s.len() && s[j] / 2 == x)
                implies #[trigger] r.contains(x) by {
                let j = choose|j: int| 0 <= j < s.len() && s[j] / 2 == x;
                if j == s.len() - 1 {
                    assert(r[r.len() - 1] == p);
                } else {
                    assert(s.drop_last()[j] / 2 == x);
                    assert(front.contains(x));
                    let i = choose|i: int| 0 <= i < front.len() && front[i] == x;
                    assert(r[i] == x);
                }
            }
        }
    }
}

/// Parents of indices below `2n` lie below `n`.
pub proof fn lemma_parent_indices_bounded(s: Seq<usize>, n: nat)
    requires
        strictly_sorted(s),
        bounded_by(s, 2 * n),
    ensures
        bounded_by(parent_indices(s), n),
{
    lemma_parent_indices(s);
    let r = parent_indices(s);
    assert forall|p: int| 0 <= p < r.len() implies (r[p] as nat) < n by {
        assert(r.contains(r[p]));
        let j = choose|j: int| 0 <= j < s.len() && s[j] / 2 == r[p];
    }
}

/// The nodes a verifier reconstructs at layer `l`: the layer's own queries,
/// merged with the parents of the nodes reconstructed one layer below.
pub open spec fn needed_at(queries: Seq<Seq<usize>>, max: nat, l: nat) -> Seq<usize>
    recommends
        l <= max,
        queries.len() == max + 1,
    decreases max - l,
{
    if l >= max {
        queries[l as int]
    } else {
        merge_sorted(parent_indices(needed_at(queries, max, l + 1)), queries[l as int])
    }
}

/// Well-formed query sets: one strictly ascending, in-range index sequence
/// per layer, root layer to `max`.
pub open spec fn queries_wf(queries: Seq<Seq<usize>>, max: nat) -> bool {
    &&& queries.len() == max + 1
    &&& forall|l: int|
        0 <= l <= max ==> strictly_sorted(#[trigger] queries[l]) && bounded_by(
            queries[l],
            pow2(l as nat),
        )
}

/// Reconstructed node sets are strictly ascending and in range, and every
/// reconstructed node's parent is reconstructed one layer up.
pub proof fn lemma_needed_at_wf(queries: Seq<Seq<usize>>, max: nat, l: nat)
    requires
        queries_wf(queries, max),
        l <= max,
    ensures
        strictly_sorted(needed_at(queries, max, l)),
        bounded_by(needed_at(queries, max, l), pow2(l)),
        l < max ==> forall|x: usize|
            needed_at(queries, max, l + 1).contains(x) ==> #[trigger] needed_at(
                queries,
                max,
                l,
            ).contains(x / 2),
    decreases max - l,
{
    if l >= max {
    } else {
        lemma_needed_at_wf(queries, max, l + 1);
        let below = needed_at(queries, max, l + 1);
        lemma_parent_indices(below);
        vstd::arithmetic::power2::lemma_pow2_adds(l, 1);
        vstd::arithmetic::power2::lemma2_to64();
        assert(pow2(l + 1) == 2 * pow2(l));
        lemma_parent_indices_bounded(below, pow2(l));
        lemma_merge_sorted(parent_indices(below), queries[l as int]);
        lemma_merge_bounded(parent_indices(below), queries[l as int], pow2(l));
        lemma_merge_contains(parent_indices(below), queries[l as int]);
        assert forall|x: usize| below.contains(x) implies #[trigger] needed_at(
            queries,
            max,
            l,
        ).contains(x / 2) by {
            let j = choose|j: int| 0 <= j < below.len() && below[j] == x;
            assert(below[j] / 2 == x / 2);
            assert(parent_indices(below).contains(x / 2));
        }
    }
}

/// The position of the first occurrence of the index value `x`, if any.
pub open spec fn first_index(s: Seq<usize>, x: int) -> Option<nat>
    decreases s.len(),
{
    if s.len() == 0 {
        None
    } else if s[0] as int == x {
        Some(0)
    } else {
        match first_index(s.drop_first(), x) {
            Some(k) => Some(k + 1),
            None => None,
        }
    }
}

/// `first_index` finds exactly the members, at a valid position holding `x`.
pub proof fn lemma_first_index(s: Seq<usize>, x: int)
    ensures
        first_index(s, x) is Some <==> exists|i: int| 0 <= i < s.len() && s[i] as int == x,
        first_index(s, x) matches Some(k) ==> k < s.len() && s[k as int] as int == x,
    decreases s.len(),
{
    if s.len() == 0 {
    } else if s[0] as int == x {
    } else {
        lemma_first_index(s.drop_first(), x);
        if exists|i: int| 0 <= i < s.len() && s[i] as int == x {
            let i = choose|i: int| 0 <= i < s.len() && s[i] as int == x;
            assert(s.drop_first()[i - 1] as int == x);
        }
        if exists|i: int| 0 <= i < s.drop_first().len() && s.drop_first()[i] as int == x {
            let i = choose|i: int| 0 <= i < s.drop_first().len() && s.drop_first()[i] as int == x;
            assert(s[i + 1] as int == x);
        }
    }
}

/// Looks up `x` in `s` by forward scan.
pub fn find_first(s: &Vec<usize>, x: usize) -> (r: Option<usize>)
    ensures
        match r {
            Some(k) => first_index(s@, x as int) == Some(k as nat),
            None => first_index(s@, x as int) is None,
        },
{
    proof {
        assert(s@.skip(0) =~= s@);
    }
    let mut i: usize = 0;
    while i < s.len()
        invariant
            i <= s@.len(),
            forall|t: int| 0 <= t < i ==> s@[t] != x,
            first_index(s@, x as int) == (match first_index(s@.skip(i as int), x as int) {
                Some(k) => Some((k + i) as nat),
                None => None::<nat>,
            }),
        decreases s@.len() - i,
    {
        proof {
            assert(s@.skip(i as int)[0] == s@[i as int]);
            assert(s@.skip(i as int).drop_first() =~= s@.skip(i + 1));
        }
        if s[i] == x {
            return Some(i);
        }
        i += 1;
    }
    proof {
        assert(s@.skip(i as int).len() == 0);
    }
    None
}

/// Copies an index list.
pub fn copy_indices(s: &Vec<usize>) -> (r: Vec<usize>)
    ensures
        r@ == s@,
{
    let mut r: Vec<usize> = Vec::new();
    let mut i: usize = 0;
    while i < s.len()
        invariant
            i <= s@.len(),
            r@ =~= s@.take(i as int),
        decreases s@.len() - i,
    {
        r.push(s[i]);
        i += 1;
    }
    proof {
        assert(r@ =~= s@);
    }
    r
}

/// Merges two ascending index lists into their ascending union.
pub fn merge(a: &Vec<usize>, b: &Vec<usize>) -> (r: Vec<usize>)
    ensures
        r@ == merge_sorted(a@, b@),
{
    proof {
        assert(a@.skip(0) =~= a@);
        assert(b@.skip(0) =~= b@);
    }
    let mut r: Vec<usize> = Vec::new();
    let mut i: usize = 0;
    let mut j: usize = 0;
    while i < a.len() || j < b.len()
        invariant
            i <= a@.len(),
            j <= b@.len(),
            merge_sorted(a@, b@) == r@ + merge_sorted(a@.skip(i as int), b@.skip(j as int)),
        decreases a@.len() - i + b@.len() - j,
    {
        let ghost ra = a@.skip(i as int);
        let ghost rb = b@.skip(j as int);
        proof {
            if i < a@.len() {
                assert(ra[0] == a@[i as int]);
                assert(ra.drop_first() =~= a@.skip(i + 1));
            }
            if j < b@.len() {
                assert(rb[0] == b@[j as int]);
                assert(rb.drop_first() =~= b@.skip(j + 1));
            }
        }
        if i < a.len() && (j >= b.len() || a[i] <= b[j]) {
            if j < b.len() && a[i] == b[j] {
                proof {
                    assert(merge_sorted(ra, rb) == seq![ra[0]] + merge_sorted(
                        ra.drop_first(),
                        rb.drop_first(),
                    ));
                    assert(r@ + merge_sorted(ra, rb) =~= r@.push(a@[i as int]) + merge_sorted(
                        a@.skip(i + 1),
                        b@.skip(j + 1),
                    ));
                }
                r.push(a[i]);
                i += 1;
                j += 1;
            } else {
                proof {
                    if j >= b@.len() {
                        assert(rb.len() == 0);
                        if ra.len() > 0 {
                            assert(merge_sorted(ra, rb) == ra);
                            assert(ra =~= seq![ra[0]] + ra.drop_first());
                            assert(merge_sorted(a@.skip(i + 1), b@.skip(j as int))
                                == a@.skip(i + 1));
                        }
                    } else {
                        assert(ra[0] < rb[0]);
                    }
                    assert(r@ + merge_sorted(ra, rb) =~= r@.push(a@[i as int]) + merge_sorted(
                        a@.skip(i + 1),
                        b@.skip(j as int),
                    ));
                }
                r.push(a[i]);
                i += 1;
            }
        } else {
            proof {
                if i >= a@.len() {
                    assert(ra.len() == 0);
                    assert(merge_sorted(ra, rb) == rb);
                    assert(rb =~= seq![rb[0]] + rb.drop_first());
                    assert(merge_sorted(a@.skip(i as int), b@.skip(j + 1)) == b@.skip(j + 1));
                } else {
                    assert(rb[0] < ra[0]);
                }
                assert(r@ + merge_sorted(ra, rb) =~= r@.push(b@[j as int]) + merge_sorted(
                    a@.skip(i as int),
                    b@.skip(j + 1),
                ));
            }
            r.push(b[j]);
            j += 1;
        }
    }
    proof {
        assert(a@.skip(i as int).len() == 0);
        assert(b@.skip(j as int).len() == 0);
        assert(merge_sorted(a@.skip(i as int), b@.skip(j as int)).len() == 0);
        assert(r@ =~= r@ + merge_sorted(a@.skip(i as int), b@.skip(j as int)));
    }
    r
}

/// Collapses an ascending index list to its ascending, deduplicated parents.
pub fn parents(s: &Vec<usize>) -> (r: Vec<usize>)
    ensures
        r@ == parent_indices(s@),
{
    let mut r: Vec<usize> = Vec::new();
    let mut i: usize = 0;
    while i < s.len()
        invariant
            i <= s@.len(),
            r@ == parent_indices(s@.take(i as int)),
        decreases s@.len() - i,
    {
        proof {
            assert(s@.take(i + 1).drop_last() =~= s@.take(i as int));
            assert(s@.take(i + 1).last() == s@[i as int]);
        }
        let p = s[i] / 2;
        if r.len() == 0 {
            r.push(p);
        } else {
            let last = r[r.len() - 1];
            if last != p {
                r.push(p);
            }
        }
        i += 1;
    }
    proof {
        assert(s@.take(s@.len() as int) =~= s@);
    }
    r
}

/// The per-layer views of a list of index lists.
pub open spec fn queries_view(q: Seq<Vec<usize>>) -> Seq<Seq<usize>> {
    q.map_values(|v: Vec<usize>| v@)
}

/// Computes the reconstructed-node list of every layer, root layer first.
pub fn compute_needed(queries: &Vec<Vec<usize>>, max: usize) -> (r: Vec<Vec<usize>>)
    requires
        max < 30,
        queries@.len() == max + 1,
    ensures
        r@.len() == max + 1,
        forall|l: int| 0 <= l <= max ==> #[trigger] r@[l]@ == needed_at(
            queries_view(queries@),
            max as nat,
            l as nat,
        ),
{
    let ghost qv = queries_view(queries@);
    // reconstructed lists, largest layer first
    let mut rev: Vec<Vec<usize>> = Vec::new();
    let mut k: usize = 0;
    while k <= max
        invariant
            max < 30,
            k <= max + 1,
            queries@.len() == max + 1,
            qv == queries_view(queries@),
            rev@.len() == k,
            forall|t: int| 0 <= t < k ==> #[trigger] rev@[t]@ == needed_at(
                qv,
                max as nat,
                (max - t) as nat,
            ),
        decreases max + 1 - k,
    {
        let l = max - k;
        let cur: Vec<usize> = if k == 0 {
            copy_indices(&queries[l])
        } else {
            let p = parents(&rev[k - 1]);
            merge(&p, &queries[l])
        };
        rev.push(cur);
        k += 1;
    }
    let mut r: Vec<Vec<usize>> = Vec::new();
    let mut l: usize = 0;
    while l <= max
        invariant
            max < 30,
            l <= max + 1,
            rev@.len() == max + 1,
            forall|t: int| 0 <= t <= max ==> #[trigger] rev@[t]@ == needed_at(
                qv,
                max as nat,
                (max - t) as nat,
            ),
            r@.len() == l,
            qv == queries_view(queries@),
            forall|t: int| 0 <= t < l ==> #[trigger] r@[t]@ == needed_at(
                qv,
                max as nat,
                t as nat,
            ),
        decreases max + 1 - l,
    {
        r.push(copy_indices(&rev[max - l]));
        l += 1;
    }
    r
}

} // verus!
