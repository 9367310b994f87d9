//! Locality-sensitive hashing of bit vectors under the Hamming distance:
//! each hash function reads a few chosen positions of a vector, a table
//! groups the vectors by their hash, and a query looks at the vectors that
//! share its hash in some table to guess its nearest neighbour.
use vstd::prelude::*;
use rand::Rng;
use rand::rngs::ThreadRng;
use std::collections::HashMap;

verus! {

/// The random number generator of `rand`, carried through as it is.
#[verifier::external_type_specification]
#[verifier::external_body]
pub struct ExThreadRng(ThreadRng);

/// `rng.random_range(0..n)`: a number below `n`, drawn at random.  The
/// source panics on an empty range, which the precondition leaves out.
#[verifier::external_body]
fn random_below(rng: &mut ThreadRng, n: usize) -> (r: usize)
    requires
        n > 0,
    ensures
        r < n,
{
    rng.random_range(0..n)
}

/// `rng.random::<bool>()`: a bit drawn at random.
#[verifier::external_body]
fn random_bit(rng: &mut ThreadRng) -> bool {
    rng.random()
}

/// `rand::seq::index::sample(rng, length, amount).into_vec()`: exactly
/// `amount` distinct numbers below `length`, drawn at random in random
/// order, as the crate documents.  It panics when `amount > length`, which
/// the precondition leaves out.
#[verifier::external_body]
fn sample_indices(rng: &mut ThreadRng, length: usize, amount: usize) -> (r: Vec<usize>)
    requires
        amount <= length,
    ensures
        r@.len() == amount,
        forall|t: int| 0 <= t < r@.len() ==> #[trigger] r@[t] < length,
        forall|s: int, t: int| 0 <= s < t < r@.len() ==> r@[s] != r@[t],
{
    rand::seq::index::sample(rng, length, amount).into_vec()
}

/// Number of positions below `k` at which `p` and `q` differ.
pub open spec fn mismatches(p: Seq<bool>, q: Seq<bool>, k: int) -> nat
    decreases k,
{
    if k <= 0 {
        0
    } else if p[k - 1] != q[k - 1] {
        mismatches(p, q, k - 1) + 1
    } else {
        mismatches(p, q, k - 1)
    }
}

/// Hamming distance over the positions that both vectors have.
pub open spec fn hamming(p: Seq<bool>, q: Seq<bool>) -> nat {
    mismatches(p, q, if p.len() <= q.len() { p.len() as int } else { q.len() as int })
}

proof fn lemma_mismatches_bound(p: Seq<bool>, q: Seq<bool>, k: int)
    requires
        0 <= k,
    ensures
        mismatches(p, q, k) <= k,
    decreases k,
{
    if k > 0 {
        lemma_mismatches_bound(p, q, k - 1);
    }
}

proof fn lemma_mismatches_symmetric(p: Seq<bool>, q: Seq<bool>, k: int)
    ensures
        mismatches(p, q, k) == mismatches(q, p, k),
        mismatches(p, p, k) == 0,
    decreases k,
{
    if k > 0 {
        lemma_mismatches_symmetric(p, q, k - 1);
    }
}

/// The Hamming distance is the same both ways, and 0 from a vector to itself.
pub proof fn lemma_hamming_symmetric(p: Seq<bool>, q: Seq<bool>)
    ensures
        hamming(p, q) == hamming(q, p),
        hamming(p, p) == 0,
{
    let k = if p.len() <= q.len() { p.len() as int } else { q.len() as int };
    lemma_mismatches_symmetric(p, q, k);
    lemma_mismatches_symmetric(p, q, p.len() as int);
}

/// Number of positions at which the two vectors differ, over the positions
/// that both have.
pub fn hamming_distance(p: &Vec<bool>, q: &Vec<bool>) -> (r: usize)
    ensures
        r == hamming(p@, q@),
{
    let n = if p.len() <= q.len() { p.len() } else { q.len() };
    let mut c: usize = 0;
    let mut t: usize = 0;
    while t < n
        invariant
            n == (if p@.len() <= q@.len() { p@.len() } else { q@.len() }),
            t <= n,
            c == mismatches(p@, q@, t as int),
        decreases n - t,
    {
        proof {
            lemma_mismatches_bound(p@, q@, t as int);
        }
        if p[t] != q[t] {
            c = c + 1;
        }
        t = t + 1;
    }
    c
}

/// `k` numbers below `n`; with `dup` each is drawn on its own, otherwise
/// all are distinct.
pub fn random_indices(rng: &mut ThreadRng, n: usize, k: usize, dup: bool) -> (r: Vec<usize>)
    requires
        dup ==> (n > 0 || k == 0),
        !dup ==> k <= n,
    ensures
        r@.len() == k,
        forall|t: int| 0 <= t < r@.len() ==> #[trigger] r@[t] < n,
        !dup ==> forall|s: int, t: int| 0 <= s < t < r@.len() ==> r@[s] != r@[t],
{
    if dup {
        let mut r: Vec<usize> = Vec::with_capacity(k);
        let mut t: usize = 0;
        while t < k
            invariant
                t <= k,
                r@.len() == t,
                n > 0 || k == 0,
                forall|u: int| 0 <= u < r@.len() ==> #[trigger] r@[u] < n,
            decreases k - t,
        {
            r.push(random_below(rng, n));
            t = t + 1;
        }
        r
    } else {
        sample_indices(rng, n, k)
    }
}

/// `n` vectors of `d` random bits.
pub fn generate_points(rng: &mut ThreadRng, n: usize, d: usize) -> (r: Vec<Vec<bool>>)
    ensures
        r@.len() == n,
        forall|t: int| 0 <= t < r@.len() ==> (#[trigger] r@[t])@.len() == d,
{
    let mut r: Vec<Vec<bool>> = Vec::with_capacity(n);
    let mut t: usize = 0;
    while t < n
        invariant
            t <= n,
            r@.len() == t,
            forall|u: int| 0 <= u < r@.len() ==> (#[trigger] r@[u])@.len() == d,
        decreases n - t,
    {
        let mut p: Vec<bool> = Vec::with_capacity(d);
        let mut u: usize = 0;
        while u < d
            invariant
                u <= d,
                p@.len() == u,
            decreases d - u,
        {
            p.push(random_bit(rng));
            u = u + 1;
        }
        r.push(p);
        t = t + 1;
    }
    r
}

/// The bits of `p` with the position of each entry of `idx` flipped, once
/// per entry.
pub open spec fn flipped(p: Seq<bool>, idx: Seq<usize>) -> Seq<bool>
    decreases idx.len(),
{
    if idx.len() == 0 {
        p
    } else {
        let q = flipped(p, idx.drop_last());
        let i = idx.last() as int;
        q.update(i, !q[i])
    }
}

proof fn lemma_flipped_len(p: Seq<bool>, idx: Seq<usize>)
    requires
        forall|t: int| 0 <= t < idx.len() ==> #[trigger] idx[t] < p.len(),
    ensures
        flipped(p, idx).len() == p.len(),
    decreases idx.len(),
{
    if idx.len() > 0 {
        lemma_flipped_len(p, idx.drop_last());
    }
}

/// A copy of the bits of `p`.
fn copy_bits(p: &Vec<bool>) -> (r: Vec<bool>)
    ensures
        r@ == p@,
{
    let n = p.len();
    let mut r: Vec<bool> = Vec::with_capacity(n);
    let mut t: usize = 0;
    while t < n
        invariant
            n == p@.len(),
            t <= n,
            r@ == p@.subrange(0, t as int),
        decreases n - t,
    {
        r.push(p[t]);
        proof {
            assert(p@.subrange(0, t + 1) =~= p@.subrange(0, t as int).push(p@[t as int]));
        }
        t = t + 1;
    }
    assert(p@.subrange(0, n as int) =~= p@);
    r
}

/// `p` with the positions of `idx` flipped.
pub fn flip_positions(p: &Vec<bool>, idx: &Vec<usize>) -> (r: Vec<bool>)
    requires
        forall|t: int| 0 <= t < idx@.len() ==> #[trigger] idx@[t] < p@.len(),
    ensures
        r@ == flipped(p@, idx@),
{
    let mut mutated = copy_bits(p);
    let n = idx.len();
    let mut t: usize = 0;
    while t < n
        invariant
            n == idx@.len(),
            t <= n,
            forall|u: int| 0 <= u < idx@.len() ==> #[trigger] idx@[u] < p@.len(),
            mutated@ == flipped(p@, idx@.subrange(0, t as int)),
        decreases n - t,
    {
        proof {
            assert forall|u: int| 0 <= u < t implies #[trigger] idx@.subrange(0, t as int)[u] < p@.len() by {
                assert(idx@[u] < p@.len());
            }
            lemma_flipped_len(p@, idx@.subrange(0, t as int));
            assert(idx@.subrange(0, t + 1).drop_last() =~= idx@.subrange(0, t as int));
            assert(idx@[t as int] < p@.len());
        }
        let i = idx[t];
        let b = mutated[i];
        mutated.set(i, !b);
        t = t + 1;
    }
    assert(idx@.subrange(0, n as int) =~= idx@);
    mutated
}

/// `q` is `p` with `r` positions flipped: distinct ones unless `dup`.
pub open spec fn mutation_of(p: Seq<bool>, q: Seq<bool>, r: nat, dup: bool) -> bool {
    exists|idx: Seq<usize>| {
        &&& idx.len() == r
        &&& forall|t: int| 0 <= t < idx.len() ==> #[trigger] idx[t] < p.len()
        &&& !dup ==> forall|s: int, t: int| 0 <= s < t < idx.len() ==> idx[s] != idx[t]
        &&& q == flipped(p, idx)
    }
}

/// Flipping positions other than `j` leaves bit `j` as it was.
proof fn lemma_flipped_outside(p: Seq<bool>, idx: Seq<usize>, j: int)
    requires
        forall|t: int| 0 <= t < idx.len() ==> #[trigger] idx[t] < p.len(),
        forall|t: int| 0 <= t < idx.len() ==> #[trigger] idx[t] as int != j,
        0 <= j < p.len(),
    ensures
        flipped(p, idx)[j] == p[j],
    decreases idx.len(),
{
    if idx.len() > 0 {
        lemma_flipped_outside(p, idx.drop_last(), j);
        lemma_flipped_len(p, idx.drop_last());
        assert(idx.last() == idx[idx.len() - 1]);
    }
}

/// Flipping one bit of `q` changes its number of mismatches with `p` by one.
proof fn lemma_mismatches_flip(p: Seq<bool>, q: Seq<bool>, i: int, k: int)
    requires
        0 <= i < q.len(),
        k <= q.len(),
    ensures
        mismatches(p, q.update(i, !q[i]), k) == if i < k {
            if p[i] == q[i] { mismatches(p, q, k) as int + 1 } else { mismatches(p, q, k) as int - 1 }
        } else {
            mismatches(p, q, k) as int
        },
    decreases k,
{
    if k > 0 {
        lemma_mismatches_flip(p, q, i, k - 1);
        if i < k - 1 && p[i] != q[i] {
            assert(mismatches(p, q, k - 1) >= 1) by {
                lemma_mismatches_at_least(p, q, i, k - 1);
            }
        }
    }
}

/// A mismatch below `k` counts.
proof fn lemma_mismatches_at_least(p: Seq<bool>, q: Seq<bool>, i: int, k: int)
    requires
        0 <= i < k,
        p[i] != q[i],
    ensures
        mismatches(p, q, k) >= 1,
    decreases k,
{
    if i < k - 1 {
        lemma_mismatches_at_least(p, q, i, k - 1);
    }
}

/// Flipping distinct positions puts the vector at a Hamming distance equal
/// to their number.
proof fn lemma_flipped_distance(p: Seq<bool>, idx: Seq<usize>)
    requires
        forall|t: int| 0 <= t < idx.len() ==> #[trigger] idx[t] < p.len(),
        forall|s: int, t: int| 0 <= s < t < idx.len() ==> idx[s] != idx[t],
    ensures
        hamming(p, flipped(p, idx)) == idx.len(),
    decreases idx.len(),
{
    lemma_flipped_len(p, idx);
    if idx.len() == 0 {
        lemma_mismatches_symmetric(p, p, p.len() as int);
    } else {
        let rest = idx.drop_last();
        let q = flipped(p, rest);
        let i = idx.last() as int;
        lemma_flipped_distance(p, rest);
        lemma_flipped_len(p, rest);
        assert forall|t: int| 0 <= t < rest.len() implies #[trigger] rest[t] as int != i by {
            assert(idx[t] != idx[idx.len() - 1]);
        }
        lemma_flipped_outside(p, rest, i);
        lemma_mismatches_flip(p, q, i, p.len() as int);
    }
}

/// A mutation at `r` distinct positions lies at Hamming distance exactly `r`
/// from the vector it came from, and has its length.
pub proof fn lemma_mutation_distance(p: Seq<bool>, q: Seq<bool>, r: nat)
    requires
        mutation_of(p, q, r, false),
    ensures
        q.len() == p.len(),
        hamming(p, q) == r,
{
    let idx = choose|idx: Seq<usize>| {
        &&& idx.len() == r
        &&& forall|t: int| 0 <= t < idx.len() ==> #[trigger] idx[t] < p.len()
        &&& !false ==> forall|s: int, t: int| 0 <= s < t < idx.len() ==> idx[s] != idx[t]
        &&& q == flipped(p, idx)
    };
    lemma_flipped_len(p, idx);
    lemma_flipped_distance(p, idx);
}

/// `q` is a mutation of one of `points`.
pub open spec fn query_from(points: Seq<Seq<bool>>, q: Seq<bool>, r: nat, dup: bool) -> bool {
    exists|i: int| 0 <= i < points.len() && #[trigger] mutation_of(points[i], q, r, dup)
}

/// `p` with `r` random positions flipped: distinct ones, or with `mutate_dup`
/// each drawn on its own (so a position may flip back).
pub fn mutate_point(rng: &mut ThreadRng, p: &Vec<bool>, r: usize, mutate_dup: bool) -> (m: Vec<bool>)
    requires
        mutate_dup ==> (p@.len() > 0 || r == 0),
        !mutate_dup ==> r <= p@.len(),
    ensures
        mutation_of(p@, m@, r as nat, mutate_dup),
{
    let indices = random_indices(rng, p.len(), r, mutate_dup);
    let m = flip_positions(p, &indices);
    assert(indices@.len() == r);
    m
}

/// The bits of `p` at the positions of `indices`, in that order.
pub open spec fn hash_of(indices: Seq<usize>, p: Seq<bool>) -> Seq<bool> {
    Seq::new(indices.len(), |t: int| p[indices[t] as int])
}

/// The hash of a vector depends on the bits at the chosen positions and on
/// nothing else: two vectors that agree at every chosen position hash
/// alike, and flipping the bit at the `t`-th chosen position flips bit `t`
/// of the hash and no other.
pub proof fn lemma_hash_reads_chosen_bits(indices: Seq<usize>, p: Seq<bool>, p2: Seq<bool>, t: int)
    requires
        forall|u: int| 0 <= u < indices.len() ==> #[trigger] indices[u] < p.len(),
        p2.len() == p.len(),
        0 <= t < indices.len(),
    ensures
        hash_of(indices, p).len() == indices.len(),
        (forall|u: int| 0 <= u < indices.len() ==> p[#[trigger] indices[u] as int] == p2[indices[u] as int])
            ==> hash_of(indices, p) == hash_of(indices, p2),
        ({
            let i = indices[t] as int;
            let flipped = p.update(i, !p[i]);
            &&& hash_of(indices, flipped)[t] != hash_of(indices, p)[t]
            &&& forall|u: int| 0 <= u < indices.len() && indices[u] != indices[t]
                ==> #[trigger] hash_of(indices, flipped)[u] == hash_of(indices, p)[u]
        }),
{
    if forall|u: int| 0 <= u < indices.len() ==> p[#[trigger] indices[u] as int] == p2[indices[u] as int] {
        assert(hash_of(indices, p) =~= hash_of(indices, p2));
    }
}

/// Every position of `indices` exists in `p`.
pub open spec fn reads_within(indices: Seq<usize>, p: Seq<bool>) -> bool {
    forall|t: int| 0 <= t < indices.len() ==> #[trigger] indices[t] < p.len()
}

/// The bit vectors held by a vector of vectors.
pub open spec fn bits_view(v: Seq<Vec<bool>>) -> Seq<Seq<bool>> {
    v.map_values(|x: Vec<bool>| x@)
}

/// The keys and the vectors filed under them in a chain of the table.
pub open spec fn chain_view(c: Seq<(Vec<bool>, Vec<Vec<bool>>)>) -> Seq<(Seq<bool>, Seq<Seq<bool>>)> {
    c.map_values(|e: (Vec<bool>, Vec<Vec<bool>>)| (e.0@, bits_view(e.1@)))
}

/// The first position of a chain whose key is `key`.
pub open spec fn first_match(c: Seq<(Seq<bool>, Seq<Seq<bool>>)>, key: Seq<bool>) -> Option<int>
    decreases c.len(),
{
    if c.len() == 0 {
        None
    } else {
        match first_match(c.drop_last(), key) {
            Some(i) => Some(i),
            None => if c.last().0 == key { Some(c.len() - 1) } else { None },
        }
    }
}

/// The vectors filed under `key` in a chain.
pub open spec fn chain_bucket(c: Seq<(Seq<bool>, Seq<Seq<bool>>)>, key: Seq<bool>) -> Seq<Seq<bool>> {
    match first_match(c, key) {
        Some(i) => c[i].1,
        None => Seq::empty(),
    }
}

/// A number computed from the bits, to spread keys over the table.
pub open spec fn fingerprint(bits: Seq<bool>) -> u64
    decreases bits.len(),
{
    if bits.len() == 0 {
        0
    } else {
        let h = fingerprint(bits.drop_last());
        let b: u64 = if bits.last() { 1 } else { 0 };
        vstd::wrapping::u64_specs::wrapping_add(vstd::wrapping::u64_specs::wrapping_mul(h, 31), b)
    }
}

proof fn lemma_first_match_bound(c: Seq<(Seq<bool>, Seq<Seq<bool>>)>, key: Seq<bool>)
    ensures
        first_match(c, key) matches Some(i) ==> 0 <= i < c.len() && c[i].0 == key,
        first_match(c, key) is None ==> forall|i: int| 0 <= i < c.len() ==> c[i].0 != key,
    decreases c.len(),
{
    if c.len() > 0 {
        lemma_first_match_bound(c.drop_last(), key);
        if first_match(c.drop_last(), key) is None && c.last().0 != key {
            assert forall|i: int| 0 <= i < c.len() implies c[i].0 != key by {
                if i < c.len() - 1 {
                    assert(c.drop_last()[i] == c[i]);
                }
            }
        }
    }
}

/// Changing the vectors filed at a position, not its key, moves no first match.
proof fn lemma_first_match_update(c: Seq<(Seq<bool>, Seq<Seq<bool>>)>, i: int, e: (Seq<bool>, Seq<Seq<bool>>), key: Seq<bool>)
    requires
        0 <= i < c.len(),
        e.0 == c[i].0,
    ensures
        first_match(c.update(i, e), key) == first_match(c, key),
    decreases c.len(),
{
    let u = c.update(i, e);
    if i < c.len() - 1 {
        assert(u.drop_last() =~= c.drop_last().update(i, e));
        lemma_first_match_update(c.drop_last(), i, e, key);
    } else {
        assert(u.drop_last() =~= c.drop_last());
    }
}

/// Number of `Vec<bool>` with `fingerprint`, step by step.
fn fingerprint_of(bits: &Vec<bool>) -> (r: u64)
    ensures
        r == fingerprint(bits@),
{
    let n = bits.len();
    let mut h: u64 = 0;
    let mut t: usize = 0;
    while t < n
        invariant
            n == bits@.len(),
            t <= n,
            h == fingerprint(bits@.subrange(0, t as int)),
        decreases n - t,
    {
        proof {
            assert(bits@.subrange(0, t + 1).drop_last() =~= bits@.subrange(0, t as int));
        }
        let b: u64 = if bits[t] { 1 } else { 0 };
        h = h.wrapping_mul(31).wrapping_add(b);
        t = t + 1;
    }
    assert(bits@.subrange(0, n as int) =~= bits@);
    h
}

/// Whether the two bit vectors are equal.
fn bits_equal(a: &Vec<bool>, b: &Vec<bool>) -> (r: bool)
    ensures
        r == (a@ == b@),
{
    if a.len() != b.len() {
        return false;
    }
    let n = a.len();
    let mut t: usize = 0;
    while t < n
        invariant
            n == a@.len(),
            n == b@.len(),
            t <= n,
            forall|u: int| 0 <= u < t ==> a@[u] == b@[u],
        decreases n - t,
    {
        if a[t] != b[t] {
            return false;
        }
        t = t + 1;
    }
    assert(a@ =~= b@);
    true
}

/// The first position of `chain` whose key is `key`.
fn find_in_chain(chain: &Vec<(Vec<bool>, Vec<Vec<bool>>)>, key: &Vec<bool>) -> (r: Option<usize>)
    ensures
        match r {
            Some(i) => first_match(chain_view(chain@), key@) == Some(i as int),
            None => first_match(chain_view(chain@), key@) is None,
        },
{
    let n = chain.len();
    let ghost cv = chain_view(chain@);
    let mut t: usize = 0;
    while t < n
        invariant
            n == chain@.len(),
            cv == chain_view(chain@),
            t <= n,
            first_match(cv.subrange(0, t as int), key@) is None,
        decreases n - t,
    {
        proof {
            assert(cv.subrange(0, t + 1).drop_last() =~= cv.subrange(0, t as int));
            assert(cv[t as int].0 == chain@[t as int].0@);
        }
        if bits_equal(&chain[t].0, key) {
            proof {
                lemma_first_match_prefix(cv, t as int + 1, key@);
            }
            return Some(t);
        }
        t = t + 1;
    }
    assert(cv.subrange(0, n as int) =~= cv);
    None
}

/// A match within a prefix is the first match of the whole chain.
proof fn lemma_first_match_prefix(c: Seq<(Seq<bool>, Seq<Seq<bool>>)>, k: int, key: Seq<bool>)
    requires
        0 <= k <= c.len(),
        first_match(c.subrange(0, k), key) is Some,
    ensures
        first_match(c, key) == first_match(c.subrange(0, k), key),
    decreases c.len() - k,
{
    if k < c.len() {
        assert(c.subrange(0, k + 1).drop_last() =~= c.subrange(0, k));
        lemma_first_match_prefix(c, k + 1, key);
    } else {
        assert(c.subrange(0, k) =~= c);
    }
}

/// A copy of a list of bit vectors.
fn copy_bucket(b: &Vec<Vec<bool>>) -> (r: Vec<Vec<bool>>)
    ensures
        bits_view(r@) == bits_view(b@),
{
    let n = b.len();
    let mut r: Vec<Vec<bool>> = Vec::with_capacity(n);
    let mut t: usize = 0;
    while t < n
        invariant
            n == b@.len(),
            t <= n,
            r@.len() == t,
            forall|u: int| 0 <= u < t ==> (#[trigger] r@[u])@ == b@[u]@,
        decreases n - t,
    {
        r.push(copy_bits(&b[t]));
        t = t + 1;
    }
    assert(bits_view(r@) =~= bits_view(b@));
    r
}

/// `b` is `a` after filing `p`: the same positions are read, and `p` comes
/// last among the vectors filed under its hash; nothing else changes.
pub open spec fn inserted(a: HashFn, b: HashFn, p: Seq<bool>) -> bool {
    &&& b.spec_indices() == a.spec_indices()
    &&& forall|key: Seq<bool>| #[trigger] b.bucket(key) == if key == hash_of(a.spec_indices(), p) {
        a.bucket(key).push(p)
    } else {
        a.bucket(key)
    }
}

/// After `p` is filed, a query that hashes like `p` gets what it got before
/// followed by `p`, and any other query gets what it got before.
pub proof fn lemma_get_after_insert(a: HashFn, b: HashFn, p: Seq<bool>, q: Seq<bool>)
    requires
        inserted(a, b, p),
    ensures
        b.bucket(hash_of(b.spec_indices(), q)) == if hash_of(a.spec_indices(), q) == hash_of(a.spec_indices(), p) {
            a.bucket(hash_of(a.spec_indices(), q)).push(p)
        } else {
            a.bucket(hash_of(a.spec_indices(), q))
        },
{
    assert(b.bucket(hash_of(a.spec_indices(), q)) == b.bucket(hash_of(a.spec_indices(), q)));
}

/// A hash function that reads chosen positions of a vector, with the table
/// of the vectors filed under each hash. The table is keyed by a 64-bit
/// fingerprint of the hash, each entry a chain of (hash, vectors) in the
/// order the hashes first came: vstd models a hash map only for keys of
/// primitive types, not for a vector of bits.
pub struct HashFn {
    indices: Vec<usize>,
    table: HashMap<u64, Vec<(Vec<bool>, Vec<Vec<bool>>)>>,
}

impl HashFn {
    /// The positions read, in order.
    pub closed spec fn spec_indices(&self) -> Seq<usize> {
        self.indices@
    }

    /// The vectors filed under `key`, in the order they were inserted.
    pub closed spec fn bucket(&self, key: Seq<bool>) -> Seq<Seq<bool>> {
        let fp = fingerprint(key);
        if self.table@.contains_key(fp) {
            chain_bucket(chain_view(self.table@[fp]@), key)
        } else {
            Seq::empty()
        }
    }

    /// A hash function reading `k` distinct positions below `d` drawn at
    /// random, with an empty table.
    pub fn new(rng: &mut ThreadRng, d: usize, k: usize) -> (r: Self)
        requires
            k <= d,
        ensures
            r.spec_indices().len() == k,
            forall|t: int| 0 <= t < k ==> #[trigger] r.spec_indices()[t] < d,
            forall|s: int, t: int| 0 <= s < t < k ==> r.spec_indices()[s] != r.spec_indices()[t],
            forall|key: Seq<bool>| #[trigger] r.bucket(key) == Seq::<Seq<bool>>::empty(),
    {
        Self { indices: random_indices(rng, d, k, false), table: HashMap::new() }
    }

    /// The bits of `p` at the positions read.
    pub fn hash(&self, p: &Vec<bool>) -> (r: Vec<bool>)
        requires
            reads_within(self.spec_indices(), p@),
        ensures
            r@ == hash_of(self.spec_indices(), p@),
    {
        let n = self.indices.len();
        let mut r: Vec<bool> = Vec::with_capacity(n);
        let mut t: usize = 0;
        while t < n
            invariant
                n == self.indices@.len(),
                t <= n,
                reads_within(self.indices@, p@),
                r@ == hash_of(self.indices@.subrange(0, t as int), p@),
            decreases n - t,
        {
            let i = self.indices[t];
            assert(i < p@.len());
            r.push(p[i]);
            proof {
                assert(hash_of(self.indices@.subrange(0, t + 1), p@) =~= hash_of(self.indices@.subrange(0, t as int), p@).push(p@[i as int]));
            }
            t = t + 1;
        }
        assert(self.indices@.subrange(0, n as int) =~= self.indices@);
        r
    }

    /// Files `p` under its hash, after the vectors filed there before.
    pub fn insert(&mut self, p: Vec<bool>)
        requires
            reads_within(old(self).spec_indices(), p@),
        ensures
            inserted(*old(self), *final(self), p@),
    {
        broadcast use vstd::std_specs::hash::group_hash_axioms;
        let ghost old_table = self.table@;
        let ghost pv = p@;
        let key = self.hash(&p);
        let fp = fingerprint_of(&key);
        let mut chain = match self.table.remove(&fp) {
            Some(c) => c,
            None => Vec::new(),
        };
        let ghost c0 = chain_view(chain@);
        proof {
            if !old_table.contains_key(fp) {
                assert(c0 =~= Seq::<(Seq<bool>, Seq<Seq<bool>>)>::empty());
            }
        }
        match find_in_chain(&chain, &key) {
            Some(i) => {
                proof {
                    lemma_first_match_bound(c0, key@);
                }
                let ghost cb = chain@;
                let (k, mut b) = chain.remove(i);
                let ghost b0 = b@;
                b.push(p);
                assert(bits_view(b@) =~= bits_view(b0).push(pv));
                let ghost e = (k, b);
                chain.insert(i, (k, b));
                proof {
                    assert(chain@ =~= cb.update(i as int, e));
                    assert(c0[i as int] == (cb[i as int].0@, bits_view(cb[i as int].1@)));
                    lemma_first_match_bound(c0, key@);
                    assert(chain_view(chain@) =~= c0.update(i as int, (c0[i as int].0, c0[i as int].1.push(pv))));
                    assert forall|key2: Seq<bool>| #[trigger] chain_bucket(chain_view(chain@), key2) == if key2 == key@ {
                        chain_bucket(c0, key2).push(pv)
                    } else {
                        chain_bucket(c0, key2)
                    } by {
                        lemma_first_match_update(c0, i as int, (c0[i as int].0, c0[i as int].1.push(pv)), key2);
                        lemma_first_match_bound(c0, key2);
                    }
                }
            },
            None => {
                let mut b: Vec<Vec<bool>> = Vec::new();
                b.push(p);
                let ghost kv = key@;
                assert(bits_view(b@) =~= seq![pv]);
                chain.push((key, b));
                proof {
                    assert(chain_view(chain@) =~= c0.push((kv, seq![pv])));
                    assert(chain_view(chain@).drop_last() =~= c0);
                    assert forall|key2: Seq<bool>| #[trigger] chain_bucket(chain_view(chain@), key2) == if key2 == kv {
                        chain_bucket(c0, key2).push(pv)
                    } else {
                        chain_bucket(c0, key2)
                    } by {
                        lemma_first_match_bound(c0, key2);
                        if key2 == kv {
                            assert(chain_bucket(c0, key2) =~= Seq::<Seq<bool>>::empty());
                            assert(seq![pv] =~= Seq::<Seq<bool>>::empty().push(pv));
                        }
                    }
                }
            },
        }
        let ghost c1 = chain_view(chain@);
        self.table.insert(fp, chain);
        proof {
            assert forall|key2: Seq<bool>| #[trigger] self.bucket(key2) == if key2 == hash_of(old(self).spec_indices(), pv) {
                old(self).bucket(key2).push(pv)
            } else {
                old(self).bucket(key2)
            } by {
                if fingerprint(key2) != fp {
                    assert(old(self).table@.contains_key(fingerprint(key2)) == self.table@.contains_key(fingerprint(key2)));
                }
            }
        }
    }

    /// The vectors filed under the hash of `q`.
    pub fn get(&self, q: &Vec<bool>) -> (r: Vec<Vec<bool>>)
        requires
            reads_within(self.spec_indices(), q@),
        ensures
            bits_view(r@) == self.bucket(hash_of(self.spec_indices(), q@)),
    {
        broadcast use vstd::std_specs::hash::group_hash_axioms;
        let key = self.hash(q);
        let fp = fingerprint_of(&key);
        match self.table.get(&fp) {
            Some(chain) => {
                match find_in_chain(chain, &key) {
                    Some(i) => {
                        proof {
                            lemma_first_match_bound(chain_view(chain@), key@);
                        }
                        copy_bucket(&chain[i].1)
                    },
                    None => {
                        let r: Vec<Vec<bool>> = Vec::new();
                        assert(bits_view(r@) =~= Seq::<Seq<bool>>::empty());
                        r
                    },
                }
            },
            None => {
                let r: Vec<Vec<bool>> = Vec::new();
                assert(bits_view(r@) =~= Seq::<Seq<bool>>::empty());
                r
            },
        }
    }
}

/// `l` hash functions, each reading `k` distinct positions below `d`, with
/// empty tables.
pub fn generate_hash_fns(rng: &mut ThreadRng, l: usize, d: usize, k: usize) -> (r: Vec<HashFn>)
    requires
        l > 0 ==> k <= d,
    ensures
        r@.len() == l,
        forall|t: int| 0 <= t < l ==> (#[trigger] r@[t]).spec_indices().len() == k,
        forall|t: int, u: int| 0 <= t < l && 0 <= u < k ==> #[trigger] r@[t].spec_indices()[u] < d,
        forall|t: int, key: Seq<bool>| 0 <= t < l ==> #[trigger] r@[t].bucket(key) == Seq::<Seq<bool>>::empty(),
{
    let mut r: Vec<HashFn> = Vec::with_capacity(l);
    let mut t: usize = 0;
    while t < l
        invariant
            t <= l,
            l > 0 ==> k <= d,
            r@.len() == t,
            forall|s: int| 0 <= s < t ==> (#[trigger] r@[s]).spec_indices().len() == k,
            forall|s: int, u: int| 0 <= s < t && 0 <= u < k ==> #[trigger] r@[s].spec_indices()[u] < d,
            forall|s: int, key: Seq<bool>| 0 <= s < t ==> #[trigger] r@[s].bucket(key) == Seq::<Seq<bool>>::empty(),
        decreases l - t,
    {
        r.push(HashFn::new(rng, d, k));
        t = t + 1;
    }
    r
}

/// `m` queries, each a random point of `points` with `r` positions flipped.
pub fn generate_queries(
    rng: &mut ThreadRng,
    points: &Vec<Vec<bool>>,
    m: usize,
    r: usize,
    mutate_dup: bool,
) -> (qs: Vec<Vec<bool>>)
    requires
        m > 0 ==> points@.len() > 0,
        forall|t: int| 0 <= t < points@.len() ==> {
            &&& mutate_dup ==> ((#[trigger] points@[t])@.len() > 0 || r == 0)
            &&& !mutate_dup ==> r <= points@[t]@.len()
        },
    ensures
        qs@.len() == m,
        forall|t: int| 0 <= t < m ==> #[trigger] query_from(bits_view(points@), qs@[t]@, r as nat, mutate_dup),
{
    let mut qs: Vec<Vec<bool>> = Vec::with_capacity(m);
    let mut t: usize = 0;
    while t < m
        invariant
            t <= m,
            qs@.len() == t,
            m > 0 ==> points@.len() > 0,
            forall|s: int| 0 <= s < points@.len() ==> {
                &&& mutate_dup ==> ((#[trigger] points@[s])@.len() > 0 || r == 0)
                &&& !mutate_dup ==> r <= points@[s]@.len()
            },
            forall|s: int| 0 <= s < t ==> #[trigger] query_from(bits_view(points@), qs@[s]@, r as nat, mutate_dup),
        decreases m - t,
    {
        let idx = random_below(rng, points.len());
        assert(mutate_dup ==> (points@[idx as int]@.len() > 0 || r == 0));
        let q = mutate_point(rng, &points[idx], r, mutate_dup);
        qs.push(q);
        proof {
            assert(bits_view(points@)[idx as int] == points@[idx as int]@);
            assert(query_from(bits_view(points@), q@, r as nat, mutate_dup));
            assert forall|s: int| 0 <= s < t + 1 implies #[trigger] query_from(bits_view(points@), qs@[s]@, r as nat, mutate_dup) by {
                if s == t {
                    assert(qs@[s] == q);
                }
            }
        }
        t = t + 1;
    }
    qs
}

/// The vectors of `points` whose hash under `indices` is `key`, in order.
pub open spec fn with_hash(points: Seq<Seq<bool>>, indices: Seq<usize>, key: Seq<bool>) -> Seq<Seq<bool>> {
    points.filter(|p: Seq<bool>| hash_of(indices, p) == key)
}

/// A table filled with `points` finds each of them when it is the query
/// itself: the point is among the vectors filed under its own hash, and
/// every vector filed under a hash has that hash.
pub proof fn lemma_filled_table_finds_points(points: Seq<Seq<bool>>, indices: Seq<usize>, i: int, key: Seq<bool>)
    requires
        0 <= i < points.len(),
    ensures
        with_hash(points, indices, hash_of(indices, points[i])).contains(points[i]),
        forall|u: int| 0 <= u < with_hash(points, indices, key).len()
            ==> hash_of(indices, #[trigger] with_hash(points, indices, key)[u]) == key,
{
    let pred = |p: Seq<bool>| hash_of(indices, p) == hash_of(indices, points[i]);
    points.lemma_filter_contains(pred, i);
    broadcast use vstd::seq_lib::group_filter_ensures;
}

/// Files every point of `points`, in order, in the table of `table`.
pub fn fill_table(table: &mut HashFn, points: &Vec<Vec<bool>>)
    requires
        forall|t: int| 0 <= t < points@.len() ==> reads_within(old(table).spec_indices(), #[trigger] points@[t]@),
    ensures
        final(table).spec_indices() == old(table).spec_indices(),
        forall|key: Seq<bool>| #[trigger] final(table).bucket(key) == old(table).bucket(key)
            + with_hash(bits_view(points@), old(table).spec_indices(), key),
{
    let n = points.len();
    let ghost ind = table.spec_indices();
    let ghost pv = bits_view(points@);
    let mut t: usize = 0;
    while t < n
        invariant
            n == points@.len(),
            t <= n,
            pv == bits_view(points@),
            table.spec_indices() == ind,
            forall|s: int| 0 <= s < points@.len() ==> reads_within(ind, #[trigger] points@[s]@),
            forall|key: Seq<bool>| #[trigger] table.bucket(key) == old(table).bucket(key)
                + with_hash(pv.subrange(0, t as int), ind, key),
        decreases n - t,
    {
        let p = copy_bits(&points[t]);
        let ghost before = *table;
        table.insert(p);
        proof {
            assert(pv.subrange(0, t + 1) =~= pv.subrange(0, t as int).push(pv[t as int]));
            assert forall|key: Seq<bool>| #[trigger] table.bucket(key) == old(table).bucket(key)
                + with_hash(pv.subrange(0, t + 1), ind, key) by {
                pv.subrange(0, t as int).lemma_filter_push(pv[t as int], |q: Seq<bool>| hash_of(ind, q) == key);
                assert(before.bucket(key) == old(table).bucket(key) + with_hash(pv.subrange(0, t as int), ind, key));
                if key == hash_of(ind, pv[t as int]) {
                    assert((old(table).bucket(key) + with_hash(pv.subrange(0, t as int), ind, key)).push(pv[t as int])
                        =~= old(table).bucket(key) + with_hash(pv.subrange(0, t as int), ind, key).push(pv[t as int]));
                }
            }
        }
        t = t + 1;
    }
    assert(pv.subrange(0, n as int) =~= pv);
}

/// `l` hash functions, each reading `k` distinct random positions below `d`,
/// drawn one after the other, and then a table for each of them with all of
/// `points` filed in it.
pub fn build_tables(rng: &mut ThreadRng, points: &Vec<Vec<bool>>, l: usize, d: usize, k: usize) -> (r: Vec<HashFn>)
    requires
        l > 0 ==> k <= d,
        forall|t: int| 0 <= t < points@.len() ==> (#[trigger] points@[t])@.len() == d,
    ensures
        r@.len() == l,
        forall|t: int| 0 <= t < l ==> (#[trigger] r@[t]).spec_indices().len() == k,
        forall|t: int, u: int| 0 <= t < l && 0 <= u < k ==> #[trigger] r@[t].spec_indices()[u] < d,
        forall|t: int, key: Seq<bool>| 0 <= t < l ==> #[trigger] r@[t].bucket(key)
            == with_hash(bits_view(points@), r@[t].spec_indices(), key),
{
    let mut tables = generate_hash_fns(rng, l, d, k);
    let mut t: usize = 0;
    while t < l
        invariant
            t <= l,
            tables@.len() == l,
            forall|s: int| 0 <= s < points@.len() ==> (#[trigger] points@[s])@.len() == d,
            forall|s: int| 0 <= s < l ==> (#[trigger] tables@[s]).spec_indices().len() == k,
            forall|s: int, u: int| 0 <= s < l && 0 <= u < k ==> #[trigger] tables@[s].spec_indices()[u] < d,
            forall|s: int, key: Seq<bool>| 0 <= s < t ==> #[trigger] tables@[s].bucket(key)
                == with_hash(bits_view(points@), tables@[s].spec_indices(), key),
            forall|s: int, key: Seq<bool>| t <= s < l ==> #[trigger] tables@[s].bucket(key) == Seq::<Seq<bool>>::empty(),
        decreases l - t,
    {
        proof {
            assert forall|s: int| 0 <= s < points@.len() implies reads_within(tables@[t as int].spec_indices(), #[trigger] points@[s]@) by {
                assert forall|u: int| 0 <= u < tables@[t as int].spec_indices().len()
                    implies #[trigger] tables@[t as int].spec_indices()[u] < points@[s]@.len() by {
                    assert(tables@[t as int].spec_indices()[u] < d);
                }
            }
        }
        let ghost before = tables@;
        fill_table(&mut tables[t], points);
        proof {
            assert forall|s: int, key: Seq<bool>| 0 <= s < t + 1 implies #[trigger] tables@[s].bucket(key)
                == with_hash(bits_view(points@), tables@[s].spec_indices(), key) by {
                if s == t {
                    assert(before[s].bucket(key) == Seq::<Seq<bool>>::empty());
                    assert(Seq::<Seq<bool>>::empty() + with_hash(bits_view(points@), tables@[s].spec_indices(), key)
                        =~= with_hash(bits_view(points@), tables@[s].spec_indices(), key));
                }
            }
        }
        t = t + 1;
    }
    tables
}

/// The vectors a query meets: those filed under its hash in each table,
/// table after table.
pub open spec fn candidates(tables: Seq<HashFn>, q: Seq<bool>) -> Seq<Seq<bool>>
    decreases tables.len(),
{
    if tables.len() == 0 {
        Seq::empty()
    } else {
        candidates(tables.drop_last(), q) + tables.last().bucket(hash_of(tables.last().spec_indices(), q))
    }
}

/// The smallest Hamming distance from a vector of `s` to `q`.
pub open spec fn min_distance(s: Seq<Seq<bool>>, q: Seq<bool>) -> Option<nat>
    decreases s.len(),
{
    if s.len() == 0 {
        None
    } else {
        let h = hamming(s.last(), q);
        match min_distance(s.drop_last(), q) {
            None => Some(h),
            Some(m) => Some(if h < m { h } else { m }),
        }
    }
}

/// How many candidates a query looks at before it stops: `3 * l`, and at
/// least the first one.
pub open spec fn scan_limit(l: int) -> int {
    if 3 * l == 0 { 1 } else { 3 * l }
}

/// The distance the hash tables find for `q`: the smallest over the
/// candidates looked at.
pub open spec fn lsh_answer(tables: Seq<HashFn>, q: Seq<bool>, l: int) -> Option<nat> {
    let c = candidates(tables, q);
    min_distance(c.take(if scan_limit(l) < c.len() { scan_limit(l) } else { c.len() as int }), q)
}

/// The tables find a distance for `q`, and it is the true nearest distance.
pub open spec fn query_hit(points: Seq<Seq<bool>>, tables: Seq<HashFn>, q: Seq<bool>, l: int) -> bool {
    lsh_answer(tables, q, l) matches Some(a) && min_distance(points, q) == Some(a)
}

/// The candidates of the first tables come first.
proof fn lemma_candidates_prefix(tables: Seq<HashFn>, q: Seq<bool>, t: int)
    requires
        0 <= t <= tables.len(),
    ensures
        candidates(tables.take(t), q).len() <= candidates(tables, q).len(),
        candidates(tables, q).take(candidates(tables.take(t), q).len() as int) == candidates(tables.take(t), q),
    decreases tables.len() - t,
{
    if t == tables.len() {
        assert(tables.take(t) =~= tables);
        assert(candidates(tables, q).take(candidates(tables, q).len() as int) =~= candidates(tables, q));
    } else {
        lemma_candidates_prefix(tables, q, t + 1);
        assert(tables.take(t + 1).drop_last() =~= tables.take(t));
        let a = candidates(tables.take(t), q);
        let b = candidates(tables.take(t + 1), q);
        assert(b.take(a.len() as int) =~= a);
        assert(candidates(tables, q).take(a.len() as int) =~= b.take(a.len() as int));
    }
}

/// The candidates of a query are the vectors filed under its hash in each
/// table, table after table: one table more adds its bucket at the end.
pub proof fn lemma_candidates_push(tables: Seq<HashFn>, h: HashFn, q: Seq<bool>)
    ensures
        candidates(tables.push(h), q) == candidates(tables, q) + h.bucket(hash_of(h.spec_indices(), q)),
{
    assert(tables.push(h).drop_last() =~= tables);
}

/// Every vector filed under the query's hash in any table is a candidate.
pub proof fn lemma_every_bucket_is_a_candidate(tables: Seq<HashFn>, q: Seq<bool>, t: int, u: int)
    requires
        0 <= t < tables.len(),
        0 <= u < tables[t].bucket(hash_of(tables[t].spec_indices(), q)).len(),
    ensures
        candidates(tables, q).contains(tables[t].bucket(hash_of(tables[t].spec_indices(), q))[u]),
    decreases tables.len(),
{
    let rest = candidates(tables.drop_last(), q);
    let last = tables.last();
    let b = last.bucket(hash_of(last.spec_indices(), q));
    let c = candidates(tables, q);
    assert(c == rest + b);
    if t == tables.len() - 1 {
        assert(c[rest.len() + u] == b[u]);
    } else {
        assert(tables.drop_last()[t] == tables[t]);
        lemma_every_bucket_is_a_candidate(tables.drop_last(), q, t, u);
        let i = choose|i: int| 0 <= i < rest.len() && rest[i] == tables[t].bucket(hash_of(tables[t].spec_indices(), q))[u];
        assert(c[i] == rest[i]);
    }
}

/// When every vector filed in the tables is one of `points`, and one of the
/// candidates the query looks at (the first `3 * l`) is at the true nearest
/// distance, the tables find that distance.
pub proof fn lemma_query_finds_nearest(points: Seq<Seq<bool>>, tables: Seq<HashFn>, q: Seq<bool>, l: int, k: int)
    requires
        0 <= l,
        forall|t: int, key: Seq<bool>, u: int| 0 <= t < tables.len() && 0 <= u < tables[t].bucket(key).len()
            ==> points.contains(#[trigger] tables[t].bucket(key)[u]),
        0 <= k < candidates(tables, q).len(),
        k < scan_limit(l),
        min_distance(points, q) == Some(hamming(candidates(tables, q)[k], q)),
    ensures
        query_hit(points, tables, q, l),
{
    let c = candidates(tables, q);
    let n = if scan_limit(l) < c.len() { scan_limit(l) } else { c.len() as int };
    let scanned = c.take(n);
    assert(scanned[k] == c[k]);
    lemma_min_distance_le(scanned, q, c[k]);
    lemma_answer_not_below_truth(points, tables, q, l);
}

/// A vector of a subset is no nearer than the nearest of the whole set.
proof fn lemma_min_distance_subset(s: Seq<Seq<bool>>, all: Seq<Seq<bool>>, q: Seq<bool>)
    requires
        forall|i: int| 0 <= i < s.len() ==> all.contains(#[trigger] s[i]),
        s.len() > 0,
    ensures
        min_distance(all, q) matches Some(m) && min_distance(s, q) matches Some(a) && m <= a,
    decreases s.len(),
{
    lemma_min_distance_le(all, q, s.last());
    if s.len() > 1 {
        lemma_min_distance_subset(s.drop_last(), all, q);
    }
}

/// The nearest distance over `all` is no larger than that of any member.
proof fn lemma_min_distance_le(all: Seq<Seq<bool>>, q: Seq<bool>, p: Seq<bool>)
    requires
        all.contains(p),
    ensures
        min_distance(all, q) matches Some(m) && m <= hamming(p, q),
    decreases all.len(),
{
    if all.last() != p {
        let i = choose|i: int| 0 <= i < all.len() && all[i] == p;
        assert(all.drop_last()[i] == p);
        lemma_min_distance_le(all.drop_last(), q, p);
    }
}

/// Whether the tables, looking at candidates of `q` table by table and
/// stopping after `3 * l` of them, find the true nearest distance of `q` to
/// `points`: 1 if they do, 0 if not.
pub fn query_correct(points: &Vec<Vec<bool>>, tables: &Vec<HashFn>, q: &Vec<bool>, l: usize) -> (r: usize)
    requires
        l <= usize::MAX / 3,
        forall|t: int| 0 <= t < tables@.len() ==> reads_within((#[trigger] tables@[t]).spec_indices(), q@),
        forall|t: int, key: Seq<bool>, u: int| 0 <= t < tables@.len() && 0 <= u < tables@[t].bucket(key).len()
            ==> bits_view(points@).contains(#[trigger] tables@[t].bucket(key)[u]),
    ensures
        r == if query_hit(bits_view(points@), tables@, q@, l as int) { 1usize } else { 0usize },
{
    let ghost all = candidates(tables@, q@);
    let ghost lim = scan_limit(l as int);
    let limit = 3 * l;
    let mut answer_d: Option<usize> = None;
    let mut seen: usize = 0;
    let mut done = false;
    let nt = tables.len();
    let mut t: usize = 0;
    proof {
        assert(tables@.take(0) =~= Seq::<HashFn>::empty());
        assert(all.take(0) =~= Seq::<Seq<bool>>::empty());
    }
    while t < nt && !done
        invariant
            nt == tables@.len(),
            t <= nt,
            l <= usize::MAX / 3,
            limit == 3 * l,
            lim == scan_limit(l as int),
            all == candidates(tables@, q@),
            forall|s: int| 0 <= s < tables@.len() ==> reads_within((#[trigger] tables@[s]).spec_indices(), q@),
            0 <= seen <= all.len(),
            min_distance(all.take(seen as int), q@) == opt_nat(answer_d),
            !done ==> seen == candidates(tables@.take(t as int), q@).len() && seen < lim,
            done ==> seen == lim,
        decreases nt - t, (if done { 0int } else { 1int }),
    {
        let cands = tables[t].get(q);
        let ghost before = candidates(tables@.take(t as int), q@);
        let ghost bucket = tables@[t as int].bucket(hash_of(tables@[t as int].spec_indices(), q@));
        proof {
            assert(tables@.take(t + 1).drop_last() =~= tables@.take(t as int));
            assert(tables@.take(t + 1).last() == tables@[t as int]);
            lemma_candidates_prefix(tables@, q@, t + 1);
        }
        let nc = cands.len();
        let mut u: usize = 0;
        while u < nc
            invariant_except_break
                !done,
                seen == before.len() + u,
                seen < lim,
            invariant
                nt == tables@.len(),
                t < nt,
                nc == cands@.len(),
                bits_view(cands@) == bucket,
                u <= nc,
                l <= usize::MAX / 3,
                limit == 3 * l,
                lim == scan_limit(l as int),
                all == candidates(tables@, q@),
                candidates(tables@.take(t + 1), q@) == before + bucket,
                all.take((before + bucket).len() as int) == before + bucket,
                (before + bucket).len() <= all.len(),
                0 <= seen <= all.len(),
                min_distance(all.take(seen as int), q@) == opt_nat(answer_d),
            ensures
                !done ==> seen == candidates(tables@.take(t + 1), q@).len() && seen < lim,
                done ==> seen == lim,
            decreases nc - u,
        {
            let d = hamming_distance(&cands[u], q);
            proof {
                assert(all.take(seen + 1) =~= all.take(seen as int).push(all[seen as int]));
                assert(all.take(seen + 1).drop_last() =~= all.take(seen as int));
                assert(all[seen as int] == (before + bucket)[seen as int]);
                assert(bucket[u as int] == cands@[u as int]@);
            }
            answer_d = match answer_d {
                None => Some(d),
                Some(ad) => if d < ad { Some(d) } else { Some(ad) },
            };
            seen = seen + 1;
            if seen >= limit {
                done = true;
                break;
            }
            u = u + 1;
        }
        t = t + 1;
    }
    proof {
        if !done {
            assert(tables@.take(nt as int) =~= tables@);
        }
        assert(lsh_answer(tables@, q@, l as int) == min_distance(all.take(seen as int), q@));
    }
    match answer_d {
        None => 0,
        Some(ad) => {
            let ghost scanned = all.take(seen as int);
            proof {
                assert forall|i: int| 0 <= i < scanned.len() implies bits_view(points@).contains(#[trigger] scanned[i]) by {
                    lemma_candidates_member(tables@, q@, i, bits_view(points@));
                }
                lemma_min_distance_subset(scanned, bits_view(points@), q@);
            }
            let np = points.len();
            let mut true_d = hamming_distance(&points[0], q);
            let mut s: usize = 1;
            proof {
                assert(bits_view(points@).take(1).drop_last() =~= Seq::<Seq<bool>>::empty());
            }
            while s < np
                invariant
                    np == points@.len(),
                    1 <= s <= np,
                    min_distance(bits_view(points@).take(s as int), q@) == Some(true_d as nat),
                decreases np - s,
            {
                let h = hamming_distance(&points[s], q);
                proof {
                    assert(bits_view(points@).take(s + 1).drop_last() =~= bits_view(points@).take(s as int));
                }
                if h < true_d {
                    true_d = h;
                }
                s = s + 1;
            }
            proof {
                assert(bits_view(points@).take(np as int) =~= bits_view(points@));
            }
            if true_d == ad { 1 } else { 0 }
        },
    }
}

/// An optional count read as a natural number.
pub open spec fn opt_nat(a: Option<usize>) -> Option<nat> {
    match a {
        Some(m) => Some(m as nat),
        None => None,
    }
}

/// When every vector filed in the tables is one of `points`, a distance that
/// the tables find for `q` is never below the true nearest distance of `q`
/// to `points`.
pub proof fn lemma_answer_not_below_truth(points: Seq<Seq<bool>>, tables: Seq<HashFn>, q: Seq<bool>, l: int)
    requires
        0 <= l,
        forall|t: int, key: Seq<bool>, u: int| 0 <= t < tables.len() && 0 <= u < tables[t].bucket(key).len()
            ==> points.contains(#[trigger] tables[t].bucket(key)[u]),
    ensures
        lsh_answer(tables, q, l) matches Some(a) ==> (min_distance(points, q) matches Some(m) && m <= a),
{
    let c = candidates(tables, q);
    let k = if scan_limit(l) < c.len() { scan_limit(l) } else { c.len() as int };
    let scanned = c.take(k);
    if scanned.len() > 0 {
        assert forall|i: int| 0 <= i < scanned.len() implies points.contains(#[trigger] scanned[i]) by {
            lemma_candidates_member(tables, q, i, points);
        }
        lemma_min_distance_subset(scanned, points, q);
    }
}

/// Every candidate is a vector filed in some table, hence one of `points`.
proof fn lemma_candidates_member(tables: Seq<HashFn>, q: Seq<bool>, i: int, points: Seq<Seq<bool>>)
    requires
        0 <= i < candidates(tables, q).len(),
        forall|t: int, key: Seq<bool>, u: int| 0 <= t < tables.len() && 0 <= u < tables[t].bucket(key).len()
            ==> points.contains(#[trigger] tables[t].bucket(key)[u]),
    ensures
        points.contains(candidates(tables, q)[i]),
    decreases tables.len(),
{
    let rest = candidates(tables.drop_last(), q);
    let last = tables.last();
    let key = hash_of(last.spec_indices(), q);
    if i < rest.len() {
        assert forall|t: int, k2: Seq<bool>, u: int| 0 <= t < tables.drop_last().len() && 0 <= u < tables.drop_last()[t].bucket(k2).len()
            implies points.contains(#[trigger] tables.drop_last()[t].bucket(k2)[u]) by {
            assert(tables.drop_last()[t] == tables[t]);
        }
        lemma_candidates_member(tables.drop_last(), q, i, points);
    } else {
        assert(tables[tables.len() - 1] == last);
        assert(points.contains(last.bucket(key)[i - rest.len()]));
    }
}

} // verus!
