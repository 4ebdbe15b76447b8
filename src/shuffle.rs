use vstd::prelude::*;
use vstd::arithmetic::div_mod::lemma_div_denominator;
use crate::card::{Card, canonical_deck, full_deck, DECK_SIZE};

verus! {

/// The SHA-256 digest of the concatenation of two byte strings.
pub uninterp spec fn sha256_pair(a: Seq<u8>, b: Seq<u8>) -> Seq<u8>;

/// Relies on `solana_program::hash::hashv`: SHA-256 over the given byte strings
/// in turn; the digest is 32 bytes long.
#[verifier::external_body]
fn hash_pair(a: &Vec<u8>, b: &Vec<u8>) -> (r: Vec<u8>)
    ensures
        r@ == sha256_pair(a@, b@),
        r@.len() == 32,
{
    anchor_lang::solana_program::hash::hashv(&[a.as_slice(), b.as_slice()]).to_bytes().to_vec()
}

/// Relies on `ephemeral_vrf_sdk::rnd::random_u64`: a little-endian `u64` read
/// from every fourth byte of the 32-byte random value.
#[verifier::external_body]
fn vrf_random_u64(bytes: &[u8; 32]) -> (r: u64)
    ensures
        r as nat == le_value(vrf_sample(bytes@)),
{
    ephemeral_vrf_sdk::rnd::random_u64(bytes)
}

/// The bytes at positions 0, 4, 8, ..., 28 of a 32-byte random value.
pub open spec fn vrf_sample(b: Seq<u8>) -> Seq<u8> {
    Seq::new(8, |k: int| b[4 * k])
}

pub open spec fn pow256(k: nat) -> nat
    decreases k,
{
    if k == 0 {
        1
    } else {
        256 * pow256((k - 1) as nat)
    }
}

/// The value of a little-endian byte string.
pub open spec fn le_value(s: Seq<u8>) -> nat
    decreases s.len(),
{
    if s.len() == 0 {
        0
    } else {
        s[0] as nat + 256 * le_value(s.drop_first())
    }
}

/// The `k` low bytes of `x`, least significant first.
pub open spec fn le_bytes(x: nat, k: nat) -> Seq<u8> {
    Seq::new(k, |j: int| ((x / pow256(j as nat)) % 256) as u8)
}

/// `d` with the cards at positions `i` and `j` exchanged.
pub open spec fn swap_at(d: Seq<Card>, i: int, j: int) -> Seq<Card> {
    d.update(i, d[j]).update(j, d[i])
}

/// The eight bytes that both pick the swap partner of position `i` and seed
/// the next step: the head of the digest of the current seed and `i`.
pub open spec fn chain_step(seed: Seq<u8>, i: nat) -> Seq<u8> {
    sha256_pair(seed, le_bytes(i, 8)).subrange(0, 8)
}

/// The hash-chained Fisher-Yates shuffle of `d`, from position `i` down to 1.
pub open spec fn fisher_yates(d: Seq<Card>, seed: Seq<u8>, i: nat) -> Seq<Card>
    decreases i,
{
    if i == 0 {
        d
    } else {
        let h = chain_step(seed, i);
        fisher_yates(swap_at(d, i as int, (le_value(h) % (i + 1)) as int), h, (i - 1) as nat)
    }
}

/// The deck that the seed `seed` deals from.
pub open spec fn shuffled(seed: u64) -> Seq<Card> {
    fisher_yates(canonical_deck(), le_bytes(seed as nat, 8), (DECK_SIZE - 1) as nat)
}

proof fn lemma_pow256_u64()
    ensures
        pow256(8) == 0x1_0000_0000_0000_0000,
{
    reveal_with_fuel(pow256, 9);
}

/// The eight bytes of `x`, least significant first.
pub fn u64_to_le(x: u64) -> (r: Vec<u8>)
    ensures
        r@ == le_bytes(x as nat, 8),
{
    let mut out: Vec<u8> = Vec::new();
    let mut y: u64 = x;
    let mut k: usize = 0;
    assert(pow256(0) == 1);
    while k < 8
        invariant
            k <= 8,
            y as nat == x as nat / pow256(k as nat),
            out@ == le_bytes(x as nat, k as nat),
        decreases 8 - k,
    {
        out.push((y % 256) as u8);
        proof {
            lemma_pow256_mono(0, k as nat);
            lemma_div_denominator(x as int, pow256(k as nat) as int, 256);
            assert(pow256(k as nat) * 256 == pow256((k + 1) as nat));
        }
        y = y / 256;
        k = k + 1;
        assert(out@ =~= le_bytes(x as nat, k as nat));
    }
    out
}

/// The little-endian value of eight bytes.
pub fn le_to_u64(b: &Vec<u8>) -> (r: u64)
    requires
        b@.len() == 8,
    ensures
        r as nat == le_value(b@),
{
    let mut r: u64 = 0;
    let mut k: usize = 8;
    proof {
        assert(b@.subrange(8, 8) =~= Seq::<u8>::empty());
        lemma_pow256_u64();
    }
    while k > 0
        invariant
            k <= 8,
            b@.len() == 8,
            pow256(8) == 0x1_0000_0000_0000_0000,
            r as nat == le_value(b@.subrange(k as int, 8)),
            r < pow256((8 - k) as nat),
        decreases k,
    {
        let ghost p = pow256((8 - k) as nat);
        let byte = b[k - 1];
        proof {
            assert(r * 256 + byte < 256 * p) by (nonlinear_arith)
                requires
                    r < p,
                    byte < 256,
            ;
            assert(pow256((8 - (k - 1)) as nat) == 256 * p);
            if k > 1 {
                assert(256 * p <= pow256(8)) by {
                    lemma_pow256_mono((8 - (k - 1)) as nat, 8);
                }
            }
            assert(b@.subrange(k - 1, 8).drop_first() =~= b@.subrange(k as int, 8));
        }
        r = r * 256 + byte as u64;
        k = k - 1;
    }
    assert(b@.subrange(0, 8) =~= b@);
    r
}

proof fn lemma_pow256_mono(a: nat, b: nat)
    requires
        a <= b,
    ensures
        pow256(a) <= pow256(b),
    decreases b - a,
{
    if a < b {
        lemma_pow256_mono(a, (b - 1) as nat);
    }
}

fn first_eight(h: &Vec<u8>) -> (r: Vec<u8>)
    requires
        h@.len() >= 8,
    ensures
        r@ == h@.subrange(0, 8),
{
    let mut out: Vec<u8> = Vec::new();
    let mut k: usize = 0;
    while k < 8
        invariant
            k <= 8,
            h@.len() >= 8,
            out@ == h@.subrange(0, k as int),
        decreases 8 - k,
    {
        out.push(h[k]);
        k = k + 1;
        assert(out@ =~= h@.subrange(0, k as int));
    }
    out
}

pub proof fn lemma_swap_multiset(d: Seq<Card>, i: int, j: int)
    requires
        0 <= i < d.len(),
        0 <= j < d.len(),
    ensures
        swap_at(d, i, j).to_multiset() == d.to_multiset(),
{
    broadcast use vstd::seq_lib::group_to_multiset_ensures;
    if i == j {
        assert(swap_at(d, i, j) =~= d);
    } else {
        let e = d.update(i, d[j]);
        assert(d.remove(i).insert(i, d[j]) =~= e);
        lemma_insert_multiset(d.remove(i), i, d[j]);
        let f = e.update(j, d[i]);
        assert(e.remove(j).insert(j, d[i]) =~= f);
        lemma_insert_multiset(e.remove(j), j, d[i]);
        assert(d.contains(d[i]));
        assert(e.contains(e[j]));
        assert(e.to_multiset() =~= d.to_multiset().remove(d[i]).insert(d[j]));
        assert(f.to_multiset() =~= e.to_multiset().remove(d[j]).insert(d[i]));
        assert(f.to_multiset() =~= d.to_multiset());
    }
}

/// What inserting an element does to the multiset of a sequence.
proof fn lemma_insert_multiset(s: Seq<Card>, i: int, x: Card)
    requires
        0 <= i <= s.len(),
    ensures
        s.insert(i, x).to_multiset() == s.to_multiset().insert(x),
{
    broadcast use vstd::seq_lib::group_to_multiset_ensures;
    let t = s.insert(i, x);
    assert(t.remove(i) =~= s);
    assert(t.to_multiset().remove(t[i]) == s.to_multiset());
    assert(t.contains(x)) by {
        assert(t[i] == x);
    }
    assert(t.to_multiset() =~= s.to_multiset().insert(x));
}

/// Permutes the canonical deck by a hash-chained Fisher-Yates shuffle seeded
/// with `random_seed`. The result depends on the seed alone and holds exactly
/// the cards of the canonical deck.
pub fn shuffle_cards(random_seed: u64) -> (r: Vec<Card>)
    ensures
        r@ == shuffled(random_seed),
        r@.len() == DECK_SIZE,
        r@.to_multiset() == canonical_deck().to_multiset(),
{
    let mut deck = full_deck();
    let mut seed_bytes = u64_to_le(random_seed);
    let mut i: usize = deck.len() - 1;
    while i > 0
        invariant
            i < DECK_SIZE,
            deck@.len() == DECK_SIZE,
            fisher_yates(deck@, seed_bytes@, i as nat) == shuffled(random_seed),
            deck@.to_multiset() == canonical_deck().to_multiset(),
        decreases i,
    {
        let index_bytes = u64_to_le(i as u64);
        let hash = hash_pair(&seed_bytes, &index_bytes);
        let head = first_eight(&hash);
        let rand_num = le_to_u64(&head);
        let j = (rand_num % (i as u64 + 1)) as usize;
        let ghost before = deck@;
        let a = deck[i];
        let b = deck[j];
        deck.set(i, b);
        deck.set(j, a);
        proof {
            assert(deck@ =~= swap_at(before, i as int, j as int));
            lemma_swap_multiset(before, i as int, j as int);
        }
        seed_bytes = head;
        i = i - 1;
    }
    deck
}

/// Reduces a 32-byte random value to the 64-bit shuffle seed.
pub fn seed_from_randomness(randomness: &[u8; 32]) -> (r: u64)
    ensures
        r as nat == le_value(vrf_sample(randomness@)),
{
    vrf_random_u64(randomness)
}

} // verus!
