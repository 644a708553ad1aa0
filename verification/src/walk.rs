//! Pseudo-random choices drawn from a SHAKE256 stream: 64-bit big-endian draws, unbiased
//! by rejection sampling, used for the home plane of a password and for the walk of
//! distinct slots inside one plane.
//!
//! Each rejection loop is bounded by `u64::MAX` draws. A stream that needs more draws
//! than that (a case that running for centuries would not reach) gives up: the home
//! plane is then 0 and the walk is reported as unavailable.

use vstd::prelude::*;
use vstd::arithmetic::div_mod::lemma_fundamental_div_mod;
use std::collections::HashSet;

use crate::bits::{be_u64_value, be_to_u64};
use crate::primitives::{shake256_byte, shake256_prefix, xof_absorbed, xof_open, xof_squeeze, xof_squeezed, XofStream};

verus! {

broadcast use vstd::std_specs::hash::group_hash_axioms, vstd::seq_lib::group_seq_properties;

/// The largest number of draws a rejection loop makes.
pub const DRAW_CAP: u64 = 0xFFFF_FFFF_FFFF_FFFF;

/// Draw `d` of the stream on `seed`: output bytes `8d .. 8d + 8`, read big-endian.
pub open spec fn draw(seed: Seq<u8>, d: nat) -> u64 {
    be_u64_value(Seq::new(8, |i: int| shake256_byte(seed, (8 * d + i) as nat)))
}

/// The largest multiple of `m` not above `u64::MAX`: draws at or above it are rejected,
/// so that `draw % m` is unbiased.
pub open spec fn zone(m: u64) -> u64 {
    ((u64::MAX as nat / m as nat) * m as nat) as u64
}

/// The distinct slots (in order of first appearance) produced by the first `d` draws.
pub open spec fn walk(seed: Seq<u8>, m: u64, d: nat) -> Seq<u64>
    decreases d,
{
    if d == 0 {
        Seq::empty()
    } else {
        let w = walk(seed, m, (d - 1) as nat);
        let x = draw(seed, (d - 1) as nat);
        if x < zone(m) && !w.contains((x % m) as u64) {
            w.push((x % m) as u64)
        } else {
            w
        }
    }
}

/// The first `count` distinct slots of the walk, if the first `DRAW_CAP` draws give that
/// many.
pub open spec fn walk_slots(seed: Seq<u8>, m: u64, count: nat) -> Option<Seq<u64>> {
    if exists|d: nat| d <= DRAW_CAP && #[trigger] walk(seed, m, d).len() >= count {
        let d = choose|d: nat| d <= DRAW_CAP && #[trigger] walk(seed, m, d).len() >= count;
        Some(walk(seed, m, d).take(count as int))
    } else {
        None
    }
}

/// The home choice: the first accepted draw at or after draw `d`, reduced mod `k`, or 0
/// when no draw before `DRAW_CAP` is accepted.
pub open spec fn first_accepted(seed: Seq<u8>, k: u64, d: nat) -> u64
    decreases DRAW_CAP - d,
{
    if d >= DRAW_CAP {
        0
    } else if draw(seed, d) < zone(k) {
        (draw(seed, d) % k) as u64
    } else {
        first_accepted(seed, k, d + 1)
    }
}

pub proof fn lemma_first_accepted_bound(seed: Seq<u8>, k: u64, d: nat)
    requires
        k >= 1,
    ensures
        first_accepted(seed, k, d) < k,
    decreases DRAW_CAP - d,
{
    if d < DRAW_CAP && draw(seed, d) >= zone(k) {
        lemma_first_accepted_bound(seed, k, d + 1);
    }
}

/// Walk slots are below `m`, pairwise distinct, and the walk grows by at most one per draw.
pub proof fn lemma_walk_props(seed: Seq<u8>, m: u64, d: nat)
    requires
        m >= 1,
    ensures
        forall|j: int| 0 <= j < walk(seed, m, d).len() ==> #[trigger] walk(seed, m, d)[j] < m,
        forall|i: int, j: int| 0 <= i < j < walk(seed, m, d).len() ==> walk(seed, m, d)[i] != walk(seed, m, d)[j],
        walk(seed, m, d).len() <= d,
    decreases d,
{
    if d > 0 {
        lemma_walk_props(seed, m, (d - 1) as nat);
        let w = walk(seed, m, (d - 1) as nat);
        let x = draw(seed, (d - 1) as nat);
        if x < zone(m) && !w.contains((x % m) as u64) {
            let v = (x % m) as u64;
            assert forall|i: int, j: int| 0 <= i < j < w.push(v).len() implies w.push(v)[i] != w.push(v)[j] by {
                if j == w.len() {
                    assert(w.contains(w[i]));
                }
            }
        }
    }
}

/// A shorter walk is a prefix of a longer one.
pub proof fn lemma_walk_prefix(seed: Seq<u8>, m: u64, d1: nat, d2: nat)
    requires
        d1 <= d2,
    ensures
        walk(seed, m, d1).len() <= walk(seed, m, d2).len(),
        walk(seed, m, d2).take(walk(seed, m, d1).len() as int) == walk(seed, m, d1),
    decreases d2,
{
    if d1 < d2 {
        lemma_walk_prefix(seed, m, d1, (d2 - 1) as nat);
        let w = walk(seed, m, (d2 - 1) as nat);
        let n1 = walk(seed, m, d1).len() as int;
        assert(walk(seed, m, d2).take(n1) =~= w.take(n1));
    } else {
        assert(walk(seed, m, d2).take(walk(seed, m, d1).len() as int) =~= walk(seed, m, d1));
    }
}

/// Any walk long enough within the cap determines the slots.
pub proof fn lemma_walk_slots_from(seed: Seq<u8>, m: u64, count: nat, d: nat)
    requires
        d <= DRAW_CAP,
        walk(seed, m, d).len() >= count,
    ensures
        walk_slots(seed, m, count) == Some(walk(seed, m, d).take(count as int)),
{
    assert(walk(seed, m, d).len() >= count);
    let c = choose|c: nat| c <= DRAW_CAP && #[trigger] walk(seed, m, c).len() >= count;
    if c <= d {
        lemma_walk_prefix(seed, m, c, d);
        assert(walk(seed, m, d).take(count as int) =~= walk(seed, m, c).take(count as int));
    } else {
        lemma_walk_prefix(seed, m, d, c);
        assert(walk(seed, m, d).take(count as int) =~= walk(seed, m, c).take(count as int));
    }
}

/// The slots for fewer draws are a prefix of those for more.
pub proof fn lemma_walk_slots_prefix(seed: Seq<u8>, m: u64, c1: nat, c2: nat)
    requires
        c1 <= c2,
        walk_slots(seed, m, c2) is Some,
    ensures
        walk_slots(seed, m, c1) == Some(walk_slots(seed, m, c2).unwrap().take(c1 as int)),
{
    let d = choose|d: nat| d <= DRAW_CAP && #[trigger] walk(seed, m, d).len() >= c2;
    lemma_walk_slots_from(seed, m, c1, d);
    assert(walk(seed, m, d).take(c2 as int).take(c1 as int) =~= walk(seed, m, d).take(c1 as int));
}

/// Slots of `walk_slots` are below `m` and pairwise distinct.
pub proof fn lemma_walk_slots_props(seed: Seq<u8>, m: u64, count: nat)
    requires
        m >= 1,
        walk_slots(seed, m, count) is Some,
    ensures
        walk_slots(seed, m, count).unwrap().len() == count,
        forall|j: int| 0 <= j < count ==> #[trigger] walk_slots(seed, m, count).unwrap()[j] < m,
        forall|i: int, j: int| 0 <= i < j < count ==> walk_slots(seed, m, count).unwrap()[i] != walk_slots(seed, m, count).unwrap()[j],
{
    let d = choose|d: nat| d <= DRAW_CAP && #[trigger] walk(seed, m, d).len() >= count;
    lemma_walk_props(seed, m, d);
}

/// A SHAKE256 stream read in 8-byte big-endian draws.
pub struct DrawStream {
    stream: XofStream,
    count: u64,
    seed: Ghost<Seq<u8>>,
}

impl DrawStream {
    pub closed spec fn seed(&self) -> Seq<u8> {
        self.seed@
    }

    /// Number of draws taken so far.
    pub closed spec fn taken(&self) -> nat {
        self.count as nat
    }

    pub closed spec fn inv(&self) -> bool {
        &&& xof_absorbed(self.stream) == self.seed@
        &&& xof_squeezed(self.stream) == shake256_prefix(self.seed@, 8 * self.count as nat)
    }

    pub(crate) fn new(seed: &[u8]) -> (s: DrawStream)
        ensures
            s.inv(),
            s.seed() == seed@,
            s.taken() == 0,
    {
        let stream = xof_open(seed);
        let s = DrawStream { stream, count: 0, seed: Ghost(seed@) };
        assert(shake256_prefix(seed@, 0) =~= Seq::<u8>::empty());
        s
    }

    pub(crate) fn taken_exec(&self) -> (c: u64)
        ensures
            c == self.taken(),
    {
        self.count
    }

    /// The next draw.
    pub(crate) fn next(&mut self) -> (x: u64)
        requires
            old(self).inv(),
            old(self).taken() < DRAW_CAP,
        ensures
            final(self).inv(),
            final(self).seed() == old(self).seed(),
            final(self).taken() == old(self).taken() + 1,
            x == draw(old(self).seed(), old(self).taken()),
    {
        let ghost d = self.count as nat;
        let bytes = xof_squeeze(&mut self.stream, 8);
        assert(bytes@ =~= Seq::new(8, |i: int| shake256_byte(self.seed@, (8 * d + i) as nat)));
        assert(xof_squeezed(self.stream) =~= shake256_prefix(self.seed@, 8 * (d + 1)));
        self.count = self.count + 1;
        be_to_u64(bytes.as_slice())
    }
}

/// The unbiased rejection threshold for `m`.
pub(crate) fn zone_exec(m: u64) -> (z: u64)
    requires
        m >= 1,
    ensures
        z == zone(m),
        z as nat % m as nat == 0,
        z as nat + m as nat > u64::MAX as nat,
{
    let q = u64::MAX / m;
    proof {
        lemma_fundamental_div_mod(u64::MAX as int, m as int);
        assert(q * m <= u64::MAX) by (nonlinear_arith)
            requires q == u64::MAX / m, m >= 1, u64::MAX == m * q + u64::MAX % m, u64::MAX % m >= 0;
        assert((q * m) % (m as int) == 0) by (nonlinear_arith)
            requires m >= 1;
    }
    q * m
}

/// The home choice on `seed` reduced mod `k`.
pub(crate) fn first_accepted_exec(seed: &[u8], k: u64) -> (h: u64)
    requires
        k >= 1,
    ensures
        h == first_accepted(seed@, k, 0),
        h < k,
{
    proof {
        lemma_first_accepted_bound(seed@, k, 0);
    }
    let z = zone_exec(k);
    let mut s = DrawStream::new(seed);
    while s.taken_exec() < DRAW_CAP
        invariant
            s.inv(),
            s.seed() == seed@,
            s.taken() <= DRAW_CAP,
            z == zone(k),
            k >= 1,
            first_accepted(seed@, k, 0) == first_accepted(seed@, k, s.taken()),
        decreases DRAW_CAP - s.taken(),
    {
        let x = s.next();
        if x < z {
            return x % k;
        }
    }
    0
}

/// A walk of distinct slots below `m`, extended on demand.
pub struct SlotWalk {
    draws: DrawStream,
    out: Vec<u64>,
    seen: HashSet<u64>,
    m: u64,
    zone: u64,
}

impl SlotWalk {
    pub closed spec fn seed(&self) -> Seq<u8> {
        self.draws.seed()
    }

    pub closed spec fn modulus(&self) -> u64 {
        self.m
    }

    /// The slots produced so far.
    pub closed spec fn slots(&self) -> Seq<u64> {
        self.out@
    }

    pub closed spec fn inv(&self) -> bool {
        &&& self.draws.inv()
        &&& self.m >= 1
        &&& self.zone == zone(self.m)
        &&& self.out@ == walk(self.draws.seed(), self.m, self.draws.taken())
        &&& self.draws.taken() <= DRAW_CAP
        &&& forall|x: u64| self.seen@.contains(x) <==> self.out@.contains(x)
    }

    pub(crate) fn new(seed: &[u8], m: u64) -> (w: SlotWalk)
        requires
            m >= 1,
        ensures
            w.inv(),
            w.seed() == seed@,
            w.modulus() == m,
    {
        let w = SlotWalk {
            draws: DrawStream::new(seed),
            out: Vec::new(),
            seen: HashSet::new(),
            m,
            zone: zone_exec(m),
        };
        assert(w.out@ =~= walk(seed@, m, 0));
        w
    }

    /// Slots are below the modulus and pairwise distinct.
    pub proof fn lemma_slots(&self)
        requires
            self.inv(),
        ensures
            forall|j: int| 0 <= j < self.slots().len() ==> #[trigger] self.slots()[j] < self.modulus(),
            forall|i: int, j: int| 0 <= i < j < self.slots().len() ==> self.slots()[i] != self.slots()[j],
    {
        lemma_walk_props(self.draws.seed(), self.m, self.draws.taken());
    }

    /// Slot `j` of the walk.
    pub(crate) fn slot(&self, j: usize) -> (s: u64)
        requires
            j < self.slots().len(),
        ensures
            s == self.slots()[j as int],
    {
        self.out[j]
    }

    /// Extends the walk to `count` slots (keeping the slots it has, as a prefix); false
    /// when the draw cap is reached first.
    pub(crate) fn ensure(&mut self, count: usize) -> (ok: bool)
        requires
            old(self).inv(),
        ensures
            final(self).inv(),
            final(self).seed() == old(self).seed(),
            final(self).modulus() == old(self).modulus(),
            ok == walk_slots(old(self).seed(), old(self).modulus(), count as nat) is Some,
            ok ==> final(self).slots().len() >= count
                && final(self).slots().take(count as int) == walk_slots(old(self).seed(), old(self).modulus(), count as nat).unwrap(),
            ok ==> final(self).slots().len() == if old(self).slots().len() >= count {
                old(self).slots().len()
            } else {
                count as nat
            },
            final(self).slots().take(old(self).slots().len() as int) == old(self).slots(),
    {
        let ghost seed = self.draws.seed();
        let ghost t0 = self.draws.taken();
        let ghost n0 = self.out@.len();
        while self.out.len() < count && self.draws.taken_exec() < DRAW_CAP
            invariant
                self.inv(),
                self.draws.seed() == seed,
                self.m == old(self).m,
                t0 <= self.draws.taken(),
                old(self).slots() == walk(seed, self.m, t0),
                n0 == old(self).slots().len(),
                self.out@.len() <= if n0 >= count { n0 } else { count as nat },
            decreases DRAW_CAP - self.draws.taken(),
        {
            let ghost d = self.draws.taken();
            let x = self.draws.next();
            if x < self.zone {
                let v = x % self.m;
                let fresh = self.seen.insert(v);
                if fresh {
                    self.out.push(v);
                }
            }
            assert(self.out@ =~= walk(seed, self.m, d + 1));
        }
        proof {
            lemma_walk_prefix(seed, self.m, t0, self.draws.taken());
        }
        if self.out.len() >= count {
            proof {
                lemma_walk_slots_from(seed, self.m, count as nat, self.draws.taken());
            }
            true
        } else {
            proof {
                if exists|d: nat| d <= DRAW_CAP && #[trigger] walk(seed, self.m, d).len() >= count {
                    let d = choose|d: nat| d <= DRAW_CAP && #[trigger] walk(seed, self.m, d).len() >= count;
                    lemma_walk_prefix(seed, self.m, d, DRAW_CAP as nat);
                }
            }
            false
        }
    }
}

} // verus!
