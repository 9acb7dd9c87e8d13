//! The fixed-shape record stored in the index: seven 32-bit integers, the
//! first of which is the primary key.

use vstd::prelude::*;

verus! {

/// One indexed record. `key` is the primary key; `a` and `x` are payload.
#[derive(Debug, PartialEq, Eq, Clone, Copy)]
pub struct Record {
    pub key: i32,
    pub a: [i32; 5],
    pub x: i32,
}

/// `x` raised to the power `n` in wrapping 32-bit arithmetic.
pub open spec fn wrapping_pow(x: i32, n: nat) -> i32
    decreases n,
{
    if n == 0 {
        1i32
    } else {
        wrapping_pow(x, (n - 1) as nat).wrapping_mul(x)
    }
}

/// The wrapping sum `a[0] + a[1]*x + ... + a[n-1]*x^(n-1)`.
pub open spec fn wrapping_poly(a: Seq<i32>, x: i32, n: nat) -> i32
    decreases n,
{
    if n == 0 {
        0i32
    } else {
        wrapping_poly(a, x, (n - 1) as nat).wrapping_add(
            a[n - 1].wrapping_mul(wrapping_pow(x, (n - 1) as nat)),
        )
    }
}

/// `x` raised to the power `n`.
pub open spec fn power(x: int, n: nat) -> int
    decreases n,
{
    if n == 0 {
        1
    } else {
        power(x, (n - 1) as nat) * x
    }
}

/// The sum `a[0] + a[1]*x + ... + a[n-1]*x^(n-1)`.
pub open spec fn polynomial(a: Seq<i32>, x: int, n: nat) -> int
    decreases n,
{
    if n == 0 {
        0
    } else {
        polynomial(a, x, (n - 1) as nat) + a[n - 1] * power(x, (n - 1) as nat)
    }
}

/// Two integers leave the same remainder on division by 2^32.
pub open spec fn same_bits(u: int, v: int) -> bool {
    u % 0x1_0000_0000 == v % 0x1_0000_0000
}

/// A wrapping sum has the bits of the sum.
proof fn lemma_wrapping_add_bits(u: i32, v: i32, eu: int, ev: int)
    requires
        same_bits(u as int, eu),
        same_bits(v as int, ev),
    ensures
        same_bits(u.wrapping_add(v) as int, eu + ev),
{
    let m = 0x1_0000_0000int;
    let w = u.wrapping_add(v) as int;
    vstd::arithmetic::div_mod::lemma_mod_multiples_vanish(1, w, m);
    vstd::arithmetic::div_mod::lemma_mod_multiples_vanish(-1, w, m);
    assert(w % m == (u + v) % m);
    vstd::arithmetic::div_mod::lemma_add_mod_noop(u as int, v as int, m);
    vstd::arithmetic::div_mod::lemma_add_mod_noop(eu, ev, m);
}

/// A wrapping product has the bits of the product.
proof fn lemma_wrapping_mul_bits(u: i32, v: i32, eu: int, ev: int)
    requires
        same_bits(u as int, eu),
        same_bits(v as int, ev),
    ensures
        same_bits(u.wrapping_mul(v) as int, eu * ev),
{
    let m = 0x1_0000_0000int;
    let p = u as int * v as int;
    let w = u.wrapping_mul(v) as int;
    vstd::arithmetic::div_mod::lemma_mod_multiples_vanish(-1, p % m, m);
    vstd::arithmetic::div_mod::lemma_mod_twice(p, m);
    assert(w % m == p % m);
    vstd::arithmetic::div_mod::lemma_mul_mod_noop(u as int, v as int, m);
    vstd::arithmetic::div_mod::lemma_mul_mod_noop(eu, ev, m);
}

/// A wrapping power has the bits of the power.
proof fn lemma_wrapping_pow_bits(x: i32, n: nat)
    ensures
        same_bits(wrapping_pow(x, n) as int, power(x as int, n)),
    decreases n,
{
    if n > 0 {
        lemma_wrapping_pow_bits(x, (n - 1) as nat);
        lemma_wrapping_mul_bits(
            wrapping_pow(x, (n - 1) as nat),
            x,
            power(x as int, (n - 1) as nat),
            x as int,
        );
    }
}

/// The key that wrapping arithmetic computes is the polynomial of the
/// payload, reduced to 32 bits.
pub proof fn lemma_key_is_polynomial(a: Seq<i32>, x: i32, n: nat)
    ensures
        same_bits(wrapping_poly(a, x, n) as int, polynomial(a, x as int, n)),
    decreases n,
{
    if n > 0 {
        let m = (n - 1) as nat;
        lemma_key_is_polynomial(a, x, m);
        lemma_wrapping_pow_bits(x, m);
        lemma_wrapping_mul_bits(a[n - 1], wrapping_pow(x, m), a[n - 1] as int, power(x as int, m));
        lemma_wrapping_add_bits(
            wrapping_poly(a, x, m),
            a[n - 1].wrapping_mul(wrapping_pow(x, m)),
            polynomial(a, x as int, m),
            a[n - 1] * power(x as int, m),
        );
    }
}

/// Draws five coefficients and a point from `rand`'s thread-local
/// generator (`rand::rng()`, then `Rng::random` for the pair). Nothing is
/// claimed of the values drawn.
#[verifier::external_body]
fn random_payload() -> (p: ([i32; 5], i32)) {
    rand::Rng::random::<([i32; 5], i32)>(&mut rand::rng())
}

/// The record with the given seven components, key first.
pub open spec fn record_of(f: Seq<i32>) -> Record {
    Record { key: f[0], a: [f[1], f[2], f[3], f[4], f[5]], x: f[6] }
}

/// A record is determined by its seven components.
pub proof fn lemma_record_of_fields(r: Record)
    ensures
        record_of(r.fields()) == r,
{
    assert(record_of(r.fields()).a =~= r.a);
}

impl Record {
    /// The record that `new` builds from coefficients `a` and point `x`.
    pub open spec fn spec_new(a: [i32; 5], x: i32) -> Record {
        Record { key: wrapping_poly(a@, x, 5), a, x }
    }

    /// The seven components in order, key first.
    pub open spec fn fields(self) -> Seq<i32> {
        seq![self.key, self.a[0], self.a[1], self.a[2], self.a[3], self.a[4], self.x]
    }

    /// Builds a record whose key is the polynomial with coefficients `a`
    /// evaluated at `x`, in wrapping arithmetic.
    pub fn new(a: [i32; 5], x: i32) -> (r: Self)
        ensures
            r == Self::spec_new(a, x),
            same_bits(r.key as int, polynomial(a@, x as int, 5)),
    {
        proof {
            lemma_key_is_polynomial(a@, x, 5);
        }
        let mut key: i32 = 0;
        let mut x_n: i32 = 1;
        let mut i: usize = 0;
        while i < 5
            invariant
                i <= 5,
                key == wrapping_poly(a@, x, i as nat),
                x_n == wrapping_pow(x, i as nat),
            decreases 5 - i,
        {
            key = key.wrapping_add(a[i].wrapping_mul(x_n));
            x_n = x_n.wrapping_mul(x);
            i += 1;
        }
        Record { key, a, x }
    }

    /// Builds a record from seven integers, key first.
    pub fn from_fields(f: [i32; 7]) -> (r: Self)
        ensures
            r.fields() == f@,
    {
        let r = Record { key: f[0], a: [f[1], f[2], f[3], f[4], f[5]], x: f[6] };
        assert(r.fields() =~= f@);
        r
    }

    /// The seven integers of the record, key first.
    pub fn to_fields(&self) -> (f: [i32; 7])
        ensures
            f@ == self.fields(),
    {
        let f = [self.key, self.a[0], self.a[1], self.a[2], self.a[3], self.a[4], self.x];
        assert(f@ =~= self.fields());
        f
    }

    /// Builds a record from random coefficients and a random point; whatever
    /// was drawn, the key is the polynomial of the payload.
    pub fn random() -> (r: Self)
        ensures
            r == Self::spec_new(r.a, r.x),
    {
        let (a, x) = random_payload();
        Self::new(a, x)
    }
}

} // verus!
