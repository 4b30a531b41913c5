//! Bidirectional additive diffusion over bytes (mod 256): a forward chain
//! followed by a backward chain. Output byte `i` depends on input byte `p`
//! exactly when the number of chain sums linking them (`chain_weight`) is not
//! a multiple of 256; in particular the last output byte depends on every
//! input byte. Both passes are inverted by taking differences.

use vstd::prelude::*;

verus! {

/// The value that starts the forward chain.
pub const IV_FORWARD: u8 = 0x9Eu8;

/// The value that starts the backward chain.
pub const IV_BACKWARD: u8 = 0x7Fu8;

/// Byte `i` of the forward chain: the running sum (mod 256) of `iv` and
/// `b[0..=i]`.
pub open spec fn forward_at(b: Seq<u8>, iv: u8, i: int) -> u8
    decreases i,
{
    if i <= 0 {
        ((b[0] + iv) % 256) as u8
    } else {
        ((b[i] + forward_at(b, iv, i - 1)) % 256) as u8
    }
}

/// Byte `i` of the backward chain: the running sum (mod 256) of `iv` and
/// `b[i..]`.
pub open spec fn backward_at(b: Seq<u8>, iv: u8, i: int) -> u8
    decreases b.len() - i,
{
    if i >= b.len() - 1 {
        ((b[i] + iv) % 256) as u8
    } else {
        ((b[i] + backward_at(b, iv, i + 1)) % 256) as u8
    }
}

/// The forward chain of `b`.
pub open spec fn chain_forward(b: Seq<u8>, iv: u8) -> Seq<u8> {
    Seq::new(b.len(), |i: int| forward_at(b, iv, i))
}

/// The backward chain of `b`.
pub open spec fn chain_backward(b: Seq<u8>, iv: u8) -> Seq<u8> {
    Seq::new(b.len(), |i: int| backward_at(b, iv, i))
}

/// Each byte minus its predecessor (mod 256), `iv` standing before the first.
pub open spec fn unchain_forward(c: Seq<u8>, iv: u8) -> Seq<u8> {
    Seq::new(
        c.len(),
        |i: int| ((c[i] - (if i == 0 { iv } else { c[i - 1] })) % 256) as u8,
    )
}

/// Each byte minus its successor (mod 256), `iv` standing after the last.
pub open spec fn unchain_backward(c: Seq<u8>, iv: u8) -> Seq<u8> {
    Seq::new(
        c.len(),
        |i: int| ((c[i] - (if i == c.len() - 1 { iv } else { c[i + 1] })) % 256) as u8,
    )
}

/// The diffused form of `b`.
pub open spec fn diffuse_spec(b: Seq<u8>) -> Seq<u8> {
    chain_backward(chain_forward(b, IV_FORWARD), IV_BACKWARD)
}

/// The undiffused form of `c`.
pub open spec fn undiffuse_spec(c: Seq<u8>) -> Seq<u8> {
    unchain_forward(unchain_backward(c, IV_BACKWARD), IV_FORWARD)
}

/// Applies the forward chain and then the backward chain in place.
pub fn diffuse(b: &mut [u8])
    ensures
        final(b)@ == diffuse_spec(old(b)@),
{
    let n = b.len();
    if n == 0 {
        assert(final(b)@ =~= diffuse_spec(old(b)@));
        return;
    }
    let ghost orig = b@;
    let mut acc = IV_FORWARD;
    let mut i: usize = 0;
    while i < n
        invariant
            n == b@.len(),
            n == orig.len(),
            i <= n,
            forall|j: int| 0 <= j < i ==> b@[j] == forward_at(orig, IV_FORWARD, j),
            forall|j: int| i <= j < n ==> b@[j] == orig[j],
            i == 0 ==> acc == IV_FORWARD,
            i > 0 ==> acc == forward_at(orig, IV_FORWARD, i - 1),
        decreases n - i,
    {
        let x = b[i].wrapping_add(acc);
        b[i] = x;
        acc = x;
        i = i + 1;
    }
    let ghost f = b@;
    assert(f =~= chain_forward(orig, IV_FORWARD));
    acc = IV_BACKWARD;
    let mut k: usize = n;
    while k > 0
        invariant
            n == b@.len(),
            n == f.len(),
            k <= n,
            forall|j: int| k <= j < n ==> b@[j] == backward_at(f, IV_BACKWARD, j),
            forall|j: int| 0 <= j < k ==> b@[j] == f[j],
            k == n ==> acc == IV_BACKWARD,
            k < n ==> acc == backward_at(f, IV_BACKWARD, k as int),
        decreases k,
    {
        k = k - 1;
        let x = b[k].wrapping_add(acc);
        b[k] = x;
        acc = x;
    }
    assert(b@ =~= chain_backward(f, IV_BACKWARD));
}

/// Inverts the backward pass and then the forward pass in place.
pub fn undiffuse(b: &mut [u8])
    ensures
        final(b)@ == undiffuse_spec(old(b)@),
{
    let n = b.len();
    if n == 0 {
        assert(final(b)@ =~= undiffuse_spec(old(b)@));
        return;
    }
    let ghost orig = b@;
    let mut next = IV_BACKWARD;
    let mut k: usize = n;
    while k > 0
        invariant
            n == b@.len(),
            n == orig.len(),
            k <= n,
            forall|j: int| k <= j < n ==> b@[j] == unchain_backward(orig, IV_BACKWARD)[j],
            forall|j: int| 0 <= j < k ==> b@[j] == orig[j],
            k == n ==> next == IV_BACKWARD,
            k < n ==> next == orig[k as int],
        decreases k,
    {
        k = k - 1;
        let cur = b[k];
        b[k] = cur.wrapping_sub(next);
        next = cur;
    }
    let ghost u = b@;
    assert(u =~= unchain_backward(orig, IV_BACKWARD));
    let mut prev = IV_FORWARD;
    let mut i: usize = 0;
    while i < n
        invariant
            n == b@.len(),
            n == u.len(),
            i <= n,
            forall|j: int| 0 <= j < i ==> b@[j] == unchain_forward(u, IV_FORWARD)[j],
            forall|j: int| i <= j < n ==> b@[j] == u[j],
            i == 0 ==> prev == IV_FORWARD,
            i > 0 ==> prev == u[i - 1],
        decreases n - i,
    {
        let cur = b[i];
        b[i] = cur.wrapping_sub(prev);
        prev = cur;
        i = i + 1;
    }
    assert(b@ =~= unchain_forward(u, IV_FORWARD));
}

proof fn lemma_add_sub_mod(x: int, y: int)
    requires
        0 <= x < 256,
        0 <= y < 256,
    ensures
        (((x + y) % 256) - y) % 256 == x,
        ((x - y) % 256 + y) % 256 == x,
{
}

/// Differences undo the forward chain.
proof fn lemma_unchain_chain_forward(b: Seq<u8>, iv: u8)
    ensures
        unchain_forward(chain_forward(b, iv), iv) == b,
{
    let c = chain_forward(b, iv);
    assert forall|i: int| 0 <= i < b.len() implies unchain_forward(c, iv)[i] == b[i] by {
        if i == 0 {
            lemma_add_sub_mod(b[i] as int, iv as int);
        } else {
            lemma_add_sub_mod(b[i] as int, forward_at(b, iv, i - 1) as int);
        }
    }
    assert(unchain_forward(c, iv) =~= b);
}

/// Differences undo the backward chain.
proof fn lemma_unchain_chain_backward(b: Seq<u8>, iv: u8)
    ensures
        unchain_backward(chain_backward(b, iv), iv) == b,
{
    let c = chain_backward(b, iv);
    assert forall|i: int| 0 <= i < b.len() implies unchain_backward(c, iv)[i] == b[i] by {
        if i == b.len() - 1 {
            lemma_add_sub_mod(b[i] as int, iv as int);
        } else {
            lemma_add_sub_mod(b[i] as int, backward_at(b, iv, i + 1) as int);
        }
    }
    assert(unchain_backward(c, iv) =~= b);
}

/// The forward chain of the differences gives back the bytes.
proof fn lemma_chain_unchain_forward_at(c: Seq<u8>, iv: u8, i: int)
    requires
        0 <= i < c.len(),
    ensures
        forward_at(unchain_forward(c, iv), iv, i) == c[i],
    decreases i,
{
    let u = unchain_forward(c, iv);
    if i == 0 {
        lemma_add_sub_mod(c[0] as int, iv as int);
    } else {
        lemma_chain_unchain_forward_at(c, iv, i - 1);
        lemma_add_sub_mod(c[i] as int, c[i - 1] as int);
    }
}

/// The backward chain of the differences gives back the bytes.
proof fn lemma_chain_unchain_backward_at(c: Seq<u8>, iv: u8, i: int)
    requires
        0 <= i < c.len(),
    ensures
        backward_at(unchain_backward(c, iv), iv, i) == c[i],
    decreases c.len() - i,
{
    if i == c.len() - 1 {
        lemma_add_sub_mod(c[i] as int, iv as int);
    } else {
        lemma_chain_unchain_backward_at(c, iv, i + 1);
        lemma_add_sub_mod(c[i] as int, c[i + 1] as int);
    }
}

/// Undiffusing a diffused byte string gives it back.
pub proof fn lemma_undiffuse_diffuse(b: Seq<u8>)
    ensures
        undiffuse_spec(diffuse_spec(b)) == b,
{
    lemma_unchain_chain_backward(chain_forward(b, IV_FORWARD), IV_BACKWARD);
    lemma_unchain_chain_forward(b, IV_FORWARD);
}

/// Diffusing an undiffused byte string gives it back: diffusion is a
/// bijection on byte strings of each length.
pub proof fn lemma_diffuse_undiffuse(c: Seq<u8>)
    ensures
        diffuse_spec(undiffuse_spec(c)) == c,
{
    let u = unchain_backward(c, IV_BACKWARD);
    assert forall|i: int| 0 <= i < u.len() implies chain_forward(unchain_forward(u, IV_FORWARD), IV_FORWARD)[i] == u[i] by {
        lemma_chain_unchain_forward_at(u, IV_FORWARD, i);
    }
    assert(chain_forward(unchain_forward(u, IV_FORWARD), IV_FORWARD) =~= u);
    assert forall|i: int| 0 <= i < c.len() implies chain_backward(u, IV_BACKWARD)[i] == c[i] by {
        lemma_chain_unchain_backward_at(c, IV_BACKWARD, i);
    }
    assert(chain_backward(u, IV_BACKWARD) =~= c);
}

proof fn lemma_mod_sum(x: int, y: int)
    ensures
        (x % 256 + y) % 256 == (x + y) % 256,
        (x + y % 256) % 256 == (x + y) % 256,
{
    vstd::arithmetic::div_mod::lemma_add_mod_noop(x, y, 256);
    vstd::arithmetic::div_mod::lemma_mod_twice(x, 256);
    vstd::arithmetic::div_mod::lemma_mod_twice(y, 256);
    vstd::arithmetic::div_mod::lemma_add_mod_noop(x % 256, y, 256);
    vstd::arithmetic::div_mod::lemma_add_mod_noop(x, y % 256, 256);
}

/// How far apart output `i` and input `p` are in the two chains: the number
/// of chain sums in which input `p` takes part on its way to output `i`.
pub open spec fn chain_weight(n: int, i: int, p: int) -> int {
    n - (if i > p { i } else { p })
}

/// Changing input byte `p` by `d` (mod 256) shifts forward byte `k` by `d`
/// from `p` on, and leaves it alone before.
proof fn lemma_forward_shift(b: Seq<u8>, b2: Seq<u8>, iv: u8, p: int, k: int)
    requires
        b.len() == b2.len(),
        0 <= p < b.len(),
        0 <= k < b.len(),
        forall|q: int| 0 <= q < b.len() && q != p ==> b[q] == b2[q],
    ensures
        forward_at(b2, iv, k) as int == if k < p {
            forward_at(b, iv, k) as int
        } else {
            (forward_at(b, iv, k) + (b2[p] - b[p]) % 256) % 256
        },
    decreases k,
{
    let d = (b2[p] - b[p]) % 256;
    if k > 0 {
        lemma_forward_shift(b, b2, iv, p, k - 1);
    }
    let prev: int = if k > 0 { forward_at(b, iv, k - 1) as int } else { iv as int };
    if k < p {
    } else if k == p {
        let x = b2[p] - b[p];
        let q = x / 256;
        vstd::arithmetic::div_mod::lemma_fundamental_div_mod(x, 256);
        assert(b[k] + prev + d == (b2[k] + prev) - 256 * q);
        lemma_sub_multiple_mod(b2[k] + prev, q);
        lemma_mod_sum(b[k] + prev, d);
    } else {
        let f = forward_at(b, iv, k - 1) as int;
        lemma_mod_sum(b[k] + f, d);
        lemma_mod_sum(b[k] as int, f + d);
    }
}

proof fn lemma_sub_multiple_mod(x: int, q: int)
    ensures
        (x - 256 * q) % 256 == x % 256,
{
    vstd::arithmetic::div_mod::lemma_mod_multiples_vanish(-q, x, 256);
    assert(256 * -q + x == x - 256 * q) by (nonlinear_arith);
}

/// Shifting the forward bytes from `p` on by `d` shifts backward byte `i` by
/// `d` times the number of shifted bytes at or after `i`.
proof fn lemma_backward_shift(f: Seq<u8>, f2: Seq<u8>, iv: u8, p: int, d: int, i: int)
    requires
        f.len() == f2.len(),
        0 <= p < f.len(),
        0 <= i < f.len(),
        0 <= d < 256,
        forall|k: int| 0 <= k < f.len() ==> (#[trigger] f2[k]) as int == if k < p {
            f[k] as int
        } else {
            (f[k] + d) % 256
        },
    ensures
        backward_at(f2, iv, i) as int == (backward_at(f, iv, i) + d * chain_weight(f.len() as int, i, p)) % 256,
    decreases f.len() - i,
{
    let n = f.len() as int;
    let fi = f[i] as int;
    if i == n - 1 {
        assert(chain_weight(n, i, p) == 1);
        assert(f2[i] as int == (fi + d) % 256);
        lemma_mod_sum(fi + d, iv as int);
        lemma_mod_sum(fi + iv, d);
        assert(backward_at(f2, iv, i) as int == (f2[i] + iv) % 256);
        assert(backward_at(f, iv, i) as int == (fi + iv) % 256);
        assert(d * chain_weight(n, i, p) == d);
        assert((f2[i] + iv) % 256 == (fi + d + iv) % 256);
    } else {
        lemma_backward_shift(f, f2, iv, p, d, i + 1);
        let rest = backward_at(f, iv, i + 1) as int;
        let w1 = chain_weight(n, i + 1, p);
        lemma_mod_sum(f2[i] as int, rest + d * w1);
        if i < p {
            assert(chain_weight(n, i, p) == w1);
            lemma_mod_sum(fi + rest, d * w1);
            assert(f2[i] as int + (rest + d * w1) == fi + rest + d * w1);
            assert(backward_at(f2, iv, i) as int == (f2[i] + backward_at(f2, iv, i + 1)) % 256);
            assert(backward_at(f, iv, i) as int == (fi + rest) % 256);
        } else {
            assert(chain_weight(n, i, p) == w1 + 1);
            assert(d * (w1 + 1) == d * w1 + d) by (nonlinear_arith);
            assert(f2[i] as int == (fi + d) % 256);
            lemma_mod_sum(fi + d, rest + d * w1);
            lemma_mod_sum(fi + rest, d * (w1 + 1));
            assert(fi + d + (rest + d * w1) == fi + rest + d * (w1 + 1));
            assert(backward_at(f2, iv, i) as int == (f2[i] + backward_at(f2, iv, i + 1)) % 256);
            assert(backward_at(f, iv, i) as int == (fi + rest) % 256);
            assert(((fi + d) % 256 + (rest + d * w1) % 256) % 256 == (fi + d + (rest + d * w1)) % 256) by {
                vstd::arithmetic::div_mod::lemma_add_mod_noop(fi + d, rest + d * w1, 256);
            }
        }
    }
}

/// Changing input byte `p` by `d` (mod 256) changes output byte `i` by `d`
/// times `chain_weight(n, i, p)` (mod 256), for every input and every `i`.
pub proof fn lemma_diffuse_shift(b: Seq<u8>, b2: Seq<u8>, p: int, i: int)
    requires
        b.len() == b2.len(),
        0 <= p < b.len(),
        0 <= i < b.len(),
        forall|q: int| 0 <= q < b.len() && q != p ==> b[q] == b2[q],
    ensures
        diffuse_spec(b2)[i] as int == (diffuse_spec(b)[i] + ((b2[p] - b[p]) % 256) * chain_weight(
            b.len() as int,
            i,
            p,
        )) % 256,
{
    let f = chain_forward(b, IV_FORWARD);
    let f2 = chain_forward(b2, IV_FORWARD);
    let d = (b2[p] - b[p]) % 256;
    assert forall|k: int| 0 <= k < f.len() implies (#[trigger] f2[k]) as int == if k < p {
        f[k] as int
    } else {
        (f[k] + d) % 256
    } by {
        lemma_forward_shift(b, b2, IV_FORWARD, p, k);
    }
    lemma_backward_shift(f, f2, IV_BACKWARD, p, d, i);
}

/// Every output byte depends on every input byte whose chain weight is not
/// a multiple of 256: raising input `p` by one (mod 256) changes output `i`.
pub proof fn lemma_output_depends_on_input(b: Seq<u8>, i: int, p: int)
    requires
        0 <= i < b.len(),
        0 <= p < b.len(),
        chain_weight(b.len() as int, i, p) % 256 != 0,
    ensures
        diffuse_spec(b.update(p, ((b[p] + 1) % 256) as u8))[i] != diffuse_spec(b)[i],
{
    let b2 = b.update(p, ((b[p] + 1) % 256) as u8);
    lemma_diffuse_shift(b, b2, p, i);
    assert((b2[p] - b[p]) % 256 == 1);
    let w = chain_weight(b.len() as int, i, p);
    let x = diffuse_spec(b)[i] as int;
    assert(1 * w == w);
    lemma_mod_sum(x, w);
    if (x + w) % 256 == x {
        vstd::arithmetic::div_mod::lemma_fundamental_div_mod(w, 256);
        assert(false);
    }
}

/// Where the chain weight is a multiple of 256, output `i` does not depend on
/// input `p` at all: any change of that byte alone leaves it as it was.
pub proof fn lemma_output_ignores_input(b: Seq<u8>, b2: Seq<u8>, i: int, p: int)
    requires
        b.len() == b2.len(),
        0 <= i < b.len(),
        0 <= p < b.len(),
        forall|q: int| 0 <= q < b.len() && q != p ==> b[q] == b2[q],
        chain_weight(b.len() as int, i, p) % 256 == 0,
    ensures
        diffuse_spec(b2)[i] == diffuse_spec(b)[i],
{
    lemma_diffuse_shift(b, b2, p, i);
    let w = chain_weight(b.len() as int, i, p);
    let d = (b2[p] - b[p]) % 256;
    let x = diffuse_spec(b)[i] as int;
    vstd::arithmetic::div_mod::lemma_fundamental_div_mod(w, 256);
    let q = w / 256;
    assert(d * w == 256 * (d * q)) by (nonlinear_arith)
        requires
            w == 256 * q,
    ;
    vstd::arithmetic::div_mod::lemma_mod_multiples_vanish(d * q, x, 256);
    assert(256 * (d * q) + x == x + d * w);
}

/// Diffusion keeps the length.
pub proof fn lemma_diffuse_len(b: Seq<u8>)
    ensures
        diffuse_spec(b).len() == b.len(),
        undiffuse_spec(b).len() == b.len(),
{
}

} // verus!
