//! The parameter set of the scheme.

use crate::codec::{batch_bytes, encoded_len, slots_before};
use crate::linalg::is_vec;
use crate::whipping::{num_pairs, pairs_before};
use vstd::prelude::*;

verus! {

/// An immutable parameter set. It is handed to every operation of the scheme;
/// nothing in the library keeps one of its own.
#[allow(non_snake_case)]
#[derive(Clone, Copy, Debug)]
pub struct MayoParams<'a> {
    /// The number of equations of the public map.
    pub m: usize,
    /// The number of variables of the public map.
    pub n: usize,
    /// The dimension of the oil space.
    pub o: usize,
    /// The number of blocks that one signature combines.
    pub k: usize,
    /// The size of the field.
    pub q: usize,
    /// The low coefficients of the polynomial `f(z) = z^m + ...` by which the
    /// blocks are combined, from the constant term up.
    pub f_tail: &'a [u8],
    /// The length of the encoded oil space.
    pub O_bytes: usize,
    /// The length of an encoded vinegar vector.
    pub v_bytes: usize,
    /// The length of the encoded `P1`.
    pub P1_bytes: usize,
    /// The length of the encoded `P2`.
    pub P2_bytes: usize,
    /// The length of the encoded `P3`.
    pub P3_bytes: usize,
    /// The length of the encoded `L`.
    pub L_bytes: usize,
    /// The length of a compact secret key.
    pub csk_bytes: usize,
    /// The length of an expanded secret key.
    pub esk_bytes: usize,
    /// The length of a compact public key.
    pub cpk_bytes: usize,
    /// The length of an expanded public key.
    pub epk_bytes: usize,
    /// The length of a signature.
    pub sig_bytes: usize,
    /// The length of a salt.
    pub salt_bytes: usize,
    /// The length of a message digest.
    pub digest_bytes: usize,
    /// The length of a public seed.
    pub pk_seed_bytes: usize,
    /// The length of a secret seed.
    pub sk_seed_bytes: usize,
}

impl MayoParams<'_> {
    /// The number of vinegar variables.
    pub open spec fn v(&self) -> nat {
        (self.n - self.o) as nat
    }

    /// Whether the parameter set is consistent: the field is GF(16), the
    /// dimensions are positive with fewer oil variables than variables, the
    /// number of equations is a multiple of eight, the byte lengths are those
    /// of the artifacts they name, and every length fits the machine.
    pub open spec fn wf(&self) -> bool {
        &&& self.q == 16
        &&& 0 < self.o < self.n
        &&& 0 < self.k
        &&& 0 < self.m
        &&& self.m % 8 == 0
        &&& is_vec(self.f_tail@)
        &&& self.f_tail@.len() <= self.m
        &&& self.pk_seed_bytes == 16
        &&& self.v() * self.o <= usize::MAX
        &&& self.O_bytes == (self.v() * self.o + 1) / 2
        &&& self.v_bytes == (self.v() + 1) / 2
        &&& self.P1_bytes == batch_bytes(self.m as nat, self.v(), self.v(), true)
        &&& self.P2_bytes == batch_bytes(self.m as nat, self.v(), self.o as nat, false)
        &&& self.P3_bytes == batch_bytes(self.m as nat, self.o as nat, self.o as nat, true)
        &&& self.L_bytes == batch_bytes(self.m as nat, self.v(), self.o as nat, false)
        &&& self.csk_bytes == self.sk_seed_bytes
        &&& self.esk_bytes == self.sk_seed_bytes + self.O_bytes + self.P1_bytes + self.L_bytes
        &&& self.cpk_bytes == self.pk_seed_bytes + self.P3_bytes
        &&& self.epk_bytes == self.P1_bytes + self.P2_bytes + self.P3_bytes
        &&& self.n * self.k <= usize::MAX
        &&& self.sig_bytes == (self.n * self.k + 1) / 2 + self.salt_bytes
        &&& self.k * self.o + 1 <= usize::MAX
        &&& num_pairs(self.k as nat) <= usize::MAX
        &&& self.k * self.v_bytes + (self.k * self.o + 1) / 2 <= usize::MAX
        &&& self.pk_seed_bytes + self.O_bytes <= usize::MAX
        &&& self.digest_bytes + self.salt_bytes + self.sk_seed_bytes + 1 <= usize::MAX
    }

    /// Checks that the parameter set is consistent.
    pub fn is_valid(&self) -> (b: bool)
        ensures
            b == self.wf(),
    {
        if self.q != 16 || self.o == 0 || self.o >= self.n || self.k == 0 || self.m == 0 || self.m
            % 8 != 0 || self.f_tail.len() > self.m || self.pk_seed_bytes != 16 {
            return false;
        }
        let mut i: usize = 0;
        while i < self.f_tail.len()
            invariant
                i <= self.f_tail@.len(),
                forall|t: int| 0 <= t < i ==> self.f_tail@[t] < 16,
            decreases self.f_tail@.len() - i,
        {
            if self.f_tail[i] >= 16 {
                return false;
            }
            i += 1;
        }
        let v = self.n - self.o;
        let vo = match v.checked_mul(self.o) {
            Some(x) => x,
            None => {
                return false;
            },
        };
        if self.O_bytes != vo / 2 + vo % 2 || self.v_bytes != v / 2 + v % 2 {
            return false;
        }
        if encoded_len(self.m, v, v, true) != Some(self.P1_bytes) || encoded_len(
            self.m,
            v,
            self.o,
            false,
        ) != Some(self.P2_bytes) || encoded_len(self.m, self.o, self.o, true) != Some(
            self.P3_bytes,
        ) || self.L_bytes != self.P2_bytes || self.csk_bytes != self.sk_seed_bytes {
            return false;
        }
        if !sums_to(self.esk_bytes, self.sk_seed_bytes, self.O_bytes, self.P1_bytes, self.L_bytes)
            || !sums_to(self.cpk_bytes, self.pk_seed_bytes, self.P3_bytes, 0, 0) || !sums_to(
            self.epk_bytes,
            self.P1_bytes,
            self.P2_bytes,
            self.P3_bytes,
            0,
        ) {
            return false;
        }
        let nk = match self.n.checked_mul(self.k) {
            Some(x) => x,
            None => {
                return false;
            },
        };
        if !sums_to(self.sig_bytes, nk / 2, nk % 2, self.salt_bytes, 0) {
            return false;
        }
        let ko = match self.k.checked_mul(self.o) {
            Some(x) => x,
            None => {
                return false;
            },
        };
        if ko == usize::MAX {
            return false;
        }
        let kw = match self.k.checked_mul(self.v_bytes) {
            Some(x) => x,
            None => {
                proof {
                    assert(self.k * self.v_bytes + (self.k * self.o + 1) / 2 > usize::MAX);
                }
                return false;
            },
        };
        if !fits(kw, ko / 2, ko % 2, 0) || !fits(self.pk_seed_bytes, self.O_bytes, 0, 0) || !fits(
            self.digest_bytes,
            self.salt_bytes,
            self.sk_seed_bytes,
            1,
        ) {
            return false;
        }
        count_pairs(self.k).is_some()
    }

    /// The number of vinegar variables, `n - o`.
    pub fn param_v(&self) -> (v: usize)
        requires
            self.o <= self.n,
        ensures
            v == self.n - self.o,
    {
        self.n - self.o
    }

    /// The number of columns of the augmented linear system of a signing
    /// attempt, `k * o + 1`.
    pub fn param_a_cols(&self) -> (c: usize)
        requires
            self.k * self.o + 1 <= usize::MAX,
        ensures
            c == self.k * self.o + 1,
    {
        self.k * self.o + 1
    }
}

/// Whether `total` is the sum of four terms.
fn sums_to(total: usize, a: usize, b: usize, c: usize, d: usize) -> (r: bool)
    ensures
        r == (total == a + b + c + d),
{
    match a.checked_add(b) {
        Some(ab) => match ab.checked_add(c) {
            Some(abc) => match abc.checked_add(d) {
                Some(s) => s == total,
                None => false,
            },
            None => false,
        },
        None => false,
    }
}

/// Whether the sum of four terms fits the machine.
fn fits(a: usize, b: usize, c: usize, d: usize) -> (r: bool)
    ensures
        r == (a + b + c + d <= usize::MAX),
{
    match a.checked_add(b) {
        Some(ab) => match ab.checked_add(c) {
            Some(abc) => abc.checked_add(d).is_some(),
            None => false,
        },
        None => false,
    }
}

/// The number of pairs of `k` blocks, unless it exceeds the machine's range.
fn count_pairs(k: usize) -> (res: Option<usize>)
    ensures
        match res {
            Some(n) => n == num_pairs(k as nat),
            None => num_pairs(k as nat) > usize::MAX,
        },
{
    let mut acc: usize = 0;
    let mut i: usize = 0;
    while i < k
        invariant
            i <= k,
            acc == pairs_before(k as nat, i as nat),
        decreases k - i,
    {
        match acc.checked_add(k - i) {
            Some(s) => {
                acc = s;
            },
            None => {
                proof {
                    crate::whipping::lemma_pairs_before_monotonic(k as nat, (i + 1) as nat, k as nat);
                }
                return None;
            },
        }
        i += 1;
    }
    Some(acc)
}

/// The number of written positions before row `i`, in closed form.
pub proof fn lemma_slots_before_closed(cols: nat, tri: bool, i: nat)
    ensures
        !tri ==> slots_before(cols, tri, i) == i * cols,
        tri && i <= cols ==> 2 * slots_before(cols, tri, i) == i * (2 * cols - i + 1),
    decreases i,
{
    if i > 0 {
        let j = (i - 1) as nat;
        lemma_slots_before_closed(cols, tri, j);
        if !tri {
            assert(i * cols == j * cols + cols) by (nonlinear_arith)
                requires
                    i == j + 1,
            ;
        } else if i <= cols {
            assert(i * (2 * cols - i + 1) == j * (2 * cols - j + 1) + 2 * (cols - j)) by (nonlinear_arith)
                requires
                    i == j + 1,
            ;
        }
    }
}

/// The parameter set of the first security level: 64 equations in 66
/// variables, 8 of them oil, 9 blocks. A caller who wants another polynomial
/// `f` copies the set and replaces `f_tail`.
pub fn mayo1() -> (p: MayoParams<'static>)
    ensures
        p.wf(),
        p.m == 64,
        p.n == 66,
        p.o == 8,
        p.k == 9,
        p.q == 16,
        p.f_tail@ == seq![0u8, 1u8, 2u8],
        p.cpk_bytes == 1168,
        p.sig_bytes == 321,
{
    let tail: &'static [u8] = &[0, 1, 2];
    let p = MayoParams {
        m: 64,
        n: 66,
        o: 8,
        k: 9,
        q: 16,
        f_tail: tail,
        O_bytes: 232,
        v_bytes: 29,
        P1_bytes: 54752,
        P2_bytes: 14848,
        P3_bytes: 1152,
        L_bytes: 14848,
        csk_bytes: 24,
        esk_bytes: 69856,
        cpk_bytes: 1168,
        epk_bytes: 70752,
        sig_bytes: 321,
        salt_bytes: 24,
        digest_bytes: 32,
        pk_seed_bytes: 16,
        sk_seed_bytes: 24,
    };
    proof {
        lemma_slots_before_closed(58, true, 58);
        lemma_slots_before_closed(8, false, 58);
        lemma_slots_before_closed(8, true, 8);
        assert(p.f_tail@ =~= seq![0u8, 1u8, 2u8]);
        assert(p.v() == 58);
        assert(is_vec(p.f_tail@));
        assert(slots_before(58, true, 58) == 1711);
        assert(slots_before(8, false, 58) == 464);
        assert(slots_before(8, true, 8) == 36);
        let h = 64nat / 2;
        let c1 = slots_before(58, true, 58);
        let c2 = slots_before(8, false, 58);
        let c3 = slots_before(8, true, 8);
        assert(c1 * h == 54752 && c2 * h == 14848 && c3 * h == 1152) by (nonlinear_arith)
            requires
                h == 32,
                c1 == 1711,
                c2 == 464,
                c3 == 36,
        ;
        assert(batch_bytes(64, 58, 58, true) == 54752);
        assert(batch_bytes(64, 58, 8, false) == 14848);
        assert(batch_bytes(64, 8, 8, true) == 1152);
        assert(p.v() * p.o == 464);
        assert(p.n * p.k == 594);
        assert(p.k * p.o == 72);
        assert(p.k * p.v_bytes == 261);
        assert(num_pairs(9) == 45) by {
            reveal_with_fuel(pairs_before, 10);
        }
    }
    p
}

} // verus!
