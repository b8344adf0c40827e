//! Threshold sharing: splitting bytes into shares and combining shares into bytes.

use crate::error::{outcome_view, CoreError, CoreResult, Failure};
use crate::gf256::{
    fadd, finv, fmul, fpow, lemma_add_laws, lemma_inverse, lemma_mul_commutative, lemma_mul_unit,
    Gf256,
};
use crate::lagrange::{
    basis, basis_upto, distinct, interpolate, lemma_interpolation, lemma_inverse_of_product,
    lemma_mul_left_commute, lemma_mul_swap4, poly_eval, ratio, seq_sum, terms,
};
use rand::rngs::OsRng;
use rand::RngCore;
use vstd::prelude::*;

verus! {

/// Sixteen bytes that name one set of sibling shares.
#[derive(Clone, Copy, Debug, PartialEq, Eq)]
pub struct SetId(pub [u8; 16]);

/// One share of a secret: the point `x` and, byte for byte, the values there of the
/// polynomials that hide the secret.
#[derive(Clone, Debug, PartialEq, Eq)]
pub struct RawShare {
    pub set_id: SetId,
    pub k: u8,
    pub n: u8,
    pub x: u8,
    pub y: Vec<u8>,
}

/// A share as a mathematical value.
pub struct ShareView {
    pub set_id: Seq<u8>,
    pub k: u8,
    pub n: u8,
    pub x: u8,
    pub y: Seq<u8>,
}

impl View for RawShare {
    type V = ShareView;

    open spec fn view(&self) -> ShareView {
        ShareView { set_id: self.set_id.0@, k: self.k, n: self.n, x: self.x, y: self.y@ }
    }
}

/// The shares of a sequence as mathematical values.
pub open spec fn views_of(shares: Seq<RawShare>) -> Seq<ShareView> {
    Seq::new(shares.len(), |j: int| shares[j]@)
}

/// Fills `dest` from the operating system's random source, by `fill_bytes` of rand's
/// `OsRng`. The length stays; nothing is known of the bytes. Where the system's source
/// fails, rand panics.
#[verifier::external_body]
pub(crate) fn fill_random(dest: &mut Vec<u8>)
    ensures
        final(dest)@.len() == old(dest)@.len(),
{
    OsRng.fill_bytes(dest.as_mut_slice());
}

/// Whether two set identifiers are the same.
pub fn same_set_id(a: &SetId, b: &SetId) -> (r: bool)
    ensures
        r == (*a == *b),
        r == (a.0@ == b.0@),
{
    let mut i: usize = 0;
    while i < 16
        invariant
            i <= 16,
            forall|t: int| 0 <= t < i ==> a.0[t] == b.0[t],
        decreases 16 - i,
    {
        if a.0[i] != b.0[i] {
            return false;
        }
        i += 1;
    }
    assert(a.0 =~= b.0);
    true
}

impl SetId {
    /// A fresh identifier from the operating system's random source.
    pub fn random() -> (r: SetId) {
        let mut bytes: Vec<u8> = vec![0u8; 16];
        fill_random(&mut bytes);
        let mut id: [u8; 16] = [0u8; 16];
        let mut i: usize = 0;
        while i < 16
            invariant
                i <= 16,
                bytes@.len() == 16,
            decreases 16 - i,
        {
            id[i] = bytes[i];
            i += 1;
        }
        SetId(id)
    }
}

/// `1 <= k <= n`.
pub open spec fn valid_threshold(k: u8, n: u8) -> bool {
    k != 0 && n != 0 && k <= n
}

/// One polynomial for each byte of the secret, with `k` coefficients of which the constant
/// term is that byte.
pub open spec fn hides(polys: Seq<Seq<u8>>, secret: Seq<u8>, k: u8) -> bool {
    &&& polys.len() == secret.len()
    &&& forall|i: int|
        0 <= i < secret.len() ==> (#[trigger] polys[i]).len() == k && polys[i][0] == secret[i]
}

/// Each share holds, byte for byte, the value of that byte's polynomial at the share's
/// point.
pub open spec fn carries(shares: Seq<ShareView>, polys: Seq<Seq<u8>>) -> bool {
    forall|j: int, i: int|
        0 <= j < shares.len() && 0 <= i < polys.len() ==> #[trigger] shares[j].y[i] == poly_eval(
            polys[i],
            shares[j].x,
        )
}

/// `shares` are the `n` shares of `secret` with threshold `k`: they carry the given
/// identifier and parameters, stand at the points `1 ..= n`, and hold the values of
/// polynomials of degree below `k` whose constant terms are the bytes of the secret.
pub open spec fn is_sharing(
    shares: Seq<ShareView>,
    secret: Seq<u8>,
    k: u8,
    n: u8,
    set_id: Seq<u8>,
) -> bool {
    &&& shares.len() == n
    &&& forall|j: int|
        0 <= j < shares.len() ==> {
            &&& (#[trigger] shares[j]).set_id == set_id
            &&& shares[j].k == k
            &&& shares[j].n == n
            &&& shares[j].x == j + 1
            &&& shares[j].y.len() == secret.len()
        }
    &&& exists|polys: Seq<Seq<u8>>| #[trigger] hides(polys, secret, k) && carries(shares, polys)
}

/// Whether two shares agree on identifier, parameters and length.
pub open spec fn same_set(a: ShareView, b: ShareView) -> bool {
    a.set_id == b.set_id && a.k == b.k && a.n == b.n && a.y.len() == b.y.len()
}

/// Whether an earlier share than the `i`-th stands at the same point.
pub open spec fn repeats(s: Seq<ShareView>, i: int) -> bool {
    exists|j: int| 0 <= j < i && (#[trigger] s[j]).x == s[i].x
}

/// What is wrong with the `i`-th share, if anything: it disagrees with the first, stands
/// at zero, or repeats a point.
pub open spec fn defect_at(s: Seq<ShareView>, i: int) -> Option<Failure> {
    if !same_set(s[i], s[0]) {
        Some(Failure::InconsistentMetadata)
    } else if s[i].x == 0 {
        Some(Failure::InvalidX)
    } else if repeats(s, i) {
        Some(Failure::DuplicateX { x: s[i].x })
    } else {
        None
    }
}

/// The defect of the first share from `from` on that has one.
pub open spec fn first_defect(s: Seq<ShareView>, from: int) -> Option<Failure>
    decreases s.len() - from,
{
    if from >= s.len() {
        None
    } else if defect_at(s, from) is Some {
        defect_at(s, from)
    } else {
        first_defect(s, from + 1)
    }
}

/// The points of the shares.
pub open spec fn points(s: Seq<ShareView>) -> Seq<u8> {
    Seq::new(s.len(), |j: int| s[j].x)
}

/// The `i`-th byte of each share.
pub open spec fn column(s: Seq<ShareView>, i: int) -> Seq<u8> {
    Seq::new(s.len(), |j: int| s[j].y[i])
}

/// The bytes that the shares interpolate to at zero.
pub open spec fn interpolated(s: Seq<ShareView>) -> Seq<u8> {
    Seq::new(s[0].y.len(), |i: int| interpolate(points(s), column(s, i)))
}

/// What combining the shares `s` gives.
pub open spec fn combine_spec(s: Seq<ShareView>) -> Result<Seq<u8>, Failure> {
    if s.len() == 0 {
        Err(Failure::NotEnoughShares { k: 1, m: 0 })
    } else {
        match first_defect(s, 0) {
            Some(f) => Err(f),
            None => if s.len() < s[0].k {
                Err(Failure::NotEnoughShares { k: s[0].k, m: s.len() as usize })
            } else {
                Ok(interpolated(s))
            },
        }
    }
}

/// The first defect is that of the first share that has one.
proof fn lemma_first_defect_found(s: Seq<ShareView>, from: int, i: int)
    requires
        0 <= from <= i < s.len(),
        forall|t: int| from <= t < i ==> defect_at(s, t) is None,
        defect_at(s, i) is Some,
    ensures
        first_defect(s, from) == defect_at(s, i),
    decreases i - from,
{
    if from < i {
        lemma_first_defect_found(s, from + 1, i);
    }
}

/// Shares without a defect have no first defect.
proof fn lemma_no_defect(s: Seq<ShareView>, from: int)
    requires
        0 <= from,
        forall|t: int| from <= t < s.len() ==> defect_at(s, t) is None,
    ensures
        first_defect(s, from) is None,
    decreases s.len() - from,
{
    if from < s.len() {
        lemma_no_defect(s, from + 1);
    }
}

/// Shares without a defect stand at distinct points.
proof fn lemma_defect_free_is_distinct(s: Seq<ShareView>)
    requires
        forall|t: int| 0 <= t < s.len() ==> defect_at(s, t) is None,
    ensures
        distinct(points(s)),
{
    assert forall|i: int, j: int| 0 <= i < j < s.len() implies points(s)[i] != points(s)[j] by {
        assert(defect_at(s, j) is None);
    }
}

/// Appending a coefficient adds its term: `(c + v x^len)(x) == c(x) + v x^len`.
pub proof fn lemma_eval_push(c: Seq<u8>, v: u8, x: u8)
    ensures
        poly_eval(c.push(v), x) == fadd(poly_eval(c, x), fmul(v, fpow(x, c.len()))),
    decreases c.len(),
{
    let t = fmul(v, fpow(x, c.len()));
    if c.len() == 0 {
        reveal_with_fuel(poly_eval, 2);
        lemma_mul_unit(x);
        lemma_mul_unit(v);
        lemma_add_laws(v, 0, 0);
    } else {
        let c1 = c.drop_first();
        assert(c.push(v).drop_first() =~= c1.push(v));
        lemma_eval_push(c1, v, x);
        let p1 = poly_eval(c1, x);
        let t1 = fmul(v, fpow(x, c1.len()));
        crate::gf256::lemma_mul_distributive(x, p1, t1);
        lemma_mul_left_commute(x, v, fpow(x, c1.len()));
        lemma_add_laws(c[0], fmul(x, p1), t);
    }
}

/// The value at zero of a polynomial is its constant term.
pub proof fn lemma_eval_at_zero(c: Seq<u8>)
    requires
        c.len() > 0,
    ensures
        poly_eval(c, 0) == c[0],
{
    lemma_mul_unit(poly_eval(c.drop_first(), 0));
    lemma_add_laws(c[0], 0, 0);
}

/// One more factor of a basis value, kept as a numerator and a denominator.
proof fn lemma_basis_step(num: u8, den: u8, xm: u8, xj: u8)
    requires
        den != 0,
        xm != xj,
    ensures
        fmul(den, fadd(xj, xm)) != 0,
        fmul(fmul(num, xm), finv(fmul(den, fadd(xj, xm)))) == fmul(
            fmul(num, finv(den)),
            ratio(xm, xj),
        ),
{
    let d = fadd(xj, xm);
    crate::gf256::lemma_add_rearrange(xj, xm, 0, 0);
    lemma_inverse_of_product(den, d);
    lemma_mul_swap4(num, xm, finv(den), finv(d));
}

/// Splits `secret` into `n` shares of which any `k` give it back.
///
/// For every byte a polynomial of degree below `k` is drawn, with that byte as its
/// constant term and the other coefficients from the system's random source; the share
/// at the point `x` holds the polynomials' values there.
pub fn split(secret: &[u8], k: u8, n: u8, set_id: SetId) -> (r: CoreResult<Vec<RawShare>>)
    ensures
        match r {
            Ok(shares) => valid_threshold(k, n) && is_sharing(
                views_of(shares@),
                secret@,
                k,
                n,
                set_id.0@,
            ),
            Err(e) => !valid_threshold(k, n) && e@ == (Failure::InvalidKAndN { k, n }),
        },
{
    if k == 0 || n == 0 || k > n {
        return Err(CoreError::InvalidKAndN { k, n });
    }
    let secret_len = secret.len();
    let mut shares: Vec<RawShare> = Vec::new();
    let mut x: u8 = 1;
    loop
        invariant_except_break
            1 <= x <= n,
            shares@.len() == x - 1,
        invariant
            n != 0,
            secret_len == secret@.len(),
            forall|j: int|
                0 <= j < shares@.len() ==> {
                    &&& (#[trigger] shares@[j]).set_id == set_id
                    &&& shares@[j].k == k
                    &&& shares@[j].n == n
                    &&& shares@[j].x == j + 1
                    &&& shares@[j].y@.len() == secret_len
                },
        ensures
            shares@.len() == n,
        decreases n - x,
    {
        shares.push(RawShare { set_id, k, n, x, y: vec![0u8; secret_len] });
        if x == n {
            break ;
        }
        x += 1;
    }
    let mut coeffs: Vec<u8> = vec![0u8; (k - 1) as usize];
    let ghost mut polys: Seq<Seq<u8>> = Seq::empty();
    let mut idx: usize = 0;
    while idx < secret_len
        invariant
            idx <= secret_len,
            secret_len == secret@.len(),
            valid_threshold(k, n),
            coeffs@.len() == k - 1,
            shares@.len() == n,
            forall|j: int|
                0 <= j < shares@.len() ==> {
                    &&& (#[trigger] shares@[j]).set_id == set_id
                    &&& shares@[j].k == k
                    &&& shares@[j].n == n
                    &&& shares@[j].x == j + 1
                    &&& shares@[j].y@.len() == secret_len
                },
            polys.len() == idx,
            forall|i: int|
                0 <= i < idx ==> (#[trigger] polys[i]).len() == k && polys[i][0] == secret@[i],
            forall|j: int, i: int|
                0 <= j < shares@.len() && 0 <= i < idx ==> #[trigger] shares@[j].y@[i] == poly_eval(
                    polys[i],
                    shares@[j].x,
                ),
        decreases secret_len - idx,
    {
        let byte = secret[idx];
        if coeffs.len() != 0 {
            fill_random(&mut coeffs);
        }
        let ghost poly = seq![byte] + coeffs@;
        let mut j: usize = 0;
        while j < shares.len()
            invariant
                j <= shares@.len(),
                idx < secret_len,
                secret_len == secret@.len(),
                byte == secret@[idx as int],
                poly == seq![byte] + coeffs@,
                coeffs@.len() == k - 1,
                shares@.len() == n,
                forall|j: int|
                    0 <= j < shares@.len() ==> {
                        &&& (#[trigger] shares@[j]).set_id == set_id
                        &&& shares@[j].k == k
                        &&& shares@[j].n == n
                        &&& shares@[j].x == j + 1
                        &&& shares@[j].y@.len() == secret_len
                    },
                polys.len() == idx,
                forall|t: int, i: int|
                    0 <= t < shares@.len() && 0 <= i < idx ==> #[trigger] shares@[t].y@[i]
                        == poly_eval(polys[i], shares@[t].x),
                forall|t: int|
                    0 <= t < j ==> #[trigger] shares@[t].y@[idx as int] == poly_eval(
                        poly,
                        shares@[t].x,
                    ),
            decreases shares@.len() - j,
        {
            let px = shares[j].x;
            let value = evaluate(byte, &coeffs, px);
            store(&mut shares[j], idx, value);
            j += 1;
        }
        proof {
            polys = polys.push(poly);
        }
        idx += 1;
    }
    proof {
        assert(hides(polys, secret@, k));
    }
    Ok(shares)
}

/// The value at `x` of the polynomial with constant term `byte` and the further
/// coefficients `coeffs`.
pub fn evaluate(byte: u8, coeffs: &Vec<u8>, x: u8) -> (v: u8)
    ensures
        v == poly_eval(seq![byte] + coeffs@, x),
{
    let px = Gf256(x);
    let mut y = Gf256(byte);
    let mut x_pow = Gf256(1);
    let ghost poly = seq![byte] + coeffs@;
    proof {
        reveal_with_fuel(poly_eval, 2);
        lemma_mul_unit(x);
        lemma_add_laws(byte, 0, 0);
    }
    let mut t: usize = 0;
    while t < coeffs.len()
        invariant
            t <= coeffs@.len(),
            px.0 == x,
            poly == seq![byte] + coeffs@,
            x_pow.0 == fpow(x, t as nat),
            y.0 == poly_eval(poly.take(t + 1), x),
        decreases coeffs@.len() - t,
    {
        proof {
            lemma_mul_commutative(fpow(x, t as nat), x);
            lemma_eval_push(poly.take(t + 1), coeffs@[t as int], x);
            assert(poly.take(t + 1).push(coeffs@[t as int]) =~= poly.take(t + 2));
        }
        x_pow = x_pow * px;
        y = y + Gf256(coeffs[t]) * x_pow;
        t += 1;
    }
    assert(poly.take(coeffs@.len() as int + 1) =~= poly);
    y.0
}

/// Writes one byte of a share.
fn store(share: &mut RawShare, idx: usize, value: u8)
    requires
        idx < old(share).y@.len(),
    ensures
        final(share).set_id == old(share).set_id,
        final(share).k == old(share).k,
        final(share).n == old(share).n,
        final(share).x == old(share).x,
        final(share).y@ == old(share).y@.update(idx as int, value),
{
    share.y[idx] = value;
}

/// Recovers the secret from `k` or more of its shares, by interpolation at zero.
///
/// Fails when there are no shares; for the first share that disagrees with the first of
/// all on identifier, `k`, `n` or length, stands at the point zero, or repeats an earlier
/// share's point; and, when the shares are in order, when there are fewer than `k`.
pub fn combine(shares: &[RawShare]) -> (r: CoreResult<Vec<u8>>)
    ensures
        outcome_view(r) == combine_spec(views_of(shares@)),
{
    let ghost sv = views_of(shares@);
    if shares.len() == 0 {
        return Err(CoreError::NotEnoughShares { k: 1, m: 0 });
    }
    let k = shares[0].k;
    let set_id = shares[0].set_id;
    let n = shares[0].n;
    let y_len = shares[0].y.len();
    let mut seen: [bool; 256] = [false; 256];
    let mut xs: Vec<u8> = Vec::new();
    let mut i: usize = 0;
    while i < shares.len()
        invariant
            i <= shares@.len(),
            sv == views_of(shares@),
            shares@.len() > 0,
            k == sv[0].k,
            n == sv[0].n,
            set_id.0@ == sv[0].set_id,
            y_len == sv[0].y.len(),
            forall|t: int| 0 <= t < i ==> defect_at(sv, t) is None,
            forall|v: int|
                0 <= v < 256 ==> (seen[v] <==> exists|t: int|
                    0 <= t < i && (#[trigger] sv[t]).x == v),
            xs@ == points(sv).take(i as int),
        decreases shares@.len() - i,
    {
        let s = &shares[i];
        if !same_set_id(&s.set_id, &set_id) || s.k != k || s.n != n || s.y.len() != y_len {
            proof {
                lemma_first_defect_found(sv, 0, i as int);
            }
            return Err(CoreError::InconsistentMetadata);
        }
        if s.x == 0 {
            proof {
                lemma_first_defect_found(sv, 0, i as int);
            }
            return Err(CoreError::InvalidX);
        }
        if seen[s.x as usize] {
            proof {
                lemma_first_defect_found(sv, 0, i as int);
            }
            return Err(CoreError::DuplicateX { x: s.x });
        }
        assert(!repeats(sv, i as int));
        seen[s.x as usize] = true;
        xs.push(s.x);
        i += 1;
    }
    proof {
        lemma_no_defect(sv, 0);
        lemma_defect_free_is_distinct(sv);
    }
    if shares.len() < k as usize {
        return Err(CoreError::NotEnoughShares { k, m: shares.len() });
    }
    let mut out: Vec<u8> = Vec::new();
    let mut byte_idx: usize = 0;
    while byte_idx < y_len
        invariant
            byte_idx <= y_len,
            sv == views_of(shares@),
            shares@.len() > 0,
            y_len == sv[0].y.len(),
            forall|t: int| 0 <= t < sv.len() ==> defect_at(sv, t) is None,
            distinct(points(sv)),
            xs@ == points(sv),
            out@.len() == byte_idx,
            forall|b: int| 0 <= b < byte_idx ==> out@[b] == interpolate(points(sv), column(sv, b)),
        decreases y_len - byte_idx,
    {
        let ghost col = column(sv, byte_idx as int);
        let mut acc = Gf256(0);
        let mut j: usize = 0;
        while j < shares.len()
            invariant
                j <= shares@.len(),
                byte_idx < y_len,
                sv == views_of(shares@),
                shares@.len() > 0,
                y_len == sv[0].y.len(),
                forall|t: int| 0 <= t < sv.len() ==> defect_at(sv, t) is None,
                distinct(points(sv)),
                xs@ == points(sv),
                col == column(sv, byte_idx as int),
                acc.0 == seq_sum(terms(xs@, col), j as nat),
            decreases shares@.len() - j,
        {
            let x_j = Gf256(xs[j]);
            let mut num = Gf256(1);
            let mut den = Gf256(1);
            proof {
                lemma_inverse(1);
            }
            let mut m: usize = 0;
            while m < xs.len()
                invariant
                    m <= xs@.len(),
                    j < xs@.len(),
                    x_j.0 == xs@[j as int],
                    distinct(xs@),
                    den.0 != 0,
                    fmul(num.0, finv(den.0)) == basis_upto(xs@, j as int, m as nat),
                decreases xs@.len() - m,
            {
                if m != j {
                    let x_m = Gf256(xs[m]);
                    proof {
                        lemma_basis_step(num.0, den.0, x_m.0, x_j.0);
                    }
                    num = num * x_m;
                    den = den * (x_j - x_m);
                }
                m += 1;
            }
            let lambda = match num.checked_div(den) {
                Ok(v) => v,
                Err(e) => {
                    return Err(e);
                },
            };
            assert(defect_at(sv, j as int) is None);
            acc = acc + Gf256(shares[j].y[byte_idx]) * lambda;
            j += 1;
        }
        out.push(acc.0);
        byte_idx += 1;
    }
    assert(out@ =~= interpolated(sv));
    Ok(out)
}

/// Any `k` or more shares of one sharing, none taken twice, combine to the secret.
pub proof fn lemma_combine_recovers(
    all: Seq<ShareView>,
    picked: Seq<ShareView>,
    secret: Seq<u8>,
    k: u8,
    n: u8,
    set_id: Seq<u8>,
)
    requires
        valid_threshold(k, n),
        is_sharing(all, secret, k, n, set_id),
        picked.len() >= k,
        forall|i: int| 0 <= i < picked.len() ==> all.contains(#[trigger] picked[i]),
        distinct(points(picked)),
    ensures
        combine_spec(picked) == Ok::<Seq<u8>, Failure>(secret),
{
    let polys = choose|polys: Seq<Seq<u8>>|
        #[trigger] hides(polys, secret, k) && carries(all, polys);
    assert forall|t: int| 0 <= t < picked.len() implies defect_at(picked, t) is None by {
        if repeats(picked, t) {
            let w = choose|w: int| 0 <= w < t && (#[trigger] picked[w]).x == picked[t].x;
            assert(points(picked)[w] == points(picked)[t]);
        }
    }
    lemma_no_defect(picked, 0);
    assert forall|i: int| 0 <= i < secret.len() implies interpolate(
        points(picked),
        column(picked, i),
    ) == secret[i] by {
        lemma_interpolation(points(picked), polys[i], column(picked, i));
        lemma_eval_at_zero(polys[i]);
    }
    assert(interpolated(picked) =~= secret);
}

/// Fewer shares of one sharing than its threshold, none taken twice, do not combine:
/// there are not enough shares.
pub proof fn lemma_combine_needs_threshold(
    all: Seq<ShareView>,
    picked: Seq<ShareView>,
    secret: Seq<u8>,
    k: u8,
    n: u8,
    set_id: Seq<u8>,
)
    requires
        valid_threshold(k, n),
        is_sharing(all, secret, k, n, set_id),
        picked.len() < k,
        forall|i: int| 0 <= i < picked.len() ==> all.contains(#[trigger] picked[i]),
        distinct(points(picked)),
    ensures
        combine_spec(picked) is Err,
        combine_spec(picked)->Err_0 is NotEnoughShares,
{
    if picked.len() > 0 {
        assert forall|t: int| 0 <= t < picked.len() implies defect_at(picked, t) is None by {
            if repeats(picked, t) {
                let w = choose|w: int| 0 <= w < t && (#[trigger] picked[w]).x == picked[t].x;
                assert(points(picked)[w] == points(picked)[t]);
            }
        }
        lemma_no_defect(picked, 0);
    }
}

/// With the threshold one, every share holds the secret itself.
pub proof fn lemma_single_coefficient(
    all: Seq<ShareView>,
    secret: Seq<u8>,
    n: u8,
    set_id: Seq<u8>,
    j: int,
)
    requires
        is_sharing(all, secret, 1, n, set_id),
        0 <= j < all.len(),
    ensures
        all[j].y == secret,
{
    let polys = choose|polys: Seq<Seq<u8>>|
        #[trigger] hides(polys, secret, 1) && carries(all, polys);
    assert forall|i: int| 0 <= i < secret.len() implies all[j].y[i] == secret[i] by {
        reveal_with_fuel(poly_eval, 2);
        lemma_mul_unit(all[j].x);
        lemma_add_laws(polys[i][0], 0, 0);
    }
}

} // verus!
