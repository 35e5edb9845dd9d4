use vstd::prelude::*;
use vstd::arithmetic::div_mod::{lemma_fundamental_div_mod, lemma_fundamental_div_mod_converse};
use vstd::arithmetic::mul::lemma_mul_inequality;

use crate::coin::{
    add_overflows, amount_in, distinct_denoms, lemma_text_lt_irreflexive, lemma_text_lt_total,
    lemma_text_lt_transitive, sub_underflows, text_lt, Addr, Coin, CoinSet, Entry,
};
use crate::math::TryMinusMut;
use crate::err::XcosmError;

verus! {

/// The basis points that make up the whole.
pub const BPS_DENOMINATOR: u32 = 100000;

/// The part of `amount` that `bps` basis points claim, rounded down.
pub open spec fn share(amount: nat, bps: nat) -> nat {
    (amount * bps) / (BPS_DENOMINATOR as nat)
}

/// The denominations of a balance, in order.
pub open spec fn denoms(s: Seq<Entry>) -> Seq<Seq<char>> {
    s.map_values(|e: Entry| e.0)
}

/// `r` holds the same denominations as `s`, each scaled to its share under `bps`.
pub open spec fn scaled(s: Seq<Entry>, bps: nat, r: Seq<Entry>) -> bool {
    &&& r.len() == s.len()
    &&& forall|i: int| 0 <= i < s.len() ==> r[i].0 == s[i].0 && r[i].1 as nat == share(s[i].1 as nat, bps)
}

/// Some amount of `s`, scaled under `bps`, passes `u128::MAX`.
pub open spec fn scale_overflows(s: Seq<Entry>, bps: nat) -> bool {
    exists|i: int| 0 <= i < s.len() && share(s[i].1 as nat, bps) > u128::MAX
}

/// A claim's share grows with the amount it is taken from, and a claim of at
/// most the whole never takes more than there is.
pub proof fn lemma_share_monotonic(bps: nat, a: nat, b: nat)
    requires
        a <= b,
    ensures
        share(a, bps) <= share(b, bps),
        bps <= BPS_DENOMINATOR ==> share(a, bps) <= a,
{
    let d = BPS_DENOMINATOR as int;
    lemma_mul_inequality(a as int, b as int, bps as int);
    vstd::arithmetic::div_mod::lemma_div_is_ordered((a * bps) as int, (b * bps) as int, d);
    if bps <= BPS_DENOMINATOR {
        lemma_mul_inequality(bps as int, d, a as int);
        assert(a * bps <= a * d) by (nonlinear_arith)
            requires bps <= d;
        vstd::arithmetic::div_mod::lemma_div_is_ordered((a * bps) as int, (a * d) as int, d);
        vstd::arithmetic::div_mod::lemma_div_by_multiple(a as int, d);
    }
}

/// A share times the denominator is at most the unrounded product.
proof fn lemma_share_floor(amount: nat, bps: nat)
    ensures
        share(amount, bps) * (BPS_DENOMINATOR as nat) <= amount * bps,
{
    let d = BPS_DENOMINATOR as int;
    lemma_fundamental_div_mod((amount * bps) as int, d);
}

/// A proportional share, in basis points of [`BPS_DENOMINATOR`].
#[derive(Debug, Clone, Copy, PartialEq, Eq)]
pub struct Claim(u32);

impl View for Claim {
    type V = u32;

    closed spec fn view(&self) -> u32 {
        self.0
    }
}

impl Claim {
    /// A claim of `bps` basis points.
    pub fn new(bps: u32) -> (r: Claim)
        ensures
            r@ == bps,
    {
        Claim(bps)
    }

    /// The claim's basis points.
    pub fn bps(&self) -> (r: u32)
        ensures
            r == self@,
    {
        self.0
    }

    /// The claim's share of `total`: `floor(total * bps / 100000)`, computed
    /// without an intermediate overflow; fails only where the share itself
    /// passes `u128::MAX`.
    pub fn claim_amount(&self, total: u128) -> (r: Result<u128, XcosmError>)
        ensures
            match r {
                Ok(a) => a as nat == share(total as nat, self@ as nat),
                Err(e) => share(total as nat, self@ as nat) > u128::MAX && e == (
                XcosmError::MathOverflow {}),
            },
    {
        let b = self.0 as u128;
        let d = BPS_DENOMINATOR as u128;
        // The denominator is a non-zero constant, so this branch is never taken.
        let q: u128 = match total.checked_div(d) {
            Some(q) => q,
            None => {
                return Err(XcosmError::MathDivByZero {});
            },
        };
        let rm: u128 = total % d;
        assert(rm * b < 100000 * 0x1_0000_0000) by (nonlinear_arith)
            requires rm < 100000, b < 0x1_0000_0000;
        let lo_prod: u128 = rm * b;
        let lo: u128 = lo_prod / d;
        proof {
            let d = 100000int;
            let (t, bb, qq, rr, lp, l) = (total as int, b as int, q as int, rm as int, lo_prod as int, lo as int);
            lemma_fundamental_div_mod(t, d);
            lemma_fundamental_div_mod(lp, d);
            let lr = lp % d;
            assert(t * bb == (qq * bb + l) * d + lr) by (nonlinear_arith)
                requires t == d * qq + rr, lp == rr * bb, lp == d * l + lr;
            lemma_fundamental_div_mod_converse(t * bb, d, qq * bb + l, lr);
        }
        match q.checked_mul(b) {
            Some(hi) => match hi.checked_add(lo) {
                Some(a) => Ok(a),
                None => Err(XcosmError::MathOverflow {}),
            },
            None => {
                assert(q * b + lo > u128::MAX) by (nonlinear_arith)
                    requires q * b > u128::MAX, lo >= 0;
                Err(XcosmError::MathOverflow {})
            },
        }
    }

    /// The claim's share of every denomination of `funds`; no denomination is
    /// dropped.
    pub fn claim(&self, funds: &CoinSet) -> (r: Result<CoinSet, XcosmError>)
        ensures
            match r {
                Ok(s) => !scale_overflows(funds@, self@ as nat) && scaled(funds@, self@ as nat, s@)
                    && denoms(s@) == denoms(funds@),
                Err(e) => scale_overflows(funds@, self@ as nat) && e == (XcosmError::MathOverflow {}),
            },
    {
        let src = funds.to_coins();
        let ghost f = funds@;
        let mut coins: Vec<Coin> = Vec::new();
        let mut i: usize = 0;
        while i < src.len()
            invariant
                i <= src@.len(),
                src@.map_values(|c: Coin| c@) == f,
                f == funds@,
                distinct_denoms(f),
                coins@.len() == i,
                forall|k: int|
                    0 <= k < i ==> coins@[k].denom@ == f[k].0 && coins@[k].amount as nat == share(
                        f[k].1 as nat,
                        self@ as nat,
                    ),
            decreases src@.len() - i,
        {
            assert(src@[i as int]@ == f[i as int]);
            match self.claim_amount(src[i].amount) {
                Ok(a) => {
                    coins.push(Coin { denom: src[i].denom.clone(), amount: a });
                },
                Err(e) => {
                    assert(share(f[i as int].1 as nat, self@ as nat) > u128::MAX);
                    return Err(e);
                },
            }
            i += 1;
        }
        let ghost v = coins@.map_values(|c: Coin| c@);
        assert(scaled(f, self@ as nat, v));
        assert(denoms(v) =~= denoms(f));
        Ok(CoinSet::from_vec(coins))
    }
}


/// The shares that a list of claims makes.
pub open spec fn shares_of(v: Seq<(Addr, Claim)>) -> Seq<Share> {
    v.map_values(|p: (Addr, Claim)| (p.0@, p.1@))
}

/// The shares are in strictly increasing order of beneficiary text.
pub open spec fn sorted_beneficiaries(c: Seq<Share>) -> bool {
    forall|i: int, j: int| 0 <= i < j < c.len() ==> text_lt(#[trigger] c[i].0, #[trigger] c[j].0)
}

/// How many of the first `n` shares name a beneficiary before `a`.
pub open spec fn rank(c: Seq<Share>, a: Seq<char>, n: int) -> int
    decreases n,
{
    if n <= 0 || n > c.len() {
        0
    } else {
        rank(c, a, n - 1) + if text_lt(c[n - 1].0, a) {
            1int
        } else {
            0int
        }
    }
}

/// Shares in order of beneficiary name each beneficiary once.
pub proof fn lemma_sorted_distinct(c: Seq<Share>)
    requires
        sorted_beneficiaries(c),
    ensures
        distinct_beneficiaries(c),
{
    assert forall|i: int, j: int| 0 <= i < j < c.len() implies c[i].0 != c[j].0 by {
        lemma_text_lt_irreflexive(c[i].0);
    }
}

proof fn lemma_rank_split(c: Seq<Share>, a: Seq<char>, p: int, n: int)
    requires
        0 <= p <= c.len(),
        0 <= n <= c.len(),
        forall|k: int| 0 <= k < p ==> text_lt(c[k].0, a),
        forall|k: int| p <= k < c.len() ==> !text_lt(c[k].0, a),
    ensures
        rank(c, a, n) == if n < p { n } else { p },
    decreases n,
{
    if n > 0 {
        lemma_rank_split(c, a, p, n - 1);
    }
}

/// Two lists of shares, each in order of beneficiary name, that hold the same
/// shares are the same list: the order follows from the shares alone.
pub proof fn lemma_sorted_same_shares(c1: Seq<Share>, c2: Seq<Share>)
    requires
        sorted_beneficiaries(c1),
        sorted_beneficiaries(c2),
        forall|x: Share| c1.contains(x) <==> c2.contains(x),
    ensures
        c1 == c2,
    decreases c1.len(),
{
    if c1.len() == 0 {
        if c2.len() > 0 {
            assert(c2.contains(c2[0]));
        }
        assert(c1 =~= c2);
    } else if c2.len() == 0 {
        assert(c1.contains(c1[0]));
    } else {
        assert(c1.contains(c1[0]));
        assert(c2.contains(c2[0]));
        let k = choose|k: int| 0 <= k < c2.len() && c2[k] == c1[0];
        let m = choose|m: int| 0 <= m < c1.len() && c1[m] == c2[0];
        if k != 0 && m != 0 {
            lemma_text_lt_total(c1[0].0, c2[0].0);
            assert(text_lt(c2[0].0, c2[k].0));
            assert(text_lt(c1[0].0, c1[m].0));
        } else if k == 0 {
            assert(c2[0] == c1[0]);
        } else {
            assert(c1[0] == c2[0]);
        }
        assert(c1[0] == c2[0]);
        let t1 = c1.drop_first();
        let t2 = c2.drop_first();
        assert forall|x: Share| t1.contains(x) <==> t2.contains(x) by {
            if t1.contains(x) {
                let i = choose|i: int| 0 <= i < t1.len() && t1[i] == x;
                assert(c1[i + 1] == x);
                assert(c1.contains(x));
                let j = choose|j: int| 0 <= j < c2.len() && c2[j] == x;
                lemma_text_lt_irreflexive(x.0);
                assert(j != 0) by {
                    assert(text_lt(c1[0].0, c1[i + 1].0));
                }
                assert(t2[j - 1] == x);
            }
            if t2.contains(x) {
                let i = choose|i: int| 0 <= i < t2.len() && t2[i] == x;
                assert(c2[i + 1] == x);
                assert(c2.contains(x));
                let j = choose|j: int| 0 <= j < c1.len() && c1[j] == x;
                lemma_text_lt_irreflexive(x.0);
                assert(j != 0) by {
                    assert(text_lt(c2[0].0, c2[i + 1].0));
                }
                assert(t1[j - 1] == x);
            }
        }
        lemma_sorted_same_shares(t1, t2);
        assert(c1 =~= c2) by {
            assert forall|i: int| 0 <= i < c1.len() implies c1[i] == c2[i] by {
                if i > 0 {
                    assert(t1[i - 1] == t2[i - 1]);
                }
            }
        }
    }
}

/// Insert `x` into `v`, kept in order of beneficiary name, at its place.
fn insert_sorted(v: &mut Vec<(Addr, Claim)>, x: (Addr, Claim))
    requires
        sorted_beneficiaries(shares_of(old(v)@)),
        forall|k: int| 0 <= k < old(v)@.len() ==> old(v)@[k].0@ != x.0@,
    ensures
        ({
            let c = shares_of(old(v)@);
            shares_of(final(v)@) == c.insert(
                rank(c, x.0@, c.len() as int),
                (x.0@, x.1@),
            )
        }),
        sorted_beneficiaries(shares_of(final(v)@)),
        final(v)@.len() == old(v)@.len() + 1,
        0 <= rank(shares_of(old(v)@), x.0@, old(v)@.len() as int) <= old(v)@.len(),
{
    let ghost c = shares_of(v@);
    let ghost a = x.0@;
    let mut p: usize = 0;
    while p < v.len()
        invariant
            c == shares_of(v@),
            a == x.0@,
            p <= c.len(),
            forall|k: int| 0 <= k < p ==> text_lt(c[k].0, a),
        ensures
            p <= c.len(),
            forall|k: int| 0 <= k < p ==> text_lt(c[k].0, a),
            p < c.len() ==> !text_lt(c[p as int].0, a),
        decreases c.len() - p,
    {
        assert(v@[p as int].0@ == c[p as int].0);
        if !v[p].0.precedes(&x.0) {
            break;
        }
        p += 1;
    }
    proof {
        assert forall|k: int| p <= k < c.len() implies !text_lt(c[k].0, a) && text_lt(a, c[k].0) by {
            assert(c[p as int].0 != a);
            lemma_text_lt_total(c[p as int].0, a);
            if k > p {
                assert(text_lt(c[p as int].0, c[k].0));
                lemma_text_lt_transitive(a, c[p as int].0, c[k].0);
                lemma_text_lt_total(c[k].0, a);
            }
        }
        lemma_rank_split(c, a, p as int, c.len() as int);
    }
    let ghost xv = (x.0@, x.1@);
    v.insert(p, x);
    proof {
        let n = c.insert(p as int, xv);
        assert(shares_of(v@) =~= n);
        assert forall|i: int, j: int| 0 <= i < j < n.len() implies text_lt(#[trigger] n[i].0, #[trigger] n[j].0) by {
            if j < p {
                assert(text_lt(c[i].0, c[j].0));
            } else if j == p {
            } else if i < p {
                assert(text_lt(c[i].0, a));
                assert(text_lt(a, c[j - 1].0));
                lemma_text_lt_transitive(c[i].0, a, c[j - 1].0);
            } else if i == p {
            } else {
                assert(text_lt(c[i - 1].0, c[j - 1].0));
            }
        }
    }
}

/// `c` holds exactly the first `j` shares of `v`.
#[verifier::opaque]
spec fn same_members(c: Seq<Share>, v: Seq<Share>, j: int) -> bool {
    &&& forall|k: int| 0 <= k < c.len() ==> exists|m: int| 0 <= m < j && #[trigger] c[k] == v[m]
    &&& forall|m: int| 0 <= m < j ==> exists|k: int| 0 <= k < c.len() && c[k] == #[trigger] v[m]
}

proof fn lemma_same_members_contains(c: Seq<Share>, v: Seq<Share>)
    requires
        same_members(c, v, v.len() as int),
    ensures
        forall|x: Share| c.contains(x) <==> v.contains(x),
{
    reveal(same_members);
    assert forall|x: Share| c.contains(x) <==> v.contains(x) by {
        if c.contains(x) {
            let k = choose|k: int| 0 <= k < c.len() && c[k] == x;
            let m = choose|m: int| 0 <= m < v.len() && c[k] == v[m];
            assert(v[m] == x);
        }
        if v.contains(x) {
            let m = choose|m: int| 0 <= m < v.len() && v[m] == x;
            let k = choose|k: int| 0 <= k < c.len() && c[k] == v[m];
            assert(c[k] == x);
        }
    }
}

/// Shares `c` drawn from the first `j` of `v` hold no beneficiary of `v[j]`.
proof fn lemma_fresh_share(c: Seq<Share>, v: Seq<Share>, j: int)
    requires
        distinct_beneficiaries(v),
        0 <= j < v.len(),
        same_members(c, v, j),
    ensures
        forall|k: int| 0 <= k < c.len() ==> c[k].0 != v[j].0,
{
    reveal(same_members);
    assert forall|k: int| 0 <= k < c.len() implies c[k].0 != v[j].0 by {
        let m = choose|m: int| 0 <= m < j && c[k] == v[m];
        assert(v[m].0 != v[j].0);
    }
}

/// Inserting `v[j]` into shares that hold exactly the first `j` of `v` gives
/// shares that hold exactly the first `j + 1`.
proof fn lemma_insert_members(c: Seq<Share>, v: Seq<Share>, j: int, r: int)
    requires
        0 <= j < v.len(),
        c.len() == j,
        0 <= r <= j,
        same_members(c, v, j),
    ensures
        same_members(c.insert(r, v[j]), v, j + 1),
{
    reveal(same_members);
    let n = c.insert(r, v[j]);
    assert forall|k: int| 0 <= k < j + 1 implies exists|m: int| 0 <= m < j + 1 && #[trigger] n[k] == v[m] by {
        if k < r {
            assert(n[k] == c[k]);
        } else if k == r {
            assert(n[k] == v[j]);
        } else {
            assert(n[k] == c[k - 1]);
        }
    }
    assert forall|m: int| 0 <= m < j + 1 implies exists|k: int| 0 <= k < j + 1 && n[k] == #[trigger] v[m] by {
        if m == j {
            assert(n[r] == v[m]);
        } else {
            let k = choose|k: int| 0 <= k < j && c[k] == v[m];
            if k < r {
                assert(n[k] == v[m]);
            } else {
                assert(n[k + 1] == v[m]);
            }
        }
    }
}

/// The claims in order of beneficiary text.
fn sort_claims(claims: &Vec<(Addr, Claim)>) -> (r: Vec<(Addr, Claim)>)
    requires
        distinct_beneficiaries(shares_of(claims@)),
    ensures
        sorted_beneficiaries(shares_of(r@)),
        r@.len() == claims@.len(),
        forall|x: Share| shares_of(r@).contains(x) <==> shares_of(claims@).contains(x),
{
        let ghost v = shares_of(claims@);
        let mut sorted: Vec<(Addr, Claim)> = Vec::new();
        proof {
            reveal(same_members);
        }
        let mut j: usize = 0;
        while j < claims.len()
            invariant
                j <= claims@.len(),
                v == shares_of(claims@),
                distinct_beneficiaries(v),
                sorted_beneficiaries(shares_of(sorted@)),
                sorted@.len() == j,
                same_members(shares_of(sorted@), v, j as int),
            decreases claims@.len() - j,
        {
            let ghost c = shares_of(sorted@);
            let x = (claims[j].0.duplicate(), claims[j].1);
            proof {
                assert((x.0@, x.1@) == v[j as int]);
                lemma_fresh_share(c, v, j as int);
                assert forall|k: int| 0 <= k < sorted@.len() implies sorted@[k].0@ != x.0@ by {
                    assert(c[k].0 == sorted@[k].0@);
                }
            }
            insert_sorted(&mut sorted, x);
            proof {
                lemma_insert_members(c, v, j as int, rank(c, x.0@, c.len() as int));
                assert(shares_of(sorted@) == c.insert(rank(c, x.0@, c.len() as int), v[j as int]));
            }
            j += 1;
        }
        proof {
            lemma_same_members_contains(shares_of(sorted@), v);
        }
        sorted
}

/// A beneficiary with the basis points that it claims, as seen by the proofs.
pub type Share = (Seq<char>, u32);

/// No two shares name the same beneficiary.
pub open spec fn distinct_beneficiaries(c: Seq<Share>) -> bool {
    forall|i: int, j: int| 0 <= i < j < c.len() ==> c[i].0 != c[j].0
}

/// The basis points of the first `n` shares.
pub open spec fn bps_upto(c: Seq<Share>, n: int) -> nat
    decreases n,
{
    if n <= 0 || n > c.len() {
        0
    } else {
        bps_upto(c, n - 1) + c[n - 1].1 as nat
    }
}

/// The basis points of all shares.
pub open spec fn total_of(c: Seq<Share>) -> nat {
    bps_upto(c, c.len() as int)
}

/// What the first `n` shares take of `amount`, each rounded down.
pub open spec fn claimed_upto(c: Seq<Share>, n: int, amount: nat) -> nat
    decreases n,
{
    if n <= 0 || n > c.len() {
        0
    } else {
        claimed_upto(c, n - 1, amount) + share(amount, c[n - 1].1 as nat)
    }
}

/// What beneficiary `i` is paid of `amount`: its share, and for the first
/// beneficiary also all that the rounded shares leave over.
pub open spec fn payout_amount(c: Seq<Share>, i: int, amount: nat) -> int {
    share(amount, c[i].1 as nat) + if i == 0 {
        amount - claimed_upto(c, c.len() as int, amount)
    } else {
        0
    }
}

/// The bps of a prefix never exceed the bps of a longer prefix.
proof fn lemma_bps_prefix(c: Seq<Share>, m: int, n: int)
    requires
        0 <= m <= n <= c.len(),
    ensures
        bps_upto(c, m) <= bps_upto(c, n),
        forall|i: int| 0 <= i < n ==> c[i].1 <= bps_upto(c, n),
    decreases n,
{
    if n > 0 {
        lemma_bps_prefix(c, if m == n { m - 1 } else { m }, n - 1);
    }
}

/// Rounded shares under at most the whole never take more than the amount.
proof fn lemma_claimed_bound(c: Seq<Share>, n: int, amount: nat)
    requires
        0 <= n <= c.len(),
    ensures
        claimed_upto(c, n, amount) * (BPS_DENOMINATOR as nat) <= amount * bps_upto(c, n),
        bps_upto(c, n) <= BPS_DENOMINATOR ==> claimed_upto(c, n, amount) <= amount,
        forall|m: int| 0 <= m <= n ==> claimed_upto(c, m, amount) <= claimed_upto(c, n, amount),
    decreases n,
{
    let d = BPS_DENOMINATOR as int;
    if n > 0 {
        lemma_claimed_bound(c, n - 1, amount);
        lemma_share_floor(amount, c[n - 1].1 as nat);
        let x = claimed_upto(c, n - 1, amount) as int;
        let s = share(amount, c[n - 1].1 as nat) as int;
        let p = bps_upto(c, n - 1) as int;
        let b = c[n - 1].1 as int;
        let a = amount as int;
        assert((x + s) * d <= a * (p + b)) by (nonlinear_arith)
            requires x * d <= a * p, s * d <= a * b;
    }
    let cl = claimed_upto(c, n, amount) as int;
    let t = bps_upto(c, n) as int;
    if t <= d {
        assert(cl <= amount) by (nonlinear_arith)
            requires cl * d <= amount * t, t <= d, d > 0, amount >= 0;
    }
}

/// Sum of the payouts of the first `n` beneficiaries in denomination `d`.
pub open spec fn paid_upto(ps: Seq<Payout>, n: int, d: Seq<char>) -> nat
    decreases n,
{
    if n <= 0 || n > ps.len() {
        0
    } else {
        paid_upto(ps, n - 1, d) + amount_in(ps[n - 1].coins@, d)
    }
}

/// Sum of all payouts in denomination `d`.
pub open spec fn paid_of(ps: Seq<Payout>, d: Seq<char>) -> nat {
    paid_upto(ps, ps.len() as int, d)
}

/// `ps` pays, from `from`, each beneficiary of `c` in order its
/// `payout_amount` of each denomination of `f`, in the order of `f`.
pub open spec fn payouts_follow(ps: Seq<Payout>, c: Seq<Share>, from: Seq<char>, f: Seq<Entry>) -> bool {
    &&& ps.len() == c.len()
    &&& forall|i: int|
        #![trigger ps[i]]
        0 <= i < ps.len() ==> {
            &&& ps[i].from@ == from
            &&& ps[i].to@ == c[i].0
            &&& ps[i].coins@.len() == f.len()
            &&& forall|k: int|
                0 <= k < f.len() ==> ps[i].coins@[k].0 == f[k].0 && ps[i].coins@[k].1 as int
                    == payout_amount(c, i, f[k].1 as nat)
        }
}

proof fn lemma_paid_present(ps: Seq<Payout>, c: Seq<Share>, from: Seq<char>, f: Seq<Entry>, k: int, n: int)
    requires
        payouts_follow(ps, c, from, f),
        distinct_denoms(f),
        0 <= k < f.len(),
        0 <= n <= ps.len(),
    ensures
        paid_upto(ps, n, f[k].0) as int == claimed_upto(c, n, f[k].1 as nat) + if n > 0 {
            f[k].1 as nat - claimed_upto(c, c.len() as int, f[k].1 as nat)
        } else {
            0
        },
    decreases n,
{
    if n > 0 {
        lemma_paid_present(ps, c, from, f, k, n - 1);
        let s = ps[n - 1].coins@;
        assert(distinct_denoms(s)) by {
            assert forall|a: int, b: int| 0 <= a < b < s.len() implies s[a].0 != s[b].0 by {
                assert(f[a].0 != f[b].0);
            }
        }
        crate::coin::lemma_amount_at(s, k);
    }
}

proof fn lemma_paid_absent(ps: Seq<Payout>, c: Seq<Share>, from: Seq<char>, f: Seq<Entry>, d: Seq<char>, n: int)
    requires
        payouts_follow(ps, c, from, f),
        forall|k: int| 0 <= k < f.len() ==> f[k].0 != d,
        0 <= n <= ps.len(),
    ensures
        paid_upto(ps, n, d) == 0,
    decreases n,
{
    if n > 0 {
        lemma_paid_absent(ps, c, from, f, d, n - 1);
        let s = ps[n - 1].coins@;
        assert forall|i: int| 0 <= i < s.len() implies s[i].0 != d by {
            assert(ps[n - 1].coins@[i].0 == f[i].0);
        }
        crate::coin::lemma_amount_absent(s, d);
    }
}

/// One payout instruction: send `coins` from `from` to `to`.
#[derive(Debug, Clone)]
pub struct Payout {
    pub from: Addr,
    pub to: Addr,
    pub coins: CoinSet,
}

/// Claims keyed by beneficiary, each beneficiary once, kept in order of
/// beneficiary text so that the order follows from the claims alone.
#[derive(Debug)]
pub struct Distribution {
    claims: Vec<(Addr, Claim)>,
}

impl View for Distribution {
    type V = Seq<Share>;

    closed spec fn view(&self) -> Seq<Share> {
        self.claims@.map_values(|p: (Addr, Claim)| (p.0@, p.1@))
    }
}

impl Distribution {
    #[verifier::type_invariant]
    spec fn inv(&self) -> bool {
        sorted_beneficiaries(self@)
    }

    /// A distribution of the given claims, kept in order of beneficiary
    /// text whatever order they come in; a beneficiary named twice is invalid.
    pub fn new(claims: Vec<(Addr, Claim)>) -> (r: Result<Distribution, XcosmError>)
        ensures
            match r {
                Ok(d) => {
                    let v = claims@.map_values(|p: (Addr, Claim)| (p.0@, p.1@));
                    &&& sorted_beneficiaries(d@)
                    &&& d@.len() == v.len()
                    &&& forall|x: Share| d@.contains(x) <==> v.contains(x)
                },
                Err(e) => !distinct_beneficiaries(claims@.map_values(|p: (Addr, Claim)| (p.0@, p.1@)))
                    && e is Invalid,
            },
    {
        let ghost v = claims@.map_values(|p: (Addr, Claim)| (p.0@, p.1@));
        let mut j: usize = 0;
        while j < claims.len()
            invariant
                j <= claims@.len(),
                v == claims@.map_values(|p: (Addr, Claim)| (p.0@, p.1@)),
                forall|a: int, b: int| 0 <= a < b < j ==> v[a].0 != v[b].0,
            decreases claims@.len() - j,
        {
            let mut i: usize = 0;
            while i < j
                invariant
                    i <= j < claims@.len(),
                    v == claims@.map_values(|p: (Addr, Claim)| (p.0@, p.1@)),
                    forall|a: int| 0 <= a < i ==> v[a].0 != v[j as int].0,
                decreases j - i,
            {
                if claims[i].0.same(&claims[j].0) {
                    assert(v[i as int].0 == v[j as int].0);
                    return Err(
                        XcosmError::Invalid {
                            kind: "distribution".to_string(),
                            reason: "beneficiary named twice".to_string(),
                        },
                    );
                }
                i += 1;
            }
            j += 1;
        }
        proof {
            assert(v == shares_of(claims@));
        }
        let sorted = sort_claims(&claims);
        Ok(Distribution { claims: sorted })
    }

    /// The claims, in order.
    pub fn claims(&self) -> (r: &Vec<(Addr, Claim)>)
        ensures
            r@.map_values(|p: (Addr, Claim)| (p.0@, p.1@)) == self@,
            sorted_beneficiaries(self@),
            distinct_beneficiaries(self@),
    {
        proof {
            use_type_invariant(self);
            lemma_sorted_distinct(self@);
        }
        &self.claims
    }

    /// The sum of all claims' basis points; fails where it passes the whole.
    pub fn total_bps(&self) -> (r: Result<u32, XcosmError>)
        ensures
            match r {
                Ok(t) => total_of(self@) <= BPS_DENOMINATOR && t as nat == total_of(self@),
                Err(e) => total_of(self@) > BPS_DENOMINATOR && e == (XcosmError::FundsOverclaimed {}),
            },
    {
        let ghost c = self@;
        let mut total: u64 = 0;
        let mut i: usize = 0;
        while i < self.claims.len()
            invariant
                c == self@,
                c == self.claims@.map_values(|p: (Addr, Claim)| (p.0@, p.1@)),
                i <= c.len(),
                total as nat == bps_upto(c, i as int),
                total <= BPS_DENOMINATOR,
            decreases c.len() - i,
        {
            assert(c[i as int].1 == self.claims@[i as int].1@);
            total = total + self.claims[i].1.bps() as u64;
            if total > 100000 {
                proof {
                    lemma_bps_prefix(c, i + 1, c.len() as int);
                }
                return Err(XcosmError::FundsOverclaimed {});
            }
            i += 1;
        }
        Ok(total as u32)
    }

    /// A copy of the claims.
    fn copy_claims(&self) -> (r: Vec<(Addr, Claim)>)
        ensures
            r@.map_values(|p: (Addr, Claim)| (p.0@, p.1@)) == self@,
    {
        let ghost c = self@;
        let mut r: Vec<(Addr, Claim)> = Vec::new();
        let mut i: usize = 0;
        while i < self.claims.len()
            invariant
                c == self.claims@.map_values(|p: (Addr, Claim)| (p.0@, p.1@)),
                i <= c.len(),
                r@.len() == i,
                forall|k: int| 0 <= k < i ==> r@[k].0@ == c[k].0 && r@[k].1@ == c[k].1,
            decreases c.len() - i,
        {
            let a = self.claims[i].0.duplicate();
            let cl = self.claims[i].1;
            r.push((a, cl));
            i += 1;
        }
        assert(r@.map_values(|p: (Addr, Claim)| (p.0@, p.1@)) =~= c);
        r
    }

    /// A new distribution in which `addr` also takes what the claims leave
    /// unclaimed: added to its claim where it has one, else as a new claim.
    /// The receiver is not changed.
    pub fn with_remainder_to(&self, addr: Addr) -> (r: Result<Distribution, XcosmError>)
        ensures
            match r {
                Ok(d) => total_of(self@) <= BPS_DENOMINATOR && total_of(d@) == BPS_DENOMINATOR
                    && d@ == remainder_added(self@, addr@, (BPS_DENOMINATOR - total_of(self@)) as nat)
                    && sorted_beneficiaries(d@),
                Err(e) => total_of(self@) > BPS_DENOMINATOR && e == (XcosmError::FundsOverclaimed {}),
            },
    {
        proof {
            use_type_invariant(self);
        }
        let total = match self.total_bps() {
            Ok(t) => t,
            Err(e) => {
                return Err(e);
            },
        };
        let rem: u32 = 100000 - total;
        let ghost c = self@;
        let mut claims = self.copy_claims();
        let mut i: usize = 0;
        while i < claims.len()
            invariant
                claims@.map_values(|p: (Addr, Claim)| (p.0@, p.1@)) == c,
                i <= c.len(),
                forall|k: int| 0 <= k < i ==> c[k].0 != addr@,
            ensures
                i <= c.len(),
                forall|k: int| 0 <= k < i ==> c[k].0 != addr@,
                i < c.len() ==> c[i as int].0 == addr@,
            decreases c.len() - i,
        {
            if claims[i].0.same(&addr) {
                break;
            }
            i += 1;
        }
        let ghost target = remainder_added(c, addr@, rem as nat);
        assert(c == self@ && sorted_beneficiaries(c));
        proof {
            lemma_sorted_distinct(c);
        }
        proof {
            lemma_remainder_fills_whole(c, addr@);
        }
        if i < claims.len() {
            proof {
                lemma_bps_prefix(c, c.len() as int, c.len() as int);
                let j = choose|j: int| 0 <= j < c.len() && c[j].0 == addr@;
                if j != i as int {
                    assert(c[j].0 != c[i as int].0);
                }
            }
            let bumped = Claim(claims[i].1.0 + rem);
            claims.set(i, (addr, bumped));
            assert(claims@.map_values(|p: (Addr, Claim)| (p.0@, p.1@)) =~= target);
            assert(sorted_beneficiaries(target)) by {
                assert forall|a: int, b: int| 0 <= a < b < target.len() implies text_lt(
                    #[trigger] target[a].0,
                    #[trigger] target[b].0,
                ) by {
                    assert(target[a].0 == c[a].0 && target[b].0 == c[b].0);
                }
            }
        } else {
            proof {
                assert(shares_of(claims@) == c);
                assert forall|k: int| 0 <= k < claims@.len() implies claims@[k].0@ != addr@ by {
                    assert(c[k].0 == claims@[k].0@);
                }
            }
            insert_sorted(&mut claims, (addr, Claim(rem)));
            assert(shares_of(claims@) == target);
        }
        Ok(Distribution { claims })
    }

    /// Split `funds` among the beneficiaries: one payout each, in order of
    /// beneficiary text, of its rounded-down share of every denomination, the
    /// beneficiary with the least text also receiving all that the shares leave over, so that every denomination is paid out in
    /// full. Fails with no beneficiaries, or with claims above the whole.
    pub fn distribute_coins(&self, from: &Addr, funds: &CoinSet) -> (r: Result<Vec<Payout>, XcosmError>)
        ensures
            match r {
                Ok(ps) => {
                    &&& self@.len() > 0
                    &&& total_of(self@) <= BPS_DENOMINATOR
                    &&& payouts_follow(ps@, self@, from@, funds@)
                    &&& sorted_beneficiaries(self@)
                    &&& forall|i: int| 1 <= i < ps@.len() ==> text_lt(ps@[0].to@, #[trigger] ps@[i].to@)
                    &&& forall|d: Seq<char>| #![auto] paid_of(ps@, d) == amount_in(funds@, d)
                },
                Err(e) => {
                    ||| self@.len() == 0 && e == (XcosmError::FundsUnclaimed {})
                    ||| self@.len() > 0 && total_of(self@) > BPS_DENOMINATOR && e == (
                    XcosmError::FundsOverclaimed {})
                },
            },
    {
        proof {
            use_type_invariant(self);
        }
        let ghost c = self@;
        let n = self.claims.len();
        if n == 0 {
            return Err(XcosmError::FundsUnclaimed {});
        }
        match self.total_bps() {
            Ok(_) => {},
            Err(e) => {
                return Err(e);
            },
        }
        proof {
            lemma_bps_prefix(c, c.len() as int, c.len() as int);
        }
        let src = funds.to_coins();
        let ghost f = funds@;
        // What each beneficiary's share takes, and what remains of the funds.
        let mut rem = funds.duplicate();
        let mut shares: Vec<CoinSet> = Vec::new();
        let mut i: usize = 0;
        while i < n
            invariant
                n == c.len(),
                c == self.claims@.map_values(|p: (Addr, Claim)| (p.0@, p.1@)),
                f == funds@,
                distinct_denoms(f),
                total_of(c) <= BPS_DENOMINATOR,
                forall|j: int| 0 <= j < c.len() ==> c[j].1 <= total_of(c),
                i <= n,
                rem@.len() == f.len(),
                forall|k: int|
                    #![trigger rem@[k]]
                    0 <= k < f.len() ==> rem@[k].0 == f[k].0 && rem@[k].1 as int == f[k].1 as nat
                        - claimed_upto(c, i as int, f[k].1 as nat),
                shares@.len() == i,
                forall|j: int| #![trigger shares@[j]] 0 <= j < i ==> scaled(f, c[j].1 as nat, shares@[j]@),
            decreases n - i,
        {
            let claim = self.claims[i].1;
            assert(claim@ == c[i as int].1);
            assert(!scale_overflows(f, claim@ as nat)) by {
                assert forall|k: int| 0 <= k < f.len() implies share(f[k].1 as nat, claim@ as nat) <= u128::MAX by {
                    lemma_share_monotonic(claim@ as nat, f[k].1 as nat, f[k].1 as nat);
                }
            }
            let claimed = match claim.claim(funds) {
                Ok(s) => s,
                Err(e) => {
                    return Err(e);
                },
            };
            let ghost cv = claimed@;
            assert(distinct_denoms(cv)) by {
                assert forall|a: int, b: int| 0 <= a < b < cv.len() implies cv[a].0 != cv[b].0 by {
                    assert(f[a].0 != f[b].0);
                }
            }
            let ghost before = rem@;
            assert(!sub_underflows(before, cv)) by {
                assert forall|k: int| 0 <= k < before.len() implies !((before[k].1 as nat) < amount_in(cv, before[k].0)) by {
                    crate::coin::lemma_amount_at(cv, k);
                    lemma_bps_prefix(c, i + 1, c.len() as int);
                    lemma_claimed_bound(c, i + 1, f[k].1 as nat);
                }
            }
            match rem.try_minus_mut(&claimed) {
                Ok(_) => {},
                Err(e) => {
                    return Err(e);
                },
            }
            proof {
                assert forall|k: int| 0 <= k < f.len() implies rem@[k].0 == f[k].0 && rem@[k].1 as int
                    == f[k].1 as nat - claimed_upto(c, i + 1, f[k].1 as nat) by {
                    crate::coin::lemma_amount_at(cv, k);
                }
            }
            shares.push(claimed);
            i += 1;
        }
        // One payout per beneficiary; the first takes what remains.
        let mut ps: Vec<Payout> = Vec::new();
        let mut i: usize = 0;
        while i < n
            invariant
                n == c.len(),
                n > 0,
                c == self.claims@.map_values(|p: (Addr, Claim)| (p.0@, p.1@)),
                f == funds@,
                distinct_denoms(f),
                total_of(c) <= BPS_DENOMINATOR,
                i <= n,
                rem@.len() == f.len(),
                forall|k: int|
                    #![trigger rem@[k]]
                    0 <= k < f.len() ==> rem@[k].0 == f[k].0 && rem@[k].1 as int == f[k].1 as nat
                        - claimed_upto(c, n as int, f[k].1 as nat),
                shares@.len() == n,
                forall|j: int| #![trigger shares@[j]] 0 <= j < n ==> scaled(f, c[j].1 as nat, shares@[j]@),
                ps@.len() == i,
                forall|j: int|
                    #![trigger ps@[j]]
                    0 <= j < i ==> {
                        &&& ps@[j].from@ == from@
                        &&& ps@[j].to@ == c[j].0
                        &&& ps@[j].coins@.len() == f.len()
                        &&& forall|k: int|
                            0 <= k < f.len() ==> ps@[j].coins@[k].0 == f[k].0 && ps@[j].coins@[k].1 as int
                                == payout_amount(c, j, f[k].1 as nat)
                    },
            decreases n - i,
        {
            let coins = if i == 0 {
                let ghost s0 = shares@[0]@;
                let ghost rv = rem@;
                assert(distinct_denoms(rv)) by {
                    assert forall|a: int, b: int| 0 <= a < b < rv.len() implies rv[a].0 != rv[b].0 by {
                        assert(f[a].0 != f[b].0);
                    }
                }
                assert(!add_overflows(s0, rv)) by {
                    assert forall|k: int| 0 <= k < s0.len() implies !(s0[k].1 as nat + amount_in(rv, s0[k].0) > u128::MAX) by {
                        crate::coin::lemma_amount_at(rv, k);
                        lemma_claimed_bound(c, n as int, f[k].1 as nat);
                        reveal_with_fuel(claimed_upto, 2);
                        assert(claimed_upto(c, 1, f[k].1 as nat) == share(f[k].1 as nat, c[0].1 as nat));
                    }
                }
                match shares[0].checked_plus(&rem) {
                    Ok(s) => {
                        proof {
                            assert forall|k: int| 0 <= k < f.len() implies s@[k].1 as int == payout_amount(c, 0, f[k].1 as nat) by {
                                crate::coin::lemma_amount_at(rv, k);
                            }
                        }
                        s
                    },
                    Err(e) => {
                        return Err(e);
                    },
                }
            } else {
                shares[i].duplicate()
            };
            assert(forall|k: int| 0 <= k < f.len() ==> coins@[k].0 == f[k].0 && coins@[k].1 as int
                == payout_amount(c, i as int, f[k].1 as nat)) by {
                assert(scaled(f, c[i as int].1 as nat, shares@[i as int]@));
            }
            let to = self.claims[i].0.duplicate();
            ps.push(Payout { from: from.duplicate(), to, coins });
            i += 1;
        }
        proof {
            assert(payouts_follow(ps@, c, from@, f));
            lemma_claimed_bound(c, n as int, 0);
            assert forall|d: Seq<char>| #![auto] paid_of(ps@, d) == amount_in(f, d) by {
                if exists|k: int| 0 <= k < f.len() && f[k].0 == d {
                    let k = choose|k: int| 0 <= k < f.len() && f[k].0 == d;
                    lemma_paid_present(ps@, c, from@, f, k, n as int);
                    lemma_claimed_bound(c, n as int, f[k].1 as nat);
                    crate::coin::lemma_amount_at(f, k);
                } else {
                    lemma_paid_absent(ps@, c, from@, f, d, n as int);
                    crate::coin::lemma_amount_absent(f, d);
                }
            }
        }
        Ok(ps)
    }
}

/// `c` with `a` given `rem` more basis points: added to its share where it
/// has one, else inserted as a new share at its place in the order of text.
pub open spec fn remainder_added(c: Seq<Share>, a: Seq<char>, rem: nat) -> Seq<Share> {
    if exists|i: int| 0 <= i < c.len() && c[i].0 == a {
        let i = choose|i: int| 0 <= i < c.len() && c[i].0 == a;
        c.update(i, (a, (c[i].1 + rem) as u32))
    } else {
        c.insert(rank(c, a, c.len() as int), (a, rem as u32))
    }
}

/// Giving one beneficiary what the claims leave unclaimed makes the claims
/// add up to exactly the whole.
pub proof fn lemma_remainder_fills_whole(c: Seq<Share>, a: Seq<char>)
    requires
        distinct_beneficiaries(c),
        total_of(c) <= BPS_DENOMINATOR,
    ensures
        total_of(remainder_added(c, a, (BPS_DENOMINATOR - total_of(c)) as nat)) == BPS_DENOMINATOR,
{
    let rem = (BPS_DENOMINATOR - total_of(c)) as nat;
    if exists|i: int| 0 <= i < c.len() && c[i].0 == a {
        let i = choose|i: int| 0 <= i < c.len() && c[i].0 == a;
        lemma_bps_prefix(c, c.len() as int, c.len() as int);
        assert(c[i].1 <= total_of(c));
        let x = (a, (c[i].1 + rem) as u32);
        assert(x.1 == c[i].1 + rem);
        lemma_bps_update(c, i, x, c.len() as int);
        let j = choose|j: int| 0 <= j < c.len() && c[j].0 == a;
        if j != i {
            assert(c[i].0 != c[j].0);
        }
        assert(remainder_added(c, a, rem) == c.update(i, x));
    } else {
        lemma_rank_bound(c, a, c.len() as int);
        lemma_bps_insert(c, rank(c, a, c.len() as int), (a, rem as u32), c.len() as int + 1);
    }
}

proof fn lemma_rank_bound(c: Seq<Share>, a: Seq<char>, n: int)
    requires
        0 <= n <= c.len(),
    ensures
        0 <= rank(c, a, n) <= n,
    decreases n,
{
    if n > 0 {
        lemma_rank_bound(c, a, n - 1);
    }
}

proof fn lemma_bps_insert(c: Seq<Share>, p: int, x: Share, n: int)
    requires
        0 <= p <= c.len(),
        p < n <= c.len() + 1,
    ensures
        bps_upto(c.insert(p, x), n) == bps_upto(c, n - 1) + x.1,
    decreases n,
{
    let e = c.insert(p, x);
    if n == p + 1 {
        lemma_bps_same(c, e, p);
    } else {
        lemma_bps_insert(c, p, x, n - 1);
    }
}

proof fn lemma_bps_update(c: Seq<Share>, i: int, x: Share, n: int)
    requires
        0 <= i < n <= c.len(),
    ensures
        bps_upto(c.update(i, x), n) == bps_upto(c, n) - c[i].1 + x.1,
    decreases n,
{
    if n - 1 > i {
        lemma_bps_update(c, i, x, n - 1);
    } else {
        lemma_bps_same(c, c.update(i, x), i);
    }
}

proof fn lemma_bps_same(c: Seq<Share>, e: Seq<Share>, n: int)
    requires
        0 <= n <= c.len(),
        n <= e.len(),
        forall|j: int| 0 <= j < n ==> c[j] == e[j],
    ensures
        bps_upto(c, n) == bps_upto(e, n),
    decreases n,
{
    if n > 0 {
        lemma_bps_same(c, e, n - 1);
    }
}


impl Default for Distribution {
    fn default() -> (r: Self)
        ensures
            r@ == Seq::<Share>::empty(),
    {
        let r = Distribution { claims: Vec::new() };
        assert(r@ =~= Seq::<Share>::empty());
        r
    }
}

/// Claims keyed by unvalidated address text, as a caller supplies them.
#[derive(Debug, Clone, PartialEq, Eq)]
pub struct DistributionMsg {
    pub claims: Vec<(String, Claim)>,
}

impl Distribution {
    /// The claims with each beneficiary as its text, in the same order.
    pub fn to_msg(&self) -> (r: DistributionMsg)
        ensures
            r.claims@.map_values(|p: (String, Claim)| (p.0@, p.1@)) == self@,
    {
        let ghost c = self@;
        let mut v: Vec<(String, Claim)> = Vec::new();
        let mut i: usize = 0;
        while i < self.claims.len()
            invariant
                c == self.claims@.map_values(|p: (Addr, Claim)| (p.0@, p.1@)),
                i <= c.len(),
                v@.len() == i,
                forall|k: int| 0 <= k < i ==> v@[k].0@ == c[k].0 && v@[k].1@ == c[k].1,
            decreases c.len() - i,
        {
            v.push((self.claims[i].0.to_text(), self.claims[i].1));
            i += 1;
        }
        assert(v@.map_values(|p: (String, Claim)| (p.0@, p.1@)) =~= c);
        DistributionMsg { claims: v }
    }
}

} // verus!
