use vstd::prelude::*;

use crate::err::XcosmError;

verus! {

/// A denomination with its amount, as seen by the proofs.
pub type Entry = (Seq<char>, u128);

/// No two entries of `s` share a denomination.
pub open spec fn distinct_denoms(s: Seq<Entry>) -> bool {
    forall|i: int, j: int| 0 <= i < j < s.len() ==> s[i].0 != s[j].0
}

/// The amount that `s` holds of denomination `d`; zero where `d` is absent.
pub open spec fn amount_in(s: Seq<Entry>, d: Seq<char>) -> nat {
    if exists|i: int| 0 <= i < s.len() && s[i].0 == d {
        let i = choose|i: int| 0 <= i < s.len() && s[i].0 == d;
        s[i].1 as nat
    } else {
        0
    }
}

/// Where the denominations are distinct, the amount of `s[k].0` is `s[k].1`.
pub proof fn lemma_amount_at(s: Seq<Entry>, k: int)
    requires
        distinct_denoms(s),
        0 <= k < s.len(),
    ensures
        amount_in(s, s[k].0) == s[k].1 as nat,
{
    let i = choose|i: int| 0 <= i < s.len() && s[i].0 == s[k].0;
    if i < k {
        assert(s[i].0 != s[k].0);
    } else if k < i {
        assert(s[k].0 != s[i].0);
    }
}

/// A denomination that no entry of `s` has is held in amount zero.
pub proof fn lemma_amount_absent(s: Seq<Entry>, d: Seq<char>)
    requires
        forall|i: int| 0 <= i < s.len() ==> s[i].0 != d,
    ensures
        amount_in(s, d) == 0,
{
}

/// `r` is `s` with the amount that `o` holds of each denomination of `s` added.
/// Denominations of `o` that `s` lacks are left out.
pub open spec fn added(s: Seq<Entry>, o: Seq<Entry>, r: Seq<Entry>) -> bool {
    &&& r.len() == s.len()
    &&& forall|i: int|
        0 <= i < s.len() ==> r[i].0 == s[i].0 && r[i].1 as nat == s[i].1 as nat + amount_in(o, s[i].0)
}

/// Adding `o` to `s` takes some amount of `s` past `u128::MAX`.
pub open spec fn add_overflows(s: Seq<Entry>, o: Seq<Entry>) -> bool {
    exists|i: int| 0 <= i < s.len() && s[i].1 as nat + amount_in(o, s[i].0) > u128::MAX
}

/// `r` is `s` with the amount that `o` holds of each denomination of `s` taken
/// away. Denominations of `o` that `s` lacks are left out.
pub open spec fn subtracted(s: Seq<Entry>, o: Seq<Entry>, r: Seq<Entry>) -> bool {
    &&& r.len() == s.len()
    &&& forall|i: int|
        0 <= i < s.len() ==> r[i].0 == s[i].0 && r[i].1 as int == s[i].1 as int - amount_in(o, s[i].0)
}

/// Taking `o` from `s` takes some amount of `s` below zero.
pub open spec fn sub_underflows(s: Seq<Entry>, o: Seq<Entry>) -> bool {
    exists|i: int| 0 <= i < s.len() && (s[i].1 as nat) < amount_in(o, s[i].0)
}

/// `a` and `b` agree on their first `n` characters.
pub open spec fn agree_upto(a: Seq<char>, b: Seq<char>, n: int) -> bool {
    forall|j: int| 0 <= j < n ==> a[j] == b[j]
}

/// `a` comes strictly before `b` in lexicographic order of characters: at
/// the first place where they differ `a` has the smaller character, or `a`
/// is a proper prefix of `b`.
pub open spec fn text_lt(a: Seq<char>, b: Seq<char>) -> bool {
    ||| exists|i: int|
        0 <= i < a.len() && i < b.len() && agree_upto(a, b, i) && a[i] < b[i]
    ||| a.len() < b.len() && agree_upto(a, b, a.len() as int)
}

/// The place where `a` and `b` first part: the first differing character,
/// or the end of the shorter one.
spec fn parting(a: Seq<char>, b: Seq<char>) -> int
    decreases a.len(),
{
    if a.len() == 0 || b.len() == 0 || a[0] != b[0] {
        0
    } else {
        1 + parting(a.drop_first(), b.drop_first())
    }
}

proof fn lemma_parting(a: Seq<char>, b: Seq<char>)
    ensures
        0 <= parting(a, b) <= a.len(),
        parting(a, b) <= b.len(),
        agree_upto(a, b, parting(a, b)),
        parting(a, b) < a.len() && parting(a, b) < b.len() ==> a[parting(a, b)] != b[parting(a, b)],
    decreases a.len(),
{
    if !(a.len() == 0 || b.len() == 0 || a[0] != b[0]) {
        lemma_parting(a.drop_first(), b.drop_first());
        let p = parting(a.drop_first(), b.drop_first());
        assert forall|j: int| 0 <= j < p + 1 implies a[j] == b[j] by {
            if j > 0 {
                assert(a.drop_first()[j - 1] == b.drop_first()[j - 1]);
            }
        }
    }
}

/// No text comes before itself.
pub proof fn lemma_text_lt_irreflexive(a: Seq<char>)
    ensures
        !text_lt(a, a),
{
}

/// Of two different texts, one comes before the other, and never both.
pub proof fn lemma_text_lt_total(a: Seq<char>, b: Seq<char>)
    ensures
        a != b ==> text_lt(a, b) || text_lt(b, a),
        !(text_lt(a, b) && text_lt(b, a)),
{
    lemma_parting(a, b);
    let p = parting(a, b);
    if p < a.len() && p < b.len() {
        if a[p] < b[p] {
            assert(text_lt(a, b));
        } else {
            assert(b[p] < a[p]);
            assert(agree_upto(b, a, p));
            assert(text_lt(b, a));
        }
    } else if a.len() < b.len() {
        assert(text_lt(a, b));
    } else if b.len() < a.len() {
        assert(agree_upto(b, a, b.len() as int));
        assert(text_lt(b, a));
    } else {
        assert(a =~= b);
    }
    if text_lt(a, b) && text_lt(b, a) {
        lemma_text_lt_witness(a, b);
        lemma_text_lt_witness(b, a);
    }
}

/// A witness of `text_lt(a, b)` is the place where the two part.
proof fn lemma_text_lt_witness(a: Seq<char>, b: Seq<char>)
    requires
        text_lt(a, b),
    ensures
        ({
            let p = parting(a, b);
            ||| p < a.len() && p < b.len() && a[p] < b[p]
            ||| p == a.len() && a.len() < b.len()
        }),
        parting(a, b) == parting(b, a),
{
    lemma_parting(a, b);
    lemma_parting(b, a);
    lemma_parting_sym(a, b);
    let p = parting(a, b);
    if exists|i: int| 0 <= i < a.len() && i < b.len() && agree_upto(a, b, i) && a[i] < b[i] {
        let i = choose|i: int| 0 <= i < a.len() && i < b.len() && agree_upto(a, b, i) && a[i] < b[i];
        if p < i {
            assert(a[p] == b[p]);
        } else if i < p {
            assert(a[i] == b[i]);
        }
    } else {
        if p < a.len() {
            assert(a[p] == b[p]);
        }
    }
}

proof fn lemma_parting_sym(a: Seq<char>, b: Seq<char>)
    ensures
        parting(a, b) == parting(b, a),
    decreases a.len(),
{
    if !(a.len() == 0 || b.len() == 0 || a[0] != b[0]) {
        lemma_parting_sym(a.drop_first(), b.drop_first());
    }
}

/// The order of texts is transitive.
pub proof fn lemma_text_lt_transitive(a: Seq<char>, b: Seq<char>, c: Seq<char>)
    requires
        text_lt(a, b),
        text_lt(b, c),
    ensures
        text_lt(a, c),
{
    lemma_text_lt_witness(a, b);
    lemma_text_lt_witness(b, c);
    lemma_parting(a, b);
    lemma_parting(b, c);
    let p = parting(a, b);
    let q = parting(b, c);
    if p < q {
        assert(agree_upto(a, c, p));
        if p < a.len() {
            assert(b[p] == c[p]);
        } else {
            assert(agree_upto(a, c, a.len() as int));
        }
    } else if q < p {
        assert(agree_upto(a, c, q));
        assert(a[q] == b[q]);
    } else {
        assert(agree_upto(a, c, p));
    }
}

/// The character of decimal digit `d`.
pub open spec fn digit_char(d: nat) -> char {
    if d == 0 { '0' }
    else if d == 1 { '1' }
    else if d == 2 { '2' }
    else if d == 3 { '3' }
    else if d == 4 { '4' }
    else if d == 5 { '5' }
    else if d == 6 { '6' }
    else if d == 7 { '7' }
    else if d == 8 { '8' }
    else { '9' }
}

/// `n` written in decimal, without leading zeros.
pub open spec fn decimal(n: nat) -> Seq<char>
    decreases n,
{
    if n < 10 {
        seq![digit_char(n)]
    } else {
        decimal(n / 10).push(digit_char(n % 10))
    }
}

/// A coin as text: its amount in decimal followed by its denomination.
pub open spec fn entry_text(e: Entry) -> Seq<char> {
    decimal(e.1 as nat) + e.0
}

/// Coins as text: each coin's text, separated by commas.
pub open spec fn coins_text(s: Seq<Entry>) -> Seq<char>
    decreases s.len(),
{
    if s.len() == 0 {
        Seq::empty()
    } else if s.len() == 1 {
        entry_text(s[0])
    } else {
        coins_text(s.drop_last()) + seq![','] + entry_text(s.last())
    }
}

/// `s` holds exactly the coins of `e`: the same denominations, each in the
/// same amount, in any order.
pub open spec fn same_coins(s: Seq<Entry>, e: Seq<Entry>) -> bool {
    &&& s.len() == e.len()
    &&& forall|i: int| 0 <= i < e.len() ==> s.contains(#[trigger] e[i])
}

fn digit_str(d: u128) -> (r: &'static str)
    requires
        d < 10,
    ensures
        r@ == seq![digit_char(d as nat)],
{
    if d == 0 { proof { reveal_strlit("0"); } "0" }
    else if d == 1 { proof { reveal_strlit("1"); } "1" }
    else if d == 2 { proof { reveal_strlit("2"); } "2" }
    else if d == 3 { proof { reveal_strlit("3"); } "3" }
    else if d == 4 { proof { reveal_strlit("4"); } "4" }
    else if d == 5 { proof { reveal_strlit("5"); } "5" }
    else if d == 6 { proof { reveal_strlit("6"); } "6" }
    else if d == 7 { proof { reveal_strlit("7"); } "7" }
    else if d == 8 { proof { reveal_strlit("8"); } "8" }
    else { proof { reveal_strlit("9"); } "9" }
}

/// Append `n` in decimal to `s`.
fn push_decimal(s: &mut String, n: u128)
    ensures
        final(s)@ == old(s)@ + decimal(n as nat),
    decreases n,
{
    if n >= 10 {
        push_decimal(s, n / 10);
    }
    s.append(digit_str(n % 10));
    proof {
        if n >= 10 {
            assert(final(s)@ =~= old(s)@ + decimal(n as nat));
        } else {
            assert(final(s)@ =~= old(s)@ + decimal(n as nat));
        }
    }
}

/// An account address, held as its canonical text.
#[derive(Debug, Clone, PartialEq, Eq, Hash, PartialOrd, Ord)]
pub struct Addr(String);

impl View for Addr {
    type V = Seq<char>;

    closed spec fn view(&self) -> Seq<char> {
        self.0@
    }
}

impl Addr {
    /// An address from text that an outside validator has accepted, or that
    /// the caller trusts.
    pub fn unchecked(s: String) -> (r: Addr)
        ensures
            r@ == s@,
    {
        Addr(s)
    }

    /// The address as text.
    pub fn as_str(&self) -> (r: &str)
        ensures
            r@ == self@,
    {
        self.0.as_str()
    }

    /// The address as an owned string.
    pub fn to_text(&self) -> (r: String)
        ensures
            r@ == self@,
    {
        self.0.clone()
    }

    /// An equal copy.
    pub fn duplicate(&self) -> (r: Addr)
        ensures
            r@ == self@,
    {
        Addr(self.0.clone())
    }

    /// Whether `self` comes strictly before `other` in the order of their text.
    pub fn precedes(&self, other: &Addr) -> (r: bool)
        ensures
            r == text_lt(self@, other@),
    {
        let a = self.0.as_str();
        let b = other.0.as_str();
        let la = a.unicode_len();
        let lb = b.unicode_len();
        let mut i: usize = 0;
        while i < la && i < lb
            invariant
                la == a@.len(),
                lb == b@.len(),
                a@ == self@,
                b@ == other@,
                i <= la,
                i <= lb,
                agree_upto(a@, b@, i as int),
            decreases la - i,
        {
            let ca = a.get_char(i);
            let cb = b.get_char(i);
            if ca != cb {
                proof {
                    lemma_text_lt_total(a@, b@);
                    lemma_parting(a@, b@);
                    lemma_parting(b@, a@);
                    lemma_parting_sym(a@, b@);
                    let p = parting(a@, b@);
                    if p < i {
                        assert(a@[p] == b@[p]);
                    }
                    assert(p == i);
                    if ca < cb {
                        assert(text_lt(a@, b@));
                    } else {
                        assert(agree_upto(b@, a@, i as int));
                        assert(text_lt(b@, a@));
                    }
                }
                return ca < cb;
            }
            i += 1;
        }
        proof {
            if la < lb {
                assert(text_lt(a@, b@));
            } else if text_lt(a@, b@) {
                lemma_text_lt_witness(a@, b@);
                lemma_parting(a@, b@);
                let p = parting(a@, b@);
                assert(a@[p] == b@[p]);
            }
        }
        la < lb
    }

    /// Whether two addresses are the same.
    pub fn same(&self, other: &Addr) -> (r: bool)
        ensures
            r == (self@ == other@),
    {
        self.0 == other.0
    }
}

/// An amount of one denomination.
#[derive(Debug, Clone, PartialEq, Eq)]
pub struct Coin {
    pub denom: String,
    pub amount: u128,
}

impl View for Coin {
    type V = Entry;

    open spec fn view(&self) -> Entry {
        (self.denom@, self.amount)
    }
}

impl Coin {
    pub fn new(amount: u128, denom: String) -> (r: Coin)
        ensures
            r@ == (denom@, amount),
    {
        Coin { denom, amount }
    }
}

/// A balance: amounts keyed by denomination, each denomination at most once,
/// kept in a fixed order.
#[derive(Debug)]
pub struct CoinSet {
    coins: Vec<Coin>,
}

impl View for CoinSet {
    type V = Seq<Entry>;

    closed spec fn view(&self) -> Seq<Entry> {
        self.coins@.map_values(|c: Coin| c@)
    }
}

impl CoinSet {
    #[verifier::type_invariant]
    spec fn inv(&self) -> bool {
        distinct_denoms(self@)
    }

    /// The empty balance.
    pub fn new() -> (r: CoinSet)
        ensures
            r@ == Seq::<Entry>::empty(),
    {
        let r = CoinSet { coins: Vec::new() };
        assert(r@ =~= Seq::<Entry>::empty());
        r
    }

    pub(crate) fn from_vec(coins: Vec<Coin>) -> (r: CoinSet)
        requires
            distinct_denoms(coins@.map_values(|c: Coin| c@)),
        ensures
            r@ == coins@.map_values(|c: Coin| c@),
    {
        CoinSet { coins }
    }

    /// A balance from a list of coins, which fails on a repeated denomination.
    pub fn try_from_coins(coins: Vec<Coin>) -> (r: Result<CoinSet, XcosmError>)
        ensures
            match r {
                Ok(s) => distinct_denoms(coins@.map_values(|c: Coin| c@)) && s@ == coins@.map_values(
                    |c: Coin| c@,
                ),
                Err(e) => !distinct_denoms(coins@.map_values(|c: Coin| c@)) && exists|
                    i: int,
                    j: int,
                |
                    0 <= i < j < coins@.len() && coins@[i].denom@ == coins@[j].denom@ && e == (
                    XcosmError::CoinsDuplicate { denom: Some(coins@[j].denom) }),
            },
    {
        let ghost v = coins@.map_values(|c: Coin| c@);
        let mut j: usize = 0;
        while j < coins.len()
            invariant
                j <= coins@.len(),
                v == coins@.map_values(|c: Coin| c@),
                forall|a: int, b: int| 0 <= a < b < j ==> v[a].0 != v[b].0,
            decreases coins@.len() - j,
        {
            let mut i: usize = 0;
            while i < j
                invariant
                    i <= j < coins@.len(),
                    v == coins@.map_values(|c: Coin| c@),
                    forall|a: int| 0 <= a < i ==> v[a].0 != v[j as int].0,
                decreases j - i,
            {
                if coins[i].denom == coins[j].denom {
                    assert(!distinct_denoms(v)) by {
                        assert(v[i as int].0 == v[j as int].0);
                    }
                    return Err(XcosmError::CoinsDuplicate { denom: Some(coins[j].denom.clone()) });
                }
                i += 1;
            }
            j += 1;
        }
        Ok(CoinSet { coins })
    }

    /// Succeeds only on the empty balance.
    pub fn expect_none(&self) -> (r: Result<(), XcosmError>)
        ensures
            r is Ok <==> self@.len() == 0,
            r is Err ==> r->Err_0 == (XcosmError::CoinsNotAllowed {}),
    {
        if self.coins.len() == 0 {
            Ok(())
        } else {
            Err(XcosmError::CoinsNotAllowed {})
        }
    }

    /// The coins as text, each as its amount followed by its denomination,
    /// separated by commas.
    pub fn to_text(&self) -> (r: String)
        ensures
            r@ == coins_text(self@),
    {
        let mut r = String::new();
        let mut i: usize = 0;
        while i < self.coins.len()
            invariant
                i <= self.coins@.len(),
                self@ == self.coins@.map_values(|c: Coin| c@),
                r@ == coins_text(self@.take(i as int)),
            decreases self.coins@.len() - i,
        {
            proof {
                reveal_strlit(",");
                assert(self@.take(i + 1).drop_last() =~= self@.take(i as int));
            }
            if i > 0 {
                r.append(",");
            }
            push_decimal(&mut r, self.coins[i].amount);
            r.append(self.coins[i].denom.as_str());
            proof {
                if i == 0 {
                    assert(r@ =~= coins_text(self@.take(1)));
                } else {
                    assert(r@ =~= coins_text(self@.take(i + 1)));
                }
            }
            i += 1;
        }
        assert(self@.take(self@.len() as int) =~= self@);
        r
    }

    /// Succeeds only where `self` holds exactly the coins of `expected`;
    /// otherwise the error names the expected coins as text.
    pub fn expect_coins_exact(&self, expected: &CoinSet) -> (r: Result<(), XcosmError>)
        ensures
            match r {
                Ok(_) => same_coins(self@, expected@),
                Err(e) => !same_coins(self@, expected@) && match e {
                    XcosmError::CoinsNotExact { expect } => expect@ == coins_text(expected@),
                    _ => false,
                },
            },
    {
        let ok = self.same_coins_as(expected);
        if ok {
            Ok(())
        } else {
            Err(XcosmError::CoinsNotExact { expect: expected.to_text() })
        }
    }

    fn same_coins_as(&self, expected: &CoinSet) -> (r: bool)
        ensures
            r == same_coins(self@, expected@),
    {
        if self.coins.len() != expected.coins.len() {
            return false;
        }
        let mut i: usize = 0;
        let ghost mut w: Seq<int> = Seq::empty();
        while i < expected.coins.len()
            invariant
                i <= expected@.len(),
                self@.len() == expected@.len(),
                self@ == self.coins@.map_values(|c: Coin| c@),
                expected@ == expected.coins@.map_values(|c: Coin| c@),
                w.len() == i,
                forall|k: int| 0 <= k < i ==> 0 <= #[trigger] w[k] < self@.len() && self@[w[k]] == expected@[k],
            decreases expected@.len() - i,
        {
            let mut j: usize = 0;
            let mut found = false;
            while j < self.coins.len()
                invariant_except_break
                    !found,
                invariant
                    j <= self@.len(),
                    i < expected@.len(),
                    self@ == self.coins@.map_values(|c: Coin| c@),
                    expected@ == expected.coins@.map_values(|c: Coin| c@),
                    forall|k: int| 0 <= k < j ==> self@[k] != expected@[i as int],
                ensures
                    j <= self@.len(),
                    forall|k: int| 0 <= k < j ==> self@[k] != expected@[i as int],
                    found ==> j < self@.len() && self@[j as int] == expected@[i as int],
                    !found ==> j == self@.len(),
                decreases self@.len() - j,
            {
                assert(self@[j as int] == self.coins@[j as int]@);
                assert(expected@[i as int] == expected.coins@[i as int]@);
                if self.coins[j].amount == expected.coins[i].amount && self.coins[j].denom == expected.coins[i].denom {
                    found = true;
                    break;
                }
                j += 1;
            }
            if found {
                proof {
                    w = w.push(j as int);
                }
            }
            if !found {
                assert(!same_coins(self@, expected@)) by {
                    if same_coins(self@, expected@) {
                        let e = expected@[i as int];
                        assert(self@.contains(e));
                        let j = choose|j: int| 0 <= j < self@.len() && self@[j] == e;
                        assert(self@[j] != expected@[i as int]);
                    }
                }
                return false;
            }
            i += 1;
        }
        assert forall|k: int| 0 <= k < expected@.len() implies self@.contains(#[trigger] expected@[k]) by {
            assert(self@[w[k]] == expected@[k]);
        }
        true
    }

    /// The number of denominations.
    pub fn len(&self) -> (r: usize)
        ensures
            r == self@.len(),
    {
        self.coins.len()
    }

    /// The coins, in order.
    pub fn to_coins(&self) -> (r: Vec<Coin>)
        ensures
            r@.map_values(|c: Coin| c@) == self@,
            distinct_denoms(self@),
    {
        proof {
            use_type_invariant(self);
        }
        let mut r: Vec<Coin> = Vec::new();
        let mut i: usize = 0;
        while i < self.coins.len()
            invariant
                i <= self.coins@.len(),
                r@.len() == i,
                forall|k: int| 0 <= k < i ==> r@[k]@ == self.coins@[k]@,
            decreases self.coins@.len() - i,
        {
            let c = Coin { denom: self.coins[i].denom.clone(), amount: self.coins[i].amount };
            r.push(c);
            i += 1;
        }
        assert(r@.map_values(|c: Coin| c@) =~= self@);
        r
    }

    /// The amount held of `denom`, zero where it is absent.
    pub fn amount_of(&self, denom: &String) -> (r: u128)
        ensures
            r as nat == amount_in(self@, denom@),
    {
        proof {
            use_type_invariant(self);
        }
        let mut i: usize = 0;
        while i < self.coins.len()
            invariant
                i <= self.coins@.len(),
                self@ == self.coins@.map_values(|c: Coin| c@),
                distinct_denoms(self@),
                forall|k: int| 0 <= k < i ==> self@[k].0 != denom@,
            decreases self.coins@.len() - i,
        {
            if self.coins[i].denom == *denom {
                proof {
                    lemma_amount_at(self@, i as int);
                }
                return self.coins[i].amount;
            }
            i += 1;
        }
        0
    }

    /// The balance of the one coin `c`.
    pub fn single(c: &Coin) -> (r: CoinSet)
        ensures
            r@ == seq![c@],
    {
        let mut coins: Vec<Coin> = Vec::new();
        coins.push(Coin { denom: c.denom.clone(), amount: c.amount });
        let r = CoinSet { coins };
        assert(r@ =~= seq![c@]);
        r
    }

    /// `self` with `other` added per denomination of `self`; fails where an
    /// amount would pass `u128::MAX`.
    pub fn checked_plus(&self, other: &CoinSet) -> (r: Result<CoinSet, XcosmError>)
        ensures
            match r {
                Ok(s) => !add_overflows(self@, other@) && added(self@, other@, s@),
                Err(e) => add_overflows(self@, other@) && e == (XcosmError::MathOverflow {}),
            },
    {
        proof {
            use_type_invariant(self);
        }
        let mut coins: Vec<Coin> = Vec::new();
        let mut i: usize = 0;
        while i < self.coins.len()
            invariant
                i <= self.coins@.len(),
                self@ == self.coins@.map_values(|c: Coin| c@),
                distinct_denoms(self@),
                coins@.len() == i,
                forall|k: int|
                    0 <= k < i ==> coins@[k].denom@ == self@[k].0 && coins@[k].amount as nat
                        == self@[k].1 as nat + amount_in(other@, self@[k].0),
            decreases self.coins@.len() - i,
        {
            let more = other.amount_of(&self.coins[i].denom);
            match self.coins[i].amount.checked_add(more) {
                Some(a) => {
                    coins.push(Coin { denom: self.coins[i].denom.clone(), amount: a });
                },
                None => {
                    assert(self@[i as int].1 as nat + amount_in(other@, self@[i as int].0) > u128::MAX);
                    return Err(XcosmError::MathOverflow {});
                },
            }
            i += 1;
        }
        let ghost v = coins@.map_values(|c: Coin| c@);
        assert(added(self@, other@, v));
        assert(distinct_denoms(v)) by {
            assert forall|a: int, b: int| 0 <= a < b < v.len() implies v[a].0 != v[b].0 by {
                assert(self@[a].0 != self@[b].0);
            }
        }
        Ok(CoinSet { coins })
    }

    /// `self` with `other` taken away per denomination of `self`; fails where
    /// an amount would go below zero.
    pub fn checked_minus(&self, other: &CoinSet) -> (r: Result<CoinSet, XcosmError>)
        ensures
            match r {
                Ok(s) => !sub_underflows(self@, other@) && subtracted(self@, other@, s@),
                Err(e) => sub_underflows(self@, other@) && e == (XcosmError::MathUnderflow {}),
            },
    {
        proof {
            use_type_invariant(self);
        }
        let mut coins: Vec<Coin> = Vec::new();
        let mut i: usize = 0;
        while i < self.coins.len()
            invariant
                i <= self.coins@.len(),
                self@ == self.coins@.map_values(|c: Coin| c@),
                distinct_denoms(self@),
                coins@.len() == i,
                forall|k: int|
                    0 <= k < i ==> coins@[k].denom@ == self@[k].0 && coins@[k].amount as int
                        == self@[k].1 as int - amount_in(other@, self@[k].0),
            decreases self.coins@.len() - i,
        {
            let less = other.amount_of(&self.coins[i].denom);
            match self.coins[i].amount.checked_sub(less) {
                Some(a) => {
                    coins.push(Coin { denom: self.coins[i].denom.clone(), amount: a });
                },
                None => {
                    assert((self@[i as int].1 as nat) < amount_in(other@, self@[i as int].0));
                    return Err(XcosmError::MathUnderflow {});
                },
            }
            i += 1;
        }
        let ghost v = coins@.map_values(|c: Coin| c@);
        assert(subtracted(self@, other@, v));
        assert(distinct_denoms(v)) by {
            assert forall|a: int, b: int| 0 <= a < b < v.len() implies v[a].0 != v[b].0 by {
                assert(self@[a].0 != self@[b].0);
            }
        }
        Ok(CoinSet { coins })
    }

    /// An equal copy.
    pub fn duplicate(&self) -> (r: CoinSet)
        ensures
            r@ == self@,
    {
        proof {
            use_type_invariant(self);
        }
        let coins = self.to_coins();
        CoinSet { coins }
    }
}

impl Clone for CoinSet {
    fn clone(&self) -> Self {
        self.duplicate()
    }
}

} // verus!
