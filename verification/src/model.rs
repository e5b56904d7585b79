//! The materialized domain model: squads, members, lots, and drift reports.
//!
//! These are immutable value objects, built fresh from a snapshot for each
//! query; they hold no reference back to any store.

use vstd::prelude::*;
use vstd::pervasive::VecAdditionalExecFns;

use crate::amount::Amount;
use crate::fraction::Fraction;

verus! {

/// An asset symbol tracked within a squad, with its price.
#[derive(Debug)]
pub struct SquadMember {
    pub squad_id: u64,
    pub symbol: String,
    pub price: Amount,
}

impl Clone for SquadMember {
    fn clone(&self) -> (r: SquadMember)
        ensures
            r == *self,
    {
        SquadMember { squad_id: self.squad_id, symbol: self.symbol.clone(), price: self.price }
    }
}

impl PartialEq for SquadMember {
    fn eq(&self, other: &SquadMember) -> (r: bool) {
        self.squad_id == other.squad_id && self.symbol == other.symbol
            && self.price.micros == other.price.micros
    }
}

impl vstd::std_specs::cmp::PartialEqSpecImpl for SquadMember {
    open spec fn obeys_eq_spec() -> bool {
        true
    }

    open spec fn eq_spec(&self, other: &SquadMember) -> bool {
        self.squad_id == other.squad_id && self.symbol@ == other.symbol@
            && self.price.micros == other.price.micros
    }
}

/// A discrete quantity of a symbol held in a named account, attributed to a
/// squad. A lot whose `squad_id` is `0` is tombstoned.
#[derive(Debug)]
pub struct Lot {
    pub squad_id: u64,
    pub id: u64,
    pub symbol: String,
    pub account: String,
    pub shares: Amount,
}

impl Clone for Lot {
    fn clone(&self) -> (r: Lot)
        ensures
            r == *self,
    {
        Lot {
            squad_id: self.squad_id,
            id: self.id,
            symbol: self.symbol.clone(),
            account: self.account.clone(),
            shares: self.shares,
        }
    }
}

impl PartialEq for Lot {
    fn eq(&self, other: &Lot) -> (r: bool) {
        self.squad_id == other.squad_id && self.id == other.id && self.symbol == other.symbol
            && self.account == other.account && self.shares.micros == other.shares.micros
    }
}

impl vstd::std_specs::cmp::PartialEqSpecImpl for Lot {
    open spec fn obeys_eq_spec() -> bool {
        true
    }

    open spec fn eq_spec(&self, other: &Lot) -> bool {
        self.squad_id == other.squad_id && self.id == other.id && self.symbol@ == other.symbol@
            && self.account@ == other.account@ && self.shares.micros == other.shares.micros
    }
}

/// One symbol's price, as an entry of a squad's price table.
#[derive(Debug)]
pub struct SymbolPrice {
    pub symbol: String,
    pub price: Amount,
}

impl Clone for SymbolPrice {
    fn clone(&self) -> (r: SymbolPrice)
        ensures
            r == *self,
    {
        SymbolPrice { symbol: self.symbol.clone(), price: self.price }
    }
}

/// A named group of asset holdings with an owner, ordered members, lots,
/// a price table over the members' symbols, and unspent cash.
#[derive(Debug)]
pub struct Squad {
    pub id: u64,
    pub name: String,
    pub owner: u64,
    pub members: Vec<SquadMember>,
    pub lots: Vec<Lot>,
    pub prices: Vec<SymbolPrice>,
    pub unspent: Amount,
}

/// Machine limit on a single amount: one hundred million units.
pub const AMOUNT_LIMIT: i64 = 100_000_000_000_000;

/// Machine limit on the number of lots in one squad.
pub const MAX_LOTS: usize = 1000;

/// Machine limit on the number of members in one squad.
pub const MAX_MEMBERS: usize = 100;

/// Micro-units squared: the denominator of a price times a share count.
pub const PICO_DEN: i128 = 1_000_000_000_000;

/// The shares a squad's lots hold of one symbol, in micro-units.
pub open spec fn spec_sym_shares(lots: Seq<Lot>, sym: Seq<char>) -> int
    decreases lots.len(),
{
    if lots.len() == 0 {
        0
    } else {
        spec_sym_shares(lots.drop_last(), sym) + if lots.last().symbol@ == sym {
            lots.last().shares.micros as int
        } else {
            0
        }
    }
}

/// The distinct symbols of a lot sequence, in first-occurrence order.
pub open spec fn first_syms(lots: Seq<Lot>) -> Seq<Seq<char>>
    decreases lots.len(),
{
    if lots.len() == 0 {
        Seq::empty()
    } else {
        let p = first_syms(lots.drop_last());
        if p.contains(lots.last().symbol@) {
            p
        } else {
            p.push(lots.last().symbol@)
        }
    }
}

/// The symbols of a share table, in order.
pub open spec fn table_syms(t: Seq<SymbolShares>) -> Seq<Seq<char>> {
    Seq::new(t.len(), |i: int| t[i].symbol@)
}

/// The shares a share table records for a symbol: the first matching entry,
/// or zero.
pub open spec fn table_shares(t: Seq<SymbolShares>, sym: Seq<char>) -> int
    decreases t.len(),
{
    if t.len() == 0 {
        0
    } else if t[0].symbol@ == sym {
        t[0].shares.micros as int
    } else {
        table_shares(t.skip(1), sym)
    }
}

/// Aggregated shares of one symbol over a squad's lots.
#[derive(Debug)]
pub struct SymbolShares {
    pub symbol: String,
    pub shares: Amount,
}

impl Clone for SymbolShares {
    fn clone(&self) -> (r: SymbolShares)
        ensures
            r == *self,
    {
        SymbolShares { symbol: self.symbol.clone(), shares: self.shares }
    }
}

pub proof fn lemma_first_syms_complete(lots: Seq<Lot>, k: int)
    requires
        0 <= k < lots.len(),
    ensures
        first_syms(lots).contains(lots[k].symbol@),
    decreases lots.len(),
{
    let p = first_syms(lots.drop_last());
    if k == lots.len() - 1 {
        if !p.contains(lots.last().symbol@) {
            assert(first_syms(lots).last() == lots.last().symbol@);
        }
    } else {
        lemma_first_syms_complete(lots.drop_last(), k);
        assert(lots.drop_last()[k] == lots[k]);
        if !p.contains(lots.last().symbol@) {
            assert(forall|j: int| 0 <= j < p.len() ==> p.push(lots.last().symbol@)[j] == p[j]);
        }
    }
}

/// A symbol no lot carries has zero aggregated shares.
pub proof fn lemma_sym_shares_absent(lots: Seq<Lot>, sym: Seq<char>)
    requires
        forall|k: int| 0 <= k < lots.len() ==> lots[k].symbol@ != sym,
    ensures
        spec_sym_shares(lots, sym) == 0,
    decreases lots.len(),
{
    if lots.len() > 0 {
        assert(forall|k: int|
            0 <= k < lots.len() - 1 ==> #[trigger] lots.drop_last()[k].symbol@ == lots[k].symbol@);
        lemma_sym_shares_absent(lots.drop_last(), sym);
    }
}

/// Aggregated shares are bounded by the lot count times the amount bound.
pub proof fn lemma_sym_shares_bound(lots: Seq<Lot>, sym: Seq<char>, limit: int)
    requires
        limit >= 0,
        forall|k: int|
            0 <= k < lots.len() ==> -limit <= #[trigger] lots[k].shares.micros as int <= limit,
    ensures
        -(lots.len() * limit) <= spec_sym_shares(lots, sym) <= lots.len() * limit,
    decreases lots.len(),
{
    if lots.len() > 0 {
        assert(forall|k: int|
            0 <= k < lots.len() - 1 ==> #[trigger] lots.drop_last()[k] == lots[k]);
        lemma_sym_shares_bound(lots.drop_last(), sym, limit);
        assert((lots.len() - 1) * limit + limit == lots.len() * limit) by (nonlinear_arith);
    }
}

pub proof fn lemma_table_first_match(t: Seq<SymbolShares>, j: int)
    requires
        0 <= j < t.len(),
        forall|k: int| 0 <= k < j ==> t[k].symbol@ != t[j].symbol@,
    ensures
        table_shares(t, t[j].symbol@) == t[j].shares.micros,
    decreases j,
{
    if j > 0 {
        let u = t.skip(1);
        assert(forall|k: int| 0 <= k < j - 1 ==> #[trigger] u[k] == t[k + 1]);
        lemma_table_first_match(u, j - 1);
    }
}

pub proof fn lemma_table_no_match(t: Seq<SymbolShares>, sym: Seq<char>)
    requires
        forall|k: int| 0 <= k < t.len() ==> t[k].symbol@ != sym,
    ensures
        table_shares(t, sym) == 0,
    decreases t.len(),
{
    if t.len() > 0 {
        let u = t.skip(1);
        assert(forall|k: int| 0 <= k < u.len() ==> #[trigger] u[k] == t[k + 1]);
        lemma_table_no_match(u, sym);
    }
}

/// A share table built from a lot sequence answers every symbol with that
/// sequence's aggregate.
pub proof fn lemma_table_matches_lots(t: Seq<SymbolShares>, lots: Seq<Lot>, sym: Seq<char>)
    requires
        table_syms(t) == first_syms(lots),
        forall|j: int|
            0 <= j < t.len() ==> #[trigger] t[j].shares.micros as int == spec_sym_shares(
                lots,
                t[j].symbol@,
            ),
        forall|j: int, k: int| 0 <= j < k < t.len() ==> t[j].symbol@ != t[k].symbol@,
    ensures
        table_shares(t, sym) == spec_sym_shares(lots, sym),
{
    if exists|j: int| 0 <= j < t.len() && t[j].symbol@ == sym {
        let j = choose|j: int| 0 <= j < t.len() && t[j].symbol@ == sym;
        assert(forall|k: int| 0 <= k < j ==> t[k].symbol@ != t[j].symbol@);
        lemma_table_first_match(t, j);
    } else {
        assert(forall|k: int| 0 <= k < t.len() ==> t[k].symbol@ != sym);
        lemma_table_no_match(t, sym);
        assert(forall|k: int|
            0 <= k < lots.len() ==> #[trigger] lots[k].symbol@ != sym) by {
            if exists|k: int| 0 <= k < lots.len() && #[trigger] lots[k].symbol@ == sym {
                let k = choose|k: int| 0 <= k < lots.len() && #[trigger] lots[k].symbol@ == sym;
                lemma_first_syms_complete(lots, k);
                let i = choose|i: int|
                    0 <= i < first_syms(lots).len() && first_syms(lots)[i] == sym;
                assert(table_syms(t)[i] == sym);
            }
        }
        lemma_sym_shares_absent(lots, sym);
    }
}

/// The sum of the squared ranks `1*1 + 2*2 + ... + n*n`.
pub open spec fn sum_weights(n: int) -> int
    decreases n,
{
    if n <= 0 {
        0
    } else {
        sum_weights(n - 1) + n * n
    }
}

pub proof fn lemma_sum_weights_pos(n: int)
    requires
        n >= 1,
    ensures
        sum_weights(n) >= n,
    decreases n,
{
    if n > 1 {
        lemma_sum_weights_pos(n - 1);
    } else {
        assert(sum_weights(0) == 0);
    }
    assert(n * n >= n) by (nonlinear_arith)
        requires
            n >= 1,
    ;
}

pub proof fn lemma_sum_weights_bound(n: int, c: int)
    requires
        0 <= n <= c,
    ensures
        sum_weights(n) <= n * (c * c),
    decreases n,
{
    if n > 0 {
        lemma_sum_weights_bound(n - 1, c);
        assert(n * n <= c * c) by (nonlinear_arith)
            requires
                0 <= n <= c,
        ;
        assert((n - 1) * (c * c) + c * c == n * (c * c)) by (nonlinear_arith);
    } else {
        assert(n * (c * c) == 0) by (nonlinear_arith)
            requires
                n == 0,
        ;
    }
}

/// The market value, in pico-units, of the first `k` members: each
/// member's price times the aggregated shares of its symbol.
pub open spec fn spec_market_sum(members: Seq<SquadMember>, lots: Seq<Lot>, k: int) -> int
    decreases k,
{
    if k <= 0 {
        0
    } else {
        spec_market_sum(members, lots, k - 1) + members[k - 1].price.micros * spec_sym_shares(
            lots,
            members[k - 1].symbol@,
        )
    }
}

impl Squad {
    /// Machine limits under which the allocation arithmetic cannot
    /// overflow.
    pub open spec fn within_limits(self) -> bool {
        &&& self.members@.len() <= MAX_MEMBERS
        &&& self.lots@.len() <= MAX_LOTS
        &&& -AMOUNT_LIMIT <= self.unspent.micros <= AMOUNT_LIMIT
        &&& forall|k: int|
            0 <= k < self.lots@.len() ==> -AMOUNT_LIMIT
                <= #[trigger] self.lots@[k].shares.micros <= AMOUNT_LIMIT
        &&& forall|k: int|
            0 <= k < self.members@.len() ==> -AMOUNT_LIMIT
                <= #[trigger] self.members@[k].price.micros <= AMOUNT_LIMIT
    }

    /// The squad's whole pool in pico-units: every member's market value
    /// plus the unspent cash.
    pub open spec fn spec_total(self) -> int {
        spec_market_sum(self.members@, self.lots@, self.members@.len() as int)
            + self.unspent.micros * 1000000
    }

    /// The price this squad's table holds for a symbol, if any.
    pub fn price_for(&self, symbol: &str) -> (r: Option<Amount>)
        ensures
            match r {
                Some(a) => exists|j: int|
                    0 <= j < self.prices@.len() && (#[trigger] self.prices@[j]).symbol@ == symbol@
                        && self.prices@[j].price == a,
                None => forall|j: int|
                    0 <= j < self.prices@.len() ==> (#[trigger] self.prices@[j]).symbol@
                        != symbol@,
            },
    {
        let sym = symbol.to_owned();
        let mut j: usize = 0;
        while j < self.prices.len()
            invariant
                0 <= j <= self.prices@.len(),
                sym@ == symbol@,
                forall|k: int| 0 <= k < j ==> (#[trigger] self.prices@[k]).symbol@ != symbol@,
            decreases self.prices@.len() - j,
        {
            if self.prices[j].symbol == sym {
                return Some(self.prices[j].price);
            }
            j = j + 1;
        }
        None
    }

    /// Sums lot share counts grouped by symbol.
    ///
    /// Each entry holds exactly the sum of `shares` over this squad's lots
    /// with that symbol; the entries are the lots' symbols in
    /// first-occurrence order, without duplicates, and a symbol outside the
    /// table has no shares in any lot.
    pub fn symbol_shares(&self) -> (r: Vec<SymbolShares>)
        requires
            self.lots@.len() <= MAX_LOTS,
            forall|k: int|
                0 <= k < self.lots@.len() ==> -AMOUNT_LIMIT
                    <= #[trigger] self.lots@[k].shares.micros <= AMOUNT_LIMIT,
        ensures
            table_syms(r@) == first_syms(self.lots@),
            forall|j: int|
                0 <= j < r@.len() ==> #[trigger] r@[j].shares.micros as int == spec_sym_shares(
                    self.lots@,
                    r@[j].symbol@,
                ),
            forall|j: int, k: int| 0 <= j < k < r@.len() ==> r@[j].symbol@ != r@[k].symbol@,
            forall|j: int|
                0 <= j < r@.len() ==> -(self.lots@.len() * AMOUNT_LIMIT)
                    <= #[trigger] r@[j].shares.micros as int <= self.lots@.len() * AMOUNT_LIMIT,
            forall|sym: Seq<char>| table_shares(r@, sym) == spec_sym_shares(self.lots@, sym),
    {
        let mut r: Vec<SymbolShares> = Vec::new();
        let mut i: usize = 0;
        while i < self.lots.len()
            invariant
                0 <= i <= self.lots@.len(),
                self.lots@.len() <= MAX_LOTS,
                forall|k: int|
                    0 <= k < self.lots@.len() ==> -AMOUNT_LIMIT
                        <= #[trigger] self.lots@[k].shares.micros <= AMOUNT_LIMIT,
                table_syms(r@) == first_syms(self.lots@.take(i as int)),
                forall|j: int|
                    0 <= j < r@.len() ==> #[trigger] r@[j].shares.micros as int == spec_sym_shares(
                        self.lots@.take(i as int),
                        r@[j].symbol@,
                    ),
                forall|j: int, k: int| 0 <= j < k < r@.len() ==> r@[j].symbol@ != r@[k].symbol@,
                forall|j: int|
                    0 <= j < r@.len() ==> -(i * AMOUNT_LIMIT) <= #[trigger] r@[j].shares.micros
                        as int <= i * AMOUNT_LIMIT,
            decreases self.lots@.len() - i,
        {
            let ghost prev = self.lots@.take(i as int);
            let ghost cur = self.lots@.take(i as int + 1);
            proof {
                assert(cur.drop_last() =~= prev);
                assert(cur.last() == self.lots@[i as int]);
            }
            let lot = &self.lots[i];
            let mut found: Option<usize> = None;
            let mut j: usize = 0;
            while j < r.len()
                invariant
                    0 <= j <= r@.len(),
                    match found {
                        Some(f) => f < j && r@[f as int].symbol@ == lot.symbol@,
                        None => forall|k: int| 0 <= k < j ==> r@[k].symbol@ != lot.symbol@,
                    },
                decreases r@.len() - j,
            {
                if found.is_none() && r[j].symbol == lot.symbol {
                    found = Some(j);
                }
                j = j + 1;
            }
            match found {
                Some(f) => {
                    proof {
                        assert(table_syms(r@)[f as int] == lot.symbol@);
                        assert(first_syms(cur) == first_syms(prev));
                        assert((i as int) * AMOUNT_LIMIT + AMOUNT_LIMIT <= MAX_LOTS
                            * AMOUNT_LIMIT) by (nonlinear_arith)
                            requires
                                0 <= i as int && (i as int) + 1 <= MAX_LOTS as int,
                        ;
                    }
                    let updated = SymbolShares {
                        symbol: r[f].symbol.clone(),
                        shares: Amount { micros: r[f].shares.micros + lot.shares.micros },
                    };
                    r.set(f, updated);
                    proof {
                        assert(table_syms(r@) =~= first_syms(cur));
                        assert(forall|j2: int|
                            0 <= j2 < r@.len() && j2 != f ==> spec_sym_shares(cur, r@[j2].symbol@)
                                == spec_sym_shares(prev, r@[j2].symbol@));
                        assert((i as int + 1) * AMOUNT_LIMIT == i as int * AMOUNT_LIMIT
                            + AMOUNT_LIMIT) by (nonlinear_arith);
                    }
                },
                None => {
                    proof {
                        assert(!table_syms(r@).contains(lot.symbol@)) by {
                            if table_syms(r@).contains(lot.symbol@) {
                                let k = choose|k: int|
                                    0 <= k < table_syms(r@).len() && table_syms(r@)[k]
                                        == lot.symbol@;
                                assert(r@[k].symbol@ == lot.symbol@);
                            }
                        }
                        assert(first_syms(cur) == first_syms(prev).push(lot.symbol@));
                        assert forall|k: int|
                            0 <= k < prev.len() implies #[trigger] prev[k].symbol@
                            != lot.symbol@ by {
                            if prev[k].symbol@ == lot.symbol@ {
                                lemma_first_syms_complete(prev, k);
                            }
                        }
                        lemma_sym_shares_absent(prev, lot.symbol@);
                        assert((i as int + 1) * AMOUNT_LIMIT >= i as int * AMOUNT_LIMIT
                            + AMOUNT_LIMIT) by (nonlinear_arith)
                            requires
                                i as int >= 0,
                        ;
                    }
                    r.push(SymbolShares { symbol: lot.symbol.clone(), shares: lot.shares });
                    proof {
                        assert(table_syms(r@) =~= first_syms(cur));
                        assert(forall|j2: int|
                            0 <= j2 < r@.len() - 1 ==> spec_sym_shares(cur, r@[j2].symbol@)
                                == spec_sym_shares(prev, r@[j2].symbol@));
                    }
                },
            }
            i = i + 1;
        }
        proof {
            assert(self.lots@.take(i as int) =~= self.lots@);
            assert forall|sym: Seq<char>|
                #[trigger] table_shares(r@, sym) == spec_sym_shares(self.lots@, sym) by {
                lemma_table_matches_lots(r@, self.lots@, sym);
            }
        }
        r
    }

    /// The target portion of each member by recency rank.
    ///
    /// The member at index `i` has rank `i + 1`, weight `rank * rank`, and
    /// target portion `weight / (1*1 + 2*2 + ... + n*n)`.
    pub fn member_portions(&self) -> (r: Vec<Fraction>)
        requires
            self.members@.len() <= MAX_MEMBERS,
        ensures
            r@.len() == self.members@.len(),
            forall|i: int|
                0 <= i < r@.len() ==> (#[trigger] r@[i]).num == (i + 1) * (i + 1) && r@[i].den
                    == sum_weights(self.members@.len() as int) && r@[i].wf(),
    {
        let n = self.members.len();
        let mut w: u64 = 0;
        let mut k: usize = 0;
        while k < n
            invariant
                0 <= k <= n <= MAX_MEMBERS,
                w == sum_weights(k as int),
                w <= k * 10000,
            decreases n - k,
        {
            let k1 = (k + 1) as u64;
            proof {
                assert(k1 * k1 <= 10000) by (nonlinear_arith)
                    requires
                        1 <= k1 <= 100,
                ;
                assert((k as int + 1) * 10000 == k as int * 10000 + 10000) by (nonlinear_arith);
            }
            w = w + k1 * k1;
            k = k + 1;
        }
        let mut r: Vec<Fraction> = Vec::new();
        if n == 0 {
            return r;
        }
        proof {
            lemma_sum_weights_pos(n as int);
        }
        let mut i: usize = 0;
        while i < n
            invariant
                0 <= i <= n <= MAX_MEMBERS,
                n == self.members@.len(),
                0 < w == sum_weights(n as int),
                r@.len() == i,
                forall|j: int|
                    0 <= j < i ==> (#[trigger] r@[j]).num == (j + 1) * (j + 1) && r@[j].den
                        == sum_weights(n as int) && r@[j].wf(),
            decreases n - i,
        {
            let rank = (i + 1) as i128;
            proof {
                assert(rank * rank <= 10000) by (nonlinear_arith)
                    requires
                        1 <= rank <= 100,
                ;
            }
            r.push(Fraction { num: rank * rank, den: w as i128 });
            i = i + 1;
        }
        r
    }
}

impl SquadMember {
    /// The member's market value: its price times the aggregated shares of
    /// its symbol, as an exact fraction of whole units.
    pub fn market_value(&self, table: &Vec<SymbolShares>) -> (r: Fraction)
        requires
            -AMOUNT_LIMIT <= self.price.micros <= AMOUNT_LIMIT,
            forall|j: int|
                0 <= j < table@.len() ==> -(MAX_LOTS * AMOUNT_LIMIT)
                    <= #[trigger] table@[j].shares.micros as int <= MAX_LOTS * AMOUNT_LIMIT,
        ensures
            r.num == self.price.micros * table_shares(table@, self.symbol@),
            r.den == PICO_DEN,
            r.wf(),
    {
        let mut j: usize = 0;
        proof {
            assert(table@.skip(0) =~= table@);
        }
        while j < table.len()
            invariant
                0 <= j <= table@.len(),
                -AMOUNT_LIMIT <= self.price.micros <= AMOUNT_LIMIT,
                forall|k: int|
                    0 <= k < table@.len() ==> -(MAX_LOTS * AMOUNT_LIMIT)
                        <= #[trigger] table@[k].shares.micros as int <= MAX_LOTS * AMOUNT_LIMIT,
                table_shares(table@, self.symbol@) == table_shares(
                    table@.skip(j as int),
                    self.symbol@,
                ),
            decreases table@.len() - j,
        {
            proof {
                assert(table@.skip(j as int)[0] == table@[j as int]);
            }
            if table[j].symbol == self.symbol {
                let shares = table[j].shares.micros;
                proof {
                    assert(table_shares(table@.skip(j as int), self.symbol@) == shares as int);
                    assert(-10000000000000000000000000000000
                        <= (self.price.micros as int) * (shares as int)
                        <= 10000000000000000000000000000000) by (nonlinear_arith)
                        requires
                            -AMOUNT_LIMIT <= self.price.micros as int <= AMOUNT_LIMIT,
                            -(MAX_LOTS * AMOUNT_LIMIT) <= shares as int <= MAX_LOTS * AMOUNT_LIMIT,
                    ;
                }
                return Fraction {
                    num: (self.price.micros as i128) * (shares as i128),
                    den: PICO_DEN,
                };
            }
            proof {
                assert(table@.skip(j as int).skip(1) =~= table@.skip(j as int + 1));
            }
            j = j + 1;
        }
        proof {
            assert(table@.skip(j as int) =~= Seq::<SymbolShares>::empty());
            assert(table_shares(table@, self.symbol@) == 0);
        }
        Fraction { num: 0, den: PICO_DEN }
    }
}

/// The derived drift report of one member: its rank, target portion,
/// market value, and target value.
#[derive(Debug)]
pub struct DriftReport {
    pub member: SquadMember,
    pub rank: usize,
    pub market_value: Fraction,
    pub target_portion: Fraction,
    pub target_value: Fraction,
}

impl Clone for DriftReport {
    fn clone(&self) -> (r: DriftReport)
        ensures
            r == *self,
    {
        DriftReport {
            member: self.member.clone(),
            rank: self.rank,
            market_value: self.market_value,
            target_portion: self.target_portion,
            target_value: self.target_value,
        }
    }
}

impl PartialEq for DriftReport {
    fn eq(&self, other: &DriftReport) -> (r: bool) {
        self.member == other.member && self.rank == other.rank && self.market_value
            == other.market_value && self.target_portion == other.target_portion
            && self.target_value == other.target_value
    }
}

impl vstd::std_specs::cmp::PartialEqSpecImpl for DriftReport {
    open spec fn obeys_eq_spec() -> bool {
        true
    }

    open spec fn eq_spec(&self, other: &DriftReport) -> bool {
        vstd::std_specs::cmp::PartialEqSpec::eq_spec(&self.member, &other.member) && self.rank
            == other.rank && self.market_value
            == other.market_value && self.target_portion == other.target_portion
            && self.target_value == other.target_value
    }
}

/// `r` equals `a - b` as rational numbers.
pub open spec fn frac_is_diff(r: Fraction, a: Fraction, b: Fraction) -> bool {
    r.num * (a.den * b.den) == (a.num * b.den - b.num * a.den) * r.den
}

/// `r` equals `a` divided by the price of `p` micro-units per unit.
pub open spec fn frac_is_per_price(r: Fraction, a: Fraction, p: int) -> bool {
    r.num * (a.den * p) == a.num * 1000000 * r.den
}

impl DriftReport {
    /// Shape of a report as the drift engine builds it: the target value's
    /// denominator combines the market value's and the portion's.
    pub open spec fn consistent(self) -> bool {
        &&& self.market_value.wf()
        &&& self.target_portion.wf()
        &&& self.target_value.wf()
        &&& self.target_value.den == self.market_value.den * self.target_portion.den
    }

    pub fn symbol(&self) -> (r: &str)
        ensures
            r@ == self.member.symbol@,
    {
        self.member.symbol.as_str()
    }

    /// The drift: market value minus target value, exactly.
    ///
    /// The arithmetic bounds in `requires` are machine limits.
    pub fn drift_amount(&self) -> (r: Fraction)
        requires
            self.consistent(),
            i128::MIN <= self.market_value.num * self.target_portion.den <= i128::MAX,
            i128::MIN <= self.market_value.num * self.target_portion.den - self.target_value.num
                <= i128::MAX,
        ensures
            r.num == self.market_value.num * self.target_portion.den - self.target_value.num,
            r.den == self.target_value.den,
            r.wf(),
            frac_is_diff(r, self.market_value, self.target_value),
    {
        let r = Fraction {
            num: self.market_value.num * self.target_portion.den - self.target_value.num,
            den: self.target_value.den,
        };
        proof {
            let mn = self.market_value.num as int;
            let md = self.market_value.den as int;
            let pd = self.target_portion.den as int;
            let tn = self.target_value.num as int;
            assert((mn * pd - tn) * (md * (md * pd)) == (mn * (md * pd) - tn * md) * (md
                * pd)) by (nonlinear_arith);
        }
        r
    }

    /// The drift expressed as a share count of the member's symbol:
    /// the drift amount divided by the price, exactly; `None` when the
    /// price is not positive, where no share count is defined.
    ///
    /// The arithmetic bounds in `requires` are machine limits.
    pub fn drift_shares(&self) -> (r: Option<Fraction>)
        requires
            self.consistent(),
            self.market_value.den == PICO_DEN,
            i128::MIN <= self.market_value.num * self.target_portion.den <= i128::MAX,
            i128::MIN <= self.market_value.num * self.target_portion.den - self.target_value.num
                <= i128::MAX,
            self.target_portion.den * self.member.price.micros * 1000000 <= i128::MAX,
        ensures
            match r {
                Some(f) => {
                    &&& self.member.price.micros > 0
                    &&& f.num == self.market_value.num * self.target_portion.den
                        - self.target_value.num
                    &&& f.den == 1000000 * self.target_portion.den * self.member.price.micros
                    &&& f.wf()
                    &&& frac_is_per_price(
                        f,
                        Fraction {
                            num: (self.market_value.num * self.target_portion.den
                                - self.target_value.num) as i128,
                            den: self.target_value.den,
                        },
                        self.member.price.micros as int,
                    )
                },
                None => self.member.price.micros <= 0,
            },
    {
        if self.member.price.micros <= 0 {
            return None;
        }
        let p = self.member.price.micros as i128;
        let d = self.drift_amount();
        proof {
            let pd = self.target_portion.den as int;
            assert(1000000 * pd * p > 0) by (nonlinear_arith)
                requires
                    pd > 0,
                    p > 0,
            ;
            assert(1000000 * pd * p <= i128::MAX) by (nonlinear_arith)
                requires
                    pd * p * 1000000 <= i128::MAX,
            ;
            let dn = d.num as int;
            assert(dn * ((PICO_DEN as int * pd) * p) == dn * 1000000 * (1000000 * pd
                * p)) by (nonlinear_arith);
        }
        Some(Fraction { num: d.num, den: 1000000 * self.target_portion.den * p })
    }
}

impl Squad {
    /// The full drift report: one entry per member, in member order.
    ///
    /// For the member at index `i` (rank `i + 1`), with `w` the sum of all
    /// squared ranks and `total` the squad's pool
    /// ([`Squad::spec_total`]): the target portion is `rank²/w`, the market
    /// value is `price * shares(symbol)`, and the target value is
    /// `portion * total` when the pool is positive, zero otherwise.
    pub fn drift_reports(&self) -> (r: Vec<DriftReport>)
        requires
            self.within_limits(),
        ensures
            r@.len() == self.members@.len(),
            forall|i: int|
                0 <= i < r@.len() ==> {
                    let rep = #[trigger] r@[i];
                    let w = sum_weights(self.members@.len() as int);
                    &&& rep.member == self.members@[i]
                    &&& rep.rank == i + 1
                    &&& rep.target_portion.num == (i + 1) * (i + 1)
                    &&& rep.target_portion.den == w
                    &&& rep.market_value.num == self.members@[i].price.micros * spec_sym_shares(
                        self.lots@,
                        self.members@[i].symbol@,
                    )
                    &&& rep.market_value.den == PICO_DEN
                    &&& rep.target_value.num == if self.spec_total() > 0 {
                        (i + 1) * (i + 1) * self.spec_total()
                    } else {
                        0
                    }
                    &&& rep.target_value.den == w * PICO_DEN
                    &&& rep.consistent()
                },
    {
        let n = self.members.len();
        let table = self.symbol_shares();
        let portions = self.member_portions();
        let mut markets: Vec<Fraction> = Vec::new();
        let mut i: usize = 0;
        while i < n
            invariant
                0 <= i <= n,
                n == self.members@.len(),
                self.within_limits(),
                forall|j: int|
                    0 <= j < table@.len() ==> -(MAX_LOTS * AMOUNT_LIMIT)
                        <= #[trigger] table@[j].shares.micros as int <= MAX_LOTS * AMOUNT_LIMIT,
                forall|sym: Seq<char>| #[trigger] table_shares(table@, sym) == spec_sym_shares(
                    self.lots@,
                    sym,
                ),
                markets@.len() == i,
                forall|j: int|
                    0 <= j < i ==> (#[trigger] markets@[j]).num == self.members@[j].price.micros
                        * spec_sym_shares(self.lots@, self.members@[j].symbol@)
                        && markets@[j].den == PICO_DEN,
            decreases n - i,
        {
            let m = self.members[i].market_value(&table);
            markets.push(m);
            i = i + 1;
        }
        let mut total: i128 = 0;
        let mut k: usize = 0;
        while k < n
            invariant
                0 <= k <= n,
                n == self.members@.len() == markets@.len(),
                self.within_limits(),
                forall|j: int|
                    0 <= j < n ==> (#[trigger] markets@[j]).num == self.members@[j].price.micros
                        * spec_sym_shares(self.lots@, self.members@[j].symbol@) && markets@[j].den
                        == PICO_DEN,
                total == spec_market_sum(self.members@, self.lots@, k as int),
                -(k as int) * 10000000000000000000000000000000 <= total <= (k as int)
                    * 10000000000000000000000000000000,
            decreases n - k,
        {
            proof {
                lemma_sym_shares_bound(
                    self.lots@,
                    self.members@[k as int].symbol@,
                    AMOUNT_LIMIT as int,
                );
                let p = self.members@[k as int].price.micros as int;
                let s = spec_sym_shares(self.lots@, self.members@[k as int].symbol@);
                assert(-10000000000000000000000000000000 <= p * s
                    <= 10000000000000000000000000000000) by (nonlinear_arith)
                    requires
                        -AMOUNT_LIMIT <= p <= AMOUNT_LIMIT,
                        -(MAX_LOTS * AMOUNT_LIMIT) <= s <= MAX_LOTS * AMOUNT_LIMIT,
                ;
                assert((k as int + 1) * 10000000000000000000000000000000 == (k as int)
                    * 10000000000000000000000000000000
                    + 10000000000000000000000000000000) by (nonlinear_arith);
            }
            total = total + markets[k].num;
            k = k + 1;
        }
        proof {
            assert((n as int) * 10000000000000000000000000000000 <= (MAX_MEMBERS as int)
                * 10000000000000000000000000000000) by (nonlinear_arith)
                requires
                    n as int <= MAX_MEMBERS as int,
            ;
        }
        let total = total + (self.unspent.micros as i128) * 1000000;
        proof {
            assert(total == self.spec_total());
        }
        let mut r: Vec<DriftReport> = Vec::new();
        if n == 0 {
            return r;
        }
        let w: i128 = portions[0].den;
        proof {
            lemma_sum_weights_pos(n as int);
            lemma_sum_weights_bound(n as int, MAX_MEMBERS as int);
            assert((n as int) * ((MAX_MEMBERS as int) * (MAX_MEMBERS as int)) <= 1000000
                * 1000000) by (nonlinear_arith)
                requires
                    0 <= n as int <= MAX_MEMBERS as int,
                    MAX_MEMBERS as int == 100,
            ;
        }
        let tden: i128 = w * PICO_DEN;
        let mut i: usize = 0;
        while i < n
            invariant
                0 <= i <= n,
                n == self.members@.len() == markets@.len() == portions@.len(),
                self.within_limits(),
                0 < w == sum_weights(n as int) <= 1000000000000,
                tden == w * PICO_DEN,
                total == self.spec_total(),
                -2000000000000000000000000000000000 <= total
                    <= 2000000000000000000000000000000000,
                forall|j: int|
                    0 <= j < n ==> (#[trigger] markets@[j]).num == self.members@[j].price.micros
                        * spec_sym_shares(self.lots@, self.members@[j].symbol@) && markets@[j].den
                        == PICO_DEN,
                forall|j: int|
                    0 <= j < n ==> (#[trigger] portions@[j]).num == (j + 1) * (j + 1)
                        && portions@[j].den == sum_weights(n as int),
                r@.len() == i,
                forall|j: int|
                    0 <= j < i ==> {
                        let rep = #[trigger] r@[j];
                        &&& rep.member == self.members@[j]
                        &&& rep.rank == j + 1
                        &&& rep.target_portion == portions@[j]
                        &&& rep.market_value == markets@[j]
                        &&& rep.target_value.num == if self.spec_total() > 0 {
                            (j + 1) * (j + 1) * self.spec_total()
                        } else {
                            0
                        }
                        &&& rep.target_value.den == w * PICO_DEN
                    },
            decreases n - i,
        {
            let rank2: i128 = portions[i].num;
            proof {
                assert(1 <= rank2 <= 10000) by (nonlinear_arith)
                    requires
                        rank2 == (i as int + 1) * (i as int + 1),
                        1 <= i as int + 1 <= 100,
                ;
                assert(
                    -20000000000000000000000000000000000000
                    <= rank2 * total
                    <= 20000000000000000000000000000000000000) by (nonlinear_arith)
                    requires
                        1 <= rank2 <= 10000,
                        -2000000000000000000000000000000000 <= total
                            <= 2000000000000000000000000000000000,
                ;
            }
            let tnum: i128 = if total > 0 {
                rank2 * total
            } else {
                0
            };
            r.push(
                DriftReport {
                    member: self.members[i].clone(),
                    rank: i + 1,
                    market_value: markets[i],
                    target_portion: portions[i],
                    target_value: Fraction { num: tnum, den: tden },
                },
            );
            i = i + 1;
        }
        r
    }
}

/// The sum of the target-value numerators of a report sequence.
pub open spec fn sum_target_nums(reports: Seq<DriftReport>) -> int
    decreases reports.len(),
{
    if reports.len() == 0 {
        0
    } else {
        sum_target_nums(reports.drop_last()) + reports.last().target_value.num
    }
}

pub proof fn lemma_sum_target_nums(reports: Seq<DriftReport>, total: int)
    requires
        forall|i: int|
            0 <= i < reports.len() ==> (#[trigger] reports[i]).target_value.num == (i + 1) * (i + 1)
                * total,
    ensures
        sum_target_nums(reports) == sum_weights(reports.len() as int) * total,
    decreases reports.len(),
{
    if reports.len() == 0 {
        assert(sum_weights(0) * total == 0) by (nonlinear_arith);
    } else {
        let p = reports.drop_last();
        let n = reports.len() as int;
        assert(forall|i: int| 0 <= i < p.len() ==> #[trigger] p[i] == reports[i]);
        lemma_sum_target_nums(p, total);
        assert(sum_weights(n - 1) * total + n * n * total == sum_weights(n)
            * total) by (nonlinear_arith)
            requires
                sum_weights(n) == sum_weights(n - 1) + n * n,
        ;
    }
}

/// When the pool is positive, the target values of a drift report sum
/// exactly to the pool: every member's market value plus the unspent cash.
///
/// The target values all share the denominator `w * PICO_DEN`, so their sum
/// is the fraction `sum_target_nums / (w * PICO_DEN)`; the second equation
/// is the cross-multiplication saying that this fraction equals
/// `total / PICO_DEN`, the pool itself.
pub proof fn lemma_target_sum_identity(reports: Seq<DriftReport>, total: int, w: int)
    requires
        w == sum_weights(reports.len() as int),
        total > 0,
        reports.len() > 0,
        forall|i: int|
            0 <= i < reports.len() ==> (#[trigger] reports[i]).target_value.num == (i + 1) * (i + 1)
                * total,
    ensures
        sum_target_nums(reports) == w * total,
        sum_target_nums(reports) * (PICO_DEN as int) == total * (w * (PICO_DEN as int)),
{
    lemma_sum_target_nums(reports, total);
    assert((w * total) * (PICO_DEN as int) == total * (w * (PICO_DEN as int))) by (nonlinear_arith);
}

} // verus!
