//! The segment-based portfolio model: lots, holdings per asset, and the
//! fixed-fraction segments with their drift.

use vstd::prelude::*;

use crate::amount::Amount;
use crate::asset::{Account, AccountV, AssetCode, AssetCodeV, Custodian, CustodianV, LotId};
use crate::fraction::Fraction;
use crate::segment_type::SegmentType;

verus! {

/// A quantum of an asset held in the portfolio.
#[derive(Debug)]
pub struct Lot {
    pub lot_id: LotId,
    pub asset_code: AssetCode,
    pub share_count: Amount,
    pub custodian: Custodian,
    pub account: Account,
}

pub ghost struct LotPV {
    pub lot_id: LotId,
    pub asset_code: AssetCodeV,
    pub share_count: int,
    pub custodian: CustodianV,
    pub account: AccountV,
}

impl View for Lot {
    type V = LotPV;

    open spec fn view(&self) -> LotPV {
        LotPV {
            lot_id: self.lot_id,
            asset_code: self.asset_code@,
            share_count: self.share_count.micros as int,
            custodian: self.custodian@,
            account: self.account@,
        }
    }
}

impl Clone for Lot {
    fn clone(&self) -> (r: Lot)
        ensures
            r@ == self@,
    {
        Lot {
            lot_id: self.lot_id,
            asset_code: self.asset_code.clone(),
            share_count: self.share_count,
            custodian: self.custodian.clone(),
            account: self.account.clone(),
        }
    }
}

impl PartialEq for Lot {
    fn eq(&self, other: &Lot) -> (r: bool) {
        self.lot_id == other.lot_id && self.asset_code == other.asset_code
            && self.share_count.micros == other.share_count.micros && self.custodian
            == other.custodian && self.account == other.account
    }
}

impl vstd::std_specs::cmp::PartialEqSpecImpl for Lot {
    open spec fn obeys_eq_spec() -> bool {
        true
    }

    open spec fn eq_spec(&self, other: &Lot) -> bool {
        self@ == other@
    }
}

/// The lots of one asset held in the portfolio.
#[derive(Debug)]
pub struct Holding {
    asset_code: AssetCode,
    pub lots: Vec<Lot>,
}

#[verifier::ext_equal]
pub ghost struct HoldingV {
    pub asset_code: AssetCodeV,
    pub lots: Seq<LotPV>,
}

impl View for Holding {
    type V = HoldingV;

    closed spec fn view(&self) -> HoldingV {
        HoldingV { asset_code: self.asset_code@, lots: Seq::new(self.lots@.len(), |i: int| self.lots@[i]@) }
    }
}

impl Clone for Holding {
    fn clone(&self) -> (r: Holding)
        ensures
            r@ == self@,
    {
        let r = Holding { asset_code: self.asset_code.clone(), lots: self.lots.clone() };
        proof {
            assert forall|k: int| 0 <= k < self.lots@.len() implies #[trigger] r.lots@[k]@
                == self.lots@[k]@ by {
                assert(cloned::<Lot>(self.lots@[k], r.lots@[k]));
            }
            assert(r@ =~~= self@);
        }
        r
    }
}

/// A price table entry: one asset's stored price.
#[derive(Debug)]
pub struct AssetPrice {
    pub code: AssetCode,
    pub price: Amount,
}

impl Clone for AssetPrice {
    fn clone(&self) -> (r: AssetPrice)
        ensures
            r.code@ == self.code@ && r.price == self.price,
    {
        AssetPrice { code: self.code.clone(), price: self.price }
    }
}

/// An assignment table entry: one asset's segment.
#[derive(Debug)]
pub struct AssetSegment {
    pub code: AssetCode,
    pub segment: SegmentType,
}

/// The price a table gives an asset, in micro-units; one unit when the
/// asset is not priced.
pub open spec fn table_price(t: Seq<AssetPrice>, code: AssetCodeV) -> int
    decreases t.len(),
{
    if t.len() == 0 {
        1000000
    } else if t[0].code@ == code {
        t[0].price.micros as int
    } else {
        table_price(t.skip(1), code)
    }
}

impl Holding {
    pub fn new(asset_code: &AssetCode) -> (r: Holding)
        ensures
            r@.asset_code == asset_code@,
            r@.lots.len() == 0,
    {
        let r = Holding { asset_code: asset_code.clone(), lots: Vec::new() };
        proof {
            assert(r@.lots =~= Seq::<LotPV>::empty());
        }
        r
    }

    pub fn asset_code(&self) -> (r: &AssetCode)
        ensures
            r@ == self@.asset_code,
    {
        &self.asset_code
    }

    pub fn push_lot(&mut self, lot: Lot)
        ensures
            final(self)@.asset_code == old(self)@.asset_code,
            final(self)@.lots == old(self)@.lots.push(lot@),
    {
        self.lots.push(lot);
        proof {
            assert(final(self)@.lots =~= old(self)@.lots.push(lot@));
        }
    }
}

/// The value of a sequence of lots, in pico-units: each lot's share count
/// times the table price of its asset.
pub open spec fn spec_lots_value(lots: Seq<LotPV>, t: Seq<AssetPrice>) -> int
    decreases lots.len(),
{
    if lots.len() == 0 {
        0
    } else {
        spec_lots_value(lots.drop_last(), t) + lots.last().share_count * table_price(
            t,
            lots.last().asset_code,
        )
    }
}

/// Machine limits under which portfolio arithmetic cannot overflow.
pub open spec fn prices_within_limits(t: Seq<AssetPrice>) -> bool {
    forall|k: int|
        0 <= k < t.len() ==> -crate::model::AMOUNT_LIMIT <= (#[trigger] t[k]).price.micros
            <= crate::model::AMOUNT_LIMIT
}

pub proof fn lemma_table_price_bound(t: Seq<AssetPrice>, code: AssetCodeV)
    requires
        prices_within_limits(t),
    ensures
        -crate::model::AMOUNT_LIMIT <= table_price(t, code) <= crate::model::AMOUNT_LIMIT,
    decreases t.len(),
{
    if t.len() > 0 && t[0].code@ != code {
        let u = t.skip(1);
        assert(forall|k: int| 0 <= k < u.len() ==> #[trigger] u[k] == t[k + 1]);
        lemma_table_price_bound(u, code);
    }
}

impl Lot {
    /// The lot's value against a price table: share count times the
    /// asset's price, one unit per share when the asset is not priced.
    pub fn lot_value(&self, prices: &Vec<AssetPrice>) -> (r: Fraction)
        requires
            -crate::model::AMOUNT_LIMIT <= self.share_count.micros <= crate::model::AMOUNT_LIMIT,
            prices_within_limits(prices@),
        ensures
            r.num == self@.share_count * table_price(prices@, self@.asset_code),
            r.den == crate::model::PICO_DEN,
            r.wf(),
    {
        let mut j: usize = 0;
        let mut price: Amount = Amount::from_micros(1000000);
        proof {
            assert(prices@.skip(0) =~= prices@);
        }
        let mut done = false;
        while j < prices.len() && !done
            invariant
                0 <= j <= prices@.len(),
                prices_within_limits(prices@),
                !done ==> table_price(prices@, self@.asset_code) == table_price(
                    prices@.skip(j as int),
                    self@.asset_code,
                ) && price.micros == 1000000,
                done ==> price.micros as int == table_price(prices@, self@.asset_code)
                    && -crate::model::AMOUNT_LIMIT <= price.micros <= crate::model::AMOUNT_LIMIT,
            decreases prices@.len() - j,
        {
            proof {
                assert(prices@.skip(j as int)[0] == prices@[j as int]);
                assert(prices@.skip(j as int).skip(1) =~= prices@.skip(j as int + 1));
            }
            if prices[j].code == self.asset_code {
                price = prices[j].price;
                done = true;
            }
            j = j + 1;
        }
        proof {
            if !done {
                assert(prices@.skip(j as int) =~= Seq::<AssetPrice>::empty());
            }
            let p = price.micros as int;
            let sc = self.share_count.micros as int;
            assert(-10000000000000000000000000000 <= sc * p
                <= 10000000000000000000000000000) by (nonlinear_arith)
                requires
                    -crate::model::AMOUNT_LIMIT <= sc <= crate::model::AMOUNT_LIMIT,
                    -crate::model::AMOUNT_LIMIT <= p <= crate::model::AMOUNT_LIMIT || p == 1000000,
            ;
        }
        Fraction {
            num: (self.share_count.micros as i128) * (price.micros as i128),
            den: crate::model::PICO_DEN,
        }
    }
}

impl Holding {
    /// The holding's value against a price table: the sum of its lots'
    /// values.
    pub fn holding_value(&self, prices: &Vec<AssetPrice>) -> (r: Fraction)
        requires
            self@.lots.len() <= crate::model::MAX_LOTS,
            forall|k: int|
                0 <= k < self@.lots.len() ==> -crate::model::AMOUNT_LIMIT <= (
                #[trigger] self@.lots[k]).share_count <= crate::model::AMOUNT_LIMIT,
            prices_within_limits(prices@),
        ensures
            r.num == spec_lots_value(self@.lots, prices@),
            r.den == crate::model::PICO_DEN,
            r.wf(),
    {
        let mut sum: i128 = 0;
        let mut j: usize = 0;
        while j < self.lots.len()
            invariant
                0 <= j <= self@.lots.len() <= crate::model::MAX_LOTS,
                self@.lots.len() == self.lots@.len(),
                forall|k: int|
                    0 <= k < self@.lots.len() ==> -crate::model::AMOUNT_LIMIT <= (
                    #[trigger] self@.lots[k]).share_count <= crate::model::AMOUNT_LIMIT,
                prices_within_limits(prices@),
                sum == spec_lots_value(self@.lots.take(j as int), prices@),
                -(j as int) * 10000000000000000000000000000 <= sum <= (j as int)
                    * 10000000000000000000000000000,
            decreases self@.lots.len() - j,
        {
            let v = self.lots[j].lot_value(prices);
            proof {
                let cur = self@.lots.take(j as int + 1);
                assert(cur.drop_last() =~= self@.lots.take(j as int));
                assert(cur.last() == self@.lots[j as int]);
                assert(self.lots@[j as int]@ == self@.lots[j as int]);
                lemma_table_price_bound(prices@, self@.lots[j as int].asset_code);
                let sc = self@.lots[j as int].share_count;
                let p = table_price(prices@, self@.lots[j as int].asset_code);
                assert(-10000000000000000000000000000 <= sc * p
                    <= 10000000000000000000000000000) by (nonlinear_arith)
                    requires
                        -crate::model::AMOUNT_LIMIT <= sc <= crate::model::AMOUNT_LIMIT,
                        -crate::model::AMOUNT_LIMIT <= p <= crate::model::AMOUNT_LIMIT,
                ;
                assert((j as int + 1) * 10000000000000000000000000000 == (j as int)
                    * 10000000000000000000000000000
                    + 10000000000000000000000000000) by (nonlinear_arith);
            }
            sum = sum + v.num;
            j = j + 1;
        }
        proof {
            assert(self@.lots.take(j as int) =~= self@.lots);
        }
        Fraction { num: sum, den: crate::model::PICO_DEN }
    }
}

/// One segment of the portfolio: its holdings, their combined value, the
/// fixed-fraction target, and the drift between the two.
#[derive(Debug)]
pub struct Segment {
    pub segment_type: SegmentType,
    pub drift_amount: Fraction,
    pub target_value: Fraction,
    pub holdings: Vec<Holding>,
    pub segment_value: Fraction,
}

impl Segment {
    pub fn segment_type(&self) -> (r: SegmentType)
        ensures
            r == self.segment_type,
    {
        self.segment_type
    }

    pub fn segment_value(&self) -> (r: Fraction)
        ensures
            r == self.segment_value,
    {
        self.segment_value
    }

    pub fn target_value(&self) -> (r: Fraction)
        ensures
            r == self.target_value,
    {
        self.target_value
    }

    pub fn drift_amount(&self) -> (r: Fraction)
        ensures
            r == self.drift_amount,
    {
        self.drift_amount
    }
}

} // verus!
