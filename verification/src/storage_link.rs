//! The single-writer owner of the segment-based portfolio and its frozen
//! read views.
//!
//! A [`StorageLink`] serializes asset assignments, prices and lot updates;
//! [`StorageLink::latest_portfolio`] captures a frozen [`PortfolioLink`]
//! that answers every portfolio query from that one point-in-time state.

use vstd::prelude::*;
use vstd::pervasive::VecAdditionalExecFns;

use crate::amount::Amount;
use crate::asset::{Account, AssetCode, AssetCodeV, Custodian, CustodianV, LotId};
use crate::chad::{find_id, lemma_find_id};
use crate::fraction::Fraction;
use crate::model::{AMOUNT_LIMIT, MAX_LOTS, PICO_DEN};
use crate::portfolio::{AssetPrice, AssetSegment, Holding, Lot, LotPV, Segment};
use crate::segment_type::{spec_all, spec_fraction_per_mille, SegmentType};

verus! {

/// An asset's stored properties: its segment assignment and its price,
/// each present only once written.
#[derive(Debug)]
pub struct AssetObj {
    pub code: AssetCode,
    pub segment: Option<SegmentType>,
    pub price: Option<Amount>,
}

/// A stored lot record.
#[derive(Debug)]
pub struct LotRec {
    pub lot_id: LotId,
    pub code: AssetCode,
    pub shares: Amount,
    pub custodian: Custodian,
}

#[verifier::ext_equal]
pub ghost struct AssetObjV {
    pub code: AssetCodeV,
    pub segment: Option<SegmentType>,
    pub price: Option<int>,
}

#[verifier::ext_equal]
pub ghost struct LotRecV {
    pub lot_id: LotId,
    pub code: AssetCodeV,
    pub shares: int,
    pub custodian: CustodianV,
}

/// The whole stored portfolio state, as mathematical values.
#[verifier::ext_equal]
pub ghost struct LinkV {
    pub assets: Seq<AssetObjV>,
    pub lots: Seq<LotRecV>,
}

impl View for AssetObj {
    type V = AssetObjV;

    open spec fn view(&self) -> AssetObjV {
        AssetObjV {
            code: self.code@,
            segment: self.segment,
            price: match self.price {
                Some(p) => Some(p.micros as int),
                None => None,
            },
        }
    }
}

impl View for LotRec {
    type V = LotRecV;

    open spec fn view(&self) -> LotRecV {
        LotRecV {
            lot_id: self.lot_id,
            code: self.code@,
            shares: self.shares.micros as int,
            custodian: self.custodian@,
        }
    }
}

impl Clone for AssetObj {
    fn clone(&self) -> (r: AssetObj)
        ensures
            r@ == self@,
    {
        AssetObj { code: self.code.clone(), segment: self.segment, price: self.price }
    }
}

impl Clone for LotRec {
    fn clone(&self) -> (r: LotRec)
        ensures
            r@ == self@,
    {
        LotRec {
            lot_id: self.lot_id,
            code: self.code.clone(),
            shares: self.shares,
            custodian: self.custodian.clone(),
        }
    }
}

/// The first index carrying the asset code, or `-1`.
pub open spec fn find_code(codes: Seq<AssetCodeV>, code: AssetCodeV) -> int
    decreases codes.len(),
{
    if codes.len() == 0 {
        -1
    } else if codes[0] == code {
        0
    } else {
        let r = find_code(codes.skip(1), code);
        if r < 0 {
            -1
        } else {
            r + 1
        }
    }
}

pub proof fn lemma_find_code(codes: Seq<AssetCodeV>, code: AssetCodeV)
    ensures
        ({
            let r = find_code(codes, code);
            (r == -1 && forall|k: int| 0 <= k < codes.len() ==> codes[k] != code) || (0 <= r
                < codes.len() && codes[r] == code && forall|k: int| 0 <= k < r ==> codes[k] != code)
        }),
    decreases codes.len(),
{
    if codes.len() > 0 && codes[0] != code {
        let t = codes.skip(1);
        lemma_find_code(t, code);
        assert(forall|k: int| 1 <= k < codes.len() ==> #[trigger] codes[k] == t[k - 1]);
    }
}

pub open spec fn asset_codes(assets: Seq<AssetObjV>) -> Seq<AssetCodeV> {
    Seq::new(assets.len(), |i: int| assets[i].code)
}

pub open spec fn lot_rec_ids(lots: Seq<LotRecV>) -> Seq<u64> {
    Seq::new(lots.len(), |i: int| lots[i].lot_id)
}

/// Writes an asset's segment assignment, creating the asset object as
/// needed and keeping its price.
pub open spec fn spec_assign_asset(s: LinkV, code: AssetCodeV, seg: SegmentType) -> LinkV {
    let i = find_code(asset_codes(s.assets), code);
    if i >= 0 {
        LinkV { assets: s.assets.update(i, AssetObjV { segment: Some(seg), ..s.assets[i] }), ..s }
    } else {
        LinkV { assets: s.assets.push(AssetObjV { code, segment: Some(seg), price: None }), ..s }
    }
}

/// Writes an asset's price, creating the asset object as needed and
/// keeping its segment assignment.
pub open spec fn spec_price_asset(s: LinkV, code: AssetCodeV, price: int) -> LinkV {
    let i = find_code(asset_codes(s.assets), code);
    if i >= 0 {
        LinkV { assets: s.assets.update(i, AssetObjV { price: Some(price), ..s.assets[i] }), ..s }
    } else {
        LinkV { assets: s.assets.push(AssetObjV { code, segment: None, price: Some(price) }), ..s }
    }
}

/// Writes a lot's asset, custodian and share count (overwriting the lot
/// record keyed by `lot_id`), and the asset's share price.
pub open spec fn spec_update_lot(
    s: LinkV,
    lot_id: u64,
    code: AssetCodeV,
    shares: int,
    custodian: CustodianV,
    share_price: int,
) -> LinkV {
    let s1 = spec_price_asset(s, code, share_price);
    let rec = LotRecV { lot_id, code, shares, custodian };
    let i = find_id(lot_rec_ids(s1.lots), lot_id);
    if i >= 0 {
        LinkV { lots: s1.lots.update(i, rec), ..s1 }
    } else {
        LinkV { lots: s1.lots.push(rec), ..s1 }
    }
}

/// The stored price of an asset, in micro-units; one unit when the asset
/// is absent or unpriced.
pub open spec fn link_price(s: LinkV, code: AssetCodeV) -> int {
    let i = find_code(asset_codes(s.assets), code);
    if i >= 0 {
        match s.assets[i].price {
            Some(p) => p,
            None => 1000000,
        }
    } else {
        1000000
    }
}

/// The segment an asset is assigned to; `Unknown` when absent or
/// unassigned.
pub open spec fn seg_of(s: LinkV, code: AssetCodeV) -> SegmentType {
    let i = find_code(asset_codes(s.assets), code);
    if i >= 0 {
        match s.assets[i].segment {
            Some(t) => t,
            None => SegmentType::Unknown,
        }
    } else {
        SegmentType::Unknown
    }
}

/// A stored lot's value in pico-units: shares times the asset's price.
pub open spec fn link_lot_val(s: LinkV, l: LotRecV) -> int {
    l.shares * link_price(s, l.code)
}

/// The combined value of the first `t` stored lots, in pico-units.
pub open spec fn lots_val_prefix(s: LinkV, t: int) -> int
    decreases t,
{
    if t <= 0 {
        0
    } else {
        lots_val_prefix(s, t - 1) + link_lot_val(s, s.lots[t - 1])
    }
}

/// The combined value of the first `t` stored lots assigned to `ty`, in
/// pico-units.
pub open spec fn seg_val_prefix(s: LinkV, ty: SegmentType, t: int) -> int
    decreases t,
{
    if t <= 0 {
        0
    } else {
        seg_val_prefix(s, ty, t - 1) + if seg_of(s, s.lots[t - 1].code) == ty {
            link_lot_val(s, s.lots[t - 1])
        } else {
            0
        }
    }
}

/// The distinct asset codes of the first `t` stored lots, in
/// first-occurrence order.
pub open spec fn hold_codes_prefix(s: LinkV, t: int) -> Seq<AssetCodeV>
    decreases t,
{
    if t <= 0 {
        Seq::empty()
    } else {
        let p = hold_codes_prefix(s, t - 1);
        if p.contains(s.lots[t - 1].code) {
            p
        } else {
            p.push(s.lots[t - 1].code)
        }
    }
}

pub open spec fn hold_codes(s: LinkV) -> Seq<AssetCodeV> {
    hold_codes_prefix(s, s.lots.len() as int)
}

pub open spec fn lot_rec_to_pv(l: LotRecV) -> LotPV {
    LotPV {
        lot_id: l.lot_id,
        asset_code: l.code,
        share_count: l.shares,
        custodian: l.custodian,
        account: crate::asset::AccountV::Main,
    }
}

/// The materialized lots of one asset code among the first `t` stored
/// lots, in store order.
pub open spec fn code_lots_prefix(s: LinkV, code: AssetCodeV, t: int) -> Seq<LotPV>
    decreases t,
{
    if t <= 0 {
        Seq::empty()
    } else {
        let p = code_lots_prefix(s, code, t - 1);
        if s.lots[t - 1].code == code {
            p.push(lot_rec_to_pv(s.lots[t - 1]))
        } else {
            p
        }
    }
}

pub open spec fn code_lots(s: LinkV, code: AssetCodeV) -> Seq<LotPV> {
    code_lots_prefix(s, code, s.lots.len() as int)
}

/// The holding codes among the first `k` of `hold_codes(s)` that are
/// assigned to `ty`.
pub open spec fn seg_codes_prefix(s: LinkV, ty: SegmentType, k: int) -> Seq<AssetCodeV>
    decreases k,
{
    if k <= 0 {
        Seq::empty()
    } else {
        let p = seg_codes_prefix(s, ty, k - 1);
        if seg_of(s, hold_codes(s)[k - 1]) == ty {
            p.push(hold_codes(s)[k - 1])
        } else {
            p
        }
    }
}

/// Machine limits under which the portfolio arithmetic cannot overflow.
pub open spec fn link_within_limits(s: LinkV) -> bool {
    &&& s.lots.len() <= MAX_LOTS
    &&& forall|k: int|
        0 <= k < s.lots.len() ==> -AMOUNT_LIMIT <= (#[trigger] s.lots[k]).shares <= AMOUNT_LIMIT
    &&& forall|k: int|
        0 <= k < s.assets.len() ==> ((#[trigger] s.assets[k]).price matches Some(p) ==> -AMOUNT_LIMIT
            <= p <= AMOUNT_LIMIT)
}

pub proof fn lemma_link_price_bound(s: LinkV, code: AssetCodeV)
    requires
        link_within_limits(s),
    ensures
        -AMOUNT_LIMIT <= link_price(s, code) <= AMOUNT_LIMIT || link_price(s, code) == 1000000,
{
    let i = find_code(asset_codes(s.assets), code);
    lemma_find_code(asset_codes(s.assets), code);
    if i >= 0 {
        assert(s.assets[i].price matches Some(p) ==> -AMOUNT_LIMIT <= p <= AMOUNT_LIMIT);
    }
}

/// The single-writer owner of one portfolio's stored state.
#[derive(Debug)]
pub struct StorageLink {
    assets: Vec<AssetObj>,
    lots: Vec<LotRec>,
}

/// A frozen portfolio view; later writes through the owning
/// [`StorageLink`] do not change it.
#[derive(Debug)]
pub struct PortfolioLink {
    assets: Vec<AssetObj>,
    lots: Vec<LotRec>,
}

pub open spec fn assets_v(v: Seq<AssetObj>) -> Seq<AssetObjV> {
    Seq::new(v.len(), |i: int| v[i]@)
}

pub open spec fn lot_recs_v(v: Seq<LotRec>) -> Seq<LotRecV> {
    Seq::new(v.len(), |i: int| v[i]@)
}

impl View for StorageLink {
    type V = LinkV;

    closed spec fn view(&self) -> LinkV {
        LinkV { assets: assets_v(self.assets@), lots: lot_recs_v(self.lots@) }
    }
}

impl View for PortfolioLink {
    type V = LinkV;

    closed spec fn view(&self) -> LinkV {
        LinkV { assets: assets_v(self.assets@), lots: lot_recs_v(self.lots@) }
    }
}

pub open spec fn empty_link() -> LinkV {
    LinkV { assets: seq![], lots: seq![] }
}

fn pos_by_code(v: &Vec<AssetObj>, code: &AssetCode) -> (r: Option<usize>)
    ensures
        match r {
            Some(i) => i < v@.len() && find_code(asset_codes(assets_v(v@)), code@) == i as int,
            None => find_code(asset_codes(assets_v(v@)), code@) == -1,
        },
{
    let mut i: usize = 0;
    while i < v.len()
        invariant
            0 <= i <= v@.len(),
            forall|k: int| 0 <= k < i ==> (#[trigger] v@[k]).code@ != code@,
        decreases v@.len() - i,
    {
        if v[i].code == *code {
            proof {
                lemma_find_code(asset_codes(assets_v(v@)), code@);
                assert(forall|k: int|
                    0 <= k < v@.len() ==> #[trigger] asset_codes(assets_v(v@))[k] == v@[k].code@);
                assert(asset_codes(assets_v(v@))[i as int] == code@);
            }
            return Some(i);
        }
        i = i + 1;
    }
    proof {
        lemma_find_code(asset_codes(assets_v(v@)), code@);
        assert(forall|k: int|
            0 <= k < v@.len() ==> #[trigger] asset_codes(assets_v(v@))[k] == v@[k].code@);
        assert(forall|k: int|
            0 <= k < v@.len() ==> #[trigger] asset_codes(assets_v(v@))[k] != code@);
    }
    None
}

fn pos_by_rec_id(v: &Vec<LotRec>, id: u64) -> (r: Option<usize>)
    ensures
        match r {
            Some(i) => i < v@.len() && find_id(lot_rec_ids(lot_recs_v(v@)), id) == i as int,
            None => find_id(lot_rec_ids(lot_recs_v(v@)), id) == -1,
        },
{
    let mut i: usize = 0;
    while i < v.len()
        invariant
            0 <= i <= v@.len(),
            forall|k: int| 0 <= k < i ==> (#[trigger] v@[k]).lot_id != id,
        decreases v@.len() - i,
    {
        if v[i].lot_id == id {
            proof {
                lemma_find_id(lot_rec_ids(lot_recs_v(v@)), id);
                assert(forall|k: int|
                    0 <= k < v@.len() ==> #[trigger] lot_rec_ids(lot_recs_v(v@))[k]
                        == v@[k].lot_id);
                assert(lot_rec_ids(lot_recs_v(v@))[i as int] == id);
            }
            return Some(i);
        }
        i = i + 1;
    }
    proof {
        lemma_find_id(lot_rec_ids(lot_recs_v(v@)), id);
        assert(forall|k: int|
            0 <= k < v@.len() ==> #[trigger] lot_rec_ids(lot_recs_v(v@))[k] == v@[k].lot_id);
        assert(forall|k: int|
            0 <= k < v@.len() ==> #[trigger] lot_rec_ids(lot_recs_v(v@))[k] != id);
    }
    None
}

impl StorageLink {
    /// A fresh, empty portfolio store.
    pub fn new() -> (r: StorageLink)
        ensures
            r@ == empty_link(),
    {
        let r = StorageLink { assets: Vec::new(), lots: Vec::new() };
        proof {
            assert(r@ =~~= empty_link());
        }
        r
    }

    /// Assigns an asset to a segment.
    pub fn assign_asset(&mut self, asset_code: &AssetCode, segment_type: SegmentType)
        ensures
            final(self)@ == spec_assign_asset(old(self)@, asset_code@, segment_type),
    {
        let ghost prev = self@;
        match pos_by_code(&self.assets, asset_code) {
            Some(i) => {
                let obj = AssetObj {
                    code: self.assets[i].code.clone(),
                    segment: Some(segment_type),
                    price: self.assets[i].price,
                };
                self.assets.set(i, obj);
                proof {
                    assert(self@.assets =~= prev.assets.update(
                        i as int,
                        AssetObjV { segment: Some(segment_type), ..prev.assets[i as int] },
                    ));
                    assert(self@ =~~= spec_assign_asset(prev, asset_code@, segment_type));
                }
            },
            None => {
                self.assets.push(
                    AssetObj { code: asset_code.clone(), segment: Some(segment_type), price: None },
                );
                proof {
                    assert(self@.assets =~= prev.assets.push(
                        AssetObjV { code: asset_code@, segment: Some(segment_type), price: None },
                    ));
                    assert(self@ =~~= spec_assign_asset(prev, asset_code@, segment_type));
                }
            },
        }
    }

    /// Writes an asset's price.
    pub fn price_asset(&mut self, asset_code: &AssetCode, price: Amount)
        ensures
            final(self)@ == spec_price_asset(old(self)@, asset_code@, price.micros as int),
    {
        let ghost prev = self@;
        match pos_by_code(&self.assets, asset_code) {
            Some(i) => {
                let obj = AssetObj {
                    code: self.assets[i].code.clone(),
                    segment: self.assets[i].segment,
                    price: Some(price),
                };
                self.assets.set(i, obj);
                proof {
                    assert(self@.assets =~= prev.assets.update(
                        i as int,
                        AssetObjV { price: Some(price.micros as int), ..prev.assets[i as int] },
                    ));
                    assert(self@ =~~= spec_price_asset(prev, asset_code@, price.micros as int));
                }
            },
            None => {
                self.assets.push(
                    AssetObj { code: asset_code.clone(), segment: None, price: Some(price) },
                );
                proof {
                    assert(self@.assets =~= prev.assets.push(
                        AssetObjV {
                            code: asset_code@,
                            segment: None,
                            price: Some(price.micros as int),
                        },
                    ));
                    assert(self@ =~~= spec_price_asset(prev, asset_code@, price.micros as int));
                }
            },
        }
    }

    /// Writes a lot's record and its asset's share price.
    pub fn update_lot(
        &mut self,
        lot_id: LotId,
        asset_code: &AssetCode,
        share_count: Amount,
        custodian: &Custodian,
        share_price: Amount,
    )
        ensures
            final(self)@ == spec_update_lot(
                old(self)@,
                lot_id,
                asset_code@,
                share_count.micros as int,
                custodian@,
                share_price.micros as int,
            ),
    {
        let ghost prev = self@;
        self.price_asset(asset_code, share_price);
        let ghost s1 = self@;
        let rec = LotRec {
            lot_id,
            code: asset_code.clone(),
            shares: share_count,
            custodian: custodian.clone(),
        };
        let ghost recv = LotRecV {
            lot_id,
            code: asset_code@,
            shares: share_count.micros as int,
            custodian: custodian@,
        };
        match pos_by_rec_id(&self.lots, lot_id) {
            Some(i) => {
                self.lots.set(i, rec);
                proof {
                    assert(self@.lots =~= s1.lots.update(i as int, recv));
                    assert(self@ =~~= spec_update_lot(
                        prev,
                        lot_id,
                        asset_code@,
                        share_count.micros as int,
                        custodian@,
                        share_price.micros as int,
                    ));
                }
            },
            None => {
                self.lots.push(rec);
                proof {
                    assert(self@.lots =~= s1.lots.push(recv));
                    assert(self@ =~~= spec_update_lot(
                        prev,
                        lot_id,
                        asset_code@,
                        share_count.micros as int,
                        custodian@,
                        share_price.micros as int,
                    ));
                }
            },
        }
    }

    /// Captures a frozen portfolio view of the whole current state. Later
    /// writes do not affect the returned [`PortfolioLink`].
    pub fn latest_portfolio(&self) -> (r: PortfolioLink)
        ensures
            r@ == self@,
    {
        let r = PortfolioLink { assets: self.assets.clone(), lots: self.lots.clone() };
        proof {
            assert forall|k: int| 0 <= k < self.assets@.len() implies #[trigger] r.assets@[k]@
                == self.assets@[k]@ by {
                assert(cloned::<AssetObj>(self.assets@[k], r.assets@[k]));
            }
            assert forall|k: int| 0 <= k < self.lots@.len() implies #[trigger] r.lots@[k]@
                == self.lots@[k]@ by {
                assert(cloned::<LotRec>(self.lots@[k], r.lots@[k]));
            }
            assert(r@ =~~= self@);
        }
        r
    }
}

/// The asset objects among the first `t` that carry a price, in store
/// order.
pub open spec fn priced_prefix(s: LinkV, t: int) -> Seq<AssetObjV>
    decreases t,
{
    if t <= 0 {
        Seq::empty()
    } else {
        let p = priced_prefix(s, t - 1);
        if s.assets[t - 1].price is Some {
            p.push(s.assets[t - 1])
        } else {
            p
        }
    }
}

/// The asset objects among the first `t` that carry a segment assignment.
pub open spec fn assigned_prefix(s: LinkV, t: int) -> Seq<AssetObjV>
    decreases t,
{
    if t <= 0 {
        Seq::empty()
    } else {
        let p = assigned_prefix(s, t - 1);
        if s.assets[t - 1].segment is Some {
            p.push(s.assets[t - 1])
        } else {
            p
        }
    }
}

impl PortfolioLink {
    fn asset_price_or_default(&self, code: &AssetCode) -> (r: Amount)
        ensures
            r.micros as int == link_price(self@, code@),
    {
        match pos_by_code(&self.assets, code) {
            Some(i) => {
                match self.assets[i].price {
                    Some(p) => p,
                    None => Amount::from_micros(1000000),
                }
            },
            None => Amount::from_micros(1000000),
        }
    }

    fn asset_seg_or_unknown(&self, code: &AssetCode) -> (r: SegmentType)
        ensures
            r == seg_of(self@, code@),
    {
        match pos_by_code(&self.assets, code) {
            Some(i) => {
                match self.assets[i].segment {
                    Some(t) => t,
                    None => SegmentType::Unknown,
                }
            },
            None => SegmentType::Unknown,
        }
    }

    /// The stored prices: one entry per priced asset, in store order.
    pub fn prices(&self) -> (r: Vec<AssetPrice>)
        ensures
            r@.len() == priced_prefix(self@, self@.assets.len() as int).len(),
            forall|k: int|
                0 <= k < r@.len() ==> (#[trigger] r@[k]).code@ == priced_prefix(
                    self@,
                    self@.assets.len() as int,
                )[k].code && r@[k].price.micros as int == priced_prefix(
                    self@,
                    self@.assets.len() as int,
                )[k].price.unwrap(),
    {
        let mut r: Vec<AssetPrice> = Vec::new();
        let mut i: usize = 0;
        while i < self.assets.len()
            invariant
                0 <= i <= self@.assets.len(),
                self@.assets.len() == self.assets@.len(),
                r@.len() == priced_prefix(self@, i as int).len(),
                forall|k: int|
                    0 <= k < r@.len() ==> (#[trigger] r@[k]).code@ == priced_prefix(
                        self@,
                        i as int,
                    )[k].code && r@[k].price.micros as int == priced_prefix(
                        self@,
                        i as int,
                    )[k].price.unwrap(),
            decreases self@.assets.len() - i,
        {
            proof {
                assert(self.assets@[i as int]@ == self@.assets[i as int]);
            }
            match self.assets[i].price {
                Some(p) => {
                    r.push(AssetPrice { code: self.assets[i].code.clone(), price: p });
                },
                None => {},
            }
            i = i + 1;
        }
        r
    }

    /// The stored assignments: one entry per assigned asset, in store
    /// order.
    pub fn asset_assignments(&self) -> (r: Vec<AssetSegment>)
        ensures
            r@.len() == assigned_prefix(self@, self@.assets.len() as int).len(),
            forall|k: int|
                0 <= k < r@.len() ==> (#[trigger] r@[k]).code@ == assigned_prefix(
                    self@,
                    self@.assets.len() as int,
                )[k].code && r@[k].segment == assigned_prefix(
                    self@,
                    self@.assets.len() as int,
                )[k].segment.unwrap(),
    {
        let mut r: Vec<AssetSegment> = Vec::new();
        let mut i: usize = 0;
        while i < self.assets.len()
            invariant
                0 <= i <= self@.assets.len(),
                self@.assets.len() == self.assets@.len(),
                r@.len() == assigned_prefix(self@, i as int).len(),
                forall|k: int|
                    0 <= k < r@.len() ==> (#[trigger] r@[k]).code@ == assigned_prefix(
                        self@,
                        i as int,
                    )[k].code && r@[k].segment == assigned_prefix(
                        self@,
                        i as int,
                    )[k].segment.unwrap(),
            decreases self@.assets.len() - i,
        {
            proof {
                assert(self.assets@[i as int]@ == self@.assets[i as int]);
            }
            match self.assets[i].segment {
                Some(t) => {
                    r.push(AssetSegment { code: self.assets[i].code.clone(), segment: t });
                },
                None => {},
            }
            i = i + 1;
        }
        r
    }

    /// All lots in the portfolio, in store order, each in the main
    /// account.
    pub fn lots(&self) -> (r: Vec<Lot>)
        ensures
            r@.len() == self@.lots.len(),
            forall|k: int| 0 <= k < r@.len() ==> (#[trigger] r@[k])@ == lot_rec_to_pv(self@.lots[k]),
    {
        let mut r: Vec<Lot> = Vec::new();
        let mut i: usize = 0;
        while i < self.lots.len()
            invariant
                0 <= i <= self@.lots.len(),
                self@.lots.len() == self.lots@.len(),
                r@.len() == i,
                forall|k: int|
                    0 <= k < r@.len() ==> (#[trigger] r@[k])@ == lot_rec_to_pv(self@.lots[k]),
            decreases self@.lots.len() - i,
        {
            proof {
                assert(self.lots@[i as int]@ == self@.lots[i as int]);
            }
            let rec = &self.lots[i];
            r.push(
                Lot {
                    lot_id: rec.lot_id,
                    asset_code: rec.code.clone(),
                    share_count: rec.shares,
                    custodian: rec.custodian.clone(),
                    account: Account::Main,
                },
            );
            i = i + 1;
        }
        r
    }

    /// The combined value of all lots, each at its asset's stored price
    /// (one unit per share when unpriced).
    pub fn portfolio_value(&self) -> (r: Fraction)
        requires
            link_within_limits(self@),
        ensures
            r.num == lots_val_prefix(self@, self@.lots.len() as int),
            r.den == PICO_DEN,
            r.wf(),
    {
        let mut sum: i128 = 0;
        let mut i: usize = 0;
        while i < self.lots.len()
            invariant
                0 <= i <= self@.lots.len(),
                self@.lots.len() == self.lots@.len(),
                link_within_limits(self@),
                sum == lots_val_prefix(self@, i as int),
                -(i as int) * 100000000000000000000000000000000 <= sum <= (i as int)
                    * 100000000000000000000000000000000,
            decreases self@.lots.len() - i,
        {
            proof {
                assert(self.lots@[i as int]@ == self@.lots[i as int]);
            }
            let rec = &self.lots[i];
            let price = self.asset_price_or_default(&rec.code);
            proof {
                lemma_link_price_bound(self@, rec.code@);
                let sc = rec.shares.micros as int;
                let pm = price.micros as int;
                assert(-100000000000000000000000000000000 <= sc * pm
                    <= 100000000000000000000000000000000) by (nonlinear_arith)
                    requires
                        -AMOUNT_LIMIT <= sc <= AMOUNT_LIMIT,
                        -AMOUNT_LIMIT <= pm <= AMOUNT_LIMIT || pm == 1000000,
                ;
                assert((i as int + 1) * 100000000000000000000000000000000 == (i as int)
                    * 100000000000000000000000000000000
                    + 100000000000000000000000000000000) by (nonlinear_arith);
            }
            sum = sum + (rec.shares.micros as i128) * (price.micros as i128);
            i = i + 1;
        }
        Fraction { num: sum, den: PICO_DEN }
    }

    /// The lots grouped into holdings, one per distinct asset code in
    /// first-occurrence order, each holding's lots in store order.
    pub fn holdings(&self) -> (r: Vec<Holding>)
        ensures
            r@.len() == hold_codes(self@).len(),
            forall|j: int|
                0 <= j < r@.len() ==> (#[trigger] r@[j])@.asset_code == hold_codes(self@)[j]
                    && r@[j]@.lots == code_lots(self@, hold_codes(self@)[j]),
            forall|j: int, k: int| 0 <= j < k < r@.len() ==> r@[j]@.asset_code != r@[k]@.asset_code,
    {
        let mut r: Vec<Holding> = Vec::new();
        let mut i: usize = 0;
        while i < self.lots.len()
            invariant
                0 <= i <= self@.lots.len(),
                self@.lots.len() == self.lots@.len(),
                r@.len() == hold_codes_prefix(self@, i as int).len(),
                forall|j: int|
                    0 <= j < r@.len() ==> (#[trigger] r@[j])@.asset_code == hold_codes_prefix(
                        self@,
                        i as int,
                    )[j] && r@[j]@.lots == code_lots_prefix(
                        self@,
                        r@[j]@.asset_code,
                        i as int,
                    ),
                forall|j: int, k: int|
                    0 <= j < k < r@.len() ==> r@[j]@.asset_code != r@[k]@.asset_code,
            decreases self@.lots.len() - i,
        {
            proof {
                assert(self.lots@[i as int]@ == self@.lots[i as int]);
            }
            let rec = &self.lots[i];
            let lot = Lot {
                lot_id: rec.lot_id,
                asset_code: rec.code.clone(),
                share_count: rec.shares,
                custodian: rec.custodian.clone(),
                account: Account::Main,
            };
            let mut j: usize = 0;
            let mut found: Option<usize> = None;
            while j < r.len()
                invariant
                    0 <= j <= r@.len(),
                    match found {
                        Some(f) => f < j && r@[f as int]@.asset_code == rec.code@,
                        None => forall|k: int| 0 <= k < j ==> (#[trigger] r@[k])@.asset_code
                            != rec.code@,
                    },
                decreases r@.len() - j,
            {
                if found.is_none() && r[j].asset_code() == &rec.code {
                    found = Some(j);
                }
                j = j + 1;
            }
            let ghost codes_prev = hold_codes_prefix(self@, i as int);
            let ghost codes_cur = hold_codes_prefix(self@, i as int + 1);
            match found {
                Some(f) => {
                    proof {
                        assert(codes_prev[f as int] == rec.code@);
                        assert(codes_prev.contains(rec.code@));
                        assert(codes_cur == codes_prev);
                    }
                    let mut h = r[f].clone();
                    h.push_lot(lot);
                    r.set(f, h);
                    proof {
                        assert(forall|j2: int|
                            0 <= j2 < r@.len() && j2 != f ==> code_lots_prefix(
                                self@,
                                #[trigger] r@[j2]@.asset_code,
                                i as int + 1,
                            ) == code_lots_prefix(self@, r@[j2]@.asset_code, i as int));
                        assert(r@[f as int]@.lots =~= code_lots_prefix(
                            self@,
                            rec.code@,
                            i as int + 1,
                        ));
                    }
                },
                None => {
                    proof {
                        assert(!codes_prev.contains(rec.code@)) by {
                            if codes_prev.contains(rec.code@) {
                                let k = choose|k: int|
                                    0 <= k < codes_prev.len() && codes_prev[k] == rec.code@;
                                assert(r@[k]@.asset_code == rec.code@);
                            }
                        }
                        assert(codes_cur == codes_prev.push(rec.code@));
                        assert(code_lots_prefix(self@, rec.code@, i as int) =~= Seq::<
                            LotPV,
                        >::empty()) by {
                            lemma_code_lots_absent(self@, rec.code@, i as int);
                        }
                    }
                    let mut h = Holding::new(&rec.code);
                    h.push_lot(lot);
                    r.push(h);
                    proof {
                        assert(forall|j2: int|
                            0 <= j2 < r@.len() - 1 ==> code_lots_prefix(
                                self@,
                                #[trigger] r@[j2]@.asset_code,
                                i as int + 1,
                            ) == code_lots_prefix(self@, r@[j2]@.asset_code, i as int));
                        assert(r@[r@.len() - 1]@.lots =~= code_lots_prefix(
                            self@,
                            rec.code@,
                            i as int + 1,
                        ));
                    }
                },
            }
            i = i + 1;
        }
        r
    }
}

/// A code outside the first `t` holding codes groups no lots there.
proof fn lemma_code_lots_absent(s: LinkV, code: AssetCodeV, t: int)
    requires
        0 <= t <= s.lots.len(),
        !hold_codes_prefix(s, t).contains(code),
    ensures
        code_lots_prefix(s, code, t).len() == 0,
    decreases t,
{
    if t > 0 {
        let p = hold_codes_prefix(s, t - 1);
        assert(hold_codes_prefix(s, t).contains(s.lots[t - 1].code)) by {
            if p.contains(s.lots[t - 1].code) {
            } else {
                assert(hold_codes_prefix(s, t).last() == s.lots[t - 1].code);
            }
        }
        assert(s.lots[t - 1].code != code);
        assert(forall|k: int|
            0 <= k < p.len() ==> hold_codes_prefix(s, t).contains(#[trigger] p[k])) by {
            if p.contains(s.lots[t - 1].code) {
                assert(forall|k: int|
                    0 <= k < p.len() ==> hold_codes_prefix(s, t)[k] == #[trigger] p[k]);
            } else {
                assert(forall|k: int|
                    0 <= k < p.len() ==> hold_codes_prefix(s, t)[k] == #[trigger] p[k]);
            }
        }
        assert(!p.contains(code)) by {
            if p.contains(code) {
                let k = choose|k: int| 0 <= k < p.len() && p[k] == code;
                assert(hold_codes_prefix(s, t).contains(p[k]));
            }
        }
        lemma_code_lots_absent(s, code, t - 1);
    }
}

pub proof fn lemma_lots_val_bound(s: LinkV, t: int)
    requires
        link_within_limits(s),
        0 <= t <= s.lots.len(),
    ensures
        -(t * 10000000000000000000000000000) <= lots_val_prefix(s, t) <= t
            * 10000000000000000000000000000,
    decreases t,
{
    if t > 0 {
        lemma_lots_val_bound(s, t - 1);
        lemma_link_price_bound(s, s.lots[t - 1].code);
        let sc = s.lots[t - 1].shares;
        let pm = link_price(s, s.lots[t - 1].code);
        assert(-10000000000000000000000000000 <= sc * pm
            <= 10000000000000000000000000000) by (nonlinear_arith)
            requires
                -AMOUNT_LIMIT <= sc <= AMOUNT_LIMIT,
                -AMOUNT_LIMIT <= pm <= AMOUNT_LIMIT || pm == 1000000,
        ;
        assert(t * 10000000000000000000000000000 == (t - 1) * 10000000000000000000000000000
            + 10000000000000000000000000000) by (nonlinear_arith);
    } else {
        assert(t * 10000000000000000000000000000 == 0) by (nonlinear_arith)
            requires
                t == 0,
        ;
    }
}

pub proof fn lemma_seg_val_bound(s: LinkV, ty: SegmentType, t: int)
    requires
        link_within_limits(s),
        0 <= t <= s.lots.len(),
    ensures
        -(t * 10000000000000000000000000000) <= seg_val_prefix(s, ty, t) <= t
            * 10000000000000000000000000000,
    decreases t,
{
    if t > 0 {
        lemma_seg_val_bound(s, ty, t - 1);
        lemma_link_price_bound(s, s.lots[t - 1].code);
        let sc = s.lots[t - 1].shares;
        let pm = link_price(s, s.lots[t - 1].code);
        assert(-10000000000000000000000000000 <= sc * pm
            <= 10000000000000000000000000000) by (nonlinear_arith)
            requires
                -AMOUNT_LIMIT <= sc <= AMOUNT_LIMIT,
                -AMOUNT_LIMIT <= pm <= AMOUNT_LIMIT || pm == 1000000,
        ;
        assert(t * 10000000000000000000000000000 == (t - 1) * 10000000000000000000000000000
            + 10000000000000000000000000000) by (nonlinear_arith);
    } else {
        assert(t * 10000000000000000000000000000 == 0) by (nonlinear_arith)
            requires
                t == 0,
        ;
    }
}

impl PortfolioLink {
    /// The five portfolio segments in canonical order. Each carries its
    /// holdings, their combined value, the fixed-fraction target over the
    /// whole (absolute) portfolio value, and the drift: value minus
    /// target.
    pub fn segments(&self) -> (r: Vec<Segment>)
        requires
            link_within_limits(self@),
        ensures
            r@.len() == 5,
            forall|i: int|
                0 <= i < 5 ==> {
                    let seg = #[trigger] r@[i];
                    let ty = spec_all()[i];
                    let v = seg_val_prefix(self@, ty, self@.lots.len() as int);
                    let tot = lots_val_prefix(self@, self@.lots.len() as int);
                    let a = if tot < 0 { -(tot as int) } else { tot as int };
                    let f = spec_fraction_per_mille(ty);
                    &&& seg.segment_type == ty
                    &&& seg.segment_value.num == v
                    &&& seg.segment_value.den == PICO_DEN
                    &&& seg.target_value.num == a * f
                    &&& seg.target_value.den == 1000 * PICO_DEN
                    &&& seg.drift_amount.num == v * 1000 - a * f
                    &&& seg.drift_amount.den == 1000 * PICO_DEN
                    &&& seg.holdings@.len() == seg_codes_prefix(
                        self@,
                        ty,
                        hold_codes(self@).len() as int,
                    ).len()
                    &&& forall|j: int|
                        0 <= j < seg.holdings@.len() ==> (#[trigger] seg.holdings@[j])@.asset_code
                            == seg_codes_prefix(self@, ty, hold_codes(self@).len() as int)[j]
                            && seg.holdings@[j]@.lots == code_lots(
                            self@,
                            seg.holdings@[j]@.asset_code,
                        )
                },
    {
        let all_holdings = self.holdings();
        let total_f = self.portfolio_value();
        let tot = total_f.num;
        proof {
            lemma_lots_val_bound(self@, self@.lots.len() as int);
            assert((self@.lots.len() as int) * 10000000000000000000000000000 <= (MAX_LOTS as int)
                * 10000000000000000000000000000) by (nonlinear_arith)
                requires
                    0 <= self@.lots.len() as int <= MAX_LOTS as int,
            ;
        }
        let a_total: i128 = if tot < 0 {
            -tot
        } else {
            tot
        };
        let types = SegmentType::all();
        let mut r: Vec<Segment> = Vec::new();
        let mut idx: usize = 0;
        while idx < 5
            invariant
                0 <= idx <= 5,
                link_within_limits(self@),
                types@ == spec_all(),
                tot == lots_val_prefix(self@, self@.lots.len() as int),
                a_total as int == if tot < 0 { -(tot as int) } else { tot as int },
                0 <= a_total <= 10000000000000000000000000000000,
                all_holdings@.len() == hold_codes(self@).len(),
                forall|j: int|
                    0 <= j < all_holdings@.len() ==> (#[trigger] all_holdings@[j])@.asset_code
                        == hold_codes(self@)[j] && all_holdings@[j]@.lots == code_lots(
                        self@,
                        hold_codes(self@)[j],
                    ),
                r@.len() == idx,
                forall|i: int|
                    0 <= i < idx ==> {
                        let seg = #[trigger] r@[i];
                        let ty = spec_all()[i];
                        let v = seg_val_prefix(self@, ty, self@.lots.len() as int);
                        let a = if tot < 0 { -(tot as int) } else { tot as int };
                        let f = spec_fraction_per_mille(ty);
                        &&& seg.segment_type == ty
                        &&& seg.segment_value.num == v
                        &&& seg.segment_value.den == PICO_DEN
                        &&& seg.target_value.num == a * f
                        &&& seg.target_value.den == 1000 * PICO_DEN
                        &&& seg.drift_amount.num == v * 1000 - a * f
                        &&& seg.drift_amount.den == 1000 * PICO_DEN
                        &&& seg.holdings@.len() == seg_codes_prefix(
                            self@,
                            ty,
                            hold_codes(self@).len() as int,
                        ).len()
                        &&& forall|j: int|
                            0 <= j < seg.holdings@.len() ==> (
                            #[trigger] seg.holdings@[j])@.asset_code == seg_codes_prefix(
                                self@,
                                ty,
                                hold_codes(self@).len() as int,
                            )[j] && seg.holdings@[j]@.lots == code_lots(
                                self@,
                                seg.holdings@[j]@.asset_code,
                            )
                    },
            decreases 5 - idx,
        {
            let ty = types[idx];
            let mut v: i128 = 0;
            let mut t: usize = 0;
            while t < self.lots.len()
                invariant
                    0 <= t <= self@.lots.len(),
                    self@.lots.len() == self.lots@.len(),
                    link_within_limits(self@),
                    v == seg_val_prefix(self@, ty, t as int),
                    -(t as int) * 10000000000000000000000000000 <= v <= (t as int)
                        * 10000000000000000000000000000,
                decreases self@.lots.len() - t,
            {
                proof {
                    assert(self.lots@[t as int]@ == self@.lots[t as int]);
                }
                let rec = &self.lots[t];
                let seg = self.asset_seg_or_unknown(&rec.code);
                proof {
                    lemma_link_price_bound(self@, rec.code@);
                    let sc = rec.shares.micros as int;
                    let pm = link_price(self@, rec.code@);
                    assert(-10000000000000000000000000000 <= sc * pm
                        <= 10000000000000000000000000000) by (nonlinear_arith)
                        requires
                            -AMOUNT_LIMIT <= sc <= AMOUNT_LIMIT,
                            -AMOUNT_LIMIT <= pm <= AMOUNT_LIMIT || pm == 1000000,
                    ;
                    assert((t as int + 1) * 10000000000000000000000000000 == (t as int)
                        * 10000000000000000000000000000
                        + 10000000000000000000000000000) by (nonlinear_arith);
                }
                if seg == ty {
                    let price = self.asset_price_or_default(&rec.code);
                    v = v + (rec.shares.micros as i128) * (price.micros as i128);
                }
                t = t + 1;
            }
            proof {
                assert((self@.lots.len() as int) * 10000000000000000000000000000 <= (MAX_LOTS
                    as int) * 10000000000000000000000000000) by (nonlinear_arith)
                    requires
                        0 <= self@.lots.len() as int <= MAX_LOTS as int,
                ;
            }
            let mut hs: Vec<Holding> = Vec::new();
            let mut j: usize = 0;
            while j < all_holdings.len()
                invariant
                    0 <= j <= all_holdings@.len(),
                    link_within_limits(self@),
                    all_holdings@.len() == hold_codes(self@).len(),
                    forall|k: int|
                        0 <= k < all_holdings@.len() ==> (
                        #[trigger] all_holdings@[k])@.asset_code == hold_codes(self@)[k]
                            && all_holdings@[k]@.lots == code_lots(self@, hold_codes(self@)[k]),
                    hs@.len() == seg_codes_prefix(self@, ty, j as int).len(),
                    forall|m: int|
                        0 <= m < hs@.len() ==> (#[trigger] hs@[m])@.asset_code == seg_codes_prefix(
                            self@,
                            ty,
                            j as int,
                        )[m] && hs@[m]@.lots == code_lots(self@, hs@[m]@.asset_code),
                decreases all_holdings@.len() - j,
            {
                let seg = self.asset_seg_or_unknown(all_holdings[j].asset_code());
                if seg == ty {
                    hs.push(all_holdings[j].clone());
                }
                j = j + 1;
            }
            let f: i128 = ty.fraction().num;
            proof {
                assert(0 <= a_total * f <= 6000000000000000000000000000000000) by (
                nonlinear_arith)
                    requires
                        0 <= a_total <= 10000000000000000000000000000000,
                        0 <= f <= 600,
                ;
            }
            r.push(
                Segment {
                    segment_type: ty,
                    drift_amount: Fraction { num: v * 1000 - a_total * f, den: 1000 * PICO_DEN },
                    target_value: Fraction { num: a_total * f, den: 1000 * PICO_DEN },
                    holdings: hs,
                    segment_value: Fraction { num: v, den: PICO_DEN },
                },
            );
            idx = idx + 1;
        }
        r
    }
}

/// Every lot belongs to exactly one segment, so the five segment values
/// partition the portfolio value.
pub proof fn lemma_segment_partition(s: LinkV, t: int)
    requires
        0 <= t <= s.lots.len(),
    ensures
        seg_val_prefix(s, SegmentType::Liquid, t) + seg_val_prefix(s, SegmentType::Stable, t)
            + seg_val_prefix(s, SegmentType::Linear, t) + seg_val_prefix(s, SegmentType::Expo, t)
            + seg_val_prefix(s, SegmentType::Unknown, t) == lots_val_prefix(s, t),
    decreases t,
{
    if t > 0 {
        lemma_segment_partition(s, t - 1);
    }
}

/// The five fixed target fractions sum to the whole: for a non-negative
/// portfolio value, the segment targets add up to exactly the portfolio
/// value, so the segment drifts add up to zero.
pub proof fn lemma_segment_targets_cover_portfolio(s: LinkV)
    requires
        lots_val_prefix(s, s.lots.len() as int) >= 0,
    ensures
        ({
            let tot = lots_val_prefix(s, s.lots.len() as int);
            let target_sum = tot * spec_fraction_per_mille(SegmentType::Liquid) + tot
                * spec_fraction_per_mille(SegmentType::Stable) + tot * spec_fraction_per_mille(
                SegmentType::Linear,
            ) + tot * spec_fraction_per_mille(SegmentType::Expo) + tot * spec_fraction_per_mille(
                SegmentType::Unknown,
            );
            // Each target is `target_sum`'s share over the denominator
            // `1000 * PICO_DEN`; together they equal `tot / PICO_DEN`.
            target_sum == tot * 1000
        }),
{
    let tot = lots_val_prefix(s, s.lots.len() as int);
    assert(tot * 64 + tot * 96 + tot * 240 + tot * 600 + tot * 0 == tot * 1000) by (nonlinear_arith);
}

} // verus!
