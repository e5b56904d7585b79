//! The single-writer state owner and its snapshots.
//!
//! All mutation of one squad domain goes through a [`Chad`] value, one
//! command at a time; [`Chad::snap`] captures a frozen copy of the whole
//! state, and queries against that [`Snap`] are unaffected by later
//! commands. Each command's effect is fixed by a spec transition function
//! over the store view, and every command preserves the store's
//! integrity invariant [`store_wf`].

use vstd::prelude::*;
use vstd::pervasive::VecAdditionalExecFns;

use crate::amount::Amount;
use crate::model::{Lot, Squad, SquadMember, SymbolPrice};

verus! {

/// A squad object's properties in the store.
#[derive(Debug)]
pub struct SquadObj {
    pub id: u64,
    pub name: Option<String>,
    pub owner: Option<u64>,
    pub members: Vec<u64>,
    pub unspent: Amount,
}

/// A member object's properties in the store.
#[derive(Debug)]
pub struct MemberObj {
    pub id: u64,
    pub squad: u64,
    pub symbol: String,
}

/// A lot object's properties in the store.
#[derive(Debug)]
pub struct LotObj {
    pub id: u64,
    pub squad: u64,
    pub symbol: String,
    pub shares: Amount,
    pub account: String,
}

#[verifier::ext_equal]
pub ghost struct SquadObjV {
    pub id: u64,
    pub name: Option<Seq<char>>,
    pub owner: Option<u64>,
    pub members: Seq<u64>,
    pub unspent: int,
}

#[verifier::ext_equal]
pub ghost struct MemberObjV {
    pub id: u64,
    pub squad: u64,
    pub symbol: Seq<char>,
}

#[verifier::ext_equal]
pub ghost struct PriceV {
    pub symbol: Seq<char>,
    pub price: int,
}

#[verifier::ext_equal]
pub ghost struct LotObjV {
    pub id: u64,
    pub squad: u64,
    pub symbol: Seq<char>,
    pub shares: int,
    pub account: Seq<char>,
}

/// The whole store of one domain instance, as mathematical values.
#[verifier::ext_equal]
pub ghost struct StoreV {
    pub squads: Seq<SquadObjV>,
    pub members: Seq<MemberObjV>,
    pub prices: Seq<PriceV>,
    pub lots: Seq<LotObjV>,
}

impl View for SquadObj {
    type V = SquadObjV;

    open spec fn view(&self) -> SquadObjV {
        SquadObjV {
            id: self.id,
            name: match self.name {
                Some(n) => Some(n@),
                None => None,
            },
            owner: self.owner,
            members: self.members@,
            unspent: self.unspent.micros as int,
        }
    }
}

impl View for MemberObj {
    type V = MemberObjV;

    open spec fn view(&self) -> MemberObjV {
        MemberObjV { id: self.id, squad: self.squad, symbol: self.symbol@ }
    }
}

impl View for SymbolPrice {
    type V = PriceV;

    open spec fn view(&self) -> PriceV {
        PriceV { symbol: self.symbol@, price: self.price.micros as int }
    }
}

impl View for LotObj {
    type V = LotObjV;

    open spec fn view(&self) -> LotObjV {
        LotObjV {
            id: self.id,
            squad: self.squad,
            symbol: self.symbol@,
            shares: self.shares.micros as int,
            account: self.account@,
        }
    }
}

impl Clone for SquadObj {
    fn clone(&self) -> (r: SquadObj)
        ensures
            r@ == self@,
    {
        SquadObj {
            id: self.id,
            name: match &self.name {
                Some(n) => Some(n.clone()),
                None => None,
            },
            owner: self.owner,
            members: self.members.clone(),
            unspent: self.unspent,
        }
    }
}

impl Clone for MemberObj {
    fn clone(&self) -> (r: MemberObj)
        ensures
            r@ == self@,
    {
        MemberObj { id: self.id, squad: self.squad, symbol: self.symbol.clone() }
    }
}

impl Clone for LotObj {
    fn clone(&self) -> (r: LotObj)
        ensures
            r@ == self@,
    {
        LotObj {
            id: self.id,
            squad: self.squad,
            symbol: self.symbol.clone(),
            shares: self.shares,
            account: self.account.clone(),
        }
    }
}

/// The first index carrying `id`, or `-1`.
pub open spec fn find_id(ids: Seq<u64>, id: u64) -> int
    decreases ids.len(),
{
    if ids.len() == 0 {
        -1
    } else if ids[0] == id {
        0
    } else {
        let r = find_id(ids.skip(1), id);
        if r < 0 {
            -1
        } else {
            r + 1
        }
    }
}

pub proof fn lemma_find_id(ids: Seq<u64>, id: u64)
    ensures
        ({
            let r = find_id(ids, id);
            (r == -1 && forall|k: int| 0 <= k < ids.len() ==> ids[k] != id) || (0 <= r < ids.len()
                && ids[r] == id && forall|k: int| 0 <= k < r ==> ids[k] != id)
        }),
    decreases ids.len(),
{
    if ids.len() > 0 && ids[0] != id {
        let t = ids.skip(1);
        lemma_find_id(t, id);
        assert(forall|k: int| 1 <= k < ids.len() ==> #[trigger] ids[k] == t[k - 1]);
    }
}

/// The first index carrying the symbol `sym`, or `-1`.
pub open spec fn find_sym(syms: Seq<Seq<char>>, sym: Seq<char>) -> int
    decreases syms.len(),
{
    if syms.len() == 0 {
        -1
    } else if syms[0] == sym {
        0
    } else {
        let r = find_sym(syms.skip(1), sym);
        if r < 0 {
            -1
        } else {
            r + 1
        }
    }
}

pub proof fn lemma_find_sym(syms: Seq<Seq<char>>, sym: Seq<char>)
    ensures
        ({
            let r = find_sym(syms, sym);
            (r == -1 && forall|k: int| 0 <= k < syms.len() ==> syms[k] != sym) || (0 <= r
                < syms.len() && syms[r] == sym && forall|k: int| 0 <= k < r ==> syms[k] != sym)
        }),
    decreases syms.len(),
{
    if syms.len() > 0 && syms[0] != sym {
        let t = syms.skip(1);
        lemma_find_sym(t, sym);
        assert(forall|k: int| 1 <= k < syms.len() ==> #[trigger] syms[k] == t[k - 1]);
    }
}

pub open spec fn squad_ids(squads: Seq<SquadObjV>) -> Seq<u64> {
    Seq::new(squads.len(), |i: int| squads[i].id)
}

pub open spec fn member_ids(members: Seq<MemberObjV>) -> Seq<u64> {
    Seq::new(members.len(), |i: int| members[i].id)
}

pub open spec fn price_syms(prices: Seq<PriceV>) -> Seq<Seq<char>> {
    Seq::new(prices.len(), |i: int| prices[i].symbol)
}

pub open spec fn lot_ids(lots: Seq<LotObjV>) -> Seq<u64> {
    Seq::new(lots.len(), |i: int| lots[i].id)
}

/// The ordered member list of the squad object keyed `id`; empty when the
/// object or its list is absent.
pub open spec fn members_of(s: StoreV, id: u64) -> Seq<u64> {
    let i = find_id(squad_ids(s.squads), id);
    if i >= 0 {
        s.squads[i].members
    } else {
        Seq::empty()
    }
}

/// The unspent cash of the squad object keyed `id`, in micro-units; zero
/// when absent.
pub open spec fn unspent_of(s: StoreV, id: u64) -> int {
    let i = find_id(squad_ids(s.squads), id);
    if i >= 0 {
        s.squads[i].unspent
    } else {
        0
    }
}

/// The stored price of a symbol, in micro-units, when one exists.
pub open spec fn price_of(s: StoreV, sym: Seq<char>) -> Option<int> {
    let i = find_sym(price_syms(s.prices), sym);
    if i >= 0 {
        Some(s.prices[i].price)
    } else {
        None
    }
}

/// A member id a squad lists is backed by a member object whose symbol has
/// a stored price.
pub open spec fn member_covered(s: StoreV, mid: u64) -> bool {
    let k = find_id(member_ids(s.members), mid);
    &&& k >= 0
    &&& find_sym(price_syms(s.prices), s.members[k].symbol) >= 0
}

/// The store's integrity invariant: object keys are unique, no squad lists
/// a member twice, and every listed member resolves to a member object and
/// a price. The write path below establishes and preserves this; the
/// snapshot reader relies on it.
pub open spec fn store_wf(s: StoreV) -> bool {
    &&& forall|i: int, j: int| 0 <= i < j < s.squads.len() ==> s.squads[i].id != s.squads[j].id
    &&& forall|i: int, j: int| 0 <= i < j < s.members.len() ==> s.members[i].id != s.members[j].id
    &&& forall|i: int, j: int|
        0 <= i < j < s.prices.len() ==> s.prices[i].symbol != s.prices[j].symbol
    &&& forall|i: int, j: int| 0 <= i < j < s.lots.len() ==> s.lots[i].id != s.lots[j].id
    &&& forall|i: int, j: int, k: int|
        0 <= i < s.squads.len() && 0 <= j < k < s.squads[i].members.len()
            ==> s.squads[i].members[j] != s.squads[i].members[k]
    &&& forall|i: int, j: int|
        0 <= i < s.squads.len() && 0 <= j < s.squads[i].members.len() ==> member_covered(
            s,
            #[trigger] s.squads[i].members[j],
        )
}

/// One step of the 64-bit FNV-1a hash.
pub open spec fn fnv_step(h: u64, b: u8) -> u64 {
    vstd::wrapping::u64_specs::wrapping_mul(h ^ (b as u64), 1099511628211)
}

/// FNV-1a over the eight little-endian bytes of `x`.
pub open spec fn fnv_u64(h: u64, x: u64) -> u64 {
    let h0 = fnv_step(h, (x % 256) as u8);
    let h1 = fnv_step(h0, ((x / 256) % 256) as u8);
    let h2 = fnv_step(h1, ((x / 65536) % 256) as u8);
    let h3 = fnv_step(h2, ((x / 16777216) % 256) as u8);
    let h4 = fnv_step(h3, ((x / 4294967296) % 256) as u8);
    let h5 = fnv_step(h4, ((x / 1099511627776) % 256) as u8);
    let h6 = fnv_step(h5, ((x / 281474976710656) % 256) as u8);
    fnv_step(h6, ((x / 72057594037927936) % 256) as u8)
}

/// FNV-1a over one character's code point, as four little-endian bytes.
pub open spec fn fnv_char(h: u64, c: char) -> u64 {
    let x = c as u32;
    let h0 = fnv_step(h, (x % 256) as u8);
    let h1 = fnv_step(h0, ((x / 256) % 256) as u8);
    let h2 = fnv_step(h1, ((x / 65536) % 256) as u8);
    fnv_step(h2, ((x / 16777216) % 256) as u8)
}

pub open spec fn fnv_chars(h: u64, s: Seq<char>) -> u64
    decreases s.len(),
{
    if s.len() == 0 {
        h
    } else {
        fnv_chars(fnv_char(h, s[0]), s.skip(1))
    }
}

/// The member id derived from a squad id and a symbol: 64-bit FNV-1a over
/// the squad id's eight little-endian bytes followed by the symbol's
/// characters as little-endian 32-bit code points. A pure function of its
/// two inputs, so ids are reproducible across runs.
pub open spec fn spec_member_id(squad_id: u64, sym: Seq<char>) -> u64 {
    fnv_chars(fnv_u64(14695981039346656037, squad_id), sym)
}

fn fnv_step_x(h: u64, b: u8) -> (r: u64)
    ensures
        r == fnv_step(h, b),
{
    (h ^ (b as u64)).wrapping_mul(1099511628211)
}

/// Computes the deterministic member id of `(squad_id, symbol)`.
pub fn member_id(squad_id: u64, symbol: &str) -> (r: u64)
    ensures
        r == spec_member_id(squad_id, symbol@),
{
    let x = squad_id;
    let mut h: u64 = 14695981039346656037;
    h = fnv_step_x(h, (x % 256) as u8);
    h = fnv_step_x(h, ((x / 256) % 256) as u8);
    h = fnv_step_x(h, ((x / 65536) % 256) as u8);
    h = fnv_step_x(h, ((x / 16777216) % 256) as u8);
    h = fnv_step_x(h, ((x / 4294967296) % 256) as u8);
    h = fnv_step_x(h, ((x / 1099511627776) % 256) as u8);
    h = fnv_step_x(h, ((x / 281474976710656) % 256) as u8);
    h = fnv_step_x(h, ((x / 72057594037927936) % 256) as u8);
    assert(h == fnv_u64(14695981039346656037, squad_id));
    let n = symbol.unicode_len();
    let mut i: usize = 0;
    proof {
        assert(symbol@.skip(0) =~= symbol@);
    }
    while i < n
        invariant
            0 <= i <= n == symbol@.len(),
            fnv_chars(h, symbol@.skip(i as int)) == spec_member_id(squad_id, symbol@),
        decreases n - i,
    {
        let c = symbol.get_char(i);
        proof {
            assert(symbol@.skip(i as int)[0] == symbol@[i as int]);
            assert(symbol@.skip(i as int).skip(1) =~= symbol@.skip(i as int + 1));
        }
        let x = c as u32;
        h = fnv_step_x(h, (x % 256) as u8);
        h = fnv_step_x(h, ((x / 256) % 256) as u8);
        h = fnv_step_x(h, ((x / 65536) % 256) as u8);
        h = fnv_step_x(h, ((x / 16777216) % 256) as u8);
        i = i + 1;
    }
    proof {
        assert(symbol@.skip(n as int) =~= Seq::<char>::empty());
    }
    h
}

/// Writes name and owner for the squad object keyed `id`, creating it as
/// needed; re-adding overwrites, and the member list and cash are kept.
pub open spec fn spec_add_squad(s: StoreV, id: u64, name: Seq<char>, owner: u64) -> StoreV {
    let i = find_id(squad_ids(s.squads), id);
    if i >= 0 {
        StoreV {
            squads: s.squads.update(
                i,
                SquadObjV { name: Some(name), owner: Some(owner), ..s.squads[i] },
            ),
            ..s
        }
    } else {
        StoreV {
            squads: s.squads.push(
                SquadObjV {
                    id,
                    name: Some(name),
                    owner: Some(owner),
                    members: Seq::empty(),
                    unspent: 0,
                },
            ),
            ..s
        }
    }
}

/// Writes the unspent cash of the squad object keyed `id`, but only when
/// the new value differs from the stored one (write suppression).
pub open spec fn spec_set_unspent(s: StoreV, id: u64, v: int) -> StoreV {
    if unspent_of(s, id) == v {
        s
    } else {
        let i = find_id(squad_ids(s.squads), id);
        if i >= 0 {
            StoreV { squads: s.squads.update(i, SquadObjV { unspent: v, ..s.squads[i] }), ..s }
        } else {
            StoreV {
                squads: s.squads.push(
                    SquadObjV { id, name: None, owner: None, members: seq![], unspent: v },
                ),
                ..s
            }
        }
    }
}

pub open spec fn upsert_price(ps: Seq<PriceV>, sym: Seq<char>, price: int) -> Seq<PriceV> {
    let i = find_sym(price_syms(ps), sym);
    if i >= 0 {
        ps.update(i, PriceV { symbol: sym, price })
    } else {
        ps.push(PriceV { symbol: sym, price })
    }
}

pub open spec fn upsert_member(ms: Seq<MemberObjV>, mid: u64, squad: u64, sym: Seq<char>) -> Seq<
    MemberObjV,
> {
    let i = find_id(member_ids(ms), mid);
    if i >= 0 {
        ms.update(i, MemberObjV { id: mid, squad, symbol: sym })
    } else {
        ms.push(MemberObjV { id: mid, squad, symbol: sym })
    }
}

pub open spec fn prepend_member(sqs: Seq<SquadObjV>, squad_id: u64, mid: u64) -> Seq<SquadObjV> {
    let i = find_id(squad_ids(sqs), squad_id);
    if i >= 0 {
        sqs.update(i, SquadObjV { members: seq![mid] + sqs[i].members, ..sqs[i] })
    } else {
        sqs.push(
            SquadObjV {
                id: squad_id,
                name: None,
                owner: None,
                members: seq![mid],
                unspent: 0,
            },
        )
    }
}

/// Adds a member derived from `(squad_id, sym)`: a no-op when the squad
/// already lists the member id; otherwise writes the symbol's price if it
/// differs from the stored one, writes the member object, and prepends the
/// member id to the squad's ordered list (newest first).
pub open spec fn spec_add_member(s: StoreV, squad_id: u64, sym: Seq<char>, price: int) -> StoreV {
    let mid = spec_member_id(squad_id, sym);
    if members_of(s, squad_id).contains(mid) {
        s
    } else {
        StoreV {
            squads: prepend_member(s.squads, squad_id, mid),
            members: upsert_member(s.members, mid, squad_id, sym),
            prices: if price_of(s, sym) == Some(price) {
                s.prices
            } else {
                upsert_price(s.prices, sym, price)
            },
            lots: s.lots,
        }
    }
}

/// Writes all four properties of the lot object keyed `id`, creating it as
/// needed; re-adding overwrites.
pub open spec fn spec_add_lot(
    s: StoreV,
    squad_id: u64,
    id: u64,
    sym: Seq<char>,
    shares: int,
    account: Seq<char>,
) -> StoreV {
    let i = find_id(lot_ids(s.lots), id);
    let obj = LotObjV { id, squad: squad_id, symbol: sym, shares, account };
    if i >= 0 {
        StoreV { lots: s.lots.update(i, obj), ..s }
    } else {
        StoreV { lots: s.lots.push(obj), ..s }
    }
}

/// Tombstones the lot keyed `lot_id`: its squad id is rewritten to the
/// sentinel `0` and every other property is left untouched.
pub open spec fn spec_del_lot(s: StoreV, lot_id: u64) -> StoreV {
    let i = find_id(lot_ids(s.lots), lot_id);
    if i >= 0 {
        StoreV { lots: s.lots.update(i, LotObjV { squad: 0, ..s.lots[i] }), ..s }
    } else {
        StoreV {
            lots: s.lots.push(
                LotObjV { id: lot_id, squad: 0, symbol: seq![], shares: 0, account: seq![] },
            ),
            ..s
        }
    }
}

pub proof fn lemma_add_squad_wf(s: StoreV, id: u64, name: Seq<char>, owner: u64)
    requires
        store_wf(s),
    ensures
        store_wf(spec_add_squad(s, id, name, owner)),
{
    let s2 = spec_add_squad(s, id, name, owner);
    let i = find_id(squad_ids(s.squads), id);
    lemma_find_id(squad_ids(s.squads), id);
    assert(forall|k: int|
        0 <= k < s.squads.len() ==> #[trigger] s.squads[k].id == squad_ids(s.squads)[k]);
    if i >= 0 {
        assert(forall|k: int|
            0 <= k < s2.squads.len() ==> #[trigger] s2.squads[k].id == s.squads[k].id
                && s2.squads[k].members == s.squads[k].members);
    } else {
        assert(forall|k: int|
            0 <= k < s.squads.len() ==> #[trigger] s2.squads[k] == s.squads[k]);
        assert(s2.squads.last().id == id);
        assert(s2.squads.last().members.len() == 0);
    }
}

pub proof fn lemma_set_unspent_wf(s: StoreV, id: u64, v: int)
    requires
        store_wf(s),
    ensures
        store_wf(spec_set_unspent(s, id, v)),
{
    let s2 = spec_set_unspent(s, id, v);
    let i = find_id(squad_ids(s.squads), id);
    lemma_find_id(squad_ids(s.squads), id);
    assert(forall|k: int|
        0 <= k < s.squads.len() ==> #[trigger] s.squads[k].id == squad_ids(s.squads)[k]);
    if unspent_of(s, id) != v {
        if i >= 0 {
            assert(forall|k: int|
                0 <= k < s2.squads.len() ==> #[trigger] s2.squads[k].id == s.squads[k].id
                    && s2.squads[k].members == s.squads[k].members);
        } else {
            assert(forall|k: int|
                0 <= k < s.squads.len() ==> #[trigger] s2.squads[k] == s.squads[k]);
            assert(s2.squads.last().id == id);
            assert(s2.squads.last().members.len() == 0);
        }
    }
}

pub proof fn lemma_add_lot_wf(
    s: StoreV,
    squad_id: u64,
    id: u64,
    sym: Seq<char>,
    shares: int,
    account: Seq<char>,
)
    requires
        store_wf(s),
    ensures
        store_wf(spec_add_lot(s, squad_id, id, sym, shares, account)),
{
    let s2 = spec_add_lot(s, squad_id, id, sym, shares, account);
    let i = find_id(lot_ids(s.lots), id);
    lemma_find_id(lot_ids(s.lots), id);
    assert(forall|k: int|
        0 <= k < s.lots.len() ==> #[trigger] s.lots[k].id == lot_ids(s.lots)[k]);
    if i >= 0 {
        assert(forall|k: int|
            0 <= k < s2.lots.len() ==> #[trigger] s2.lots[k].id == s.lots[k].id);
    } else {
        assert(forall|k: int| 0 <= k < s.lots.len() ==> #[trigger] s2.lots[k] == s.lots[k]);
        assert(s2.lots.last().id == id);
    }
}

pub proof fn lemma_del_lot_wf(s: StoreV, lot_id: u64)
    requires
        store_wf(s),
    ensures
        store_wf(spec_del_lot(s, lot_id)),
{
    let s2 = spec_del_lot(s, lot_id);
    let i = find_id(lot_ids(s.lots), lot_id);
    lemma_find_id(lot_ids(s.lots), lot_id);
    assert(forall|k: int|
        0 <= k < s.lots.len() ==> #[trigger] s.lots[k].id == lot_ids(s.lots)[k]);
    if i >= 0 {
        assert(forall|k: int|
            0 <= k < s2.lots.len() ==> #[trigger] s2.lots[k].id == s.lots[k].id);
    } else {
        assert(forall|k: int| 0 <= k < s.lots.len() ==> #[trigger] s2.lots[k] == s.lots[k]);
        assert(s2.lots.last().id == lot_id);
    }
}

/// After the add, the member objects still have unique ids, the prices
/// unique symbols, and `mid` is covered.
proof fn lemma_add_member_objs(s: StoreV, squad_id: u64, sym: Seq<char>, price: int)
    requires
        store_wf(s),
        !members_of(s, squad_id).contains(spec_member_id(squad_id, sym)),
    ensures
        ({
            let s2 = spec_add_member(s, squad_id, sym, price);
            &&& forall|i: int, j: int|
                0 <= i < j < s2.members.len() ==> s2.members[i].id != s2.members[j].id
            &&& forall|i: int, j: int|
                0 <= i < j < s2.prices.len() ==> s2.prices[i].symbol != s2.prices[j].symbol
            &&& member_covered(s2, spec_member_id(squad_id, sym))
        }),
{
    let mid = spec_member_id(squad_id, sym);
    let s2 = spec_add_member(s, squad_id, sym, price);
    let im = find_id(member_ids(s.members), mid);
    let ip = find_sym(price_syms(s.prices), sym);
    lemma_find_id(member_ids(s.members), mid);
    lemma_find_sym(price_syms(s.prices), sym);
    let km = find_id(member_ids(s2.members), mid);
    lemma_find_id(member_ids(s2.members), mid);
    assert(forall|k: int|
        0 <= k < s.members.len() ==> #[trigger] s.members[k].id == member_ids(s.members)[k]);
    if im >= 0 {
        assert(member_ids(s2.members) =~= member_ids(s.members));
        assert(forall|k: int|
            0 <= k < s2.members.len() ==> #[trigger] s2.members[k].id == s.members[k].id);
        assert(s2.members[im].symbol == sym);
        assert(km == im);
    } else {
        assert(forall|k: int|
            0 <= k < s.members.len() ==> #[trigger] s2.members[k] == s.members[k]);
        assert(forall|k: int|
            0 <= k < s.members.len() ==> #[trigger] member_ids(s2.members)[k] == member_ids(
                s.members,
            )[k]);
        assert(member_ids(s2.members).last() == mid);
        assert(s2.members.last().id == mid);
        assert(forall|k: int| 0 <= k < s.members.len() ==> #[trigger] s.members[k].id != mid);
        assert(km == s.members.len());
        assert(s2.members[km].symbol == sym);
    }
    assert(forall|i: int, j: int|
        0 <= i < j < s2.members.len() ==> s2.members[i].id != s2.members[j].id);
    lemma_find_sym(price_syms(s2.prices), sym);
    assert(forall|k: int|
        0 <= k < s.prices.len() ==> #[trigger] s.prices[k].symbol == price_syms(s.prices)[k]);
    if price_of(s, sym) == Some(price) {
        assert(find_sym(price_syms(s2.prices), sym) >= 0);
    } else if ip >= 0 {
        assert(price_syms(s2.prices) =~= price_syms(s.prices));
        assert(forall|k: int|
            0 <= k < s2.prices.len() ==> #[trigger] s2.prices[k].symbol == s.prices[k].symbol);
        assert(find_sym(price_syms(s2.prices), sym) >= 0);
    } else {
        assert(forall|k: int| 0 <= k < s.prices.len() ==> #[trigger] s2.prices[k] == s.prices[k]);
        assert(s2.prices.last().symbol == sym);
        assert(forall|k: int| 0 <= k < s.prices.len() ==> #[trigger] s.prices[k].symbol != sym);
        assert(price_syms(s2.prices).last() == sym);
        assert(find_sym(price_syms(s2.prices), sym) >= 0);
    }
    assert(forall|i: int, j: int|
        0 <= i < j < s2.prices.len() ==> s2.prices[i].symbol != s2.prices[j].symbol);
    assert(member_covered(s2, mid));
}

/// A member covered before the add stays covered after it.
proof fn lemma_add_member_covered_preserved(
    s: StoreV,
    squad_id: u64,
    sym: Seq<char>,
    price: int,
    mid2: u64,
)
    requires
        store_wf(s),
        !members_of(s, squad_id).contains(spec_member_id(squad_id, sym)),
        member_covered(s, mid2),
    ensures
        member_covered(spec_add_member(s, squad_id, sym, price), mid2),
{
    let mid = spec_member_id(squad_id, sym);
    let s2 = spec_add_member(s, squad_id, sym, price);
    if mid2 == mid {
        lemma_add_member_objs(s, squad_id, sym, price);
    } else {
        let im = find_id(member_ids(s.members), mid);
        let ip = find_sym(price_syms(s.prices), sym);
        lemma_find_id(member_ids(s.members), mid);
        lemma_find_sym(price_syms(s.prices), sym);
        let k = find_id(member_ids(s.members), mid2);
        lemma_find_id(member_ids(s.members), mid2);
        let k2 = find_id(member_ids(s2.members), mid2);
        lemma_find_id(member_ids(s2.members), mid2);
        assert(forall|j: int|
            0 <= j < s.members.len() ==> #[trigger] s.members[j].id == member_ids(s.members)[j]);
        if im >= 0 {
            assert(member_ids(s2.members) =~= member_ids(s.members));
            assert(k2 == k);
            assert(member_ids(s.members)[im] == mid);
            assert(k != im);
            assert(s2.members[k2] == s.members[k]);
        } else {
            assert(forall|j: int|
                0 <= j < s.members.len() ==> #[trigger] member_ids(s2.members)[j] == member_ids(
                    s.members,
                )[j]);
            assert(member_ids(s2.members)[k] == mid2);
            assert(k2 >= 0);
            assert(member_ids(s2.members)[k2] == mid2);
            assert(member_ids(s2.members).last() == mid);
            assert(k2 != s.members.len());
            assert(k2 == k);
            assert(forall|j: int|
                0 <= j < s.members.len() ==> #[trigger] s2.members[j] == s.members[j]);
            assert(s2.members[k2] == s.members[k]);
        }
        let sym2 = s.members[k].symbol;
        let p2 = find_sym(price_syms(s.prices), sym2);
        lemma_find_sym(price_syms(s.prices), sym2);
        lemma_find_sym(price_syms(s2.prices), sym2);
        if price_of(s, sym) == Some(price) {
        } else if ip >= 0 {
            assert(price_syms(s2.prices) =~= price_syms(s.prices));
        } else {
            assert(forall|j: int|
                0 <= j < s.prices.len() ==> #[trigger] price_syms(s2.prices)[j] == price_syms(
                    s.prices,
                )[j]);
            assert(price_syms(s2.prices)[p2] == sym2);
        }
    }
}

#[verifier::rlimit(60)]
pub proof fn lemma_add_member_wf(s: StoreV, squad_id: u64, sym: Seq<char>, price: int)
    requires
        store_wf(s),
    ensures
        store_wf(spec_add_member(s, squad_id, sym, price)),
{
    let mid = spec_member_id(squad_id, sym);
    if !members_of(s, squad_id).contains(mid) {
        let s2 = spec_add_member(s, squad_id, sym, price);
        let iq = find_id(squad_ids(s.squads), squad_id);
        lemma_find_id(squad_ids(s.squads), squad_id);
        lemma_add_member_objs(s, squad_id, sym, price);
        assert forall|mid2: u64| member_covered(s, mid2) implies member_covered(s2, mid2) by {
            lemma_add_member_covered_preserved(s, squad_id, sym, price, mid2);
        }
        assert(forall|k: int|
            0 <= k < s.squads.len() ==> #[trigger] s.squads[k].id == squad_ids(s.squads)[k]);
        if iq >= 0 {
            assert(forall|k: int|
                0 <= k < s2.squads.len() ==> #[trigger] s2.squads[k].id == s.squads[k].id);
            assert(s2.squads[iq].members =~= seq![mid] + s.squads[iq].members);
            assert(members_of(s, squad_id) == s.squads[iq].members);
            assert(forall|k: int|
                0 <= k < s2.squads.len() && k != iq ==> s2.squads[k] == s.squads[k]);
            assert forall|i: int, j: int|
                0 <= i < s2.squads.len() && 0 <= j < s2.squads[i].members.len() implies
                member_covered(s2, #[trigger] s2.squads[i].members[j]) by {
                if i == iq {
                    if j == 0 {
                    } else {
                        assert(s2.squads[i].members[j] == s.squads[i].members[j - 1]);
                    }
                } else {
                    assert(s2.squads[i].members[j] == s.squads[i].members[j]);
                }
            }
            assert forall|i: int, j: int, k: int|
                0 <= i < s2.squads.len() && 0 <= j < k < s2.squads[i].members.len() implies
                s2.squads[i].members[j] != s2.squads[i].members[k] by {
                if i == iq {
                    if j == 0 {
                        assert(s2.squads[i].members[k] == s.squads[i].members[k - 1]);
                        assert(!s.squads[i].members.contains(mid));
                    } else {
                        assert(s2.squads[i].members[j] == s.squads[i].members[j - 1]);
                        assert(s2.squads[i].members[k] == s.squads[i].members[k - 1]);
                    }
                }
            }
        } else {
            assert(forall|k: int|
                0 <= k < s.squads.len() ==> #[trigger] s2.squads[k] == s.squads[k]);
            assert(s2.squads.last().members =~= seq![mid]);
            assert(s2.squads.last().id == squad_id);
            assert(forall|k: int| 0 <= k < s.squads.len() ==> #[trigger] s.squads[k].id != squad_id);
            assert forall|i: int, j: int|
                0 <= i < s2.squads.len() && 0 <= j < s2.squads[i].members.len() implies
                member_covered(s2, #[trigger] s2.squads[i].members[j]) by {
                if i == s.squads.len() {
                    assert(s2.squads[i].members[j] == mid);
                } else {
                    assert(s2.squads[i].members[j] == s.squads[i].members[j]);
                }
            }
        }
    }
}

pub open spec fn squads_v(v: Seq<SquadObj>) -> Seq<SquadObjV> {
    Seq::new(v.len(), |i: int| v[i]@)
}

pub open spec fn members_v(v: Seq<MemberObj>) -> Seq<MemberObjV> {
    Seq::new(v.len(), |i: int| v[i]@)
}

pub open spec fn prices_v(v: Seq<SymbolPrice>) -> Seq<PriceV> {
    Seq::new(v.len(), |i: int| v[i]@)
}

pub open spec fn lots_v(v: Seq<LotObj>) -> Seq<LotObjV> {
    Seq::new(v.len(), |i: int| v[i]@)
}

/// The single-writer state owner of one squad domain. Apply every mutation
/// through one `Chad` value, one command at a time.
#[derive(Debug)]
pub struct Chad {
    squads: Vec<SquadObj>,
    members: Vec<MemberObj>,
    prices: Vec<SymbolPrice>,
    lots: Vec<LotObj>,
}

/// A frozen, consistent view of the domain as of one point in time.
/// Later commands against the owning [`Chad`] do not change it.
#[derive(Debug)]
pub struct Snap {
    squads: Vec<SquadObj>,
    members: Vec<MemberObj>,
    prices: Vec<SymbolPrice>,
    lots: Vec<LotObj>,
}

impl View for Chad {
    type V = StoreV;

    closed spec fn view(&self) -> StoreV {
        StoreV {
            squads: squads_v(self.squads@),
            members: members_v(self.members@),
            prices: prices_v(self.prices@),
            lots: lots_v(self.lots@),
        }
    }
}

impl View for Snap {
    type V = StoreV;

    closed spec fn view(&self) -> StoreV {
        StoreV {
            squads: squads_v(self.squads@),
            members: members_v(self.members@),
            prices: prices_v(self.prices@),
            lots: lots_v(self.lots@),
        }
    }
}

/// The empty domain: no squads, members, prices or lots.
pub open spec fn empty_store() -> StoreV {
    StoreV { squads: seq![], members: seq![], prices: seq![], lots: seq![] }
}

fn pos_by_squad_id(v: &Vec<SquadObj>, id: u64) -> (r: Option<usize>)
    ensures
        match r {
            Some(i) => i < v@.len() && find_id(squad_ids(squads_v(v@)), id) == i as int,
            None => find_id(squad_ids(squads_v(v@)), id) == -1,
        },
{
    proof {
        lemma_find_id(squad_ids(squads_v(v@)), id);
        assert(forall|k: int|
            0 <= k < v@.len() ==> #[trigger] squad_ids(squads_v(v@))[k] == v@[k].id);
    }
    let mut i: usize = 0;
    while i < v.len()
        invariant
            0 <= i <= v@.len(),
            forall|k: int| 0 <= k < i ==> (#[trigger] v@[k]).id != id,
        decreases v@.len() - i,
    {
        if v[i].id == id {
            proof {
                lemma_find_id(squad_ids(squads_v(v@)), id);
                assert(forall|k: int|
                    0 <= k < v@.len() ==> #[trigger] squad_ids(squads_v(v@))[k] == v@[k].id);
                assert(squad_ids(squads_v(v@))[i as int] == id);
            }
            return Some(i);
        }
        i = i + 1;
    }
    proof {
        lemma_find_id(squad_ids(squads_v(v@)), id);
        assert(forall|k: int|
            0 <= k < v@.len() ==> #[trigger] squad_ids(squads_v(v@))[k] == v@[k].id);
        assert(forall|k: int| 0 <= k < v@.len() ==> #[trigger] squad_ids(squads_v(v@))[k] != id);
    }
    None
}

fn pos_by_member_id(v: &Vec<MemberObj>, id: u64) -> (r: Option<usize>)
    ensures
        match r {
            Some(i) => i < v@.len() && find_id(member_ids(members_v(v@)), id) == i as int,
            None => find_id(member_ids(members_v(v@)), id) == -1,
        },
{
    proof {
        lemma_find_id(member_ids(members_v(v@)), id);
        assert(forall|k: int|
            0 <= k < v@.len() ==> #[trigger] member_ids(members_v(v@))[k] == v@[k].id);
    }
    let mut i: usize = 0;
    while i < v.len()
        invariant
            0 <= i <= v@.len(),
            forall|k: int| 0 <= k < i ==> (#[trigger] v@[k]).id != id,
        decreases v@.len() - i,
    {
        if v[i].id == id {
            proof {
                lemma_find_id(member_ids(members_v(v@)), id);
                assert(forall|k: int|
                    0 <= k < v@.len() ==> #[trigger] member_ids(members_v(v@))[k] == v@[k].id);
                assert(member_ids(members_v(v@))[i as int] == id);
            }
            return Some(i);
        }
        i = i + 1;
    }
    proof {
        lemma_find_id(member_ids(members_v(v@)), id);
        assert(forall|k: int|
            0 <= k < v@.len() ==> #[trigger] member_ids(members_v(v@))[k] == v@[k].id);
        assert(forall|k: int| 0 <= k < v@.len() ==> #[trigger] member_ids(members_v(v@))[k] != id);
    }
    None
}

fn pos_by_lot_id(v: &Vec<LotObj>, id: u64) -> (r: Option<usize>)
    ensures
        match r {
            Some(i) => i < v@.len() && find_id(lot_ids(lots_v(v@)), id) == i as int,
            None => find_id(lot_ids(lots_v(v@)), id) == -1,
        },
{
    proof {
        lemma_find_id(lot_ids(lots_v(v@)), id);
        assert(forall|k: int|
            0 <= k < v@.len() ==> #[trigger] lot_ids(lots_v(v@))[k] == v@[k].id);
    }
    let mut i: usize = 0;
    while i < v.len()
        invariant
            0 <= i <= v@.len(),
            forall|k: int| 0 <= k < i ==> (#[trigger] v@[k]).id != id,
        decreases v@.len() - i,
    {
        if v[i].id == id {
            proof {
                lemma_find_id(lot_ids(lots_v(v@)), id);
                assert(forall|k: int|
                    0 <= k < v@.len() ==> #[trigger] lot_ids(lots_v(v@))[k] == v@[k].id);
                assert(lot_ids(lots_v(v@))[i as int] == id);
            }
            return Some(i);
        }
        i = i + 1;
    }
    proof {
        lemma_find_id(lot_ids(lots_v(v@)), id);
        assert(forall|k: int|
            0 <= k < v@.len() ==> #[trigger] lot_ids(lots_v(v@))[k] == v@[k].id);
        assert(forall|k: int| 0 <= k < v@.len() ==> #[trigger] lot_ids(lots_v(v@))[k] != id);
    }
    None
}

fn pos_by_symbol(v: &Vec<SymbolPrice>, sym: &String) -> (r: Option<usize>)
    ensures
        match r {
            Some(i) => i < v@.len() && find_sym(price_syms(prices_v(v@)), sym@) == i as int,
            None => find_sym(price_syms(prices_v(v@)), sym@) == -1,
        },
{
    proof {
        lemma_find_sym(price_syms(prices_v(v@)), sym@);
        assert(forall|k: int|
            0 <= k < v@.len() ==> #[trigger] price_syms(prices_v(v@))[k] == v@[k].symbol@);
    }
    let mut i: usize = 0;
    while i < v.len()
        invariant
            0 <= i <= v@.len(),
            forall|k: int| 0 <= k < i ==> (#[trigger] v@[k]).symbol@ != sym@,
        decreases v@.len() - i,
    {
        if v[i].symbol == *sym {
            proof {
                lemma_find_sym(price_syms(prices_v(v@)), sym@);
                assert(forall|k: int|
                    0 <= k < v@.len() ==> #[trigger] price_syms(prices_v(v@))[k] == v@[k].symbol@);
                assert(price_syms(prices_v(v@))[i as int] == sym@);
            }
            return Some(i);
        }
        i = i + 1;
    }
    proof {
        lemma_find_sym(price_syms(prices_v(v@)), sym@);
        assert(forall|k: int|
            0 <= k < v@.len() ==> #[trigger] price_syms(prices_v(v@))[k] == v@[k].symbol@);
        assert(forall|k: int| 0 <= k < v@.len() ==> #[trigger] price_syms(prices_v(v@))[k] != sym@);
    }
    None
}

impl Chad {
    /// A fresh, empty domain instance.
    pub fn new() -> (r: Chad)
        ensures
            r@ == empty_store(),
            store_wf(r@),
    {
        let r = Chad { squads: Vec::new(), members: Vec::new(), prices: Vec::new(), lots: Vec::new() };
        proof {
            assert(r@ =~~= empty_store());
        }
        r
    }

    /// Writes name and owner for the squad keyed `id`. Idempotent:
    /// re-adding overwrites the same properties.
    pub fn add_squad(&mut self, id: u64, name: &str, owner: u64)
        requires
            store_wf(old(self)@),
        ensures
            final(self)@ == spec_add_squad(old(self)@, id, name@, owner),
            store_wf(final(self)@),
    {
        proof {
            lemma_add_squad_wf(old(self)@, id, name@, owner);
        }
        match pos_by_squad_id(&self.squads, id) {
            Some(i) => {
                let obj = SquadObj {
                    id: self.squads[i].id,
                    name: Some(name.to_owned()),
                    owner: Some(owner),
                    members: self.squads[i].members.clone(),
                    unspent: self.squads[i].unspent,
                };
                let ghost prev = self@;
                self.squads.set(i, obj);
                proof {
                    assert(self@.squads =~= prev.squads.update(
                        i as int,
                        SquadObjV { name: Some(name@), owner: Some(owner), ..prev.squads[i as int] },
                    ));
                    assert(self@ =~~= spec_add_squad(prev, id, name@, owner));
                }
            },
            None => {
                let ghost prev = self@;
                self.squads.push(
                    SquadObj {
                        id,
                        name: Some(name.to_owned()),
                        owner: Some(owner),
                        members: Vec::new(),
                        unspent: Amount::zero(),
                    },
                );
                proof {
                    assert(self@.squads =~= prev.squads.push(
                        SquadObjV {
                            id,
                            name: Some(name@),
                            owner: Some(owner),
                            members: seq![],
                            unspent: 0,
                        },
                    ));
                    assert(self@ =~~= spec_add_squad(prev, id, name@, owner));
                }
            },
        }
    }

    /// Writes the squad's unspent cash, suppressing the write when the
    /// stored value already equals the new one.
    pub fn set_unspent(&mut self, squad_id: u64, unspent: Amount)
        requires
            store_wf(old(self)@),
        ensures
            final(self)@ == spec_set_unspent(old(self)@, squad_id, unspent.micros as int),
            store_wf(final(self)@),
    {
        proof {
            lemma_set_unspent_wf(old(self)@, squad_id, unspent.micros as int);
        }
        match pos_by_squad_id(&self.squads, squad_id) {
            Some(i) => {
                if self.squads[i].unspent.micros != unspent.micros {
                    let obj = SquadObj {
                        id: self.squads[i].id,
                        name: match &self.squads[i].name {
                            Some(n) => Some(n.clone()),
                            None => None,
                        },
                        owner: self.squads[i].owner,
                        members: self.squads[i].members.clone(),
                        unspent,
                    };
                    let ghost prev = self@;
                    self.squads.set(i, obj);
                    proof {
                        assert(self@.squads =~= prev.squads.update(
                            i as int,
                            SquadObjV { unspent: unspent.micros as int, ..prev.squads[i as int] },
                        ));
                        assert(self@ =~~= spec_set_unspent(prev, squad_id, unspent.micros as int));
                    }
                }
            },
            None => {
                if unspent.micros != 0 {
                    let ghost prev = self@;
                    self.squads.push(
                        SquadObj {
                            id: squad_id,
                            name: None,
                            owner: None,
                            members: Vec::new(),
                            unspent,
                        },
                    );
                    proof {
                        assert(self@.squads =~= prev.squads.push(
                            SquadObjV {
                                id: squad_id,
                                name: None,
                                owner: None,
                                members: seq![],
                                unspent: unspent.micros as int,
                            },
                        ));
                        assert(self@ =~~= spec_set_unspent(prev, squad_id, unspent.micros as int));
                    }
                }
            },
        }
    }

    /// Writes all four properties of the lot keyed `id`. Idempotent:
    /// re-adding overwrites.
    pub fn add_lot(&mut self, squad_id: u64, id: u64, symbol: &str, account: &str, shares: Amount)
        requires
            store_wf(old(self)@),
        ensures
            final(self)@ == spec_add_lot(
                old(self)@,
                squad_id,
                id,
                symbol@,
                shares.micros as int,
                account@,
            ),
            store_wf(final(self)@),
    {
        proof {
            lemma_add_lot_wf(old(self)@, squad_id, id, symbol@, shares.micros as int, account@);
        }
        let obj = LotObj {
            id,
            squad: squad_id,
            symbol: symbol.to_owned(),
            shares,
            account: account.to_owned(),
        };
        let ghost prev = self@;
        let ghost objv = LotObjV {
            id,
            squad: squad_id,
            symbol: symbol@,
            shares: shares.micros as int,
            account: account@,
        };
        match pos_by_lot_id(&self.lots, id) {
            Some(i) => {
                self.lots.set(i, obj);
                proof {
                    assert(self@.lots =~= prev.lots.update(i as int, objv));
                    assert(self@ =~~= spec_add_lot(
                        prev,
                        squad_id,
                        id,
                        symbol@,
                        shares.micros as int,
                        account@,
                    ));
                }
            },
            None => {
                self.lots.push(obj);
                proof {
                    assert(self@.lots =~= prev.lots.push(objv));
                    assert(self@ =~~= spec_add_lot(
                        prev,
                        squad_id,
                        id,
                        symbol@,
                        shares.micros as int,
                        account@,
                    ));
                }
            },
        }
    }

    /// Tombstones the lot keyed `lot_id`: its squad id becomes the sentinel
    /// `0`; all other lot properties stay.
    pub fn del_lot(&mut self, squad_id: u64, lot_id: u64)
        requires
            store_wf(old(self)@),
        ensures
            final(self)@ == spec_del_lot(old(self)@, lot_id),
            store_wf(final(self)@),
    {
        proof {
            lemma_del_lot_wf(old(self)@, lot_id);
        }
        let ghost prev = self@;
        match pos_by_lot_id(&self.lots, lot_id) {
            Some(i) => {
                let obj = LotObj {
                    id: self.lots[i].id,
                    squad: 0,
                    symbol: self.lots[i].symbol.clone(),
                    shares: self.lots[i].shares,
                    account: self.lots[i].account.clone(),
                };
                self.lots.set(i, obj);
                proof {
                    assert(self@.lots =~= prev.lots.update(
                        i as int,
                        LotObjV { squad: 0, ..prev.lots[i as int] },
                    ));
                    assert(self@ =~~= spec_del_lot(prev, lot_id));
                }
            },
            None => {
                self.lots.push(
                    LotObj {
                        id: lot_id,
                        squad: 0,
                        symbol: String::new(),
                        shares: Amount::zero(),
                        account: String::new(),
                    },
                );
                proof {
                    assert(self@.lots =~= prev.lots.push(
                        LotObjV { id: lot_id, squad: 0, symbol: seq![], shares: 0, account: seq![] },
                    ));
                    assert(self@ =~~= spec_del_lot(prev, lot_id));
                }
            },
        }
    }

    /// Adds the member derived from `(squad_id, symbol)`. A no-op when the
    /// squad already lists that member id; otherwise the symbol's price is
    /// written if it differs from the stored one, the member object is
    /// written, and the member id is prepended to the squad's list.
    pub fn add_member(&mut self, squad_id: u64, symbol: &str, price: Amount)
        requires
            store_wf(old(self)@),
        ensures
            final(self)@ == spec_add_member(old(self)@, squad_id, symbol@, price.micros as int),
            store_wf(final(self)@),
    {
        proof {
            lemma_add_member_wf(old(self)@, squad_id, symbol@, price.micros as int);
        }
        let ghost prev = self@;
        let mid = member_id(squad_id, symbol);
        let sym = symbol.to_owned();
        let squad_pos = pos_by_squad_id(&self.squads, squad_id);

        // Is the member already listed?
        let listed = match squad_pos {
            Some(i) => {
                let ms = &self.squads[i].members;
                let mut j: usize = 0;
                let mut found = false;
                while j < ms.len()
                    invariant
                        0 <= j <= ms@.len(),
                        found == exists|k: int| 0 <= k < j && ms@[k] == mid,
                    decreases ms@.len() - j,
                {
                    if ms[j] == mid {
                        found = true;
                    }
                    j = j + 1;
                }
                proof {
                    assert(found == prev.squads[i as int].members.contains(mid));
                }
                found
            },
            None => false,
        };
        proof {
            assert(listed == members_of(prev, squad_id).contains(mid));
        }
        if listed {
            return;
        }

        // Price: write only when it differs from the stored one.
        let price_pos = pos_by_symbol(&self.prices, &sym);
        let price_same = match price_pos {
            Some(k) => self.prices[k].price.micros == price.micros,
            None => false,
        };
        proof {
            assert(price_same == (price_of(prev, symbol@) == Some(price.micros as int)));
        }
        if !price_same {
            let entry = SymbolPrice { symbol: sym.clone(), price };
            match price_pos {
                Some(k) => {
                    self.prices.set(k, entry);
                    proof {
                        assert(self@.prices =~= upsert_price(
                            prev.prices,
                            symbol@,
                            price.micros as int,
                        ));
                    }
                },
                None => {
                    self.prices.push(entry);
                    proof {
                        assert(self@.prices =~= upsert_price(
                            prev.prices,
                            symbol@,
                            price.micros as int,
                        ));
                    }
                },
            }
        }

        // The member object.
        let mobj = MemberObj { id: mid, squad: squad_id, symbol: sym.clone() };
        match pos_by_member_id(&self.members, mid) {
            Some(k) => {
                self.members.set(k, mobj);
                proof {
                    assert(self@.members =~= upsert_member(prev.members, mid, squad_id, symbol@));
                }
            },
            None => {
                self.members.push(mobj);
                proof {
                    assert(self@.members =~= upsert_member(prev.members, mid, squad_id, symbol@));
                }
            },
        }

        // Prepend the member id to the squad's ordered list.
        match squad_pos {
            Some(i) => {
                let mut ms: Vec<u64> = self.squads[i].members.clone();
                ms.insert(0, mid);
                let obj = SquadObj {
                    id: self.squads[i].id,
                    name: match &self.squads[i].name {
                        Some(n) => Some(n.clone()),
                        None => None,
                    },
                    owner: self.squads[i].owner,
                    members: ms,
                    unspent: self.squads[i].unspent,
                };
                self.squads.set(i, obj);
                proof {
                    assert(prev.squads[i as int].members.insert(0, mid) =~= seq![mid]
                        + prev.squads[i as int].members);
                    assert(self@.squads =~= prepend_member(prev.squads, squad_id, mid));
                }
            },
            None => {
                let mut ms: Vec<u64> = Vec::new();
                ms.push(mid);
                self.squads.push(
                    SquadObj { id: squad_id, name: None, owner: None, members: ms, unspent: Amount::zero() },
                );
                proof {
                    assert(self@.squads =~= prepend_member(prev.squads, squad_id, mid));
                }
            },
        }
        proof {
            assert(self@ =~~= spec_add_member(prev, squad_id, symbol@, price.micros as int));
        }
    }

    /// Captures a frozen snapshot of the whole current state. Later
    /// commands do not affect the returned [`Snap`].
    pub fn snap(&self) -> (r: Snap)
        ensures
            r@ == self@,
    {
        let r = Snap {
            squads: self.squads.clone(),
            members: self.members.clone(),
            prices: self.prices.clone(),
            lots: self.lots.clone(),
        };
        proof {
            assert forall|k: int| 0 <= k < self.squads@.len() implies #[trigger] r.squads@[k]@
                == self.squads@[k]@ by {
                assert(cloned::<SquadObj>(self.squads@[k], r.squads@[k]));
            }
            assert forall|k: int| 0 <= k < self.members@.len() implies #[trigger] r.members@[k]@
                == self.members@[k]@ by {
                assert(cloned::<MemberObj>(self.members@[k], r.members@[k]));
            }
            assert forall|k: int| 0 <= k < self.prices@.len() implies #[trigger] r.prices@[k]@
                == self.prices@[k]@ by {
                assert(cloned::<SymbolPrice>(self.prices@[k], r.prices@[k]));
            }
            assert forall|k: int| 0 <= k < self.lots@.len() implies #[trigger] r.lots@[k]@
                == self.lots@[k]@ by {
                assert(cloned::<LotObj>(self.lots@[k], r.lots@[k]));
            }
            assert(r@ =~~= self@);
        }
        r
    }
}

/// Bytes below 128 read as characters.
pub open spec fn ascii_chars(bytes: Seq<u8>) -> Seq<char> {
    Seq::new(bytes.len(), |i: int| bytes[i] as char)
}

/// Relies on `String::from_utf8`: a vector of bytes below 128 is valid
/// UTF-8 and decodes to one character per byte, with the same code points.
#[verifier::external_body]
fn ascii_to_string(bytes: Vec<u8>) -> (r: String)
    requires
        forall|i: int| 0 <= i < bytes@.len() ==> bytes@[i] < 128,
    ensures
        r@ == ascii_chars(bytes@),
{
    match String::from_utf8(bytes) {
        Ok(s) => s,
        Err(_) => String::new(),
    }
}

/// The name a squad gets when none is stored: `Squad-` and its decimal id.
pub open spec fn default_name(id: u64) -> Seq<char> {
    ascii_chars(seq![83u8, 113u8, 117u8, 97u8, 100u8, 45u8] + crate::codec::spec_dec(id as nat))
}

/// The squad objects owned by `owner` among the first `t` store objects.
pub open spec fn owned_prefix(s: StoreV, owner: u64, t: int) -> Seq<SquadObjV> {
    s.squads.take(t).filter(|q: SquadObjV| q.owner == Some(owner))
}

/// The squad objects owned by `owner`, in store order.
pub open spec fn owned(s: StoreV, owner: u64) -> Seq<SquadObjV> {
    owned_prefix(s, owner, s.squads.len() as int)
}

/// The live lot objects of squad `id` among the first `t` lot objects.
pub open spec fn lots_prefix(s: StoreV, id: u64, t: int) -> Seq<LotObjV> {
    s.lots.take(t).filter(|l: LotObjV| l.squad == id)
}

/// The live lot objects of squad `id`, in store order. A tombstoned lot has
/// squad id `0` and so is excluded for every live squad.
pub open spec fn lots_of(s: StoreV, id: u64) -> Seq<LotObjV> {
    lots_prefix(s, id, s.lots.len() as int)
}

/// The materialized member and price entry for a listed member id: the
/// member object's squad and symbol, and the symbol's stored price.
pub open spec fn member_matches(s: StoreV, mid: u64, m: SquadMember, p: SymbolPrice) -> bool {
    let k = find_id(member_ids(s.members), mid);
    &&& k >= 0
    &&& m.squad_id == s.members[k].squad
    &&& m.symbol@ == s.members[k].symbol
    &&& price_of(s, s.members[k].symbol) == Some(m.price.micros as int)
    &&& p.symbol@ == m.symbol@
    &&& p.price == m.price
}

pub open spec fn lot_matches(lv: LotObjV, out: Lot) -> bool {
    &&& out.squad_id == lv.squad
    &&& out.id == lv.id
    &&& out.symbol@ == lv.symbol
    &&& out.account@ == lv.account
    &&& out.shares.micros == lv.shares
}

/// How one squad object materializes: stored name or the default, the
/// stored owner, members and a price entry per member in list order, the
/// live lots in store order, and the stored unspent cash.
pub open spec fn squad_matches(s: StoreV, q: SquadObjV, out: Squad) -> bool {
    &&& out.id == q.id
    &&& q.owner == Some(out.owner)
    &&& out.name@ == match q.name {
        Some(n) => n,
        None => default_name(q.id),
    }
    &&& out.unspent.micros == q.unspent
    &&& out.members@.len() == q.members.len()
    &&& out.prices@.len() == q.members.len()
    &&& forall|j: int|
        0 <= j < q.members.len() ==> member_matches(
            s,
            q.members[j],
            #[trigger] out.members@[j],
            out.prices@[j],
        )
    &&& out.lots@.len() == lots_of(s, q.id).len()
    &&& forall|j: int| 0 <= j < out.lots@.len() ==> lot_matches(lots_of(s, q.id)[j], #[trigger] out.lots@[j])
}

/// The synthesized name a squad gets when none is stored: `Squad-` and
/// the squad's decimal id.
pub fn default_squad_name(id: u64) -> (r: String)
    ensures
        r@ == default_name(id),
{
    let mut b: Vec<u8> = Vec::new();
    b.push(83);
    b.push(113);
    b.push(117);
    b.push(97);
    b.push(100);
    b.push(45);
    crate::codec::push_dec(id, &mut b);
    proof {
        crate::codec::lemma_dec_round_trip(id as nat);
        assert(b@ =~= seq![83u8, 113u8, 117u8, 97u8, 100u8, 45u8] + crate::codec::spec_dec(
            id as nat,
        ));
        assert(forall|k: int| 0 <= k < b@.len() ==> b@[k] < 128) by {
            assert(forall|k: int| 6 <= k < b@.len() ==> crate::codec::is_digit(#[trigger] b@[k]));
        }
    }
    ascii_to_string(b)
}

impl Snap {
    fn materialize_squad(&self, i: usize) -> (out: Squad)
        requires
            store_wf(self@),
            i < self@.squads.len(),
            self@.squads[i as int].owner is Some,
        ensures
            squad_matches(self@, self@.squads[i as int], out),
    {
        let sq = &self.squads[i];
        let ghost qv = self@.squads[i as int];
        let name: String = match &sq.name {
            Some(n) => n.clone(),
            None => default_squad_name(sq.id),
        };
        let owner = match sq.owner {
            Some(o) => o,
            None => vstd::pervasive::unreached(),
        };
        let mut members: Vec<SquadMember> = Vec::new();
        let mut prices: Vec<SymbolPrice> = Vec::new();
        let mut j: usize = 0;
        while j < sq.members.len()
            invariant
                store_wf(self@),
                i < self@.squads.len(),
                qv == self@.squads[i as int],
                sq == &self.squads@[i as int],
                sq.members@ == qv.members,
                0 <= j <= qv.members.len(),
                members@.len() == j,
                prices@.len() == j,
                forall|k: int|
                    0 <= k < j ==> member_matches(
                        self@,
                        qv.members[k],
                        #[trigger] members@[k],
                        prices@[k],
                    ),
            decreases qv.members.len() - j,
        {
            let mid = sq.members[j];
            proof {
                assert(self@.squads[i as int].members[j as int] == mid);
            }
            let k = match pos_by_member_id(&self.members, mid) {
                Some(k) => k,
                None => vstd::pervasive::unreached(),
            };
            let symbol = self.members[k].symbol.clone();
            let squad = self.members[k].squad;
            let price = match pos_by_symbol(&self.prices, &symbol) {
                Some(pk) => self.prices[pk].price,
                None => vstd::pervasive::unreached(),
            };
            members.push(SquadMember { squad_id: squad, symbol: symbol.clone(), price });
            prices.push(SymbolPrice { symbol, price });
            j = j + 1;
        }
        let mut lots: Vec<Lot> = Vec::new();
        let mut t: usize = 0;
        proof {
            reveal(Seq::filter);
            assert(self@.lots.take(0) =~= Seq::<LotObjV>::empty());
            assert(lots_prefix(self@, qv.id, 0).len() == 0);
        }
        while t < self.lots.len()
            invariant
                store_wf(self@),
                i < self@.squads.len(),
                qv == self@.squads[i as int],
                sq == &self.squads@[i as int],
                0 <= t <= self@.lots.len(),
                self@.lots.len() == self.lots@.len(),
                lots@.len() == lots_prefix(self@, qv.id, t as int).len(),
                forall|k: int|
                    0 <= k < lots@.len() ==> lot_matches(
                        lots_prefix(self@, qv.id, t as int)[k],
                        #[trigger] lots@[k],
                    ),
            decreases self@.lots.len() - t,
        {
            let ghost prev = self@.lots.take(t as int);
            let ghost cur = self@.lots.take(t as int + 1);
            proof {
                reveal(Seq::filter);
                assert(cur.drop_last() =~= prev);
                assert(cur.last() == self@.lots[t as int]);
            }
            let lo = &self.lots[t];
            if lo.squad == sq.id {
                lots.push(
                    Lot {
                        squad_id: lo.squad,
                        id: lo.id,
                        symbol: lo.symbol.clone(),
                        account: lo.account.clone(),
                        shares: lo.shares,
                    },
                );
                proof {
                    reveal(Seq::filter);
                    assert(lots_prefix(self@, qv.id, t as int + 1) =~= lots_prefix(
                        self@,
                        qv.id,
                        t as int,
                    ).push(self@.lots[t as int]));
                }
            } else {
                proof {
                    reveal(Seq::filter);
                    assert(lots_prefix(self@, qv.id, t as int + 1) =~= lots_prefix(
                        self@,
                        qv.id,
                        t as int,
                    ));
                }
            }
            t = t + 1;
        }
        proof {
            assert(self@.lots.take(t as int) =~= self@.lots);
            assert(lots_prefix(self@, qv.id, t as int) == lots_of(self@, qv.id));
        }
        Squad { id: sq.id, name, owner, members, lots, prices, unspent: sq.unspent }
    }

    /// Answers the one read query: every squad owned by `owner`, fully
    /// materialized from this frozen view, in store order.
    pub fn squads(&self, owner: u64) -> (r: Vec<Squad>)
        requires
            store_wf(self@),
        ensures
            r@.len() == owned(self@, owner).len(),
            forall|i: int|
                0 <= i < r@.len() ==> squad_matches(self@, owned(self@, owner)[i], #[trigger] r@[i]),
    {
        let mut r: Vec<Squad> = Vec::new();
        let mut i: usize = 0;
        proof {
            reveal(Seq::filter);
            assert(self@.squads.take(0) =~= Seq::<SquadObjV>::empty());
            assert(owned_prefix(self@, owner, 0).len() == 0);
        }
        while i < self.squads.len()
            invariant
                store_wf(self@),
                0 <= i <= self@.squads.len(),
                self@.squads.len() == self.squads@.len(),
                r@.len() == owned_prefix(self@, owner, i as int).len(),
                forall|k: int|
                    0 <= k < r@.len() ==> squad_matches(
                        self@,
                        owned_prefix(self@, owner, i as int)[k],
                        #[trigger] r@[k],
                    ),
            decreases self@.squads.len() - i,
        {
            let ghost prev = self@.squads.take(i as int);
            let ghost cur = self@.squads.take(i as int + 1);
            proof {
                reveal(Seq::filter);
                assert(cur.drop_last() =~= prev);
                assert(cur.last() == self@.squads[i as int]);
            }
            let is_owned = match self.squads[i].owner {
                Some(o) => o == owner,
                None => false,
            };
            if is_owned {
                let out = self.materialize_squad(i);
                r.push(out);
                proof {
                    reveal(Seq::filter);
                    assert(owned_prefix(self@, owner, i as int + 1) =~= owned_prefix(
                        self@,
                        owner,
                        i as int,
                    ).push(self@.squads[i as int]));
                }
            } else {
                proof {
                    reveal(Seq::filter);
                    assert(owned_prefix(self@, owner, i as int + 1) =~= owned_prefix(
                        self@,
                        owner,
                        i as int,
                    ));
                }
            }
            i = i + 1;
        }
        proof {
            assert(self@.squads.take(i as int) =~= self@.squads);
            assert(owned_prefix(self@, owner, i as int) == owned(self@, owner));
        }
        r
    }

    /// Looks one lot object up by key, tombstoned or not, as a direct store
    /// read would.
    pub fn lot(&self, lot_id: u64) -> (r: Option<Lot>)
        ensures
            match r {
                Some(out) => {
                    let i = find_id(lot_ids(self@.lots), lot_id);
                    i >= 0 && lot_matches(self@.lots[i], out)
                },
                None => find_id(lot_ids(self@.lots), lot_id) == -1,
            },
    {
        match pos_by_lot_id(&self.lots, lot_id) {
            Some(i) => {
                let lo = &self.lots[i];
                Some(
                    Lot {
                        squad_id: lo.squad,
                        id: lo.id,
                        symbol: lo.symbol.clone(),
                        account: lo.account.clone(),
                        shares: lo.shares,
                    },
                )
            },
            None => None,
        }
    }

    /// The squad's members property as the store encodes it: the ordered
    /// member ids as a colon-delimited decimal sequence; absent when the
    /// squad has no member list.
    pub fn members_property(&self, squad_id: u64) -> (r: Option<Vec<u8>>)
        ensures
            match r {
                Some(bytes) => members_of(self@, squad_id).len() > 0 && bytes@
                    == crate::codec::spec_members_enc(members_of(self@, squad_id)),
                None => members_of(self@, squad_id).len() == 0,
            },
    {
        match pos_by_squad_id(&self.squads, squad_id) {
            Some(i) => {
                if self.squads[i].members.len() == 0 {
                    None
                } else {
                    Some(crate::codec::encode_member_ids(&self.squads[i].members))
                }
            },
            None => None,
        }
    }

    /// The stored unspent cash of a squad; zero when absent.
    pub fn unspent(&self, squad_id: u64) -> (r: Amount)
        ensures
            r.micros as int == unspent_of(self@, squad_id),
    {
        match pos_by_squad_id(&self.squads, squad_id) {
            Some(i) => self.squads[i].unspent,
            None => Amount::zero(),
        }
    }
}

/// After an add of `(squad_id, sym)` on a squad that does not list the
/// derived member id, the squad's member order is that id followed by the
/// old order.
pub proof fn lemma_members_after_add(s: StoreV, squad_id: u64, sym: Seq<char>, price: int)
    requires
        !members_of(s, squad_id).contains(spec_member_id(squad_id, sym)),
    ensures
        members_of(spec_add_member(s, squad_id, sym, price), squad_id) == seq![
            spec_member_id(squad_id, sym),
        ] + members_of(s, squad_id),
{
    let mid = spec_member_id(squad_id, sym);
    let s2 = spec_add_member(s, squad_id, sym, price);
    let iq = find_id(squad_ids(s.squads), squad_id);
    lemma_find_id(squad_ids(s.squads), squad_id);
    lemma_find_id(squad_ids(s2.squads), squad_id);
    if iq >= 0 {
        assert(squad_ids(s2.squads) =~= squad_ids(s.squads));
        assert(members_of(s2, squad_id) == seq![mid] + s.squads[iq].members);
    } else {
        assert(forall|k: int|
            0 <= k < s.squads.len() ==> #[trigger] squad_ids(s2.squads)[k] == squad_ids(
                s.squads,
            )[k]);
        assert(squad_ids(s2.squads).last() == squad_id);
        let i2 = find_id(squad_ids(s2.squads), squad_id);
        assert(i2 == s.squads.len());
        assert(members_of(s2, squad_id) =~= seq![mid] + members_of(s, squad_id));
    }
}

/// Idempotent member add: adding the same `(squad_id, symbol, price)` twice
/// leaves exactly the state of adding it once, and the squad then lists the
/// derived member id (exactly once, by [`store_wf`]'s duplicate-freedom).
pub proof fn lemma_add_member_idempotent(s: StoreV, squad_id: u64, sym: Seq<char>, price: int)
    ensures
        ({
            let s1 = spec_add_member(s, squad_id, sym, price);
            &&& members_of(s1, squad_id).contains(spec_member_id(squad_id, sym))
            &&& spec_add_member(s1, squad_id, sym, price) == s1
        }),
{
    let mid = spec_member_id(squad_id, sym);
    let s1 = spec_add_member(s, squad_id, sym, price);
    if members_of(s, squad_id).contains(mid) {
        assert(s1 == s);
    } else {
        lemma_members_after_add(s, squad_id, sym, price);
        assert(members_of(s1, squad_id)[0] == mid);
    }
}

/// Recency ordering: after adding member A and then member B (both new,
/// with distinct derived ids), the member order is B first, then A, then
/// the old order — the newest member is at rank 1.
pub proof fn lemma_recency_order(
    s: StoreV,
    squad_id: u64,
    sym_a: Seq<char>,
    price_a: int,
    sym_b: Seq<char>,
    price_b: int,
)
    requires
        !members_of(s, squad_id).contains(spec_member_id(squad_id, sym_a)),
        !members_of(s, squad_id).contains(spec_member_id(squad_id, sym_b)),
        spec_member_id(squad_id, sym_a) != spec_member_id(squad_id, sym_b),
    ensures
        ({
            let s2 = spec_add_member(
                spec_add_member(s, squad_id, sym_a, price_a),
                squad_id,
                sym_b,
                price_b,
            );
            members_of(s2, squad_id) == seq![
                spec_member_id(squad_id, sym_b),
                spec_member_id(squad_id, sym_a),
            ] + members_of(s, squad_id)
        }),
{
    let mid_a = spec_member_id(squad_id, sym_a);
    let mid_b = spec_member_id(squad_id, sym_b);
    let s1 = spec_add_member(s, squad_id, sym_a, price_a);
    lemma_members_after_add(s, squad_id, sym_a, price_a);
    assert(!members_of(s1, squad_id).contains(mid_b)) by {
        if members_of(s1, squad_id).contains(mid_b) {
            let k = choose|k: int|
                0 <= k < members_of(s1, squad_id).len() && members_of(s1, squad_id)[k] == mid_b;
            assert(k > 0);
            assert(members_of(s, squad_id)[k - 1] == mid_b);
        }
    }
    lemma_members_after_add(s1, squad_id, sym_b, price_b);
    assert(members_of(
        spec_add_member(s1, squad_id, sym_b, price_b),
        squad_id,
    ) =~= seq![mid_b, mid_a] + members_of(s, squad_id));
}

/// Re-adding a squad overwrites the same name and owner: adding twice
/// leaves exactly the state of adding once.
pub proof fn lemma_add_squad_idempotent(s: StoreV, id: u64, name: Seq<char>, owner: u64)
    ensures
        spec_add_squad(spec_add_squad(s, id, name, owner), id, name, owner) == spec_add_squad(
            s,
            id,
            name,
            owner,
        ),
{
    let s1 = spec_add_squad(s, id, name, owner);
    let i = find_id(squad_ids(s.squads), id);
    lemma_find_id(squad_ids(s.squads), id);
    lemma_find_id(squad_ids(s1.squads), id);
    if i >= 0 {
        assert(squad_ids(s1.squads) =~= squad_ids(s.squads));
        assert(s1.squads.update(i, SquadObjV { name: Some(name), owner: Some(owner), ..s1.squads[i] })
            =~= s1.squads);
    } else {
        assert(forall|k: int|
            0 <= k < s.squads.len() ==> #[trigger] squad_ids(s1.squads)[k] == squad_ids(
                s.squads,
            )[k]);
        assert(squad_ids(s1.squads).last() == id);
        let i1 = find_id(squad_ids(s1.squads), id);
        assert(i1 == s.squads.len());
        assert(s1.squads.update(
            i1,
            SquadObjV { name: Some(name), owner: Some(owner), ..s1.squads[i1] },
        ) =~= s1.squads);
    }
    assert(spec_add_squad(s1, id, name, owner) =~~= s1);
}

/// Re-adding a lot overwrites the same four properties: adding twice
/// leaves exactly the state of adding once.
pub proof fn lemma_add_lot_idempotent(
    s: StoreV,
    squad_id: u64,
    id: u64,
    sym: Seq<char>,
    shares: int,
    account: Seq<char>,
)
    ensures
        spec_add_lot(
            spec_add_lot(s, squad_id, id, sym, shares, account),
            squad_id,
            id,
            sym,
            shares,
            account,
        ) == spec_add_lot(s, squad_id, id, sym, shares, account),
{
    let s1 = spec_add_lot(s, squad_id, id, sym, shares, account);
    let obj = LotObjV { id, squad: squad_id, symbol: sym, shares, account };
    let i = find_id(lot_ids(s.lots), id);
    lemma_find_id(lot_ids(s.lots), id);
    lemma_find_id(lot_ids(s1.lots), id);
    if i >= 0 {
        assert(lot_ids(s1.lots) =~= lot_ids(s.lots));
        assert(s1.lots.update(i, obj) =~= s1.lots);
    } else {
        assert(forall|k: int|
            0 <= k < s.lots.len() ==> #[trigger] lot_ids(s1.lots)[k] == lot_ids(s.lots)[k]);
        assert(lot_ids(s1.lots).last() == id);
        let i1 = find_id(lot_ids(s1.lots), id);
        assert(i1 == s.lots.len());
        assert(s1.lots.update(i1, obj) =~= s1.lots);
    }
    assert(spec_add_lot(s1, squad_id, id, sym, shares, account) =~~= s1);
}

/// Write suppression: setting the same unspent value twice produces
/// exactly the state of setting it once — the second write is suppressed.
pub proof fn lemma_set_unspent_idempotent(s: StoreV, squad_id: u64, v: int)
    ensures
        ({
            let s1 = spec_set_unspent(s, squad_id, v);
            &&& unspent_of(s1, squad_id) == v
            &&& spec_set_unspent(s1, squad_id, v) == s1
        }),
{
    let s1 = spec_set_unspent(s, squad_id, v);
    let i = find_id(squad_ids(s.squads), squad_id);
    lemma_find_id(squad_ids(s.squads), squad_id);
    lemma_find_id(squad_ids(s1.squads), squad_id);
    if unspent_of(s, squad_id) != v {
        if i >= 0 {
            assert(squad_ids(s1.squads) =~= squad_ids(s.squads));
        } else {
            assert(forall|k: int|
                0 <= k < s.squads.len() ==> #[trigger] squad_ids(s1.squads)[k] == squad_ids(
                    s.squads,
                )[k]);
            assert(squad_ids(s1.squads).last() == squad_id);
        }
    }
}

/// Every element a filter keeps comes from the underlying sequence.
pub proof fn lemma_filter_elem<A>(s: Seq<A>, pred: spec_fn(A) -> bool, k: int)
    requires
        0 <= k < s.filter(pred).len(),
    ensures
        exists|j: int| 0 <= j < s.len() && s[j] == #[trigger] s.filter(pred)[k],
    decreases s.len(),
{
    reveal(Seq::filter);
    if s.len() > 0 {
        let fd = s.drop_last().filter(pred);
        if k < fd.len() {
            lemma_filter_elem(s.drop_last(), pred, k);
            let j = choose|j: int| 0 <= j < s.drop_last().len() && s.drop_last()[j] == fd[k];
            assert(s[j] == s.filter(pred)[k]);
        } else {
            assert(s[s.len() - 1] == s.filter(pred)[k]);
        }
    }
}

/// Tombstone exclusion: after `DelLot`, the lot is absent from every live
/// squad's lot scan, while a direct store lookup by its key still returns
/// an object whose squad id is the sentinel `0`.
pub proof fn lemma_tombstone_exclusion(s: StoreV, lot_id: u64, squad_id: u64)
    requires
        store_wf(s),
        squad_id != 0,
    ensures
        ({
            let s2 = spec_del_lot(s, lot_id);
            &&& forall|k: int|
                0 <= k < lots_of(s2, squad_id).len() ==> (#[trigger] lots_of(s2, squad_id)[k]).id
                    != lot_id
            &&& find_id(lot_ids(s2.lots), lot_id) >= 0
            &&& s2.lots[find_id(lot_ids(s2.lots), lot_id)].squad == 0
        }),
{
    let s2 = spec_del_lot(s, lot_id);
    let i = find_id(lot_ids(s.lots), lot_id);
    lemma_find_id(lot_ids(s.lots), lot_id);
    lemma_find_id(lot_ids(s2.lots), lot_id);
    lemma_del_lot_wf(s, lot_id);
    let i2 = find_id(lot_ids(s2.lots), lot_id);
    if i >= 0 {
        assert(lot_ids(s2.lots) =~= lot_ids(s.lots));
        assert(i2 == i);
        assert(s2.lots[i2].squad == 0);
    } else {
        assert(forall|k: int|
            0 <= k < s.lots.len() ==> #[trigger] lot_ids(s2.lots)[k] == lot_ids(s.lots)[k]);
        assert(lot_ids(s2.lots).last() == lot_id);
        assert(i2 == s.lots.len());
        assert(s2.lots[i2].squad == 0);
    }
    assert forall|k: int|
        0 <= k < lots_of(s2, squad_id).len() implies (#[trigger] lots_of(s2, squad_id)[k]).id
        != lot_id by {
        let pred = |l: LotObjV| l.squad == squad_id;
        assert(s2.lots.take(s2.lots.len() as int) =~= s2.lots);
        s2.lots.lemma_filter_pred(pred, k);
        if lots_of(s2, squad_id)[k].id == lot_id {
            lemma_filter_elem(s2.lots, pred, k);
            let j = choose|j: int| 0 <= j < s2.lots.len() && s2.lots[j] == lots_of(s2, squad_id)[k];
            assert(lot_ids(s2.lots)[j] == lot_id);
            assert(lot_ids(s2.lots)[i2] == lot_id);
            assert(j == i2);
        }
    }
}

} // verus!

