use chad_core::amount::Amount;
use chad_core::chad::Chad;
use chad_core::fraction::Fraction;
use chad_core::model::{Lot, SquadMember};

const OWNER: u64 = 1000;
const SQUAD_ID: u64 = 2000;
const SQUAD_NAME: &str = "Blue";
const SYMBOL1: &str = "KO";
const SYMBOL2: &str = "PEP";
const LOT_ID1: u64 = 3000;
const LOT_ID2: u64 = 3001;
const ACCOUNT1: &str = "main";

fn units(n: i64) -> Amount {
    Amount::from_units(n)
}

fn assert_value(f: Fraction, num: i128, den: i128) {
    assert!(f.den > 0 && den > 0);
    assert_eq!(f.num * den, num * f.den, "{}/{} != {}/{}", f.num, f.den, num, den);
}

#[test]
fn set_unspent_updates_squad() {
    let mut chad = Chad::new();
    chad.add_squad(SQUAD_ID, SQUAD_NAME, OWNER);
    chad.set_unspent(SQUAD_ID, units(100));
    let squads = chad.snap().squads(OWNER);
    let squad = squads.first().expect("First squad");
    assert_eq!(units(100), squad.unspent);
}

#[test]
fn add_squad_produces_a_squad_in_next_snap() {
    let mut chad = Chad::new();
    chad.add_squad(SQUAD_ID, SQUAD_NAME, OWNER);
    let squads = chad.snap().squads(OWNER);
    let squad = squads.first().expect("First squad");
    assert_eq!(SQUAD_ID, squad.id);
    assert_eq!(SQUAD_NAME, squad.name);
    assert_eq!(OWNER, squad.owner);
    assert!(squad.members.is_empty());
}

#[test]
fn add_member_adds_member_to_squad_and_sets_price_at_symbol() {
    let mut chad = Chad::new();
    chad.add_squad(SQUAD_ID, SQUAD_NAME, OWNER);
    chad.add_member(SQUAD_ID, SYMBOL1, units(5));
    let squads = chad.snap().squads(OWNER);
    let squad = squads.first().expect("First squad");
    let member = squad.members.first().expect("First member");
    assert_eq!(
        &SquadMember { squad_id: SQUAD_ID, symbol: SYMBOL1.to_string(), price: units(5) },
        member
    );
    assert_eq!(units(5), squad.price_for(SYMBOL1).expect("price"));
}

#[test]
fn add_member_places_new_member_at_index_0() {
    let mut chad = Chad::new();
    chad.add_squad(SQUAD_ID, SQUAD_NAME, OWNER);
    chad.add_member(SQUAD_ID, SYMBOL1, units(5));
    chad.add_member(SQUAD_ID, SYMBOL2, units(5));
    let squads = chad.snap().squads(OWNER);
    let squad = squads.first().expect("First squad");
    let symbols = squad.members.iter().map(|it| it.symbol.to_owned()).collect::<Vec<_>>();
    assert_eq!(vec![SYMBOL2.to_string(), SYMBOL1.to_string()], symbols);
}

#[test]
fn add_lot_registers_a_lot() {
    let mut chad = Chad::new();
    chad.add_squad(SQUAD_ID, SQUAD_NAME, OWNER);
    chad.add_member(SQUAD_ID, SYMBOL1, units(5));
    chad.add_lot(SQUAD_ID, LOT_ID1, SYMBOL1, ACCOUNT1, units(10));
    let squads = chad.snap().squads(OWNER);
    let squad = squads.first().expect("First squad");
    let lot = squad.lots.first().expect("First lot");
    assert_eq!(
        &Lot {
            squad_id: SQUAD_ID,
            id: LOT_ID1,
            symbol: SYMBOL1.to_string(),
            account: ACCOUNT1.to_string(),
            shares: units(10),
        },
        lot
    );
}

#[test]
fn squad_shares_match_inputs() {
    let mut chad = Chad::new();
    chad.add_squad(SQUAD_ID, SQUAD_NAME, OWNER);
    chad.add_member(SQUAD_ID, SYMBOL1, units(5));
    chad.add_lot(SQUAD_ID, LOT_ID1, SYMBOL1, ACCOUNT1, units(10));
    let squads = chad.snap().squads(OWNER);
    let squad = squads.first().expect("First squad");
    let shares = squad.symbol_shares();
    let entry = shares.iter().find(|it| it.symbol == SYMBOL1).expect("KO entry");
    assert_eq!(units(10), entry.shares);
}

#[test]
fn squad_produces_drift_reports() {
    let mut chad = Chad::new();
    chad.add_squad(SQUAD_ID, SQUAD_NAME, OWNER);
    chad.add_member(SQUAD_ID, SYMBOL1, units(1));
    chad.add_lot(SQUAD_ID, LOT_ID1, SYMBOL1, ACCOUNT1, units(3));
    chad.add_member(SQUAD_ID, SYMBOL2, units(1));
    chad.add_lot(SQUAD_ID, LOT_ID2, SYMBOL2, ACCOUNT1, units(2));
    let squads = chad.snap().squads(OWNER);
    let squad = squads.first().expect("First squad");
    let reports = squad.drift_reports();
    assert_eq!(2, reports.len());

    // Rank 1: the most recently added member, PEP.
    assert_eq!(
        SquadMember { squad_id: SQUAD_ID, symbol: SYMBOL2.to_string(), price: units(1) },
        reports[0].member
    );
    assert_eq!(1, reports[0].rank);
    assert_value(reports[0].market_value, 2, 1);
    assert_value(reports[0].target_portion, 1, 5);
    assert_value(reports[0].target_value, 1, 1);
    assert_value(reports[0].drift_amount(), 1, 1);
    assert_value(reports[0].drift_shares().expect("positive price"), 1, 1);

    // Rank 2: KO.
    assert_eq!(
        SquadMember { squad_id: SQUAD_ID, symbol: SYMBOL1.to_string(), price: units(1) },
        reports[1].member
    );
    assert_eq!(2, reports[1].rank);
    assert_value(reports[1].market_value, 3, 1);
    assert_value(reports[1].target_portion, 4, 5);
    assert_value(reports[1].target_value, 4, 1);
    assert_value(reports[1].drift_amount(), -1, 1);
    assert_value(reports[1].drift_shares().expect("positive price"), -1, 1);
}
