use chad_core::amount::Amount;
use chad_core::chad::{default_squad_name, member_id, Chad};
use chad_core::codec::{
    encode_amount, encode_member_ids, encode_u64, parse_amount, parse_member_ids, parse_u64,
};
use chad_core::fraction::Fraction;
use chad_core::model::DriftReport;
use chad_core::model::SquadMember;
use chad_core::segment_type::SegmentType;

const OWNER: u64 = 1000;
const SQUAD_ID: u64 = 2000;

fn units(n: i64) -> Amount {
    Amount::from_units(n)
}

fn assert_value(f: Fraction, num: i128, den: i128) {
    assert!(f.den > 0 && den > 0);
    assert_eq!(f.num * den, num * f.den, "{}/{} != {}/{}", f.num, f.den, num, den);
}

#[test]
fn adding_a_member_twice_keeps_one_member() {
    let mut chad = Chad::new();
    chad.add_squad(SQUAD_ID, "Blue", OWNER);
    chad.add_member(SQUAD_ID, "KO", units(5));
    chad.add_member(SQUAD_ID, "KO", units(5));
    let squads = chad.snap().squads(OWNER);
    assert_eq!(1, squads[0].members.len());
    assert_eq!("KO", squads[0].members[0].symbol);
}

#[test]
fn setting_the_same_unspent_twice_changes_nothing() {
    let mut once = Chad::new();
    once.add_squad(SQUAD_ID, "Blue", OWNER);
    once.set_unspent(SQUAD_ID, units(7));
    let mut twice = Chad::new();
    twice.add_squad(SQUAD_ID, "Blue", OWNER);
    twice.set_unspent(SQUAD_ID, units(7));
    twice.set_unspent(SQUAD_ID, units(7));
    let a = once.snap().squads(OWNER);
    let b = twice.snap().squads(OWNER);
    assert_eq!(a[0].unspent, b[0].unspent);
    assert_eq!(units(7), b[0].unspent);
    assert_eq!(units(7), twice.snap().unspent(SQUAD_ID));
    assert_eq!(units(0), twice.snap().unspent(SQUAD_ID + 1));
}

#[test]
fn shares_aggregate_per_symbol_across_lots() {
    let mut chad = Chad::new();
    chad.add_squad(SQUAD_ID, "Blue", OWNER);
    chad.add_member(SQUAD_ID, "KO", units(5));
    chad.add_lot(SQUAD_ID, 1, "KO", "main", units(3));
    chad.add_lot(SQUAD_ID, 2, "KO", "other", units(4));
    chad.add_lot(SQUAD_ID, 3, "PEP", "main", units(9));
    let squads = chad.snap().squads(OWNER);
    let shares = squads[0].symbol_shares();
    let ko = shares.iter().find(|e| e.symbol == "KO").expect("KO");
    let pep = shares.iter().find(|e| e.symbol == "PEP").expect("PEP");
    assert_eq!(units(7), ko.shares);
    assert_eq!(units(9), pep.shares);
}

#[test]
fn target_values_sum_to_market_plus_unspent() {
    let mut chad = Chad::new();
    chad.add_squad(SQUAD_ID, "Blue", OWNER);
    chad.add_member(SQUAD_ID, "KO", units(5));
    chad.add_member(SQUAD_ID, "PEP", units(5));
    chad.add_lot(SQUAD_ID, 1, "KO", "main", units(3));
    chad.add_lot(SQUAD_ID, 2, "PEP", "main", units(2));
    chad.set_unspent(SQUAD_ID, units(15));
    let squads = chad.snap().squads(OWNER);
    let reports = squads[0].drift_reports();

    // All target values share one denominator; sum the numerators.
    let den = reports[0].target_value.den;
    let mut target_sum: i128 = 0;
    let mut market_sum: i128 = 0;
    for r in &reports {
        assert_eq!(den, r.target_value.den);
        target_sum += r.target_value.num;
        market_sum += r.market_value.num * (den / r.market_value.den);
        // Drift identity per member: drift == market - target.
        let d = r.drift_amount();
        assert_eq!(d.num, r.market_value.num * r.target_portion.den - r.target_value.num);
    }
    let unspent_scaled = (units(15).micros() as i128) * (den / 1_000_000);
    assert_eq!(target_sum, market_sum + unspent_scaled);
}

#[test]
fn deleted_lot_disappears_from_snapshots_but_not_the_store() {
    let mut chad = Chad::new();
    chad.add_squad(SQUAD_ID, "Blue", OWNER);
    chad.add_member(SQUAD_ID, "KO", units(5));
    chad.add_lot(SQUAD_ID, 77, "KO", "main", units(3));
    chad.del_lot(SQUAD_ID, 77);
    let snap = chad.snap();
    let squads = snap.squads(OWNER);
    assert!(squads[0].lots.is_empty());
    let raw = snap.lot(77).expect("lot record still addressable");
    assert_eq!(0, raw.squad_id);
    assert_eq!("KO", raw.symbol);
    assert_eq!(units(3), raw.shares);
}

#[test]
fn snapshots_are_isolated_from_later_writes() {
    let mut chad = Chad::new();
    chad.add_squad(SQUAD_ID, "Blue", OWNER);
    chad.add_member(SQUAD_ID, "KO", units(5));
    let before = chad.snap();
    chad.add_member(SQUAD_ID, "PEP", units(5));
    let after = chad.snap();
    let old_view = before.squads(OWNER);
    let new_view = after.squads(OWNER);
    let old_symbols = old_view[0].members.iter().map(|m| m.symbol.clone()).collect::<Vec<_>>();
    let new_symbols = new_view[0].members.iter().map(|m| m.symbol.clone()).collect::<Vec<_>>();
    assert_eq!(vec!["KO".to_string()], old_symbols);
    assert_eq!(vec!["PEP".to_string(), "KO".to_string()], new_symbols);
}

#[test]
fn blue_squad_scenario_produces_ranked_reports() {
    let mut chad = Chad::new();
    chad.add_squad(2000, "Blue", 1000);
    chad.add_member(2000, "KO", units(5));
    chad.add_member(2000, "PEP", units(5));
    chad.add_lot(2000, 3000, "KO", "main", units(3));
    chad.add_lot(2000, 3001, "PEP", "main", units(2));
    let squads = chad.snap().squads(1000);
    let reports = squads[0].drift_reports();
    assert_eq!(2, reports.len());
    // Rank 1 is the most recent member, PEP: weight 1*1 of 5.
    assert_eq!("PEP", reports[0].symbol());
    assert_eq!(1, reports[0].rank);
    assert_value(reports[0].target_portion, 1, 5);
    assert_value(reports[0].market_value, 10, 1);
    assert_value(reports[0].target_value, 5, 1);
    assert_value(reports[0].drift_amount(), 5, 1);
    // Rank 2, KO: weight 2*2 of 5.
    assert_eq!("KO", reports[1].symbol());
    assert_eq!(2, reports[1].rank);
    assert_value(reports[1].target_portion, 4, 5);
    assert_value(reports[1].market_value, 15, 1);
    assert_value(reports[1].target_value, 20, 1);
    assert_value(reports[1].drift_amount(), -5, 1);
    assert_value(reports[1].drift_shares().expect("positive price"), -1, 1);
}

#[test]
fn an_empty_pool_yields_zero_targets() {
    let mut chad = Chad::new();
    chad.add_squad(SQUAD_ID, "Blue", OWNER);
    chad.add_member(SQUAD_ID, "KO", units(5));
    let squads = chad.snap().squads(OWNER);
    let reports = squads[0].drift_reports();
    assert_eq!(1, reports.len());
    // No lots and no cash: market value and target value are both zero.
    assert_eq!(0, reports[0].market_value.num);
    assert_eq!(0, reports[0].target_value.num);
    assert_eq!(0, reports[0].drift_amount().num);
}

#[test]
fn drift_shares_is_undefined_for_nonpositive_prices() {
    let report = DriftReport {
        member: SquadMember { squad_id: 1, symbol: "X".to_string(), price: units(0) },
        rank: 1,
        market_value: Fraction::new(0, 1_000_000_000_000),
        target_portion: Fraction::new(1, 1),
        target_value: Fraction::new(0, 1_000_000_000_000),
    };
    assert!(report.drift_shares().is_none());
}

#[test]
fn querying_an_empty_domain_returns_no_squads() {
    let chad = Chad::new();
    assert!(chad.snap().squads(OWNER).is_empty());
}

#[test]
fn squads_without_a_stored_name_get_a_synthesized_one() {
    assert_eq!("Squad-2000", default_squad_name(2000));
    assert_eq!("Squad-0", default_squad_name(0));
}

#[test]
fn the_members_property_is_a_colon_delimited_id_list() {
    let mut chad = Chad::new();
    chad.add_squad(SQUAD_ID, "Blue", OWNER);
    assert_eq!(None, chad.snap().members_property(SQUAD_ID));
    chad.add_member(SQUAD_ID, "KO", units(5));
    chad.add_member(SQUAD_ID, "PEP", units(5));
    let bytes = chad.snap().members_property(SQUAD_ID).expect("members property");
    let ids = parse_member_ids(&bytes).expect("well-formed id list");
    assert_eq!(vec![member_id(SQUAD_ID, "PEP"), member_id(SQUAD_ID, "KO")], ids);
}

#[test]
fn member_ids_are_reproducible_and_distinguish_inputs() {
    let a = member_id(SQUAD_ID, "KO");
    let b = member_id(SQUAD_ID, "KO");
    assert_eq!(a, b);
    assert_ne!(member_id(SQUAD_ID, "KO"), member_id(SQUAD_ID, "PEP"));
    assert_ne!(member_id(SQUAD_ID, "KO"), member_id(SQUAD_ID + 1, "KO"));
}

#[test]
fn decimal_ids_round_trip() {
    assert_eq!(b"0".to_vec(), encode_u64(0));
    assert_eq!(b"2000".to_vec(), encode_u64(2000));
    assert_eq!(b"18446744073709551615".to_vec(), encode_u64(u64::MAX));
    assert_eq!(Some(2000), parse_u64(&encode_u64(2000)));
    assert_eq!(Some(u64::MAX), parse_u64(&encode_u64(u64::MAX)));
    assert_eq!(None, parse_u64(b""));
    assert_eq!(None, parse_u64(b"12x"));
    assert_eq!(None, parse_u64(b"18446744073709551616"));
}

#[test]
fn member_id_lists_round_trip() {
    let ids: Vec<u64> = vec![7, 2000, 3];
    let encoded = encode_member_ids(&ids);
    assert_eq!(b"7:2000:3".to_vec(), encoded);
    assert_eq!(Some(ids), parse_member_ids(&encoded));
    assert_eq!(Some(vec![42u64]), parse_member_ids(b"42"));
    assert_eq!(None, parse_member_ids(b""));
    assert_eq!(None, parse_member_ids(b"1::2"));
    assert_eq!(None, parse_member_ids(b"1:2:"));
}

#[test]
fn amounts_encode_as_decimal_text() {
    assert_eq!(b"5".to_vec(), encode_amount(units(5)));
    assert_eq!(b"0".to_vec(), encode_amount(units(0)));
    assert_eq!(b"0.598", encode_amount(Amount::from_micros(598_000)).as_slice());
    assert_eq!(b"-3.25", encode_amount(Amount::from_micros(-3_250_000)).as_slice());
    assert_eq!(b"0.000001", encode_amount(Amount::from_micros(1)).as_slice());
    assert_eq!(b"-0.000001", encode_amount(Amount::from_micros(-1)).as_slice());
}

#[test]
fn amounts_round_trip_through_the_codec() {
    for m in [
        0i64,
        1,
        -1,
        5_000_000,
        598_000,
        -3_250_000,
        i64::MAX,
        i64::MIN,
        i64::MIN + 1,
        123_456_789,
    ] {
        let a = Amount::from_micros(m);
        let parsed = parse_amount(&encode_amount(a)).expect("round trip");
        assert_eq!(a, parsed);
    }
    assert_eq!(None, parse_amount(b""));
    assert_eq!(None, parse_amount(b"-"));
    assert_eq!(None, parse_amount(b"1.2345678"));
    assert_eq!(None, parse_amount(b"1..2"));
    assert_eq!(None, parse_amount(b"x"));
    assert_eq!(Some(Amount::from_micros(1_250_000)), parse_amount(b"1.25"));
    assert_eq!(Some(Amount::from_micros(-42_000_000)), parse_amount(b"-42"));
}

#[test]
fn fractions_subtract_and_divide_exactly() {
    let market = Fraction::new(10, 1);
    let target = Fraction::new(5, 1);
    let drift = market.sub(target);
    assert!(drift.same_value(Fraction::new(5, 1)));
    let price = Fraction::new(5, 1);
    let shares = drift.div_pos(price);
    assert!(shares.same_value(Fraction::new(1, 1)));
    assert!(Fraction::zero().same_value(Fraction::new(0, 7)));
    assert!(Amount::from_units(3).as_fraction().same_value(Fraction::new(3, 1)));
}

#[test]
fn segment_fractions_are_the_fixed_policy_constants() {
    let mille: Vec<i128> = SegmentType::all()
        .iter()
        .map(|t| {
            let f = t.fraction();
            assert_eq!(1000, f.den);
            f.num
        })
        .collect();
    assert_eq!(vec![64, 96, 240, 600, 0], mille);
    assert_eq!(4, SegmentType::known().len());
    assert_eq!(0, SegmentType::Liquid.default_index());
    assert_eq!(4, SegmentType::Unknown.default_index());
}
