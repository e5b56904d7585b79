use chad_core::amount::Amount;
use chad_core::asset::{Account, AssetCode, Custodian};
use chad_core::fraction::Fraction;
use chad_core::portfolio::{Lot, Segment};
use chad_core::segment_type::SegmentType;
use chad_core::storage_link::StorageLink;

fn units(n: i64) -> Amount {
    Amount::from_units(n)
}

fn micros(n: i64) -> Amount {
    Amount::from_micros(n)
}

fn in_thousandths(f: Fraction) -> i64 {
    ((f.num * 1000) / f.den) as i64
}

fn in_units(f: Fraction) -> i64 {
    (f.num / f.den) as i64
}

#[test]
fn portfolio_computes_drift_values() {
    let mut link = StorageLink::new();
    let expo_asset = AssetCode::Common("EXPO".to_string());
    let linear_asset = AssetCode::Common("LINEAR".to_string());
    let stable_asset = AssetCode::Common("STABLE".to_string());
    let liquid_asset = AssetCode::Common("LIQUID".to_string());
    link.assign_asset(&expo_asset, SegmentType::Expo);
    link.assign_asset(&linear_asset, SegmentType::Linear);
    link.assign_asset(&stable_asset, SegmentType::Stable);
    link.assign_asset(&liquid_asset, SegmentType::Liquid);
    let custodian = Custodian::Custom("sovereign".to_string());
    link.update_lot(10, &expo_asset, units(1), &custodian, micros(598_000));
    link.update_lot(11, &linear_asset, units(1), &custodian, micros(242_000));
    link.update_lot(12, &stable_asset, units(1), &custodian, micros(97_000));
    link.update_lot(13, &liquid_asset, units(1), &custodian, micros(63_000));
    let portfolio = link.latest_portfolio();
    let segments = portfolio.segments();
    let drift_values = segments.iter().map(|it| in_thousandths(it.drift_amount())).collect::<Vec<_>>();
    assert_eq!(drift_values, vec![-1, 1, 2, -2, 0]);
    let allocation_values =
        segments.iter().map(|it| in_thousandths(it.target_value())).collect::<Vec<_>>();
    assert_eq!(allocation_values, vec![64, 96, 240, 600, 0]);
}

#[test]
fn links_set_asset_prices() {
    let mut link = StorageLink::new();
    let tsla = AssetCode::Common("TSLA".to_string());
    let custodian = Custodian::Custom("robinhood".to_string());
    link.update_lot(2000, &tsla, units(10), &custodian, units(1));
    link.price_asset(&tsla, units(2));
    let portfolio = link.latest_portfolio();
    assert_eq!(20, in_units(portfolio.portfolio_value()));
}

#[test]
fn link_assigns_assets() {
    let mut link = StorageLink::new();
    let tsla = AssetCode::Common("TSLA".to_string());
    let custodian = Custodian::Custom("robinhood".to_string());
    link.update_lot(2000, &tsla, units(10), &custodian, units(300));
    link.assign_asset(&tsla, SegmentType::Expo);
    let portfolio = link.latest_portfolio();
    let segments = portfolio.segments();
    let expo = &segments[SegmentType::Expo.default_index()];
    assert_eq!(3000, in_units(expo.segment_value()));
}

#[test]
fn link_updates_lots() {
    let mut link = StorageLink::new();
    let tsla = AssetCode::Common("TSLA".to_string());
    let custodian = Custodian::Custom("robinhood".to_string());
    link.update_lot(2000, &tsla, units(10), &custodian, units(300));
    let portfolio = link.latest_portfolio();
    assert_eq!(
        portfolio.lots(),
        vec![Lot {
            lot_id: 2000,
            asset_code: tsla.clone(),
            share_count: units(10),
            custodian: custodian.clone(),
            account: Account::Main,
        }]
    );
}

#[test]
fn portfolio_produces_segments() {
    let mut link = StorageLink::new();
    let tsla = AssetCode::Common("TSLA".to_string());
    let custodian = Custodian::Custom("robinhood".to_string());
    link.assign_asset(&tsla, SegmentType::Expo);
    link.update_lot(2000, &tsla, units(10), &custodian, units(300));
    let portfolio = link.latest_portfolio();
    let segments = portfolio.segments();
    let values = segments.iter().map(|it| in_units(it.segment_value())).collect::<Vec<_>>();
    assert_eq!(values, vec![0, 0, 0, 3000, 0]);
    let types = segments.iter().map(Segment::segment_type).collect::<Vec<_>>();
    assert_eq!(
        types,
        vec![
            SegmentType::Liquid,
            SegmentType::Stable,
            SegmentType::Linear,
            SegmentType::Expo,
            SegmentType::Unknown
        ]
    );
}

#[test]
fn holdings_group_lots_by_asset() {
    let mut link = StorageLink::new();
    let tsla = AssetCode::Common("TSLA".to_string());
    let gold = AssetCode::Custom("GOLD".to_string());
    let custodian = Custodian::Custom("robinhood".to_string());
    link.update_lot(1, &tsla, units(1), &custodian, units(2));
    link.update_lot(2, &gold, units(5), &custodian, units(3));
    link.update_lot(3, &tsla, units(4), &custodian, units(2));
    let portfolio = link.latest_portfolio();
    let holdings = portfolio.holdings();
    assert_eq!(2, holdings.len());
    assert_eq!(&tsla, holdings[0].asset_code());
    assert_eq!(2, holdings[0].lots.len());
    assert_eq!(vec![1, 3], holdings[0].lots.iter().map(|l| l.lot_id).collect::<Vec<_>>());
    assert_eq!(&gold, holdings[1].asset_code());
    assert_eq!(1, holdings[1].lots.len());
    // Holding and lot values against the stored price table.
    let prices = portfolio.prices();
    assert_eq!(10, in_units(holdings[0].holding_value(&prices)));
    assert_eq!(15, in_units(holdings[1].lots[0].lot_value(&prices)));
}

#[test]
fn prices_and_assignments_list_only_what_was_written() {
    let mut link = StorageLink::new();
    let tsla = AssetCode::Common("TSLA".to_string());
    let gold = AssetCode::Custom("GOLD".to_string());
    link.price_asset(&tsla, units(2));
    link.assign_asset(&gold, SegmentType::Stable);
    let portfolio = link.latest_portfolio();
    let prices = portfolio.prices();
    assert_eq!(1, prices.len());
    assert_eq!(tsla, prices[0].code);
    assert_eq!(units(2), prices[0].price);
    let assignments = portfolio.asset_assignments();
    assert_eq!(1, assignments.len());
    assert_eq!(gold, assignments[0].code);
    assert_eq!(SegmentType::Stable, assignments[0].segment);
}

#[test]
fn portfolio_value_follows_lot_updates() {
    let mut link = StorageLink::new();
    let mystery = AssetCode::Custom("MYSTERY".to_string());
    let mut portfolio = link.latest_portfolio();
    assert_eq!(0, in_units(portfolio.portfolio_value()));
    link.update_lot(1, &mystery, units(6), &Custodian::Unknown, units(1));
    portfolio = link.latest_portfolio();
    assert_eq!(6, in_units(portfolio.portfolio_value()));
}
