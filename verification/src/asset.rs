//! Asset identity for the segment-based portfolio: asset codes, custodians
//! and accounts.

use vstd::prelude::*;

verus! {

/// Identifies a lot within the segment-based portfolio.
pub type LotId = u64;

/// Identifies an asset: a common (exchange-listed) symbol or a custom one.
#[derive(Debug)]
pub enum AssetCode {
    Common(String),
    Custom(String),
}

/// An asset code as mathematical values.
pub ghost enum AssetCodeV {
    Common(Seq<char>),
    Custom(Seq<char>),
}

impl View for AssetCode {
    type V = AssetCodeV;

    open spec fn view(&self) -> AssetCodeV {
        match self {
            AssetCode::Common(s) => AssetCodeV::Common(s@),
            AssetCode::Custom(s) => AssetCodeV::Custom(s@),
        }
    }
}

impl Clone for AssetCode {
    fn clone(&self) -> (r: AssetCode)
        ensures
            r@ == self@,
    {
        match self {
            AssetCode::Common(s) => AssetCode::Common(s.clone()),
            AssetCode::Custom(s) => AssetCode::Custom(s.clone()),
        }
    }
}

impl PartialEq for AssetCode {
    fn eq(&self, other: &AssetCode) -> (r: bool) {
        match (self, other) {
            (AssetCode::Common(a), AssetCode::Common(b)) => *a == *b,
            (AssetCode::Custom(a), AssetCode::Custom(b)) => *a == *b,
            _ => false,
        }
    }
}

impl vstd::std_specs::cmp::PartialEqSpecImpl for AssetCode {
    open spec fn obeys_eq_spec() -> bool {
        true
    }

    open spec fn eq_spec(&self, other: &AssetCode) -> bool {
        self@ == other@
    }
}

/// Identifies the custodian of a lot.
#[derive(Debug)]
pub enum Custodian {
    Unknown,
    Custom(String),
}

pub ghost enum CustodianV {
    Unknown,
    Custom(Seq<char>),
}

impl View for Custodian {
    type V = CustodianV;

    open spec fn view(&self) -> CustodianV {
        match self {
            Custodian::Unknown => CustodianV::Unknown,
            Custodian::Custom(s) => CustodianV::Custom(s@),
        }
    }
}

impl Clone for Custodian {
    fn clone(&self) -> (r: Custodian)
        ensures
            r@ == self@,
    {
        match self {
            Custodian::Unknown => Custodian::Unknown,
            Custodian::Custom(s) => Custodian::Custom(s.clone()),
        }
    }
}

impl PartialEq for Custodian {
    fn eq(&self, other: &Custodian) -> (r: bool) {
        match (self, other) {
            (Custodian::Unknown, Custodian::Unknown) => true,
            (Custodian::Custom(a), Custodian::Custom(b)) => *a == *b,
            _ => false,
        }
    }
}

impl vstd::std_specs::cmp::PartialEqSpecImpl for Custodian {
    open spec fn obeys_eq_spec() -> bool {
        true
    }

    open spec fn eq_spec(&self, other: &Custodian) -> bool {
        self@ == other@
    }
}

/// Identifies which account within a custodian holds a lot.
#[derive(Debug)]
pub enum Account {
    Main,
    Custom(String),
}

pub ghost enum AccountV {
    Main,
    Custom(Seq<char>),
}

impl View for Account {
    type V = AccountV;

    open spec fn view(&self) -> AccountV {
        match self {
            Account::Main => AccountV::Main,
            Account::Custom(s) => AccountV::Custom(s@),
        }
    }
}

impl Clone for Account {
    fn clone(&self) -> (r: Account)
        ensures
            r@ == self@,
    {
        match self {
            Account::Main => Account::Main,
            Account::Custom(s) => Account::Custom(s.clone()),
        }
    }
}

impl PartialEq for Account {
    fn eq(&self, other: &Account) -> (r: bool) {
        match (self, other) {
            (Account::Main, Account::Main) => true,
            (Account::Custom(a), Account::Custom(b)) => *a == *b,
            _ => false,
        }
    }
}

impl vstd::std_specs::cmp::PartialEqSpecImpl for Account {
    open spec fn obeys_eq_spec() -> bool {
        true
    }

    open spec fn eq_spec(&self, other: &Account) -> bool {
        self@ == other@
    }
}

} // verus!
