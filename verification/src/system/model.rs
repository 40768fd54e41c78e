//! Quick items and ranks.
use vstd::prelude::*;
use crate::decimal::Decimal;

verus! {

/// An item that the service offers for quick insertion.
#[derive(Debug, PartialEq, Eq)]
pub struct QuickItem {
    pub class: i8,
    pub index: i32,
    pub key: String,
    pub label: String,
}

/// A rank and the experience it takes.
#[derive(Debug, PartialEq, Eq)]
pub struct RankItem {
    pub xp: Decimal,
    pub name: String,
}

} // verus!
