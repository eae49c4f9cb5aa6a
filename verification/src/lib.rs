//! An in-memory registry of customer profiles, bundled products and product
//! registrations.

pub mod activity;
pub mod api_error;
pub mod catalog;
pub mod catalog_store;
pub mod inram;
pub mod ledger;
pub mod ledger_model;
pub mod model;
pub mod reach;
pub mod repository;
pub mod service;
pub mod service_model;
pub mod sku;
pub mod sources;
pub mod text;
