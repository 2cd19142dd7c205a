use vstd::prelude::*;

verus! {

/// A phonebook entry.
#[derive(Clone, Debug)]
pub struct Person {
    pub id: Option<i32>,
    pub name: String,
    pub phone: String,
}

/// A named location. The stored coordinates play no part in routing and are
/// kept by the storage layer only.
#[derive(Clone, Debug)]
pub struct City {
    pub id: Option<i32>,
    pub name: String,
}

/// An undirected road between the cities whose identifiers are `city_a` and `city_b`.
#[derive(Clone, Debug)]
pub struct Road {
    pub id: Option<i32>,
    pub city_a: i32,
    pub city_b: i32,
    pub length: i32,
}

/// An undirected railway segment, shaped like a road.
#[derive(Clone, Debug)]
pub struct Railway {
    pub id: Option<i32>,
    pub city_a: i32,
    pub city_b: i32,
    pub length: i32,
}

/// Database connection settings.
#[derive(Clone, Debug)]
pub struct ConnectParams {
    pub host: String,
    pub port: u16,
    pub user: String,
    pub password: String,
    pub dbname: String,
}

} // verus!
