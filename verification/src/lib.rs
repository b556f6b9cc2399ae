pub mod primitives;
pub mod account_map;
pub mod calendar;
pub mod ratings;
pub mod projects;
