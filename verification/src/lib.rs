pub mod errors;
pub mod types;
pub mod external;
pub mod symbol;
pub mod sorted_keys;
pub mod book_model;
pub mod order_book;
pub mod balance;
pub mod engine_db;
pub mod symbol_actor;
pub mod laws;
pub mod routing;
