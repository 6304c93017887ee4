//! A live order-pickup board. Staff mark an order as in transit or as
//! picked up, and every connected screen sees the list of pending orders
//! change.
//!
//! Commands are carried out one at a time by a single runner, which drives
//! a backend and publishes what changed; each session with a client sends a
//! snapshot of the board and then forwards the changes.
//!
//! - [`db`]: orders, order lines, and the view of an order on the board.
//! - [`listing`]: sorting the pending orders, and the highest order number.
//! - [`store`]: a relational store in memory, with the queries of the board.
//! - [`seed`] and [`load`]: filling a store by names and from an order sheet.
//! - [`backend`]: what the runner asks of a store, and the model of one.
//! - [`db_backend`]: the backend over a store, and what it asks of a store.
//! - [`test_backend`]: the backend for tests, over a map in memory.
//! - [`hub`]: what is taken on trust about the channels.
//! - [`status_updater`]: commands, events and the runner.
//! - [`ws_updater`]: notifications and the decisions of a session.
//! - [`api`]: what the request handlers answer.
//! - [`board`]: what holds between events, snapshots and the backend.

pub mod api;
pub mod backend;
pub mod board;
pub mod db;
pub mod db_backend;
pub mod hub;
pub mod listing;
pub mod load;
pub mod seed;
pub mod status_updater;
pub mod store;
pub mod test_backend;
pub mod ws_updater;
