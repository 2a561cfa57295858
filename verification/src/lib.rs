//! Nearest-vehicle dispatch over a road network: the graph, shortest paths,
//! candidate ranking and the decisions of one matching request.

pub mod auth_handler;
pub mod dispatch;
pub mod graph;
pub mod network;
pub mod queue;
pub mod ranking;
pub mod tow_truck;
pub mod tow_truck_service;
