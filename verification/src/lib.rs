//! An OPC UA data source for thin-edge.io.
//!
//! The gateway connects to OPC UA servers, subscribes to or cyclically reads configured nodes,
//! applies mapping rules, and publishes to the local thin-edge MQTT broker on `te/` topics. This
//! library is what it decides and computes; connections, files and timers are its callers'.
//!
//! - Mapping rules: [`model`], [`source`] and [`files`] are device types and where they come from,
//!   [`constraints`] says where they apply, [`namespace`] and [`resolve`] bind them to nodes, and
//!   [`value`] and [`payload`] turn values into messages.
//! - thin-edge: [`topic`], [`mqtt`] and [`proxy`] are what is said on localhost.
//! - OPC UA: [`ua`] is its data, [`conn`] what is asked of a server.
//! - The gateway: [`config`], [`cloud_servers`] and [`device_types`] say what to run,
//!   [`supervisor`], [`session`], [`server_task`] and [`publish`] run it, and
//!   [`gateway_device`] and [`operations`] face Cumulocity.
//! - Below them: [`text`], [`text_map`], [`json`] and [`clock`].
pub mod clock;
pub mod cloud_servers;
pub mod config;
pub mod conn;
pub mod constraints;
pub mod device_types;
pub mod files;
pub mod gateway_device;
pub mod json;
pub mod model;
pub mod mqtt;
pub mod namespace;
pub mod operations;
pub mod payload;
pub mod proxy;
pub mod publish;
pub mod resolve;
mod seqs;
pub mod server_task;
pub mod session;
pub mod source;
pub mod supervisor;
pub mod text;
pub mod text_map;
pub mod topic;
pub mod ua;
pub mod value;
