//! NeTray's logic: traffic accounting per network interface, per-application
//! usage read from `nettop` output, the compact speed figures and the texts of
//! the menu bar item, and the state machine of its event loop.
pub mod text;
pub mod speed;
pub mod ranking;
pub mod table;
pub mod monitor;
pub mod scan;
pub mod app_monitor;
pub mod state;
pub mod labels;
pub mod app_rows;
