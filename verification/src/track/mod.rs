//! The tracking frontend: pyramids, corners, flow, pose and map bookkeeping.

pub mod corners;
pub mod damping;
pub mod frame;
pub mod init;
pub mod klt;
pub mod laws;
pub mod local_ba;
pub mod local_map;
pub mod motion_ba;
pub mod pnp;
pub mod pyramid;
pub mod session;
pub mod timing;
pub mod tracker;
pub mod triangulate;
mod validity;
