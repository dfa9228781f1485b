//! Journey patterns and pilgrimage routes through fleet rooms: recurring
//! routes, mandatory waypoints, movement logs, route guides and room
//! credentials, each with its behaviour stated as a contract.

pub mod guide;
pub mod log;
pub mod passport;
pub mod pilgrimage;
mod roomset;
pub mod shrine;
pub mod text;
pub mod waypoint;

pub use guide::PilgrimGuide;
pub use log::{MoveView, PilgrimLog};
pub use passport::{PassportView, PilgrimPassport};
pub use pilgrimage::{Pilgrimage, PilgrimageView};
pub use shrine::{Shrine, ShrineSignificance};
pub use waypoint::{Pilgrim, PilgrimView, Waypoint, WaypointView};
