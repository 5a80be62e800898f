//! Core of a tiling window manager: a layout engine for rectangular
//! tilings of a monitor work-area, and the workspace manager that keeps
//! every managed window in exactly one (virtual-desktop, monitor) cell.
//!
//! All OS-dependent values (window handles, virtual-desktop identifiers,
//! monitors) are carried as plain integers; the process boundary that
//! talks to the OS lives outside this crate and hands events in and
//! takes reposition requests out.

pub mod geometry;
pub mod layout;
pub mod manager;

pub use geometry::Direction;
pub use geometry::Position;
pub use geometry::SplitDirection;
pub use geometry::Zone;
