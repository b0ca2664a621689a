//! Desktop icon lookup and a small day planner: the rules behind the
//! search window, stated and proved with Verus.
pub mod text;
pub mod order;
pub mod desktop;
pub mod icons;
pub mod schedule;
pub mod shell;
