//! The logic behind the graphical front end: the problem description's
//! labels and indices, the menu choices, and the text forms a setup takes
//! in a link or a file name.
pub mod setup;
pub mod platform;
pub mod app;
pub mod escalade;
pub mod problem;
