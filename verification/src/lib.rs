//! An r/place style shared canvas: the pixel grid, its PNG rendering, the
//! server configuration and the replies of the HTTP routes.

pub mod image_io;

pub mod canvas;
pub mod config;
pub mod routes;
