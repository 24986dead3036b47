//! Raster plotting of tabular numeric data: a pixel canvas with fading and
//! wrap-around shifting, a loader for delimited numeric text, a renderer that
//! lays series out on the canvas, and the decision of when to refresh.
pub mod canvas;
pub mod decimal;
pub mod table;
pub mod plot;
pub mod refresh;
