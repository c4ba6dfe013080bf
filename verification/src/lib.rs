//! Colour metadata of a raw-photo sample archive: the catalogue of companies,
//! camera models and image files, the colour records drawn from decoded
//! images, and the two texts they are written to, delimited and fixed-width.

pub mod colordata;
pub mod colorspace;
pub mod database;
pub mod delimited;
pub mod reading;
pub mod record;
pub mod sorting;
pub mod table;
pub mod text;
