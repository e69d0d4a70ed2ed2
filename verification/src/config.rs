//! The server configuration.

use vstd::prelude::*;

verus! {

/// The server configuration: the key that authorizes changes, the size of
/// the canvas, and the advertisements and messages of the day on offer.
pub struct AppConfig {
    pub place_key: String,
    pub canvas_width: u32,
    pub canvas_height: u32,
    pub ads: Vec<String>,
    pub motds: Vec<String>,
}

/// The configuration that is written where none can be read: the key
/// `"key"`, a 256 by 256 canvas, no advertisements and no messages of the day.
pub fn default_config() -> (c: AppConfig)
    ensures
        c.place_key@ == "key"@,
        c.canvas_width == 256,
        c.canvas_height == 256,
        c.ads@.len() == 0,
        c.motds@.len() == 0,
{
    AppConfig {
        place_key: "key".to_owned(),
        canvas_width: 256,
        canvas_height: 256,
        ads: Vec::new(),
        motds: Vec::new(),
    }
}

} // verus!
