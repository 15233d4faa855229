use vstd::prelude::*;

verus! {

/// The settings record: the tile files in raster order, and the path of the
/// mosaic to create.
pub struct Config {
    pub files: Vec<String>,
    pub result: String,
}

impl Config {
    /// A record naming `files` as the tiles and `result` as the output.
    pub fn new(files: Vec<String>, result: String) -> (r: Config)
        ensures
            r.files@ == files@,
            r.result@ == result@,
    {
        Config { files, result }
    }
}

impl Default for Config {
    /// The empty record: no tiles and an empty output path.
    fn default() -> (r: Config)
        ensures
            r.files@.len() == 0,
            r.result@.len() == 0,
    {
        Config { files: Vec::new(), result: String::new() }
    }
}

} // verus!
