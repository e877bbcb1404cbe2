//! The playback configuration, as the surrounding program reads it from
//! a YAML file: whether to loop, how often, which files, whether to
//! shuffle.

use vstd::prelude::*;

verus! {

/// The configuration. The optional fields may be left unset in the
/// file; `apply_defaults` fills them.
#[derive(Debug, PartialEq, Eq)]
pub struct Config {
    pub play_in_loop: Option<bool>,
    pub loop_count: Option<u64>,
    pub file_paths: Vec<String>,
    pub shuffle: Option<bool>,
}

impl Config {
    /// Fills the optional fields a configuration file may leave unset:
    /// looping defaults to on, shuffling to off. The loop count and the
    /// file paths stay exactly as they are.
    pub fn apply_defaults(self) -> (r: Config)
        ensures
            r.play_in_loop == Some(
                match self.play_in_loop {
                    Some(b) => b,
                    None => true,
                },
            ),
            r.shuffle == Some(
                match self.shuffle {
                    Some(b) => b,
                    None => false,
                },
            ),
            r.loop_count == self.loop_count,
            r.file_paths@ == self.file_paths@,
    {
        let play_in_loop = match self.play_in_loop {
            Some(b) => Some(b),
            None => Some(true),
        };
        let shuffle = match self.shuffle {
            Some(b) => Some(b),
            None => Some(false),
        };
        Config { play_in_loop, loop_count: self.loop_count, file_paths: self.file_paths, shuffle }
    }
}

} // verus!
