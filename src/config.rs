//! The application's settings.
use vstd::prelude::*;

verus! {

/// Where to store downloads, which channels to watch, and how often.
#[derive(Clone, Debug)]
pub struct Config {
    /// The download directory.
    pub download_dir: String,
    /// The YouTube channels to watch.
    pub youtube_channels: Vec<String>,
    /// The Twitch channels to watch.
    pub twitch_channels: Vec<String>,
    /// Minutes between two checks.
    pub check_interval: u64,
}

impl Default for Config {
    /// Downloads under `./downloads`, no channels, a check every hour.
    fn default() -> (r: Config)
        ensures
            r.download_dir@ == "./downloads"@,
            r.youtube_channels@.len() == 0,
            r.twitch_channels@.len() == 0,
            r.check_interval == 60,
    {
        proof {
            reveal_strlit("./downloads");
        }
        Config {
            download_dir: "./downloads".to_string(),
            youtube_channels: Vec::new(),
            twitch_channels: Vec::new(),
            check_interval: 60,
        }
    }
}

} // verus!
