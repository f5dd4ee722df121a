//! Settings of the client.

use vstd::prelude::*;
use crate::ID;

verus! {

/// The peer id the client announces itself with, "-RS0133-73b3b0b0b0b0".
pub const DEFAULT_CLIENT_ID: ID = [
    0x2d, 0x52, 0x53, 0x30, 0x31, 0x33, 0x33, 0x2d, 0x37, 0x33,
    0x62, 0x33, 0x62, 0x30, 0x62, 0x30, 0x62, 0x30, 0x62, 0x30,
];

/// Settings of the client.
#[derive(Debug, Clone)]
pub struct Config {
    /// The peer id of the client.
    pub client_id: ID,
    /// The directory that torrents are downloaded to.
    pub dir: String,
    /// The listening port of the first torrent; each later torrent takes
    /// the next one.
    pub listen_port_start: u16,
    /// Trackers to announce to besides those of the metainfo.
    pub custom_trackers: Vec<String>,
    /// Seconds between announces.
    pub announce_interval: u64,
    /// Most peers a torrent keeps sessions with.
    pub max_peers: usize,
}

impl Default for Config {
    /// Downloads to "downloads", listening from port 49152 (the first of
    /// the IANA ephemeral ports), announcing every 30 minutes, with at most
    /// 50 peers per torrent.
    fn default() -> (c: Self)
        ensures
            c.client_id == DEFAULT_CLIENT_ID,
            c.dir@ == "downloads"@,
            c.listen_port_start == 49152,
            c.custom_trackers@.len() == 0,
            c.announce_interval == 1800,
            c.max_peers == 50,
    {
        Config {
            client_id: DEFAULT_CLIENT_ID,
            dir: "downloads".to_owned(),
            listen_port_start: 49152,
            custom_trackers: Vec::new(),
            announce_interval: 1800,
            max_peers: 50,
        }
    }
}

} // verus!
