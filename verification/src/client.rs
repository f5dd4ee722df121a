//! The client's bookkeeping of its torrents: which torrents it runs, the
//! port each listens on, and what starting one takes.

use vstd::prelude::*;
use crate::config::Config;
use crate::hash::hash_eq;
use crate::info::{torrent_info_of, TorrentInfo};
use crate::metainfo::{piece_hashes_of, trackers_of, MetaInfo};
use crate::store::{store_fits, stored_with, FileInfo, StoreInfo};
use crate::ID;

verus! {

/// The parameters of a torrent's task.
#[derive(Debug)]
pub struct TorrentParams {
    /// The torrent's piece layout.
    pub info: TorrentInfo,
    /// The torrent's info hash.
    pub info_hash: ID,
    /// The peer id of the client.
    pub client_id: ID,
    /// The trackers' announce URLs, by tier.
    pub tracker_urls: Vec<Vec<String>>,
    /// The port the torrent listens on.
    pub listen_port: u16,
}

/// What starting a torrent takes: the parameters of its task, and how the
/// disk task stores it.
#[derive(Debug)]
pub struct NewTorrent {
    pub params: TorrentParams,
    /// Where and how the torrent's files are stored.
    pub store: StoreInfo,
    /// The hash of each piece.
    pub piece_hashes: Vec<[u8; 20]>,
}

/// The client's torrents, by info hash, and the next listening port.
pub struct Client {
    torrents: Vec<ID>,
    config: Config,
    /// Last used listening port; each new torrent takes the next one.
    current_port: u16,
}

impl Client {
    /// The info hashes of the torrents that the client runs.
    pub closed spec fn ids(&self) -> Set<Seq<u8>> {
        self.torrents@.map_values(|id: ID| id@).to_set()
    }

    /// The port that the next torrent listens on.
    pub closed spec fn port(&self) -> u16 {
        self.current_port
    }

    /// The client's settings.
    pub closed spec fn settings(&self) -> Config {
        self.config
    }

    /// Whether each torrent is held once.
    pub closed spec fn wf(&self) -> bool {
        self.torrents@.map_values(|id: ID| id@).no_duplicates()
    }

    /// A client with no torrent, whose first torrent listens on the first
    /// port of the settings.
    pub fn new(config: Config) -> (c: Self)
        ensures
            c.wf(),
            c.ids() == Set::<Seq<u8>>::empty(),
            c.port() == config.listen_port_start,
            c.settings() == config,
    {
        let current_port = config.listen_port_start;
        let c = Client { torrents: Vec::new(), config, current_port };
        proof {
            assert(c.ids() =~= Set::<Seq<u8>>::empty());
        }
        c
    }

    /// The port that the next torrent listens on.
    pub fn listen_port(&self) -> (p: u16)
        ensures
            p == self.port(),
    {
        self.current_port
    }

    /// Starts a torrent: its task's parameters, with the next listening
    /// port, and its storage in the download directory, where a multi-file
    /// torrent gets a directory of its own. The torrent is recorded by its
    /// info hash, and the port moves on by one.
    pub fn new_torrent(&mut self, metainfo: &MetaInfo) -> (r: NewTorrent)
        requires
            old(self).wf(),
            store_fits(metainfo@),
            old(self).port() < u16::MAX,
        ensures
            final(self).wf(),
            r.params.info_hash@ == metainfo@.info_hash,
            r.params.info == torrent_info_of(metainfo@.info),
            r.params.client_id == old(self).settings().client_id,
            trackers_of(metainfo@, r.params.tracker_urls@),
            r.params.listen_port == old(self).port(),
            stored_with(metainfo@, old(self).settings().dir@, r.store, metainfo@.info.md5sum),
            r.piece_hashes@.len() == piece_hashes_of(metainfo@.info.pieces).len(),
            forall|i: int|
                0 <= i < r.piece_hashes@.len() ==> (#[trigger] r.piece_hashes@[i])@ == piece_hashes_of(
                    metainfo@.info.pieces,
                )[i],
            final(self).ids() == old(self).ids().insert(metainfo@.info_hash),
            final(self).port() == old(self).port() + 1,
            final(self).settings() == old(self).settings(),
    {
        let info_hash = metainfo.info_hash();
        let info = TorrentInfo::new(metainfo);
        let piece_hashes = metainfo.piece_hashes();
        let params = TorrentParams {
            info,
            info_hash,
            client_id: self.config.client_id,
            tracker_urls: metainfo.trackers(),
            listen_port: self.current_port,
        };
        let mut store = StoreInfo::new(metainfo, self.config.dir.clone());
        // The disk keeps the MD5 sum of a single-file torrent with its file.
        if metainfo.info.files.is_none() {
            let f = &store.files[0];
            let single = FileInfo {
                path: f.path.clone(),
                length: f.length,
                offset: f.offset,
                md5sum: metainfo.info.md5sum.clone(),
            };
            store.files.set(0, single);
        }
        self.current_port = self.current_port + 1;
        self.insert(info_hash);
        NewTorrent { params, store, piece_hashes }
    }

    /// The position of the torrent with info hash `id`.
    fn position(&self, id: &ID) -> (r: Option<usize>)
        ensures
            match r {
                Some(j) => j < self.torrents@.len() && self.torrents@[j as int]@ == id@,
                None => !self.ids().contains(id@),
            },
    {
        let mut j: usize = 0;
        while j < self.torrents.len()
            invariant
                0 <= j <= self.torrents@.len(),
                forall|k: int| 0 <= k < j ==> self.torrents@[k]@ != id@,
            decreases self.torrents@.len() - j,
        {
            if hash_eq(&self.torrents[j], id) {
                return Some(j);
            }
            j = j + 1;
        }
        proof {
            let s = self.torrents@.map_values(|x: ID| x@);
            if s.contains(id@) {
                let k = choose|k: int| 0 <= k < s.len() && s[k] == id@;
                assert(self.torrents@[k]@ == s[k]);
            }
        }
        None
    }

    /// Records the torrent with info hash `id`, once.
    fn insert(&mut self, id: ID)
        requires
            old(self).wf(),
        ensures
            final(self).wf(),
            final(self).ids() == old(self).ids().insert(id@),
            final(self).port() == old(self).port(),
            final(self).settings() == old(self).settings(),
    {
        if let Some(j) = self.position(&id) {
            proof {
                let s = self.torrents@.map_values(|x: ID| x@);
                assert(s[j as int] == id@);
                assert(s.contains(id@));
                assert(self.ids() =~= self.ids().insert(id@));
            }
            return;
        }
        let ghost before = self.torrents@.map_values(|x: ID| x@);
        self.torrents.push(id);
        proof {
            let after = self.torrents@.map_values(|x: ID| x@);
            assert(after =~= before.push(id@));
            assert forall|x: Seq<u8>| after.contains(x) <==> before.contains(x) || x == id@ by {
                if after.contains(x) {
                    let k = choose|k: int| 0 <= k < after.len() && after[k] == x;
                    if k < before.len() {
                        assert(before[k] == x);
                    }
                }
                if before.contains(x) {
                    let k = choose|k: int| 0 <= k < before.len() && before[k] == x;
                    assert(after[k] == x);
                }
                if x == id@ {
                    assert(after[before.len() as int] == x);
                }
            }
            assert(self.ids() =~= old(self).ids().insert(id@));
            assert forall|a: int, b: int| 0 <= a < b < after.len() implies after[a] != after[b] by {
                if b == before.len() {
                    assert(before.contains(before[a]));
                }
            }
        }
    }

    /// Stops running the torrent with info hash `id`: whether the client
    /// ran it.
    pub fn remove_torrent(&mut self, id: &ID) -> (removed: bool)
        requires
            old(self).wf(),
        ensures
            final(self).wf(),
            removed == old(self).ids().contains(id@),
            final(self).ids() == old(self).ids().remove(id@),
            final(self).port() == old(self).port(),
            final(self).settings() == old(self).settings(),
    {
        match self.position(id) {
            Some(j) => {
                let ghost before = self.torrents@.map_values(|x: ID| x@);
                self.torrents.remove(j);
                proof {
                    let after = self.torrents@.map_values(|x: ID| x@);
                    assert(after =~= before.remove(j as int));
                    assert(before[j as int] == id@);
                    assert(before.contains(id@));
                    assert forall|x: Seq<u8>| after.contains(x) <==> before.contains(x) && x != id@ by {
                        if after.contains(x) {
                            let k = choose|k: int| 0 <= k < after.len() && after[k] == x;
                            let k0 = if k < j { k } else { k + 1 };
                            assert(after[k] == before[k0]);
                            assert(k0 != j);
                        }
                        if before.contains(x) && x != id@ {
                            let k = choose|k: int| 0 <= k < before.len() && before[k] == x;
                            assert(k != j);
                            let k1 = if k < j { k } else { k - 1 };
                            assert(after[k1] == x);
                        }
                    }
                    assert(self.ids() =~= old(self).ids().remove(id@));
                    assert forall|a: int, b: int| 0 <= a < b < after.len() implies after[a] != after[b] by {
                        let a0 = if a < j { a } else { a + 1 };
                        let b0 = if b < j { b } else { b + 1 };
                        assert(after[a] == before[a0]);
                        assert(after[b] == before[b0]);
                    }
                }
                true
            },
            None => {
                proof {
                    assert(self.ids() =~= old(self).ids().remove(id@));
                }
                false
            },
        }
    }
}

} // verus!
