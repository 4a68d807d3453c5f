//! Stored browser state: cookies, web storage, and page snapshots.
use vstd::prelude::*;
use crate::clock::unix_now_secs;

verus! {

/// A cookie as persisted.
pub struct StoredCookie {
    pub name: String,
    pub value: String,
    pub domain: String,
    pub path: String,
    pub secure: bool,
    pub http_only: bool,
    pub expires: Option<i64>,
}

/// Key-value browser storage, persisted as a JSON file.
pub struct Storage {
    pub cookies: Vec<StoredCookie>,
    /// `(domain, key, value)` entries.
    pub local_storage: Vec<(String, String, String)>,
    /// `(domain, key, value)` entries.
    pub session_storage: Vec<(String, String, String)>,
}

impl Storage {
    /// Empty storage.
    pub fn new() -> (r: Self)
        ensures
            r.cookies@.len() == 0,
            r.local_storage@.len() == 0,
            r.session_storage@.len() == 0,
    {
        Storage { cookies: Vec::new(), local_storage: Vec::new(), session_storage: Vec::new() }
    }
}

impl Default for Storage {
    fn default() -> (r: Self)
        ensures
            r.cookies@.len() == 0,
            r.local_storage@.len() == 0,
            r.session_storage@.len() == 0,
    {
        Storage::new()
    }
}

/// A complete browser state snapshot.
pub struct BrowserSnapshot {
    pub version: u32,
    pub url: String,
    pub title: String,
    pub html: String,
    pub storage: Storage,
    /// Unix timestamp in seconds.
    pub timestamp: i64,
}

impl BrowserSnapshot {
    /// A snapshot of format version 1 taken at `timestamp`.
    pub fn new_at(url: &str, title: &str, html: &str, storage: Storage, timestamp: i64) -> (r: Self)
        ensures
            r.version == 1,
            r.url@ == url@,
            r.title@ == title@,
            r.html@ == html@,
            r.storage == storage,
            r.timestamp == timestamp,
    {
        BrowserSnapshot {
            version: 1,
            url: url.to_owned(),
            title: title.to_owned(),
            html: html.to_owned(),
            storage,
            timestamp,
        }
    }

    /// A snapshot of format version 1 taken now.
    pub fn new(url: &str, title: &str, html: &str, storage: Storage) -> (r: Self)
        ensures
            r.version == 1,
            r.url@ == url@,
            r.title@ == title@,
            r.html@ == html@,
            r.storage == storage,
    {
        let now = unix_now_secs();
        Self::new_at(url, title, html, storage, now)
    }
}

} // verus!
