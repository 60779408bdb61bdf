//! Decisions of the polling clipboard monitor: when a poll's observation
//! turns into a store mutation, and when a heartbeat is due. The loop that
//! sleeps, reads the clipboard and performs the actions lives outside.

use crate::hashing::bytes_hash;
use crate::hashing::hash_bytes;
use crate::hashing::hash_str;
use crate::hashing::text_hash;
use vstd::prelude::*;

verus! {

/// What the monitor decides to do with one observation.
#[derive(Clone, Copy, PartialEq, Eq, Structural, Debug)]
pub enum MonitorAction {
    AddImage,
    AddText,
    Nothing,
}

/// The monitor's memory between polls: the hash of the last content it
/// acted on, per kind, and a running poll counter for the heartbeat.
pub struct MonitorState {
    pub last_text_hash: Option<u64>,
    pub last_image_hash: Option<u64>,
    pub poll_count: u64,
}

impl MonitorState {
    /// A fresh monitor that has seen nothing.
    pub fn new() -> (r: Self)
        ensures
            r.last_text_hash is None,
            r.last_image_hash is None,
            r.poll_count == 0,
    {
        MonitorState { last_text_hash: None, last_image_hash: None, poll_count: 0 }
    }

    /// Counts one poll tick; a heartbeat is due every 67th tick.
    pub fn on_poll(&mut self) -> (heartbeat: bool)
        ensures
            final(self).poll_count == vstd::wrapping::u64_specs::wrapping_add(
                old(self).poll_count,
                1,
            ),
            final(self).last_text_hash == old(self).last_text_hash,
            final(self).last_image_hash == old(self).last_image_hash,
            heartbeat == (final(self).poll_count % 67 == 0),
    {
        self.poll_count = self.poll_count.wrapping_add(1);
        self.poll_count % 67 == 0
    }

    /// Decides on an image observation: act only when the bytes differ from
    /// the last image acted on, and then remember them and forget the last
    /// text.
    pub fn observe_image(&mut self, bytes: &Vec<u8>) -> (r: MonitorAction)
        ensures
            final(self).poll_count == old(self).poll_count,
            ({
                let h = bytes_hash(bytes@);
                if old(self).last_image_hash == Some(h) {
                    &&& r == MonitorAction::Nothing
                    &&& final(self).last_image_hash == old(self).last_image_hash
                    &&& final(self).last_text_hash == old(self).last_text_hash
                } else {
                    &&& r == MonitorAction::AddImage
                    &&& final(self).last_image_hash == Some(h)
                    &&& final(self).last_text_hash is None
                }
            }),
    {
        let h = hash_bytes(bytes);
        let same = match self.last_image_hash {
            Some(prev) => prev == h,
            None => false,
        };
        if same {
            MonitorAction::Nothing
        } else {
            self.last_image_hash = Some(h);
            self.last_text_hash = None;
            MonitorAction::AddImage
        }
    }

    /// Decides on a text observation: act only when the text differs from
    /// the last text acted on, and then remember it and forget the last
    /// image.
    pub fn observe_text(&mut self, content: &str) -> (r: MonitorAction)
        ensures
            final(self).poll_count == old(self).poll_count,
            ({
                let h = text_hash(content@);
                if old(self).last_text_hash == Some(h) {
                    &&& r == MonitorAction::Nothing
                    &&& final(self).last_image_hash == old(self).last_image_hash
                    &&& final(self).last_text_hash == old(self).last_text_hash
                } else {
                    &&& r == MonitorAction::AddText
                    &&& final(self).last_text_hash == Some(h)
                    &&& final(self).last_image_hash is None
                }
            }),
    {
        let h = hash_str(content);
        let same = match self.last_text_hash {
            Some(prev) => prev == h,
            None => false,
        };
        if same {
            MonitorAction::Nothing
        } else {
            self.last_text_hash = Some(h);
            self.last_image_hash = None;
            MonitorAction::AddText
        }
    }
}

} // verus!
