//! Decides when a file's content is due to be read again, by the time the
//! file was last modified.

use vstd::prelude::*;

verus! {

/// The newest modification time seen of the file at a path.
pub struct Reload {
    last_modified: u64,
    path: Vec<u8>,
}

/// A file modified at `modified` is due for a reload when that is later
/// than the `watermark`.
pub open spec fn due(watermark: u64, modified: u64) -> bool {
    modified > watermark
}

/// The watermark after a file modified at `modified` has been seen: it
/// never goes back.
pub open spec fn advanced(watermark: u64, modified: u64) -> u64 {
    if modified > watermark {
        modified
    } else {
        watermark
    }
}

impl Reload {
    /// The newest modification time seen.
    pub closed spec fn watermark(&self) -> u64 {
        self.last_modified
    }

    /// The path of the file watched.
    pub closed spec fn target(&self) -> Seq<u8> {
        self.path@
    }

    /// A watermark for the file at `path` that any modification time after
    /// the epoch passes.
    pub fn new(path: Vec<u8>) -> (r: Self)
        ensures
            r.watermark() == 0,
            r.target() == path@,
    {
        Self { path, last_modified: 0 }
    }

    /// The path of the file watched.
    pub fn path(&self) -> (p: &[u8])
        ensures
            p@ == self.target(),
    {
        self.path.as_slice()
    }

    /// Whether the content is to be read again, given the file's
    /// modification time in seconds, or `None` where it could not be had.
    /// The watermark moves up to a later time seen, so the same time never
    /// asks for a second reload.
    pub fn maybe(&mut self, modified: Option<u64>) -> (r: bool)
        ensures
            final(self).target() == old(self).target(),
            match modified {
                Some(m) => r == due(old(self).watermark(), m) && final(self).watermark()
                    == advanced(old(self).watermark(), m),
                None => !r && final(self).watermark() == old(self).watermark(),
            },
    {
        match modified {
            Some(m) => {
                let last = self.last_modified;
                if m > last {
                    self.last_modified = m;
                    true
                } else {
                    false
                }
            },
            None => false,
        }
    }
}

/// A file whose modification time has not passed the watermark is not read
/// again. One that has passed it is read again once: after that, the same
/// time, and any earlier one, is no longer due.
pub proof fn law_reloads_once(watermark: u64, modified: u64, again: u64)
    requires
        again <= modified,
    ensures
        modified <= watermark ==> !due(watermark, modified) && advanced(watermark, modified)
            == watermark,
        !due(advanced(watermark, modified), again),
        advanced(watermark, modified) >= watermark,
{
}

} // verus!
