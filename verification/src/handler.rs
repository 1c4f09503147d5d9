//! Routes a request line to the entry of the file it asks for. Entries are
//! made once per path and remembered in the trie. Paths that led nowhere
//! are remembered in the negative cache.

use vstd::prelude::*;
use vstd::slice::slice_to_vec;
use crate::error::ErrorKind;
use crate::lazy_file::{LazyFile, LazyState};
use crate::negative::{recorded, touched, NegativeCache};
use crate::parse::{at_terminal, get_req_path, method_tag, segments_of, PathIter};
use crate::route::{acyclic, lemma_placed_values, lemma_visited_shape, locate, placed, stored,
    visited, wf_nodes, Acquired, NodeView, Place, Tree};
use crate::path::{all_valid, extend_dist, joined, pushed};
use crate::reload::Reload;

verus! {

/// What the caller found out about a file: whether it is there, and the
/// content type that its extension stands for, if that is known.
pub struct Probe {
    pub exists: bool,
    pub mime: Option<&'static str>,
}

/// The content type of files whose extension stands for none.
pub open spec fn default_mime() -> Seq<char> {
    "application/octet-stream"@
}

/// The path of a request below the root directory: its segments with
/// slashes between them.
pub open spec fn relative(segs: Seq<Seq<u8>>) -> Seq<u8> {
    joined(Seq::empty(), segs)
}

/// How the attempt to make an entry ends.
pub enum Verdict {
    /// The path has no segment, or one that is not valid.
    Invalid,
    /// The path is held in the negative cache.
    Cached,
    /// The file is not there.
    Missing,
    /// The entry is made.
    Made,
}

/// How the attempt to make an entry for a path with the segments `segs`
/// ends, given the keys of the negative cache, if there is one, and whether
/// the file is there.
pub open spec fn verdict(segs: Seq<Seq<u8>>, keys: Option<Seq<Seq<u8>>>, exists: bool) -> Verdict {
    if segs.len() == 0 || !all_valid(segs) {
        Verdict::Invalid
    } else if keys is Some && keys->0.contains(relative(segs)) {
        Verdict::Cached
    } else if !exists {
        Verdict::Missing
    } else {
        Verdict::Made
    }
}

/// The keys of the negative cache after that attempt: a path that was held
/// counts as used, and a path to a missing file is put in.
pub open spec fn keys_after(
    segs: Seq<Seq<u8>>,
    keys: Option<Seq<Seq<u8>>>,
    cap: nat,
    exists: bool,
) -> Option<Seq<Seq<u8>>> {
    match keys {
        Some(k) => match verdict(segs, keys, exists) {
            Verdict::Invalid => keys,
            Verdict::Cached => Some(touched(k, relative(segs))),
            Verdict::Missing => Some(recorded(k, relative(segs), cap)),
            Verdict::Made => keys,
        },
        None => None,
    }
}

/// Whether the attempt to make an entry ended as it has to, given what the
/// probe `found`: `r` is its result, and `keys_then` the keys of the
/// negative cache after it.
pub open spec fn outcome(
    r: Result<DistReload, ErrorKind>,
    keys_then: Option<Seq<Seq<u8>>>,
    segs: Seq<Seq<u8>>,
    keys: Option<Seq<Seq<u8>>>,
    cap: nat,
    full: Seq<u8>,
    found: Probe,
    reload: bool,
) -> bool {
    &&& keys_then == keys_after(segs, keys, cap, found.exists)
    &&& match verdict(segs, keys, found.exists) {
        Verdict::Invalid => r matches Err(e) && e == ErrorKind::InvalidInput,
        Verdict::Cached => r matches Err(e) && e == ErrorKind::NotFound,
        Verdict::Missing => r matches Err(e) && e == ErrorKind::NotFound,
        Verdict::Made => r matches Ok(entry) && entry.fresh(full, found, reload),
    }
}

/// The keys that an optional negative cache holds.
pub open spec fn keys_of(bc: Option<NegativeCache>) -> Option<Seq<Seq<u8>>> {
    match bc {
        Some(c) => Some(c.keys()),
        None => None,
    }
}

/// An optional negative cache is well-formed if it is there.
pub open spec fn cache_wf(bc: Option<NegativeCache>) -> bool {
    match bc {
        Some(c) => c.wf(),
        None => true,
    }
}

/// The capacity of an optional negative cache, 0 without one.
pub open spec fn cap_of(bc: Option<NegativeCache>) -> nat {
    match bc {
        Some(c) => c.capacity(),
        None => 0,
    }
}

/// The entry of one routed file: its content, its content type, and the
/// watermark that says when to read it again.
pub struct DistReload {
    reload: Reload,
    file: LazyFile,
    mime: &'static str,
}

impl DistReload {
    /// The state of the entry's content.
    pub closed spec fn file_view(&self) -> LazyState {
        self.file@
    }

    /// The content type.
    pub closed spec fn mime_view(&self) -> Seq<char> {
        self.mime@
    }

    /// The path of the file.
    pub closed spec fn target(&self) -> Seq<u8> {
        self.reload.target()
    }

    /// The newest modification time seen of the file.
    pub closed spec fn watermark(&self) -> u64 {
        self.reload.watermark()
    }

    /// Whether the content may be replaced after it was loaded.
    pub closed spec fn reloads(&self) -> bool {
        self.file.reloads()
    }

    /// The content is well-formed.
    pub closed spec fn wf(&self) -> bool {
        self.file.wf()
    }

    /// An entry as it is made for the file at `full`: nothing read yet, and
    /// no modification time seen.
    pub open spec fn fresh(&self, full: Seq<u8>, probe: Probe, reload: bool) -> bool {
        &&& self.wf()
        &&& self.file_view() == LazyState::Pending(full)
        &&& self.target() == full
        &&& self.watermark() == 0
        &&& self.reloads() == reload
        &&& self.mime_view() == match probe.mime {
            Some(m) => m@,
            None => default_mime(),
        }
    }

    /// The path of a request as the negative cache knows it, and the path
    /// of the file below the root directory `dist` that it asks for. Fails
    /// with `InvalidInput` for a path without segments or with a segment
    /// that is not valid.
    pub fn resolve(dist: &[u8], path: PathIter) -> (r: Result<(Vec<u8>, Vec<u8>), ErrorKind>)
        ensures
            match r {
                Ok((key, full)) => {
                    &&& path.segments().len() > 0
                    &&& all_valid(path.segments())
                    &&& key@ == relative(path.segments())
                    &&& full@ == pushed(dist@, relative(path.segments()))
                },
                Err(e) => {
                    &&& e == ErrorKind::InvalidInput
                    &&& path.segments().len() == 0 || !all_valid(path.segments())
                },
            },
    {
        match extend_dist(Vec::new(), path) {
            Ok(key) => {
                let mut full = slice_to_vec(dist);
                let n = full.len();
                if n > 0 && full[n - 1] != crate::parse::SLASH {
                    full.push(crate::parse::SLASH);
                }
                full.extend_from_slice(key.as_slice());
                Ok((key, full))
            },
            Err(e) => Err(e),
        }
    }

    /// Refuses a path that the negative cache holds, as `NotFound`. The
    /// path then counts as used.
    pub fn check_cache(key: &[u8], bc: &mut Option<NegativeCache>) -> (r: Result<(), ErrorKind>)
        requires
            cache_wf(*old(bc)),
        ensures
            cache_wf(*final(bc)),
            cap_of(*final(bc)) == cap_of(*old(bc)),
            match r {
                Ok(_) => {
                    &&& !(keys_of(*old(bc)) is Some && keys_of(*old(bc))->0.contains(key@))
                    &&& keys_of(*final(bc)) == keys_of(*old(bc))
                },
                Err(e) => {
                    &&& e == ErrorKind::NotFound
                    &&& keys_of(*old(bc)) is Some
                    &&& keys_of(*old(bc))->0.contains(key@)
                    &&& keys_of(*final(bc)) == Some(touched(keys_of(*old(bc))->0, key@))
                },
            },
    {
        match bc {
            Some(cache) => {
                if cache.check(key) {
                    Err(ErrorKind::NotFound)
                } else {
                    Ok(())
                }
            },
            None => Ok(()),
        }
    }

    /// Makes the entry for the file at `full` once the caller has probed
    /// it. A file that is not there is `NotFound`, and its path `key` goes
    /// into the negative cache.
    pub fn from_probe(
        key: Vec<u8>,
        full: Vec<u8>,
        probe: Probe,
        bc: &mut Option<NegativeCache>,
        reload: bool,
    ) -> (r: Result<Self, ErrorKind>)
        requires
            cache_wf(*old(bc)),
        ensures
            cache_wf(*final(bc)),
            cap_of(*final(bc)) == cap_of(*old(bc)),
            match r {
                Ok(entry) => {
                    &&& probe.exists
                    &&& entry.fresh(full@, probe, reload)
                    &&& keys_of(*final(bc)) == keys_of(*old(bc))
                },
                Err(e) => {
                    &&& !probe.exists
                    &&& e == ErrorKind::NotFound
                    &&& keys_of(*final(bc)) == match keys_of(*old(bc)) {
                        Some(k) => Some(recorded(k, key@, cap_of(*old(bc)))),
                        None => None,
                    }
                },
            },
    {
        let watched = slice_to_vec(full.as_slice());
        match LazyFile::new(full, probe.exists, reload) {
            Ok(file) => {
                let mime = match probe.mime {
                    Some(m) => m,
                    None => "application/octet-stream",
                };
                Ok(Self { reload: Reload::new(watched), file, mime })
            },
            Err(e) => {
                match bc {
                    Some(cache) => {
                        cache.record_failure(key);
                    },
                    None => {},
                }
                Err(e)
            },
        }
    }

    /// Makes the entry for the request path `path` below the root
    /// directory `dist`: validates the path, refuses one that the negative
    /// cache holds, and lets `probe` look at the file. `probe` is only
    /// called for a valid path that the cache does not hold, and with the
    /// path of the file.
    pub fn new<F>(
        dist: &[u8],
        path: PathIter,
        bc: &mut Option<NegativeCache>,
        reload: bool,
        probe: F,
    ) -> (r: Result<Self, ErrorKind>) where F: FnOnce(&[u8]) -> Probe
        requires
            cache_wf(*old(bc)),
            verdict(path.segments(), keys_of(*old(bc)), true) is Made ==> forall|p: &[u8]|
                p@ == pushed(dist@, relative(path.segments())) ==> call_requires(probe, (p,)),
        ensures
            cache_wf(*final(bc)),
            cap_of(*final(bc)) == cap_of(*old(bc)),
            verdict(path.segments(), keys_of(*old(bc)), true) is Made ==> exists|
                full: &[u8],
                found: Probe,
            |
                {
                    &&& full@ == pushed(dist@, relative(path.segments()))
                    &&& #[trigger] call_ensures(probe, (full,), found)
                    &&& outcome(
                        r,
                        keys_of(*final(bc)),
                        path.segments(),
                        keys_of(*old(bc)),
                        cap_of(*old(bc)),
                        full@,
                        found,
                        reload,
                    )
                },
            !(verdict(path.segments(), keys_of(*old(bc)), true) is Made) ==> outcome(
                r,
                keys_of(*final(bc)),
                path.segments(),
                keys_of(*old(bc)),
                cap_of(*old(bc)),
                pushed(dist@, relative(path.segments())),
                Probe { exists: true, mime: None },
                reload,
            ),
    {
        match Self::resolve(dist, path) {
            Err(e) => Err(e),
            Ok((key, full)) => match Self::check_cache(key.as_slice(), bc) {
                Err(e) => Err(e),
                Ok(_) => {
                    let found = probe(full.as_slice());
                    Self::from_probe(key, full, found, bc, reload)
                },
            },
        }
    }

    /// Every part of the entry but its content is as in `before`.
    pub open spec fn same_file_as(&self, before: Self) -> bool {
        &&& self.target() == before.target()
        &&& self.watermark() == before.watermark()
        &&& self.mime_view() == before.mime_view()
        &&& self.reloads() == before.reloads()
    }

    /// Takes what a read of the file has brought: the content of an entry
    /// that had none.
    pub fn finish_load(&mut self, bytes: Vec<u8>)
        requires
            old(self).wf(),
        ensures
            final(self).wf(),
            final(self).file_view() == old(self).file_view().loaded(bytes@),
            final(self).same_file_as(*old(self)),
    {
        self.file.finish_load(bytes);
    }

    /// Whether the file is to be read again, given its modification time
    /// in seconds, or `None` where that could not be had. An entry that
    /// does not reload never asks for it.
    pub fn maybe(&mut self, modified: Option<u64>) -> (r: bool)
        requires
            old(self).wf(),
        ensures
            final(self).wf(),
            final(self).file_view() == old(self).file_view(),
            final(self).target() == old(self).target(),
            final(self).mime_view() == old(self).mime_view(),
            final(self).reloads() == old(self).reloads(),
            match modified {
                Some(m) => if old(self).reloads() {
                    &&& r == crate::reload::due(old(self).watermark(), m)
                    &&& final(self).watermark() == crate::reload::advanced(
                        old(self).watermark(),
                        m,
                    )
                } else {
                    !r && final(self).watermark() == old(self).watermark()
                },
                None => !r && final(self).watermark() == old(self).watermark(),
            },
    {
        if self.file.is_reloading() {
            self.reload.maybe(modified)
        } else {
            false
        }
    }

    /// Replaces the content after the file was read again. For entries
    /// that reload only.
    pub fn replace_src(&mut self, new: Vec<u8>)
        requires
            old(self).wf(),
            old(self).reloads(),
        ensures
            final(self).wf(),
            final(self).file_view() == old(self).file_view().replaced(new@),
            final(self).same_file_as(*old(self)),
    {
        self.file.replace_src(new);
    }

    /// The entry's content and when to read it.
    pub fn file(&self) -> (f: &LazyFile)
        ensures
            f@ == self.file_view(),
            f.wf() == self.wf(),
            f.reloads() == self.reloads(),
    {
        &self.file
    }

    /// The content type to send the file as.
    pub fn mime(&self) -> (m: &'static str)
        ensures
            m@ == self.mime_view(),
    {
        self.mime
    }

    /// The path of the file.
    pub fn path(&self) -> (p: &[u8])
        ensures
            p@ == self.target(),
    {
        self.reload.path()
    }
}

/// The path that a request line asks for: what follows `GET /`. `None` for
/// a line that does not start so.
pub open spec fn request_path(raw: Seq<u8>) -> Option<Seq<u8>> {
    if raw.len() >= 5 && raw.take(5) == method_tag() {
        Some(raw.skip(5))
    } else {
        None
    }
}

/// Routes requests below one root directory. The trie maps each path to the
/// index of its entry. Entries are kept in the order in which they were
/// made and never move, so an index once handed out always names the same
/// entry.
pub struct DistHandler<'b> {
    seen: Tree<'b, usize>,
    entries: Vec<DistReload>,
    dist: Vec<u8>,
    bc: Option<NegativeCache>,
    reload: bool,
}

impl DistHandler<'static> {
    /// A handler for the files below `dist`, over a trie that lives as long
    /// as the program. `bad_cache` is the capacity of the negative cache,
    /// 0 for none. `reload` says whether entries read their file again when
    /// it has changed.
    pub fn new(dist: Vec<u8>, bad_cache: usize, reload: bool) -> (h: Self)
        ensures
            h.wf(),
            h.root() == dist@,
            h.reloads() == reload,
            h.keys() == if bad_cache > 0 {
                Some(Seq::<Seq<u8>>::empty())
            } else {
                None
            },
            h.capacity() == bad_cache,
            h.entries() == Seq::<DistReload>::empty(),
            h.tree() == seq![
                NodeView::<usize> {
                    prefix: Seq::empty(),
                    priority: 0,
                    children: Seq::empty(),
                    value: None,
                },
            ],
    {
        let bc = if bad_cache > 0 {
            Some(NegativeCache::new(bad_cache))
        } else {
            None
        };
        Self { seen: Tree::new_static(), entries: Vec::new(), dist, bc, reload }
    }
}

impl<'b> DistHandler<'b> {
    /// The nodes of the trie. The value of a node is the index of an entry.
    pub closed spec fn tree(&self) -> Seq<NodeView<usize>> {
        self.seen@
    }

    /// The entries, in the order in which they were made.
    pub closed spec fn entries(&self) -> Seq<DistReload> {
        self.entries@
    }

    /// The keys of the negative cache, if there is one.
    pub closed spec fn keys(&self) -> Option<Seq<Seq<u8>>> {
        keys_of(self.bc)
    }

    /// The capacity of the negative cache, 0 without one.
    pub closed spec fn capacity(&self) -> nat {
        cap_of(self.bc)
    }

    /// The root directory.
    pub closed spec fn root(&self) -> Seq<u8> {
        self.dist@
    }

    /// Whether entries read their file again when it has changed.
    pub closed spec fn reloads(&self) -> bool {
        self.reload
    }

    /// The negative cache is well-formed, if there is one.
    pub closed spec fn cache_ok(&self) -> bool {
        cache_wf(self.bc)
    }

    /// Trie and cache are well-formed, every value of the trie is the
    /// index of an entry, and every entry is well-formed.
    pub open spec fn wf(&self) -> bool {
        &&& wf_nodes(self.tree())
        &&& acyclic(self.tree())
        &&& self.cache_ok()
        &&& forall|j: int|
            0 <= j < self.tree().len() && (#[trigger] self.tree()[j]).value is Some
                ==> self.tree()[j].value->0 < self.entries().len()
        &&& forall|h: int|
            0 <= h < self.entries().len() ==> (#[trigger] self.entries()[h]).wf()
                && self.entries()[h].reloads() == self.reloads()
    }

    /// Whether routing the request line `raw` asks the probe: only for a
    /// path that the trie holds no entry for, that is valid, and that the
    /// negative cache does not hold.
    pub open spec fn asks(&self, raw: Seq<u8>) -> bool {
        &&& request_path(raw) matches Some(rest)
        &&& !at_terminal(rest)
        &&& stored(self.tree(), rest, false) is None
        &&& verdict(segments_of(rest), self.keys(), true) is Made
    }

    /// How routing ends for a path that the trie holds no entry for, given
    /// what the probe `found`. The entry, if one is made, is added behind
    /// the entries there are, and its index is stored in the trie for the
    /// segments `left` below the place where the lookup ended.
    pub open spec fn routed(
        &self,
        before: Self,
        r: Result<Option<usize>, ErrorKind>,
        seen: Seq<NodeView<usize>>,
        place: Place,
        left: Seq<Seq<u8>>,
        segs: Seq<Seq<u8>>,
        found: Probe,
    ) -> bool {
        &&& self.keys() == keys_after(segs, before.keys(), before.capacity(), found.exists)
        &&& match verdict(segs, before.keys(), found.exists) {
            Verdict::Invalid => r == Err::<Option<usize>, ErrorKind>(ErrorKind::InvalidInput)
                && self.tree() == seen && self.entries() == before.entries(),
            Verdict::Cached => r == Err::<Option<usize>, ErrorKind>(ErrorKind::NotFound)
                && self.tree() == seen && self.entries() == before.entries(),
            Verdict::Missing => r == Err::<Option<usize>, ErrorKind>(ErrorKind::NotFound)
                && self.tree() == seen && self.entries() == before.entries(),
            Verdict::Made => {
                &&& r == Ok::<Option<usize>, ErrorKind>(Some(before.entries().len() as usize))
                &&& self.entries().len() == before.entries().len() + 1
                &&& self.entries() == before.entries().push(self.entries().last())
                &&& self.entries().last().fresh(
                    pushed(before.root(), relative(segs)),
                    found,
                    before.reloads(),
                )
                &&& self.tree() == placed(seen, place, left, before.entries().len() as usize).0
            },
        }
    }

    /// Routes the request line `raw`. `Ok(None)` stands for the default
    /// resource: the line asks for no path. Otherwise the result is the
    /// index of the entry for exactly this path. An entry that the trie
    /// holds is handed out as it is, and `probe` is not called. For any
    /// other path an entry is made: the path is validated, looked up in the
    /// negative cache, and `probe` is asked about the file. A line that
    /// does not start with `GET /` is `InvalidInput`. No entry that was
    /// there changes, and none changes its index.
    pub fn try_route<F>(&mut self, raw: &[u8], probe: F) -> (r: Result<Option<usize>, ErrorKind>)
        where F: FnOnce(&[u8]) -> Probe
        requires
            old(self).wf(),
            old(self).asks(raw@) ==> forall|p: &[u8]|
                p@ == pushed(old(self).root(), relative(segments_of(request_path(raw@)->0)))
                    ==> call_requires(probe, (p,)),
        ensures
            final(self).wf(),
            final(self).root() == old(self).root(),
            final(self).reloads() == old(self).reloads(),
            final(self).capacity() == old(self).capacity(),
            match request_path(raw@) {
                None => {
                    &&& r == Err::<Option<usize>, ErrorKind>(ErrorKind::InvalidInput)
                    &&& final(self).tree() == old(self).tree()
                    &&& final(self).entries() == old(self).entries()
                    &&& final(self).keys() == old(self).keys()
                },
                Some(rest) => if at_terminal(rest) {
                    &&& r == Ok::<Option<usize>, ErrorKind>(None)
                    &&& final(self).tree() == old(self).tree()
                    &&& final(self).entries() == old(self).entries()
                    &&& final(self).keys() == old(self).keys()
                } else {
                    let w = locate(old(self).tree(), rest, false);
                    let seen = visited(old(self).tree(), w.trail);
                    let left = segments_of(rest.skip(w.consumed));
                    match stored(old(self).tree(), rest, false) {
                        Some(id) => {
                            &&& r == Ok::<Option<usize>, ErrorKind>(Some(id))
                            &&& id < old(self).entries().len()
                            &&& final(self).tree() == seen
                            &&& final(self).entries() == old(self).entries()
                            &&& final(self).keys() == old(self).keys()
                        },
                        None => if verdict(segments_of(rest), old(self).keys(), true) is Made {
                            exists|full: &[u8], found: Probe|
                                {
                                    &&& full@ == pushed(
                                        old(self).root(),
                                        relative(segments_of(rest)),
                                    )
                                    &&& #[trigger] call_ensures(probe, (full,), found)
                                    &&& final(self).routed(
                                        *old(self),
                                        r,
                                        seen,
                                        w.place,
                                        left,
                                        segments_of(rest),
                                        found,
                                    )
                                }
                        } else {
                            final(self).routed(
                                *old(self),
                                r,
                                seen,
                                w.place,
                                left,
                                segments_of(rest),
                                Probe { exists: true, mime: None },
                            )
                        },
                    }
                },
            },
    {
        match get_req_path(raw) {
            Err(_) => Err(ErrorKind::InvalidInput),
            Ok(path) => {
                if path.next_known_terminal() {
                    return Ok(None);
                }
                let ghost rest = path.rest();
                let ghost nodes0 = self.seen@;
                let ghost w = locate(nodes0, rest, false);
                proof {
                    assert(raw@.skip(5).skip(0) == raw@.skip(5));
                    lemma_visited_shape(nodes0, w.trail);
                }
                let mut cursor = path;
                let acq = self.seen.acquire(&mut cursor);
                let ghost seen = self.seen@;
                proof {
                    assert forall|j: int|
                        0 <= j < seen.len() && (#[trigger] seen[j]).value is Some implies seen[j].value->0
                        < self.entries@.len() by {
                        assert(seen[j].value == nodes0[j].value);
                    }
                }
                match acq {
                    Acquired::Exact(i) => {
                        assert(seen[i as int].value == nodes0[i as int].value);
                        match self.seen.value(i) {
                            Some(id) => {
                                return Ok(Some(*id));
                            },
                            None => {},
                        }
                    },
                    _ => {},
                }
                assert(stored(nodes0, rest, false) is None);
                match DistReload::new(self.dist.as_slice(), path, &mut self.bc, self.reload, probe) {
                    Ok(entry) => {
                        let id = self.entries.len();
                        proof {
                            let fits = |h: usize| h < id + 1;
                            assert forall|j: int|
                                0 <= j < seen.len() && (#[trigger] seen[j]).value is Some implies fits(
                                seen[j].value->0,
                            ) by {}
                            lemma_placed_values(seen, acq.place(), acq.segments(), id, fits);
                            assert(acq.place() is Exact || acq.segments() == cursor.segments());
                        }
                        self.entries.push(entry);
                        self.seen.store(acq, id);
                        Ok(Some(id))
                    },
                    Err(e) => Err(e),
                }
            },
        }
    }

    /// The entry with the index `id`, if there is one.
    pub fn entry(&self, id: usize) -> (e: Option<&DistReload>)
        requires
            self.wf(),
        ensures
            match e {
                Some(entry) => id < self.entries().len() && *entry == self.entries()[id as int]
                    && entry.wf() && entry.reloads() == self.reloads(),
                None => id >= self.entries().len(),
            },
    {
        if id < self.entries.len() {
            Some(&self.entries[id])
        } else {
            None
        }
    }

    /// Only the entry `id` may differ from what it was in `before`.
    pub open spec fn only_changed(&self, before: Self, id: int) -> bool {
        &&& self.root() == before.root()
        &&& self.reloads() == before.reloads()
        &&& self.capacity() == before.capacity()
        &&& self.keys() == before.keys()
        &&& self.tree() == before.tree()
        &&& self.entries().len() == before.entries().len()
        &&& forall|h: int|
            0 <= h < self.entries().len() && h != id ==> self.entries()[h] == before.entries()[h]
    }

    /// Hands what a read of its file has brought to the entry `id`.
    /// Nothing happens where there is no such entry.
    pub fn finish_load(&mut self, id: usize, bytes: Vec<u8>)
        requires
            old(self).wf(),
        ensures
            final(self).wf(),
            final(self).only_changed(*old(self), id as int),
            id < old(self).entries().len() ==> {
                &&& final(self).entries()[id as int].file_view() == old(self).entries()[id as int].file_view().loaded(
                    bytes@,
                )
                &&& final(self).entries()[id as int].same_file_as(old(self).entries()[id as int])
            },
    {
        if id < self.entries.len() {
            self.entries[id].finish_load(bytes);
        }
    }

    /// Whether the file of the entry `id` is to be read again, given its
    /// modification time. Never where there is no such entry.
    pub fn maybe(&mut self, id: usize, modified: Option<u64>) -> (r: bool)
        requires
            old(self).wf(),
        ensures
            final(self).wf(),
            final(self).only_changed(*old(self), id as int),
            if id < old(self).entries().len() {
                let before = old(self).entries()[id as int];
                let after = final(self).entries()[id as int];
                &&& after.file_view() == before.file_view()
                &&& after.target() == before.target()
                &&& after.mime_view() == before.mime_view()
                &&& match modified {
                    Some(m) => if old(self).reloads() {
                        r == crate::reload::due(before.watermark(), m) && after.watermark()
                            == crate::reload::advanced(before.watermark(), m)
                    } else {
                        !r && after.watermark() == before.watermark()
                    },
                    None => !r && after.watermark() == before.watermark(),
                }
            } else {
                !r
            },
    {
        if id < self.entries.len() {
            self.entries[id].maybe(modified)
        } else {
            false
        }
    }

    /// Replaces the content of the entry `id` after its file was read
    /// again. Nothing happens where there is no such entry, or where
    /// entries do not reload.
    pub fn replace_src(&mut self, id: usize, new: Vec<u8>)
        requires
            old(self).wf(),
        ensures
            final(self).wf(),
            final(self).only_changed(*old(self), id as int),
            if id < old(self).entries().len() && old(self).reloads() {
                &&& final(self).entries()[id as int].file_view() == old(self).entries()[id as int].file_view().replaced(
                    new@,
                )
                &&& final(self).entries()[id as int].same_file_as(old(self).entries()[id as int])
            } else {
                final(self).entries() == old(self).entries()
            },
    {
        if self.reload && id < self.entries.len() {
            self.entries[id].replace_src(new);
        }
    }
}

/// The bytes read of one request, in a buffer of fixed size.
pub struct Buf<const C: usize> {
    buf: [u8; C],
    len: usize,
}

impl<const C: usize> Buf<C> {
    #[verifier::type_invariant]
    spec fn inv(self) -> bool {
        self.len <= C
    }

    /// What was read into the buffer.
    pub closed spec fn view(&self) -> Seq<u8> {
        self.buf@.take(self.len as int)
    }

    /// A buffer of which the first `len` bytes were read, at most all of
    /// them.
    pub fn new(buf: [u8; C], len: usize) -> (b: Self)
        ensures
            b@ == buf@.take(if len <= C {
                len as int
            } else {
                C as int
            }),
    {
        Self { buf, len: if len <= C { len } else { C } }
    }

    /// The bytes read.
    pub fn get<'a>(&'a self) -> (r: &'a [u8])
        ensures
            r@ == self@,
    {
        proof {
            use_type_invariant(self);
        }
        let all = self.buf.as_slice();
        proof {
            assert(all@.subrange(0, self.len as int) == self.buf@.take(self.len as int));
        }
        &all[0..self.len]
    }
}

/// The default resource: the file that is served where a request asks for
/// no path.
pub struct IndexFile {
    pub file: LazyFile,
    pub reload: Reload,
}

impl IndexFile {
    /// The entry of the file at `path`, which the caller has probed:
    /// `exists` says whether it is there. A file that is not, is
    /// `NotFound`.
    pub fn new(path: Vec<u8>, exists: bool, reload: bool) -> (r: Result<Self, ErrorKind>)
        ensures
            match r {
                Ok(index) => {
                    &&& exists
                    &&& index.file.wf()
                    &&& index.file@ == LazyState::Pending(path@)
                    &&& index.file.reloads() == reload
                    &&& index.reload.target() == path@
                    &&& index.reload.watermark() == 0
                },
                Err(e) => !exists && e == ErrorKind::NotFound,
            },
    {
        let watched = slice_to_vec(path.as_slice());
        match LazyFile::new(path, exists, reload) {
            Ok(file) => Ok(Self { file, reload: Reload::new(watched) }),
            Err(e) => Err(e),
        }
    }
}

} // verus!
