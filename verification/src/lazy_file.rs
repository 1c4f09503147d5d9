//! The content of one file, loaded when it is first asked for and kept from
//! then on. The file itself is read elsewhere: an entry says when a read is
//! due, and takes what was read.

use vstd::prelude::*;
use crate::error::ErrorKind;

verus! {

/// A value that is meant to have a cache line to itself.
pub struct CachePadded<T>(pub T);

/// Whether the content is there yet. While it is not, the path to read it
/// from.
pub enum LazyFileInner {
    /// The content is there.
    Ready,
    /// The content is still to be read from the file at this path.
    Pending(Vec<u8>),
}

impl LazyFileInner {
    /// Makes the state `Ready` and hands out the path if it was pending.
    pub fn pending_swap(&mut self) -> (r: Option<Vec<u8>>)
        ensures
            *final(self) is Ready,
            r == match *old(self) {
                LazyFileInner::Pending(path) => Some(path),
                LazyFileInner::Ready => None,
            },
    {
        let mut taken = LazyFileInner::Ready;
        core::mem::swap(self, &mut taken);
        match taken {
            LazyFileInner::Pending(path) => Some(path),
            LazyFileInner::Ready => None,
        }
    }
}

/// The state of an entry, as plain values: the path of a file not yet read,
/// or the content read.
pub enum LazyState {
    /// Nothing was read yet from the file at this path.
    Pending(Seq<u8>),
    /// This is the content.
    Ready(Seq<u8>),
}

/// What a write has to do next, as plain values.
pub enum Step {
    /// Read the file at this path, then hand in what was read.
    Load(Seq<u8>),
    /// Send this content.
    Send(Seq<u8>),
}

impl LazyState {
    /// What a write has to do in this state.
    pub open spec fn step(self) -> Step {
        match self {
            LazyState::Pending(path) => Step::Load(path),
            LazyState::Ready(content) => Step::Send(content),
        }
    }

    /// The state after a read has brought `bytes`: they become the content
    /// of a pending entry, and change nothing once content is there.
    pub open spec fn loaded(self, bytes: Seq<u8>) -> LazyState {
        match self {
            LazyState::Pending(_) => LazyState::Ready(bytes),
            LazyState::Ready(content) => LazyState::Ready(content),
        }
    }

    /// The state after the content has been replaced by `bytes`.
    pub open spec fn replaced(self, bytes: Seq<u8>) -> LazyState {
        LazyState::Ready(bytes)
    }
}

/// What a write has to do next.
pub enum WriteStep<'a> {
    /// Read the file at this path, then call `finish_load`.
    Load(&'a [u8]),
    /// Send this content.
    Send(&'a [u8]),
}

impl<'a> WriteStep<'a> {
    /// The step as plain values.
    pub open spec fn view(self) -> Step {
        match self {
            WriteStep::Load(path) => Step::Load(path@),
            WriteStep::Send(content) => Step::Send(content@),
        }
    }
}

/// One file's content, read at most once unless reloading is on.
pub struct LazyFile {
    inner: LazyFileInner,
    src: Option<Vec<u8>>,
    loaded: CachePadded<bool>,
    reload: bool,
}

impl LazyFile {
    /// Content is held exactly when the state is `Ready`, and the flag for
    /// the lock-free path is up exactly when content is held that will not
    /// be replaced.
    pub closed spec fn wf(&self) -> bool {
        &&& self.inner is Ready <==> self.src is Some
        &&& self.loaded.0 <==> self.src is Some && !self.reload
    }

    /// The state as plain values.
    pub closed spec fn view(&self) -> LazyState {
        match self.inner {
            LazyFileInner::Pending(path) => LazyState::Pending(path@),
            LazyFileInner::Ready => LazyState::Ready(
                match self.src {
                    Some(content) => content@,
                    None => Seq::empty(),
                },
            ),
        }
    }

    /// Whether the content may be replaced after it was loaded.
    pub closed spec fn reloads(&self) -> bool {
        self.reload
    }

    /// An entry for the file at `path`, which the caller has probed:
    /// `exists` says whether it is there. A file that is not, is `NotFound`.
    pub fn new(path: Vec<u8>, exists: bool, reload: bool) -> (r: Result<Self, ErrorKind>)
        ensures
            match r {
                Ok(file) => {
                    &&& exists
                    &&& file.wf()
                    &&& file@ == LazyState::Pending(path@)
                    &&& file.reloads() == reload
                },
                Err(e) => !exists && e == ErrorKind::NotFound,
            },
    {
        if exists {
            Ok(
                Self {
                    inner: LazyFileInner::Pending(path),
                    src: None,
                    loaded: CachePadded(false),
                    reload,
                },
            )
        } else {
            Err(ErrorKind::NotFound)
        }
    }

    /// Whether content is held that will never change: it may then be read
    /// without any lock.
    pub fn is_loaded(&self) -> (r: bool)
        requires
            self.wf(),
        ensures
            r == (self@ is Ready && !self.reloads()),
    {
        self.loaded.0
    }

    /// Whether the content may be replaced after it was loaded.
    pub fn is_reloading(&self) -> (r: bool)
        ensures
            r == self.reloads(),
    {
        self.reload
    }

    /// What a write has to do now: read the file first, or send the content.
    pub fn write(&self) -> (r: WriteStep<'_>)
        requires
            self.wf(),
        ensures
            r@ == self@.step(),
    {
        match &self.inner {
            LazyFileInner::Pending(path) => WriteStep::Load(path.as_slice()),
            LazyFileInner::Ready => match &self.src {
                Some(content) => WriteStep::Send(content.as_slice()),
                None => WriteStep::Send(&[]),
            },
        }
    }

    /// Takes what a read of the file has brought. A pending entry becomes
    /// ready with `bytes` as its content. An entry that has content keeps
    /// it.
    pub fn finish_load(&mut self, bytes: Vec<u8>)
        requires
            old(self).wf(),
        ensures
            final(self).wf(),
            final(self)@ == old(self)@.loaded(bytes@),
            final(self).reloads() == old(self).reloads(),
    {
        match self.inner.pending_swap() {
            Some(_) => {
                self.src = Some(bytes);
                self.loaded = CachePadded(!self.reload);
            },
            None => {},
        }
    }

    /// Replaces the content, whatever the state was. For entries that
    /// reload only.
    pub fn replace_src(&mut self, new: Vec<u8>)
        requires
            old(self).wf(),
            old(self).reloads(),
        ensures
            final(self).wf(),
            final(self)@ == old(self)@.replaced(new@),
            final(self).reloads(),
    {
        self.inner.pending_swap();
        self.src = Some(new);
    }

    /// The content, once it is there.
    pub fn content(&self) -> (r: Option<&[u8]>)
        requires
            self.wf(),
        ensures
            match r {
                Some(content) => self@ == LazyState::Ready(content@),
                None => self@ is Pending,
            },
    {
        match &self.src {
            Some(content) => Some(content.as_slice()),
            None => None,
        }
    }
}

/// A pending entry asks for exactly one read, of its own path. Once that
/// read is handed in, every write sends what it brought, and a later read
/// changes nothing.
pub proof fn law_loads_once(path: Seq<u8>, first: Seq<u8>, later: Seq<u8>)
    ensures
        LazyState::Pending(path).step() == Step::Load(path),
        LazyState::Pending(path).loaded(first).step() == Step::Send(first),
        LazyState::Pending(path).loaded(first).loaded(later) == LazyState::Pending(path).loaded(
            first,
        ),
{
}

/// After the content is replaced, writes send the new content whole,
/// whatever the state was before.
pub proof fn law_replaced_in_full(before: LazyState, fresh: Seq<u8>)
    ensures
        before.replaced(fresh).step() == Step::Send(fresh),
{
}

} // verus!
