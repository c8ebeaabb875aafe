//! The medium of one persistent-cache container.

use vstd::prelude::*;

use super::container;

verus! {

/// Why an operation on the medium failed.
#[derive(Clone, Copy, Debug, PartialEq, Eq, Structural)]
pub enum MediaError {
    /// The file system reported an error.
    Io,
    /// The media is gone for good.
    PermanentlyUnavailable,
    /// The media is detached.
    Detached,
    /// The handle was opened before a crash or a removal.
    StaleHandle,
    /// Another handle has the container.
    Locked,
    /// The container does not exist.
    Missing,
    /// The access exceeds the file.
    OutOfBounds,
    /// The file length does not fit in memory.
    TooLong,
    /// The write took effect in part.
    PartialWrite,
    /// The operation failed before taking effect.
    Injected,
    /// The operation stays pending until the media fails.
    Pending,
}

impl MediaError {
    /// Describes the error.
    pub fn message(self) -> (r: &'static str)
        ensures
            r@ == (match self {
                MediaError::Io => "cache-media operation failed"@,
                MediaError::PermanentlyUnavailable =>
                    "simulated cache media is permanently unavailable"@,
                MediaError::Detached => "simulated cache media is detached"@,
                MediaError::StaleHandle => "simulated cache-media handle is stale"@,
                MediaError::Locked => "simulated cache media is already locked"@,
                MediaError::Missing => "simulated cache container does not exist"@,
                MediaError::OutOfBounds => "simulated cache-media access is out of bounds"@,
                MediaError::TooLong => "file length is too large"@,
                MediaError::PartialWrite => "simulated partial cache-media write failure"@,
                MediaError::Injected =>
                    "simulated cache-media operation failed before taking effect"@,
                MediaError::Pending => "simulated cache-media operation is pending"@,
            }),
    {
        match self {
            MediaError::Io => "cache-media operation failed",
            MediaError::PermanentlyUnavailable => {
                "simulated cache media is permanently unavailable"
            },
            MediaError::Detached => "simulated cache media is detached",
            MediaError::StaleHandle => "simulated cache-media handle is stale",
            MediaError::Locked => "simulated cache media is already locked",
            MediaError::Missing => "simulated cache container does not exist",
            MediaError::OutOfBounds => "simulated cache-media access is out of bounds",
            MediaError::TooLong => "file length is too large",
            MediaError::PartialWrite => "simulated partial cache-media write failure",
            MediaError::Injected => {
                "simulated cache-media operation failed before taking effect"
            },
            MediaError::Pending => "simulated cache-media operation is pending",
        }
    }
}

/// A file cut to a length, or extended with zeros.
pub open spec fn resized(content: Seq<u8>, len: int) -> Seq<u8> {
    Seq::new(
        len as nat,
        |i: int|
            if i < content.len() {
                content[i]
            } else {
                0
            },
    )
}

/// The bytes of a file, as contracts speak of them.
pub type FileContent = Seq<u8>;

/// An exclusively opened cache container.
///
/// An operation that succeeds has done what was asked. A file that works does
/// what it is asked whenever the access lies inside it; a file may stop working
/// at any time.
pub trait CacheFile {
    /// The bytes of the file.
    spec fn content(&self) -> FileContent;

    /// The file works.
    spec fn works(&self) -> bool;

    /// Returns the length of the file.
    fn len(&mut self) -> (r: Result<u64, MediaError>)
        ensures
            final(self).content() == old(self).content(),
            r matches Ok(len) ==> len == old(self).content().len(),
            old(self).works() ==> r is Ok && final(self).works(),
    ;

    /// Cuts the file, or extends it with zeros.
    fn set_len(&mut self, len: u64) -> (r: Result<(), MediaError>)
        ensures
            r is Ok ==> final(self).content() == resized(old(self).content(), len as int),
            old(self).works() && len <= usize::MAX ==> r is Ok && final(self).works(),
    ;

    /// Reserves room for the first `len` bytes.
    fn allocate(&mut self, len: u64) -> (r: Result<(), MediaError>)
        ensures
            len <= old(self).content().len() ==> final(self).content() == old(self).content(),
            old(self).works() && len <= old(self).content().len() ==> r is Ok && final(self).works(),
    ;

    /// Reads `len` bytes at an offset.
    fn read_exact_at(&mut self, offset: u64, len: usize) -> (r: Result<Vec<u8>, MediaError>)
        ensures
            final(self).content() == old(self).content(),
            r matches Ok(bytes) ==> {
                &&& offset + len <= old(self).content().len()
                &&& bytes@ == container::read_at(
                    old(self).content(),
                    offset as int,
                    len as int,
                )
            },
            old(self).works() && offset + len <= old(self).content().len() ==> r is Ok && final(self).works(),
    ;

    /// Writes bytes at an offset.
    fn write_all_at(&mut self, bytes: &[u8], offset: u64) -> (r: Result<(), MediaError>)
        ensures
            r is Ok ==> {
                &&& offset + bytes@.len() <= old(self).content().len()
                &&& final(self).content() == container::write_at(
                    old(self).content(),
                    offset as int,
                    bytes@,
                )
            },
            old(self).works() && offset + bytes@.len() <= old(self).content().len() ==> r is Ok
                && final(self).works(),
    ;

    /// Makes the bytes durable.
    fn sync_data(&mut self) -> (r: Result<(), MediaError>)
        ensures
            final(self).content() == old(self).content(),
            old(self).works() ==> r is Ok && final(self).works(),
    ;

    /// Makes the bytes and the existence of the file durable.
    fn sync_all(&mut self) -> (r: Result<(), MediaError>)
        ensures
            final(self).content() == old(self).content(),
            old(self).works() ==> r is Ok && final(self).works(),
    ;
}

/// A file whose successful reads and writes are counted.
pub struct Metered<F> {
    file: F,
    bytes_read: u64,
    bytes_written: u64,
}

impl<F: CacheFile> Metered<F> {
    /// The file.
    pub closed spec fn spec_file(&self) -> F {
        self.file
    }

    /// The bytes that were read and written, modulo the counters' range.
    pub closed spec fn counted(&self) -> (u64, u64) {
        (self.bytes_read, self.bytes_written)
    }

    /// Counts the accesses to a file from now on.
    pub fn new(file: F) -> (r: Self)
        ensures
            r.spec_file() == file,
            r.content() == file.content(),
            r.works() == file.works(),
            r.counted() == (0u64, 0u64),
    {
        Metered { file, bytes_read: 0, bytes_written: 0 }
    }

    /// Takes what was counted since the last time: the bytes read and the bytes
    /// written.
    pub fn take_counts(&mut self) -> (r: (u64, u64))
        ensures
            r == old(self).counted(),
            final(self).counted() == (0u64, 0u64),
            final(self).spec_file() == old(self).spec_file(),
            final(self).content() == old(self).content(),
            final(self).works() == old(self).works(),
    {
        let counts: (u64, u64) = (self.bytes_read, self.bytes_written);
        self.bytes_read = 0;
        self.bytes_written = 0;
        counts
    }

    /// Gives the file back.
    pub fn into_file(self) -> (r: F)
        ensures
            r == self.spec_file(),
    {
        self.file
    }
}

impl<F: CacheFile> CacheFile for Metered<F> {
    closed spec fn content(&self) -> Seq<u8> {
        self.file.content()
    }

    closed spec fn works(&self) -> bool {
        self.file.works()
    }

    fn len(&mut self) -> (r: Result<u64, MediaError>)
        ensures
            final(self).counted() == old(self).counted(),
    {
        self.file.len()
    }

    fn set_len(&mut self, len: u64) -> (r: Result<(), MediaError>)
        ensures
            final(self).counted() == old(self).counted(),
    {
        self.file.set_len(len)
    }

    fn allocate(&mut self, len: u64) -> (r: Result<(), MediaError>)
        ensures
            final(self).counted() == old(self).counted(),
    {
        self.file.allocate(len)
    }

    fn read_exact_at(&mut self, offset: u64, len: usize) -> (r: Result<Vec<u8>, MediaError>)
        ensures
            final(self).counted().0 == if r is Ok {
                old(self).counted().0.wrapping_add(len as u64)
            } else {
                old(self).counted().0
            },
            final(self).counted().1 == old(self).counted().1,
    {
        let r = self.file.read_exact_at(offset, len);
        if r.is_ok() {
            self.bytes_read = self.bytes_read.wrapping_add(len as u64);
        }
        r
    }

    fn write_all_at(&mut self, bytes: &[u8], offset: u64) -> (r: Result<(), MediaError>)
        ensures
            final(self).counted().0 == old(self).counted().0,
            final(self).counted().1 == if r is Ok {
                old(self).counted().1.wrapping_add(bytes@.len() as u64)
            } else {
                old(self).counted().1
            },
    {
        let r = self.file.write_all_at(bytes, offset);
        if r.is_ok() {
            self.bytes_written = self.bytes_written.wrapping_add(bytes.len() as u64);
        }
        r
    }

    fn sync_data(&mut self) -> (r: Result<(), MediaError>)
        ensures
            final(self).counted() == old(self).counted(),
    {
        self.file.sync_data()
    }

    fn sync_all(&mut self) -> (r: Result<(), MediaError>)
        ensures
            final(self).counted() == old(self).counted(),
    {
        self.file.sync_all()
    }
}

} // verus!
