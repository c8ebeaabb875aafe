//! Deterministic byte-level media for one persistent-cache container.
//!
//! The state of the media is here; a caller draws the fault decisions and
//! waits where an operation is delayed.

use vstd::prelude::*;

use super::container;
use super::media::{self, CacheFile};

pub use super::media::MediaError;

verus! {

/// Breadth of media faults.
#[derive(Clone, Copy, Debug, PartialEq, Eq, Structural)]
pub enum MediaFaultProfile {
    /// Operations succeed.
    Healthy,
    /// Operations may be delayed or fail before taking effect.
    Selected,
    /// Operations may additionally write partially or remain pending.
    Full,
}

/// What happens to one operation.
#[derive(Clone, Copy, Debug, PartialEq, Eq, Structural)]
pub enum OperationFate {
    /// The operation takes effect.
    Complete,
    /// The operation takes effect after a delay.
    Delay,
    /// The operation fails before taking effect.
    Fail,
    /// A write takes effect in part and fails.
    Partial,
    /// The operation stays pending until the media fails.
    Pending,
}

/// Below this decision a selected operation completes.
pub const SELECTED_COMPLETE_CUTOFF: u8 = 240;

/// Below this decision a selected operation is delayed at worst.
pub const SELECTED_DELAY_CUTOFF: u8 = 248;

/// Below this decision any operation completes.
pub const FULL_COMPLETE_CUTOFF: u8 = 224;

/// Below this decision any operation is delayed at worst.
pub const FULL_DELAY_CUTOFF: u8 = 240;

/// Below this decision any operation fails at worst.
pub const FULL_ERROR_CUTOFF: u8 = 248;

/// Below this decision any write is cut short at worst.
pub const FULL_PARTIAL_CUTOFF: u8 = 252;

/// What a decision does to an operation under a profile.
pub open spec fn fate(profile: MediaFaultProfile, decision: u8, writes: bool) -> OperationFate {
    match profile {
        MediaFaultProfile::Healthy => OperationFate::Complete,
        MediaFaultProfile::Selected => if decision < SELECTED_COMPLETE_CUTOFF {
            OperationFate::Complete
        } else if decision < SELECTED_DELAY_CUTOFF {
            OperationFate::Delay
        } else {
            OperationFate::Fail
        },
        MediaFaultProfile::Full => if decision < FULL_COMPLETE_CUTOFF {
            OperationFate::Complete
        } else if decision < FULL_DELAY_CUTOFF {
            OperationFate::Delay
        } else if decision < FULL_ERROR_CUTOFF {
            OperationFate::Fail
        } else if decision < FULL_PARTIAL_CUTOFF {
            if writes {
                OperationFate::Partial
            } else {
                OperationFate::Fail
            }
        } else {
            OperationFate::Pending
        },
    }
}

impl MediaFaultProfile {
    /// Decides what happens to an operation. `writes` says that it may write in
    /// part.
    pub fn decide(self, decision: u8, writes: bool) -> (r: OperationFate)
        ensures
            r == fate(self, decision, writes),
    {
        match self {
            MediaFaultProfile::Healthy => OperationFate::Complete,
            MediaFaultProfile::Selected => {
                if decision < SELECTED_COMPLETE_CUTOFF {
                    OperationFate::Complete
                } else if decision < SELECTED_DELAY_CUTOFF {
                    OperationFate::Delay
                } else {
                    OperationFate::Fail
                }
            },
            MediaFaultProfile::Full => {
                if decision < FULL_COMPLETE_CUTOFF {
                    OperationFate::Complete
                } else if decision < FULL_DELAY_CUTOFF {
                    OperationFate::Delay
                } else if decision < FULL_ERROR_CUTOFF {
                    OperationFate::Fail
                } else if decision < FULL_PARTIAL_CUTOFF {
                    if writes {
                        OperationFate::Partial
                    } else {
                        OperationFate::Fail
                    }
                } else {
                    OperationFate::Pending
                }
            },
        }
    }
}

/// An exclusive handle on the container.
#[derive(Clone, Copy, Debug, PartialEq, Eq, Structural)]
pub struct MediaHandle {
    /// The handle.
    pub handle: u64,
    /// The generation of the media at the open.
    pub generation: u64,
}

/// Which unsynchronized effects survive a crash.
#[derive(Debug)]
pub struct CrashChoices {
    /// The creation of the container survives.
    pub creation: bool,
    /// The change of length survives.
    pub length: bool,
    /// The bytes whose change survives.
    pub bytes: Vec<bool>,
}

/// The simulated container.
pub struct MediaView {
    /// The media is attached.
    pub attached: bool,
    /// The media is gone for good.
    pub gone: bool,
    /// Counts crashes and removals.
    pub generation: u64,
    /// The next handle to give out.
    pub next_handle: u64,
    /// The handle that has the container.
    pub locked_by: Option<u64>,
    /// The bytes that the attached process sees.
    pub working: Option<Seq<u8>>,
    /// The bytes at the last synchronization.
    pub durable: Seq<u8>,
    /// A synchronization made the container's existence durable.
    pub durable_exists: bool,
    /// The number of accesses that exceeded the file.
    pub out_of_bounds: u64,
}

/// Deterministic byte-level model of the disk cache's single container.
#[derive(Debug)]
pub struct SimMedia {
    attached: bool,
    gone: bool,
    generation: u64,
    next_handle: u64,
    locked_by: Option<u64>,
    working: Option<Vec<u8>>,
    durable: Vec<u8>,
    durable_exists: bool,
    out_of_bounds: u64,
}

impl View for SimMedia {
    type V = MediaView;

    closed spec fn view(&self) -> MediaView {
        MediaView {
            attached: self.attached,
            gone: self.gone,
            generation: self.generation,
            next_handle: self.next_handle,
            locked_by: self.locked_by,
            working: match self.working {
                Some(working) => Some(working@),
                None => None,
            },
            durable: self.durable@,
            durable_exists: self.durable_exists,
            out_of_bounds: self.out_of_bounds,
        }
    }
}

/// The number after a counter that skips zero.
pub open spec fn next_number(n: u64) -> u64 {
    if n == u64::MAX {
        1
    } else {
        (n + 1) as u64
    }
}

/// Returns the number after a counter that skips zero.
fn after(n: u64) -> (r: u64)
    ensures
        r == next_number(n),
{
    if n == u64::MAX {
        1
    } else {
        n + 1
    }
}

/// A byte at an offset, or zero past the end.
pub open spec fn byte_at(bytes: Seq<u8>, i: int) -> u8 {
    if 0 <= i < bytes.len() {
        bytes[i]
    } else {
        0
    }
}

/// What a crash leaves of the bytes: every byte is either the synchronized one
/// or the working one.
pub open spec fn resolved(
    durable: Seq<u8>,
    working: Seq<u8>,
    length: bool,
    kept: Seq<bool>,
) -> Seq<u8> {
    Seq::new(
        if length {
            working.len()
        } else {
            durable.len()
        },
        |i: int|
            if i < kept.len() && kept[i] {
                byte_at(working, i)
            } else {
                byte_at(durable, i)
            },
    )
}

impl MediaView {
    /// An operation finds the media, and its handle if it has one.
    pub open spec fn availability(self, handle: Option<MediaHandle>) -> Result<(), MediaError> {
        if self.gone {
            Err(MediaError::PermanentlyUnavailable)
        } else if !self.attached {
            Err(MediaError::Detached)
        } else if handle matches Some(h) && !self.holds(h) {
            Err(MediaError::StaleHandle)
        } else {
            Ok(())
        }
    }

    /// A handle has the container.
    pub open spec fn holds(self, handle: MediaHandle) -> bool {
        handle.generation == self.generation && self.locked_by == Some(handle.handle)
    }

    /// The state after the process lost its unsynchronized effects.
    pub open spec fn crashed(self, creation: bool, length: bool, kept: Seq<bool>) -> MediaView {
        match self.working {
            None => MediaView { durable: Seq::empty(), durable_exists: false, ..self },
            Some(working) => if self.durable_exists || creation {
                MediaView {
                    durable: resolved(self.durable, working, length, kept),
                    durable_exists: true,
                    working: None,
                    ..self
                }
            } else {
                MediaView {
                    durable: Seq::empty(),
                    durable_exists: false,
                    working: None,
                    ..self
                }
            },
        }
    }

    /// The state once every handle became stale.
    pub open spec fn restarted(self) -> MediaView {
        MediaView { generation: next_number(self.generation), locked_by: None, ..self }
    }
}

impl SimMedia {
    /// Creates an attached media with no container.
    pub fn new() -> (r: Self)
        ensures
            r@ == (MediaView {
                attached: true,
                gone: false,
                generation: 1,
                next_handle: 1,
                locked_by: None,
                working: None,
                durable: Seq::empty(),
                durable_exists: false,
                out_of_bounds: 0,
            }),
    {
        let r = SimMedia {
            attached: true,
            gone: false,
            generation: 1,
            next_handle: 1,
            locked_by: None,
            working: None,
            durable: Vec::new(),
            durable_exists: false,
            out_of_bounds: 0,
        };
        proof {
            assert(r.durable@ =~= Seq::<u8>::empty());
        }
        r
    }

    /// Resolves every unsynchronized effect independently against the last
    /// completed synchronization.
    fn resolve_crash(&mut self, choices: &CrashChoices)
        ensures
            final(self)@ == old(self)@.crashed(choices.creation, choices.length, choices.bytes@),
    {
        let ghost before = self@;
        match self.working.take() {
            None => {
                self.durable = Vec::new();
                self.durable_exists = false;
                proof {
                    assert(self.durable@ =~= Seq::<u8>::empty());
                }
            },
            Some(working) => {
                if !(self.durable_exists || choices.creation) {
                    self.durable = Vec::new();
                    self.durable_exists = false;
                    proof {
                        assert(self.durable@ =~= Seq::<u8>::empty());
                    }
                    return;
                }
                let len: usize = if choices.length {
                    working.len()
                } else {
                    self.durable.len()
                };
                let mut bytes: Vec<u8> = Vec::new();
                let mut i: usize = 0;
                let ghost whole = resolved(
                    self.durable@,
                    working@,
                    choices.length,
                    choices.bytes@,
                );
                while i < len
                    invariant
                        i <= len,
                        len == if choices.length {
                            working@.len()
                        } else {
                            self.durable@.len()
                        },
                        whole == resolved(
                            self.durable@,
                            working@,
                            choices.length,
                            choices.bytes@,
                        ),
                        bytes@ == whole.take(i as int),
                        whole.len() == len,
                    decreases len - i,
                {
                    let old_byte: u8 = if i < self.durable.len() {
                        self.durable[i]
                    } else {
                        0
                    };
                    let new_byte: u8 = if i < working.len() {
                        working[i]
                    } else {
                        0
                    };
                    let kept = i < choices.bytes.len() && choices.bytes[i];
                    bytes.push(
                        if kept {
                            new_byte
                        } else {
                            old_byte
                        },
                    );
                    proof {
                        assert(whole.take(i + 1) =~= whole.take(i as int).push(whole[i as int]));
                    }
                    i = i + 1;
                }
                proof {
                    assert(whole.take(len as int) =~= whole);
                }
                self.durable = bytes;
                self.durable_exists = true;
            },
        }
    }

    /// Makes every handle stale.
    fn restart(&mut self)
        ensures
            final(self)@ == old(self)@.restarted(),
    {
        self.generation = after(self.generation);
        self.locked_by = None;
    }

    /// Simulates abrupt process loss.
    pub fn crash(&mut self, choices: &CrashChoices)
        ensures
            final(self)@ == old(self)@.crashed(
                choices.creation,
                choices.length,
                choices.bytes@,
            ).restarted(),
    {
        self.resolve_crash(choices);
        self.restart();
    }

    /// Simulates media removal. Existing handles remain invalid after reattach.
    pub fn detach(&mut self, choices: &CrashChoices)
        ensures
            final(self)@ == (MediaView {
                attached: false,
                ..old(self)@.crashed(
                    choices.creation,
                    choices.length,
                    choices.bytes@,
                ).restarted()
            }),
    {
        self.resolve_crash(choices);
        self.attached = false;
        self.restart();
    }

    /// Makes the detached media available for a new exclusive open.
    pub fn reattach(&mut self)
        ensures
            final(self)@ == (MediaView {
                attached: old(self)@.attached || !old(self)@.gone,
                ..old(self)@
            }),
    {
        if !self.gone {
            self.attached = true;
        }
    }

    /// Makes all current and future operations fail.
    pub fn make_permanently_unavailable(&mut self, choices: &CrashChoices)
        ensures
            final(self)@ == (MediaView {
                attached: false,
                gone: true,
                ..old(self)@.crashed(
                    choices.creation,
                    choices.length,
                    choices.bytes@,
                ).restarted()
            }),
    {
        self.resolve_crash(choices);
        self.attached = false;
        self.gone = true;
        self.restart();
    }

    /// Flips `mask` in one durable byte and makes the damage immediately visible
    /// to the attached process.
    pub fn corrupt(&mut self, offset: u64, mask: u8) -> (r: bool)
        ensures
            r == (old(self)@.durable_exists && offset < old(self)@.durable.len()),
            final(self)@ == if r {
                let at = offset as int;
                MediaView {
                    durable: old(self)@.durable.update(at, old(self)@.durable[at] ^ mask),
                    working: match old(self)@.working {
                        Some(working) => Some(
                            if at < working.len() {
                                working.update(at, working[at] ^ mask)
                            } else {
                                working
                            },
                        ),
                        None => None,
                    },
                    ..old(self)@
                }
            } else {
                old(self)@
            },
    {
        if !self.durable_exists || offset >= self.durable.len() as u64 {
            return false;
        }
        let at: usize = offset as usize;
        let damaged: u8 = self.durable[at] ^ mask;
        self.durable.set(at, damaged);
        if let Some(mut working) = self.working.take() {
            if at < working.len() {
                let seen: u8 = working[at] ^ mask;
                working.set(at, seen);
            }
            self.working = Some(working);
        }
        true
    }

    /// Returns the number of accesses that exceeded the file.
    pub fn out_of_bounds_accesses(&self) -> (r: u64)
        ensures
            r == self@.out_of_bounds,
    {
        self.out_of_bounds
    }

    /// Returns the bytes at the last completed durability boundary.
    pub fn durable_bytes(&self) -> (r: Option<&Vec<u8>>)
        ensures
            match r {
                Some(bytes) => self@.durable_exists && bytes@ == self@.durable,
                None => !self@.durable_exists,
            },
    {
        if self.durable_exists {
            Some(&self.durable)
        } else {
            None
        }
    }

    /// Checks that an operation finds the media, and its handle if it has one.
    pub fn check_available(&self, handle: Option<MediaHandle>) -> (r: Result<(), MediaError>)
        ensures
            r == self@.availability(handle),
    {
        if self.gone {
            return Err(MediaError::PermanentlyUnavailable);
        }
        if !self.attached {
            return Err(MediaError::Detached);
        }
        if let Some(handle) = handle {
            if !self.holds(handle) {
                return Err(MediaError::StaleHandle);
            }
        }
        Ok(())
    }

    /// Reports whether a handle has the container.
    fn holds(&self, handle: MediaHandle) -> (r: bool)
        ensures
            r == self@.holds(handle),
    {
        let locked = match self.locked_by {
            Some(holder) => holder == handle.handle,
            None => false,
        };
        handle.generation == self.generation && locked
    }

    /// Opens the container exclusively, creating it when there is none.
    pub fn open_exclusive(&mut self) -> (r: Result<MediaHandle, MediaError>)
        ensures
            match old(self)@.availability(None) {
                Err(error) => r == Err::<MediaHandle, MediaError>(error) && final(self)@ == old(
                    self,
                )@,
                Ok(_) => if old(self)@.locked_by is Some {
                    r == Err::<MediaHandle, MediaError>(MediaError::Locked) && final(self)@ == old(
                        self,
                    )@
                } else {
                    &&& r == Ok::<MediaHandle, MediaError>(
                        MediaHandle {
                            handle: old(self)@.next_handle,
                            generation: old(self)@.generation,
                        },
                    )
                    &&& final(self)@ == (MediaView {
                        next_handle: next_number(old(self)@.next_handle),
                        locked_by: Some(old(self)@.next_handle),
                        working: Some(
                            match old(self)@.working {
                                Some(working) => working,
                                None => if old(self)@.durable_exists {
                                    old(self)@.durable
                                } else {
                                    Seq::empty()
                                },
                            },
                        ),
                        ..old(self)@
                    })
                },
            },
    {
        match self.check_available(None) {
            Err(error) => return Err(error),
            Ok(()) => {},
        }
        if self.locked_by.is_some() {
            return Err(MediaError::Locked);
        }
        if self.working.is_none() {
            let bytes: Vec<u8> = if self.durable_exists {
                crate::bytes::copy(self.durable.as_slice())
            } else {
                Vec::new()
            };
            proof {
                if !self.durable_exists {
                    assert(bytes@ =~= Seq::<u8>::empty());
                }
            }
            self.working = Some(bytes);
        }
        let handle: u64 = self.next_handle;
        self.next_handle = after(self.next_handle);
        self.locked_by = Some(handle);
        Ok(MediaHandle { handle, generation: self.generation })
    }

    /// Releases a handle; a stale one releases nothing.
    pub fn close(&mut self, handle: MediaHandle)
        ensures
            final(self)@ == if old(self)@.holds(handle) {
                MediaView { locked_by: None, ..old(self)@ }
            } else {
                old(self)@
            },
    {
        if self.holds(handle) {
            self.locked_by = None;
        }
    }
}

/// What the container's handle finds to work on.
pub open spec fn reaches(media: MediaView, handle: MediaHandle) -> Result<Seq<u8>, MediaError> {
    if !media.holds(handle) {
        Err(MediaError::StaleHandle)
    } else {
        match media.working {
            Some(working) => Ok(working),
            None => Err(MediaError::Missing),
        }
    }
}

/// An access exceeded the file, which is counted.
pub open spec fn exceeding(media: MediaView) -> MediaView {
    MediaView { out_of_bounds: media.out_of_bounds.wrapping_add(1), ..media }
}

/// The length that a handle finds.
pub open spec fn length(media: MediaView, handle: MediaHandle) -> Result<u64, MediaError> {
    match reaches(media, handle) {
        Ok(working) => Ok(working.len() as u64),
        Err(error) => Err(error),
    }
}

/// The file is cut or extended with zeros. The length is checked to fit in
/// memory before the handle is.
pub open spec fn lengthened(media: MediaView, handle: MediaHandle, len: u64) -> (
    MediaView,
    Result<(), MediaError>,
) {
    if len > usize::MAX {
        (media, Err(MediaError::TooLong))
    } else {
        match reaches(media, handle) {
            Err(error) => (media, Err(error)),
            Ok(working) => (
                MediaView {
                    working: Some(Seq::new(len as nat, |i: int| byte_at(working, i))),
                    ..media
                },
                Ok(()),
            ),
        }
    }
}

/// The file is checked to hold `len` bytes.
pub open spec fn allocated(media: MediaView, handle: MediaHandle, len: u64) -> (
    MediaView,
    Result<(), MediaError>,
) {
    match reaches(media, handle) {
        Err(error) => (media, Err(error)),
        Ok(working) => if len > working.len() {
            (exceeding(media), Err(MediaError::OutOfBounds))
        } else {
            (media, Ok(()))
        },
    }
}

/// Bytes are read at an offset.
pub open spec fn read_out(media: MediaView, handle: MediaHandle, offset: u64, len: usize) -> (
    MediaView,
    Result<Seq<u8>, MediaError>,
) {
    match reaches(media, handle) {
        Err(error) => (media, Err(error)),
        Ok(working) => if offset + len > working.len() {
            (exceeding(media), Err(MediaError::OutOfBounds))
        } else {
            (media, Ok(working.subrange(offset as int, offset + len)))
        },
    }
}

/// Bytes are written at an offset. A partial write takes effect up to `cut`
/// bytes and fails.
pub open spec fn written_in(
    media: MediaView,
    handle: MediaHandle,
    offset: u64,
    bytes: Seq<u8>,
    cut: Option<int>,
) -> (MediaView, Result<(), MediaError>) {
    match reaches(media, handle) {
        Err(error) => (media, Err(error)),
        Ok(working) => if offset + bytes.len() > working.len() {
            (exceeding(media), Err(MediaError::OutOfBounds))
        } else {
            match cut {
                Some(cut) => (
                    MediaView {
                        working: Some(written(working, offset as int, bytes.take(cut))),
                        ..media
                    },
                    Err(MediaError::PartialWrite),
                ),
                None => (
                    MediaView { working: Some(written(working, offset as int, bytes)), ..media },
                    Ok(()),
                ),
            }
        },
    }
}

/// The bytes become durable; with `exists` also the container's existence.
pub open spec fn synchronized(media: MediaView, handle: MediaHandle, exists: bool) -> (
    MediaView,
    Result<(), MediaError>,
) {
    match reaches(media, handle) {
        Err(error) => (media, Err(error)),
        Ok(working) => (
            MediaView {
                durable: working,
                durable_exists: media.durable_exists || exists,
                ..media
            },
            Ok(()),
        ),
    }
}

impl SimMedia {
    /// Checks that a handle has a container.
    fn reach(&self, handle: MediaHandle) -> (r: Result<(), MediaError>)
        ensures
            match reaches(self@, handle) {
                Ok(_) => r is Ok && self@.working is Some,
                Err(error) => r == Err::<(), MediaError>(error),
            },
    {
        if !self.holds(handle) {
            return Err(MediaError::StaleHandle);
        }
        if self.working.is_none() {
            return Err(MediaError::Missing);
        }
        Ok(())
    }

    /// Counts an access that exceeded the file.
    fn exceeded(&mut self) -> (r: MediaError)
        ensures
            r == MediaError::OutOfBounds,
            final(self)@ == exceeding(old(self)@),
    {
        self.out_of_bounds = self.out_of_bounds.wrapping_add(1);
        MediaError::OutOfBounds
    }

    /// Returns the length of the file.
    pub fn len(&self, handle: MediaHandle) -> (r: Result<u64, MediaError>)
        ensures
            r == length(self@, handle),
            r matches Ok(len) ==> len == reaches(self@, handle)->Ok_0.len(),
    {
        match self.reach(handle) {
            Err(error) => return Err(error),
            Ok(()) => {},
        }
        match &self.working {
            Some(working) => Ok(working.len() as u64),
            None => Err(MediaError::Missing),
        }
    }

    /// Cuts the file or extends it with zeros. The length was checked to fit in
    /// memory before the handle is.
    pub fn set_len(&mut self, handle: MediaHandle, len: u64) -> (r: Result<(), MediaError>)
        ensures
            (final(self)@, r) == lengthened(old(self)@, handle, len),
    {
        if len > usize::MAX as u64 {
            return Err(MediaError::TooLong);
        }
        match self.reach(handle) {
            Err(error) => return Err(error),
            Ok(()) => {},
        }
        if let Some(mut working) = self.working.take() {
            let ghost before = working@;
            working.resize(len as usize, 0);
            proof {
                assert(working@ =~= Seq::new(len as nat, |i: int| byte_at(before, i)));
            }
            self.working = Some(working);
        }
        Ok(())
    }

    /// Checks that the file has room for `len` bytes.
    pub fn allocate(&mut self, handle: MediaHandle, len: u64) -> (r: Result<(), MediaError>)
        ensures
            (final(self)@, r) == allocated(old(self)@, handle, len),
    {
        let held: u64 = match self.len(handle) {
            Err(error) => return Err(error),
            Ok(held) => held,
        };
        if len > held {
            return Err(self.exceeded());
        }
        Ok(())
    }

    /// Reads `len` bytes at an offset.
    pub fn read_exact_at(&mut self, handle: MediaHandle, offset: u64, len: usize) -> (r: Result<
        Vec<u8>,
        MediaError,
    >)
        ensures
            final(self)@ == read_out(old(self)@, handle, offset, len).0,
            match read_out(old(self)@, handle, offset, len).1 {
                Ok(bytes) => r matches Ok(found) && found@ == bytes,
                Err(error) => r matches Err(failure) && failure == error,
            },
    {
        let held: u64 = match self.len(handle) {
            Err(error) => return Err(error),
            Ok(held) => held,
        };
        if offset > held || len as u64 > held - offset {
            return Err(self.exceeded());
        }
        match &self.working {
            Some(working) => {
                assert(offset <= working.len());
                let start: usize = offset as usize;
                let source = vstd::slice::slice_subrange(working.as_slice(), start, start + len);
                Ok(crate::bytes::copy(source))
            },
            None => Err(MediaError::Missing),
        }
    }

    /// Writes at an offset. A partial write takes effect up to `cut` bytes and
    /// fails.
    pub fn write_all_at(
        &mut self,
        handle: MediaHandle,
        offset: u64,
        bytes: &[u8],
        cut: Option<usize>,
    ) -> (r: Result<(), MediaError>)
        requires
            cut matches Some(cut) ==> cut <= bytes@.len(),
        ensures
            (final(self)@, r) == written_in(
                old(self)@,
                handle,
                offset,
                bytes@,
                match cut {
                    Some(cut) => Some(cut as int),
                    None => None,
                },
            ),
    {
        let held: u64 = match self.len(handle) {
            Err(error) => return Err(error),
            Ok(held) => held,
        };
        if offset > held || bytes.len() as u64 > held - offset {
            return Err(self.exceeded());
        }
        let n: usize = match cut {
            Some(cut) => cut,
            None => bytes.len(),
        };
        if let Some(mut working) = self.working.take() {
            let ghost before = working@;
            assert(offset <= working.len());
            let start: usize = offset as usize;
            let mut i: usize = 0;
            while i < n
                invariant
                    i <= n,
                    n <= bytes@.len(),
                    start + bytes@.len() <= before.len(),
                    before.len() == working@.len(),
                    working@ == written(before, start as int, bytes@.take(i as int)),
                decreases n - i,
            {
                assert(start + i < working.len());
                working.set(start + i, bytes[i]);
                proof {
                    assert(bytes@.take(i + 1) =~= bytes@.take(i as int).push(bytes@[i as int]));
                    assert(working@ =~= written(before, start as int, bytes@.take(i + 1)));
                }
                i = i + 1;
            }
            proof {
                if cut is None {
                    assert(bytes@.take(n as int) =~= bytes@);
                }
            }
            self.working = Some(working);
        }
        match cut {
            Some(_) => Err(MediaError::PartialWrite),
            None => Ok(()),
        }
    }

    /// Makes the bytes durable; `exists` also makes the container's existence
    /// durable.
    pub fn sync(&mut self, handle: MediaHandle, exists: bool) -> (r: Result<(), MediaError>)
        ensures
            (final(self)@, r) == synchronized(old(self)@, handle, exists),
    {
        match self.reach(handle) {
            Err(error) => return Err(error),
            Ok(()) => {},
        }
        if let Some(working) = &self.working {
            self.durable = crate::bytes::copy(working.as_slice());
        }
        if exists {
            self.durable_exists = true;
        }
        Ok(())
    }
}

/// Bytes with others written over them.
pub open spec fn written(bytes: Seq<u8>, offset: int, data: Seq<u8>) -> Seq<u8> {
    Seq::new(
        bytes.len(),
        |i: int|
            if offset <= i < offset + data.len() {
                data[i - offset]
            } else {
                bytes[i]
            },
    )
}

/// Law: what was synchronized before a crash survives every crash that changed
/// nothing since, whatever the choices.
pub proof fn law_synchronized_bytes_survive(
    media: MediaView,
    creation: bool,
    length: bool,
    kept: Seq<bool>,
)
    requires
        media.working == Some(media.durable),
        media.durable_exists,
    ensures
        media.crashed(creation, length, kept).durable == media.durable,
        media.crashed(creation, length, kept).durable_exists,
{
    assert(resolved(media.durable, media.durable, length, kept) =~= media.durable);
}

/// Law: after a crash no handle that was open before has the container, unless
/// the generations ran through all numbers.
pub proof fn law_crash_makes_handles_stale(media: MediaView, handle: MediaHandle)
    requires
        media.holds(handle),
        media.generation > 0,
    ensures
        !media.restarted().holds(handle),
{
}

/// The simulated container, opened exclusively. The operations of a faulty one
/// take decisions from a tape; past its end they read as zero.
#[derive(Debug)]
pub struct SimFile {
    media: SimMedia,
    handle: MediaHandle,
    profile: MediaFaultProfile,
    tape: Vec<u8>,
    next: usize,
}

/// How an operation goes on once it found the media.
pub open spec fn admission(fate: OperationFate) -> Result<bool, MediaError> {
    match fate {
        OperationFate::Complete | OperationFate::Delay => Ok(false),
        OperationFate::Partial => Ok(true),
        OperationFate::Fail => Err(MediaError::Injected),
        OperationFate::Pending => Err(MediaError::Pending),
    }
}

/// A tape without its first byte.
pub open spec fn advanced(tape: Seq<u8>) -> Seq<u8> {
    if tape.len() == 0 {
        tape
    } else {
        tape.drop_first()
    }
}

/// What a faulty media's tape decides about the next operation: how it goes on,
/// and what is left of the tape. A delay takes its length from the tape.
pub open spec fn decided(profile: MediaFaultProfile, tape: Seq<u8>, writes: bool) -> (
    Result<bool, MediaError>,
    Seq<u8>,
) {
    let fate = fate(profile, byte_at(tape, 0), writes);
    (
        admission(fate),
        if profile is Healthy {
            tape
        } else if fate is Delay {
            advanced(advanced(tape))
        } else {
            advanced(tape)
        },
    )
}

/// Where a partial write of `len` bytes is cut.
pub open spec fn cut_at(decision: u8, len: nat) -> int {
    if len <= 1 {
        len as int
    } else {
        1 + decision as int % (len - 1)
    }
}

impl SimFile {
    /// The media below.
    pub closed spec fn medium(&self) -> MediaView {
        self.media@
    }

    /// The handle.
    pub closed spec fn handle(&self) -> MediaHandle {
        self.handle
    }

    /// The breadth of faults.
    pub closed spec fn faults(&self) -> MediaFaultProfile {
        self.profile
    }

    /// What is left of the tape.
    pub closed spec fn left(&self) -> Seq<u8> {
        if self.next <= self.tape@.len() {
            self.tape@.skip(self.next as int)
        } else {
            Seq::empty()
        }
    }

    /// How the next operation goes on.
    pub open spec fn begins(&self, writes: bool) -> Result<bool, MediaError> {
        match self.medium().availability(Some(self.handle())) {
            Err(error) => Err(error),
            Ok(_) => decided(self.faults(), self.left(), writes).0,
        }
    }

    /// What is left of the tape once the next operation began.
    pub open spec fn left_after(&self, writes: bool) -> Seq<u8> {
        if self.medium().availability(Some(self.handle())) is Ok {
            decided(self.faults(), self.left(), writes).1
        } else {
            self.left()
        }
    }

    /// Only the media and the tape differ.
    pub open spec fn same_file(&self, other: &SimFile) -> bool {
        self.handle() == other.handle() && self.faults() == other.faults()
    }

    /// Opens the container of a media.
    pub fn open(media: SimMedia, profile: MediaFaultProfile, tape: Vec<u8>) -> (r: Result<
        SimFile,
        (SimMedia, MediaError),
    >)
        ensures
            match media@.availability(None) {
                Err(error) => r matches Err((back, failure)) && back@ == media@ && failure == error,
                Ok(_) => match decided(profile, tape@, false).0 {
                    Err(error) => r matches Err((back, failure)) && back@ == media@ && failure
                        == error,
                    Ok(_) => if media@.locked_by is Some {
                        r matches Err((back, failure)) && back@ == media@ && failure
                            == MediaError::Locked
                    } else {
                        &&& r matches Ok(file)
                        &&& file.faults() == profile
                        &&& file.left() == decided(profile, tape@, false).1
                        &&& file.handle() == (MediaHandle {
                            handle: media@.next_handle,
                            generation: media@.generation,
                        })
                        &&& file.medium() == (MediaView {
                            next_handle: next_number(media@.next_handle),
                            locked_by: Some(media@.next_handle),
                            working: Some(
                                match media@.working {
                                    Some(working) => working,
                                    None => if media@.durable_exists {
                                        media@.durable
                                    } else {
                                        Seq::empty()
                                    },
                                },
                            ),
                            ..media@
                        })
                    },
                },
            },
    {
        let mut media = media;
        match media.check_available(None) {
            Err(error) => return Err((media, error)),
            Ok(()) => {},
        }
        let handle = MediaHandle { handle: 0, generation: 0 };
        let mut file = SimFile { media, handle, profile, tape, next: 0 };
        assert(file.left() =~= tape@);
        match file.decide(false) {
            Err(error) => return Err((file.media, error)),
            Ok(_) => {},
        }
        let SimFile { media, tape, next, .. } = file;
        let mut media = media;
        match media.open_exclusive() {
            Err(error) => Err((media, error)),
            Ok(handle) => Ok(SimFile { media, handle, profile, tape, next }),
        }
    }

    /// The media, on which faults are caused while the file is open.
    pub fn medium_mut(&mut self) -> (r: &mut SimMedia)
        ensures
            r@ == old(self).medium(),
            final(self).medium() == final(r)@,
            final(self).same_file(old(self)),
            final(self).left() == old(self).left(),
    {
        &mut self.media
    }

    /// Returns what is left of the tape.
    pub fn rest(&self) -> (r: Vec<u8>)
        ensures
            r@ == self.left(),
    {
        if self.next > self.tape.len() {
            return Vec::new();
        }
        let rest = vstd::slice::slice_subrange(self.tape.as_slice(), self.next, self.tape.len());
        assert(rest@ =~= self.left());
        crate::bytes::copy(rest)
    }

    /// Closes the file and returns the media.
    pub fn close(self) -> (r: SimMedia)
        ensures
            r@ == if self.medium().holds(self.handle()) {
                MediaView { locked_by: None, ..self.medium() }
            } else {
                self.medium()
            },
    {
        let mut media = self.media;
        media.close(self.handle);
        media
    }

    /// Takes the next byte of the tape.
    fn draw(&mut self) -> (r: u8)
        ensures
            r == byte_at(old(self).left(), 0),
            final(self).left() == advanced(old(self).left()),
            final(self).medium() == old(self).medium(),
            final(self).same_file(old(self)),
    {
        if self.next < self.tape.len() {
            let decision: u8 = self.tape[self.next];
            self.next = self.next + 1;
            assert(self.left() =~= old(self).left().drop_first());
            decision
        } else {
            0
        }
    }

    /// Takes the next decision.
    fn decide(&mut self, writes: bool) -> (r: Result<bool, MediaError>)
        ensures
            (r, final(self).left()) == decided(old(self).faults(), old(self).left(), writes),
            final(self).medium() == old(self).medium(),
            final(self).same_file(old(self)),
    {
        let decision: u8 = match self.profile {
            MediaFaultProfile::Healthy => 0,
            _ => self.draw(),
        };
        match self.profile.decide(decision, writes) {
            OperationFate::Complete => Ok(false),
            OperationFate::Delay => {
                self.draw();
                Ok(false)
            },
            OperationFate::Partial => Ok(true),
            OperationFate::Fail => Err(MediaError::Injected),
            OperationFate::Pending => Err(MediaError::Pending),
        }
    }

    /// Begins an operation; reports whether it is to write in part.
    fn begin(&mut self, writes: bool) -> (r: Result<bool, MediaError>)
        ensures
            r == old(self).begins(writes),
            final(self).left() == old(self).left_after(writes),
            final(self).medium() == old(self).medium(),
            final(self).same_file(old(self)),
    {
        match self.media.check_available(Some(self.handle)) {
            Err(error) => Err(error),
            Ok(()) => self.decide(writes),
        }
    }
}

/// An access does not exceed the file.
pub open spec fn lies_inside(
    media: MediaView,
    handle: MediaHandle,
    offset: u64,
    len: nat,
) -> bool {
    reaches(media, handle) matches Ok(working) && offset + len <= working.len()
}

/// An operation that only goes on when it began.
pub open spec fn unless_refused<T>(
    begun: Result<bool, MediaError>,
    media: MediaView,
    done: (MediaView, Result<T, MediaError>),
) -> (MediaView, Result<T, MediaError>) {
    match begun {
        Err(error) => (media, Err(error)),
        Ok(_) => done,
    }
}

impl CacheFile for SimFile {
    open spec fn content(&self) -> Seq<u8> {
        match self.medium().working {
            Some(working) => working,
            None => Seq::empty(),
        }
    }

    open spec fn works(&self) -> bool {
        &&& self.faults() is Healthy
        &&& self.medium().availability(Some(self.handle())) is Ok
        &&& self.medium().working is Some
    }

    fn len(&mut self) -> (r: Result<u64, MediaError>)
        ensures
            (final(self).medium(), r) == unless_refused(
                old(self).begins(false),
                old(self).medium(),
                (old(self).medium(), length(old(self).medium(), old(self).handle())),
            ),
            final(self).left() == old(self).left_after(false),
            final(self).same_file(old(self)),
    {
        match self.begin(false) {
            Err(error) => Err(error),
            Ok(_) => self.media.len(self.handle),
        }
    }

    fn set_len(&mut self, len: u64) -> (r: Result<(), MediaError>)
        ensures
            (final(self).medium(), r) == unless_refused(
                old(self).begins(false),
                old(self).medium(),
                lengthened(old(self).medium(), old(self).handle(), len),
            ),
            final(self).left() == old(self).left_after(false),
            final(self).same_file(old(self)),
    {
        match self.begin(false) {
            Err(error) => return Err(error),
            Ok(_) => {},
        }
        let ghost before = self.content();
        let r = self.media.set_len(self.handle, len);
        proof {
            if r is Ok {
                assert(self.content() =~= media::resized(before, len as int));
            }
        }
        r
    }

    fn allocate(&mut self, len: u64) -> (r: Result<(), MediaError>)
        ensures
            (final(self).medium(), r) == unless_refused(
                old(self).begins(false),
                old(self).medium(),
                allocated(old(self).medium(), old(self).handle(), len),
            ),
            final(self).left() == old(self).left_after(false),
            final(self).same_file(old(self)),
    {
        match self.begin(false) {
            Err(error) => Err(error),
            Ok(_) => self.media.allocate(self.handle, len),
        }
    }

    fn read_exact_at(&mut self, offset: u64, len: usize) -> (r: Result<Vec<u8>, MediaError>)
        ensures
            ({
                let done = unless_refused(
                    old(self).begins(false),
                    old(self).medium(),
                    read_out(old(self).medium(), old(self).handle(), offset, len),
                );
                &&& final(self).medium() == done.0
                &&& match done.1 {
                    Ok(bytes) => r matches Ok(found) && found@ == bytes,
                    Err(error) => r matches Err(failure) && failure == error,
                }
            }),
            final(self).left() == old(self).left_after(false),
            final(self).same_file(old(self)),
    {
        match self.begin(false) {
            Err(error) => Err(error),
            Ok(_) => self.media.read_exact_at(self.handle, offset, len),
        }
    }

    fn write_all_at(&mut self, bytes: &[u8], offset: u64) -> (r: Result<(), MediaError>)
        ensures
            (final(self).medium(), r) == unless_refused(
                old(self).begins(true),
                old(self).medium(),
                written_in(
                    old(self).medium(),
                    old(self).handle(),
                    offset,
                    bytes@,
                    if old(self).begins(true) == Ok::<bool, MediaError>(true) {
                        Some(cut_at(byte_at(old(self).left_after(true), 0), bytes@.len()))
                    } else {
                        None
                    },
                ),
            ),
            final(self).left() == if old(self).begins(true) == Ok::<bool, MediaError>(true)
                && bytes@.len() > 1 && lies_inside(
                old(self).medium(),
                old(self).handle(),
                offset,
                bytes@.len(),
            ) {
                advanced(old(self).left_after(true))
            } else {
                old(self).left_after(true)
            },
            final(self).same_file(old(self)),
    {
        let partial: bool = match self.begin(true) {
            Err(error) => return Err(error),
            Ok(partial) => partial,
        };
        let held: u64 = match self.media.len(self.handle) {
            Err(error) => return Err(error),
            Ok(held) => held,
        };
        let inside: bool = offset <= held && bytes.len() as u64 <= held - offset;
        if partial && inside {
            let cut: usize = if bytes.len() <= 1 {
                bytes.len()
            } else {
                let decision: usize = self.draw() as usize;
                1 + decision % (bytes.len() - 1)
            };
            return self.media.write_all_at(self.handle, offset, bytes, Some(cut));
        }
        let ghost before = self.content();
        let r = self.media.write_all_at(self.handle, offset, bytes, None);
        proof {
            if r is Ok {
                assert(self.content() =~= container::write_at(before, offset as int, bytes@));
            }
        }
        r
    }

    fn sync_data(&mut self) -> (r: Result<(), MediaError>)
        ensures
            (final(self).medium(), r) == unless_refused(
                old(self).begins(false),
                old(self).medium(),
                synchronized(old(self).medium(), old(self).handle(), false),
            ),
            final(self).left() == old(self).left_after(false),
            final(self).same_file(old(self)),
    {
        match self.begin(false) {
            Err(error) => Err(error),
            Ok(_) => self.media.sync(self.handle, false),
        }
    }

    fn sync_all(&mut self) -> (r: Result<(), MediaError>)
        ensures
            (final(self).medium(), r) == unless_refused(
                old(self).begins(false),
                old(self).medium(),
                synchronized(old(self).medium(), old(self).handle(), true),
            ),
            final(self).left() == old(self).left_after(false),
            final(self).same_file(old(self)),
    {
        match self.begin(false) {
            Err(error) => Err(error),
            Ok(_) => self.media.sync(self.handle, true),
        }
    }
}

/// Law: what was written is read back, and every other byte is what it was. A
/// write outside the file, or through a stale handle, changes no byte.
pub proof fn law_written_bytes_are_read(
    media: MediaView,
    handle: MediaHandle,
    offset: u64,
    bytes: Seq<u8>,
)
    requires
        bytes.len() <= usize::MAX,
    ensures
        ({
            let (after, r) = written_in(media, handle, offset, bytes, None);
            match r {
                Ok(_) => {
                    &&& read_out(after, handle, offset, bytes.len() as usize) == (
                        after,
                        Ok::<Seq<u8>, MediaError>(bytes),
                    )
                    &&& after.durable == media.durable
                    &&& media.working matches Some(old)
                    &&& after.working matches Some(new)
                    &&& new.len() == old.len()
                    &&& forall|i: int|
                        0 <= i < old.len() && !(offset <= i < offset + bytes.len())
                            ==> #[trigger] new[i] == old[i]
                },
                Err(error) => {
                    &&& after.working == media.working
                    &&& after.durable == media.durable
                    &&& {
                        ||| error == MediaError::StaleHandle && !media.holds(handle)
                        ||| error == MediaError::Missing && media.working is None
                        ||| error == MediaError::OutOfBounds && media.working is Some && offset
                            + bytes.len() > media.working->0.len()
                    }
                },
            }
        }),
{
    let (after, r) = written_in(media, handle, offset, bytes, None);
    if r is Ok {
        assert(after.working->0.subrange(offset as int, offset + bytes.len()) =~= bytes);
    }
}

/// Law: a write that is cut short has written a proper part of the bytes, from
/// the first one on, and says so.
pub proof fn law_partial_write_is_a_proper_part(
    media: MediaView,
    handle: MediaHandle,
    offset: u64,
    bytes: Seq<u8>,
    decision: u8,
    i: int,
)
    requires
        bytes.len() >= 2,
        media.working matches Some(old) && offset + bytes.len() <= old.len(),
        media.holds(handle),
        0 <= i < bytes.len(),
    ensures
        ({
            let cut = cut_at(decision, bytes.len());
            let (after, r) = written_in(media, handle, offset, bytes, Some(cut));
            &&& 0 < cut < bytes.len()
            &&& r == Err::<(), MediaError>(MediaError::PartialWrite)
            &&& after.working matches Some(new) && new[offset + i] == if i < cut {
                bytes[i]
            } else {
                media.working->0[offset + i]
            }
        }),
{
}

/// Law: what a read returns is what the file holds there; a read past its end is
/// counted and returns nothing, and no read changes a byte.
pub proof fn law_read_returns_what_is_there(
    media: MediaView,
    handle: MediaHandle,
    offset: u64,
    len: usize,
    i: int,
)
    requires
        0 <= i < len,
    ensures
        ({
            let (after, r) = read_out(media, handle, offset, len);
            &&& after.working == media.working
            &&& after.durable == media.durable
            &&& r matches Ok(bytes) ==> {
                &&& media.working matches Some(working)
                &&& bytes.len() == len
                &&& bytes[i] == working[offset + i]
            }
            &&& media.holds(handle) && media.working is Some && offset + len
                > media.working->0.len() ==> r == Err::<Seq<u8>, MediaError>(MediaError::OutOfBounds)
                && after.out_of_bounds == media.out_of_bounds.wrapping_add(1)
        }),
{
}

/// Law: after a crash every byte is the one that was durable or the one that was
/// written since, a file that was durable is still there, and nothing that was not
/// synchronized is relied on: the working copy is gone.
pub proof fn law_crash_keeps_old_or_new_bytes(
    media: MediaView,
    creation: bool,
    length: bool,
    kept: Seq<bool>,
    i: int,
)
    requires
        media.working is Some,
    ensures
        ({
            let after = media.crashed(creation, length, kept);
            let working = media.working->0;
            &&& after.working is None
            &&& media.durable_exists ==> after.durable_exists
            &&& !media.durable_exists && !creation ==> !after.durable_exists
                && after.durable.len() == 0
            &&& after.durable_exists ==> after.durable.len() == if length {
                working.len()
            } else {
                media.durable.len()
            }
            &&& after.durable_exists && 0 <= i < after.durable.len() ==> {
                ||| i < working.len() && after.durable[i] == working[i]
                ||| i < media.durable.len() && after.durable[i] == media.durable[i]
                ||| after.durable[i] == 0 && (i >= working.len() || i >= media.durable.len())
            }
        }),
{
}

/// Law: what was synchronized is durable.
pub proof fn law_synchronized_bytes_are_durable(media: MediaView, handle: MediaHandle, exists: bool)
    requires
        synchronized(media, handle, exists).1 is Ok,
    ensures
        synchronized(media, handle, exists).0.working == media.working,
        media.working == Some(synchronized(media, handle, exists).0.durable),
        exists || media.durable_exists ==> synchronized(media, handle, exists).0.durable_exists,
        media.holds(handle),
{
}

/// Law: a medium that is gone or detached refuses everyone, and so does one whose
/// lock another handle has.
pub proof fn law_unavailable_medium_refuses(media: MediaView, handle: MediaHandle)
    ensures
        media.availability(Some(handle)) is Ok <==> !media.gone && media.attached
            && media.generation == handle.generation && media.locked_by == Some(handle.handle),
        media.gone ==> media.availability(Some(handle)) == Err::<(), MediaError>(
            MediaError::PermanentlyUnavailable,
        ),
        !media.gone && !media.attached ==> media.availability(Some(handle)) == Err::<
            (),
            MediaError,
        >(MediaError::Detached),
{
}

/// Law: a healthy medium fails no operation, whatever the tape says; only an
/// operation that writes is ever cut short.
pub proof fn law_healthy_medium_does_not_fail(decision: u8, writes: bool, profile: MediaFaultProfile)
    ensures
        admission(fate(MediaFaultProfile::Healthy, decision, writes)) == Ok::<bool, MediaError>(
            false,
        ),
        admission(fate(profile, decision, false)) != Ok::<bool, MediaError>(true),
{
}

/// Law: a file that is made longer keeps its bytes, and the new ones are zero; one
/// that is made shorter loses those behind its end.
pub proof fn law_resized_file_keeps_its_bytes(
    media: MediaView,
    handle: MediaHandle,
    len: u64,
    i: int,
)
    requires
        lengthened(media, handle, len).1 is Ok,
        0 <= i < len,
    ensures
        ({
            let after = lengthened(media, handle, len).0;
            &&& media.working matches Some(old)
            &&& after.working matches Some(new)
            &&& new.len() == len
            &&& new[i] == if i < old.len() {
                old[i]
            } else {
                0
            }
            &&& after.durable == media.durable
        }),
{
}

/// Law: an operation that is refused changes nothing on the medium.
pub proof fn law_refused_operation_changes_nothing<T>(
    begun: Result<bool, MediaError>,
    media: MediaView,
    done: (MediaView, Result<T, MediaError>),
)
    ensures
        begun matches Err(error) ==> unless_refused(begun, media, done) == (
            media,
            Err::<T, MediaError>(error),
        ),
        begun is Ok ==> unless_refused(begun, media, done) == done,
{
}

/// Law: each operation takes one decision from the tape, and a delayed one two; a
/// healthy medium takes none.
pub proof fn law_operations_use_the_tape(
    profile: MediaFaultProfile,
    tape: Seq<u8>,
    writes: bool,
)
    ensures
        profile is Healthy ==> decided(profile, tape, writes).1 == tape,
        !(profile is Healthy) ==> ({
            let used = if fate(
                profile,
                if tape.len() > 0 {
                    tape[0]
                } else {
                    0
                },
                writes,
            ) is Delay {
                2int
            } else {
                1
            };
            decided(profile, tape, writes).1 == tape.skip(
                if used <= tape.len() {
                    used
                } else {
                    tape.len() as int
                },
            )
        }),
{
    let after = decided(profile, tape, writes).1;
    if !(profile is Healthy) {
        assert(tape.len() >= 1 ==> tape.drop_first() =~= tape.skip(1));
        assert(tape.len() >= 2 ==> tape.drop_first().drop_first() =~= tape.skip(2));
        assert(tape.len() == 1 ==> tape.drop_first() =~= tape.skip(1));
        assert(tape.len() == 0 ==> tape =~= tape.skip(0));
        assert(tape.len() == 1 ==> advanced(advanced(tape)) =~= tape.skip(1));
    }
}

/// Law: allocating inside a file changes nothing; allocating past its end is
/// counted and refused.
pub proof fn law_allocation_changes_no_byte(media: MediaView, handle: MediaHandle, len: u64)
    ensures
        allocated(media, handle, len).0.working == media.working,
        allocated(media, handle, len).0.durable == media.durable,
        allocated(media, handle, len).1 is Ok <==> media.holds(handle) && media.working is Some
            && len <= media.working->0.len(),
        media.holds(handle) && media.working is Some && len > media.working->0.len() ==> allocated(
            media,
            handle,
            len,
        ).0.out_of_bounds == media.out_of_bounds.wrapping_add(1),
{
}

/// Law: a handle from before a restart stays stale, even when the medium is locked
/// again under the same number.
pub proof fn law_restart_outlives_handle_numbers(media: MediaView, handle: MediaHandle)
    requires
        media.holds(handle),
    ensures
        media.restarted().locked_by is None,
        !(MediaView { locked_by: Some(handle.handle), ..media.restarted() }).holds(handle),
        media.restarted().generation != 0,
        media.restarted().working == media.working,
        media.restarted().durable == media.durable,
{
}

} // verus!
