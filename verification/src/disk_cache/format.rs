//! Persistent-cache binary geometry and encoding.

use sha2::Digest;
use vstd::arithmetic::power2::*;
use vstd::prelude::*;
use vstd::string::*;

use crate::bytes;
use crate::ids::DatabaseId;
use crate::timeline::SequencePoint;

verus! {

/// Encoded length of one index slot.
pub const SLOT_BYTES: u64 = 40;

/// Encoded length of the fixed part of a record.
pub const RECORD_HEADER_BYTES: u64 = 48;

/// Alignment of records inside a segment.
pub const RECORD_ALIGNMENT: u64 = 8;

/// The SHA-256 digest of a byte string.
pub uninterp spec fn sha256(data: Seq<u8>) -> [u8; 32];

/// Calls `sha2::Sha256::digest`, the one-shot form of the SHA-256 hash. The
/// result is claimed to be the digest of `data` alone, 32 bytes long.
#[verifier::external_body]
pub(crate) fn sha256_digest(data: &[u8]) -> (r: [u8; 32])
    ensures
        r == sha256(data@),
{
    sha2::Sha256::digest(data).into()
}

/// Why a cache container or one of its parts is unusable.
#[derive(Clone, Copy, Debug, PartialEq, Eq, Structural)]
pub enum FormatError {
    /// The geometry breaks one of its own rules.
    InvalidGeometry,
    /// The capacity leaves no room for one index bucket.
    NoIndexBucket,
    /// The capacity is smaller than the metadata and the index.
    SmallerThanMetadata,
    /// The capacity does not hold the minimum number of segments.
    TooFewSegments,
    /// The number of segments does not fit in memory.
    TooManySegments,
    /// A size of the geometry does not fit in 64 bits.
    Overflow,
    /// The database name does not fit the identity encoding.
    NameTooLong,
    /// A record is malformed or fails its digest.
    InvalidRecord,
    /// The last segment generation has been used.
    GenerationExhausted,
    /// The recovered sequence point has no successor.
    SequenceExhausted,
}

impl FormatError {
    /// Reports whether the error stands for damaged data rather than for an
    /// unusable configuration.
    pub fn is_invalid_data(self) -> (r: bool)
        ensures
            r == (self is InvalidRecord || self is SequenceExhausted),
    {
        matches!(self, FormatError::InvalidRecord | FormatError::SequenceExhausted)
    }

    /// Describes the error.
    pub fn message(self) -> (r: &'static str)
        ensures
            self is InvalidGeometry ==> r@ == "invalid persistent-cache geometry"@,
            self is NoIndexBucket ==> r@ == "persistent-cache capacity leaves no index bucket"@,
            self is SmallerThanMetadata ==> r@
                == "persistent-cache capacity is smaller than its metadata"@,
            self is TooFewSegments ==> r@
                == "persistent-cache capacity must hold at least two segments"@,
            self is TooManySegments ==> r@
                == "persistent-cache segment count does not fit in memory"@,
            self is Overflow ==> r@ == "persistent-cache geometry overflows u64"@,
            self is NameTooLong ==> r@
                == "database name is too long for persistent-cache identity"@,
            self is InvalidRecord ==> r@ == "invalid persistent-cache record"@,
            self is GenerationExhausted ==> r@ == "persistent-cache segment generation exhausted"@,
            self is SequenceExhausted ==> r@ == "persistent-cache sequence point exhausted"@,
    {
        match self {
            FormatError::InvalidGeometry => "invalid persistent-cache geometry",
            FormatError::NoIndexBucket => "persistent-cache capacity leaves no index bucket",
            FormatError::SmallerThanMetadata => {
                "persistent-cache capacity is smaller than its metadata"
            },
            FormatError::TooFewSegments => {
                "persistent-cache capacity must hold at least two segments"
            },
            FormatError::TooManySegments => {
                "persistent-cache segment count does not fit in memory"
            },
            FormatError::Overflow => "persistent-cache geometry overflows u64",
            FormatError::NameTooLong => "database name is too long for persistent-cache identity",
            FormatError::InvalidRecord => "invalid persistent-cache record",
            FormatError::GenerationExhausted => "persistent-cache segment generation exhausted",
            FormatError::SequenceExhausted => "persistent-cache sequence point exhausted",
        }
    }
}

/// Fixed sizes and digest domains of one container format.
#[derive(Clone, Copy, Debug)]
pub struct CacheGeometry {
    /// First bytes of the container.
    pub magic: [u8; 8],
    /// Version stored after the magic.
    pub format_version: u64,
    /// Size of a metadata block and of an index bucket.
    pub block_bytes: u64,
    /// Smallest size charged for a record.
    pub minimum_record_bytes: u64,
    /// Size of one segment of the record ring.
    pub segment_bytes: u64,
    /// Fraction of the capacity given to the index.
    pub index_divisor: u64,
    /// Smallest number of segments.
    pub minimum_segments: u64,
    /// Digest domain of the container identity.
    pub identity_domain: &'static str,
    /// Digest domain of the file header.
    pub header_domain: &'static str,
    /// Digest domain of the clean-tail marker.
    pub marker_domain: &'static str,
    /// Digest domain of path fingerprints.
    pub path_domain: &'static str,
    /// Digest domain of records.
    pub record_domain: &'static str,
}

impl CacheGeometry {
    /// It is the geometry of production containers.
    pub open spec fn is_production(self) -> bool {
        &&& self.magic@ == seq![71u8, 76, 68, 66, 76, 50, 0, 0]
        &&& self.format_version == 1
        &&& self.block_bytes == 4096
        &&& self.minimum_record_bytes == 4096
        &&& self.segment_bytes == 67_108_864
        &&& self.index_divisor == 64
        &&& self.minimum_segments == 2
        &&& self.identity_domain@ == "glassdb-l2-identity-v1"@
        &&& self.header_domain@ == "glassdb-l2-header-v1"@
        &&& self.marker_domain@ == "glassdb-l2-clean-tail-v1"@
        &&& self.path_domain@ == "glassdb-l2-path-v1"@
        &&& self.record_domain@ == "glassdb-l2-record-v1"@
    }

    /// The geometry of production containers.
    pub fn production() -> (r: Self)
        ensures
            r.valid(),
            r.is_production(),
    {
        let magic: [u8; 8] = [71, 76, 68, 66, 76, 50, 0, 0];
        proof {
            lemma_4096_is_a_power_of_two();
            assert(magic@ =~= seq![71u8, 76, 68, 66, 76, 50, 0, 0]);
        }
        CacheGeometry {
            magic,
            format_version: 1,
            block_bytes: 4096,
            minimum_record_bytes: 4096,
            segment_bytes: 67_108_864,
            index_divisor: 64,
            minimum_segments: 2,
            identity_domain: "glassdb-l2-identity-v1",
            header_domain: "glassdb-l2-header-v1",
            marker_domain: "glassdb-l2-clean-tail-v1",
            path_domain: "glassdb-l2-path-v1",
            record_domain: "glassdb-l2-record-v1",
        }
    }

    /// It is the geometry of small containers used by simulations.
    pub open spec fn is_compact(self) -> bool {
        &&& self.magic@ == seq![71u8, 76, 50, 84, 69, 83, 84, 0]
        &&& self.format_version == 1
        &&& self.block_bytes == 4096
        &&& self.minimum_record_bytes == 4096
        &&& self.segment_bytes == 262_144
        &&& self.index_divisor == 64
        &&& self.minimum_segments == 2
        &&& self.identity_domain@ == "glassdb-l2-identity-test-v1"@
        &&& self.header_domain@ == "glassdb-l2-header-test-v1"@
        &&& self.marker_domain@ == "glassdb-l2-clean-tail-test-v1"@
        &&& self.path_domain@ == "glassdb-l2-path-test-v1"@
        &&& self.record_domain@ == "glassdb-l2-record-test-v1"@
    }

    /// The geometry of small containers used by simulations.
    pub fn compact() -> (r: Self)
        ensures
            r.valid(),
            r.is_compact(),
    {
        let magic: [u8; 8] = [71, 76, 50, 84, 69, 83, 84, 0];
        proof {
            lemma_4096_is_a_power_of_two();
            assert(magic@ =~= seq![71u8, 76, 50, 84, 69, 83, 84, 0]);
        }
        CacheGeometry {
            magic,
            format_version: 1,
            block_bytes: 4096,
            minimum_record_bytes: 4096,
            segment_bytes: 262_144,
            index_divisor: 64,
            minimum_segments: 2,
            identity_domain: "glassdb-l2-identity-test-v1",
            header_domain: "glassdb-l2-header-test-v1",
            marker_domain: "glassdb-l2-clean-tail-test-v1",
            path_domain: "glassdb-l2-path-test-v1",
            record_domain: "glassdb-l2-record-test-v1",
        }
    }

    /// The rules every usable geometry keeps.
    pub open spec fn valid(self) -> bool {
        &&& self.block_bytes >= 4096
        &&& is_power_of_two(self.block_bytes as int)
        &&& self.minimum_record_bytes >= RECORD_HEADER_BYTES
        &&& self.minimum_record_bytes % RECORD_ALIGNMENT == 0
        &&& self.segment_bytes > self.block_bytes
        &&& self.segment_bytes % self.block_bytes == 0
        &&& self.index_divisor > 0
        &&& self.minimum_segments >= 2
    }
}

/// `x` is two to some power.
pub open spec fn is_power_of_two(x: int) -> bool {
    exists|k: nat| x == #[trigger] pow2(k)
}

proof fn lemma_4096_is_a_power_of_two()
    ensures
        is_power_of_two(4096),
{
    vstd::arithmetic::power2::lemma2_to64();
    assert(pow2(12) == 4096);
}

/// Reports whether `x` is two to some power.
fn power_of_two(x: u64) -> (r: bool)
    ensures
        r == is_power_of_two(x as int),
{
    let mut p: u64 = 1;
    let ghost mut k: nat = 0;
    proof {
        vstd::arithmetic::power2::lemma2_to64();
    }
    loop
        invariant
            p == pow2(k),
            p >= 1,
            forall|j: nat| #![trigger pow2(j)] j < k ==> pow2(j) != x,
        decreases u64::MAX - p,
    {
        if p == x {
            return true;
        }
        proof {
            vstd::arithmetic::power2::lemma_pow2_unfold(k + 1);
        }
        if p > x || p > u64::MAX / 2 {
            proof {
                assert forall|j: nat| j > k implies #[trigger] pow2(j) >= 2 * p by {
                    vstd::arithmetic::power2::lemma_pow2_unfold(k + 1);
                    if j > k + 1 {
                        vstd::arithmetic::power2::lemma_pow2_strictly_increases(k + 1, j);
                    }
                }
                assert forall|j: nat| #[trigger] pow2(j) != x by {
                    if j == k {
                    } else if j > k {
                        assert(pow2(j) >= 2 * p);
                    }
                }
            }
            return false;
        }
        proof {
            assert forall|j: nat| j < k + 1 implies #[trigger] pow2(j) != x by {
                if j == k {
                }
            }
            k = k + 1;
        }
        p = p * 2;
    }
}

/// `value` rounded down to a multiple of `alignment`.
pub open spec fn floor_to(value: int, alignment: int) -> int {
    value / alignment * alignment
}

/// `value` rounded up to a multiple of `alignment`.
pub open spec fn align_up(value: int, alignment: int) -> int {
    (value + alignment - 1) / alignment * alignment
}

/// Rounding down keeps the value within one alignment of itself.
pub proof fn lemma_floor_to(value: int, alignment: int)
    requires
        value >= 0,
        alignment > 0,
    ensures
        0 <= floor_to(value, alignment) <= value,
        value - alignment < floor_to(value, alignment),
        floor_to(value, alignment) % alignment == 0,
{
    vstd::arithmetic::div_mod::lemma_fundamental_div_mod(value, alignment);
    vstd::arithmetic::div_mod::lemma_mod_bound(value, alignment);
    vstd::arithmetic::div_mod::lemma_div_pos_is_pos(value, alignment);
    let q = value / alignment;
    assert(q * alignment == alignment * q) by (nonlinear_arith);
    assert(q * alignment >= 0) by (nonlinear_arith)
        requires
            q >= 0,
            alignment > 0,
    ;
    vstd::arithmetic::div_mod::lemma_mod_multiples_basic(q, alignment);
}

fn floor(value: u64, alignment: u64) -> (r: u64)
    requires
        alignment > 0,
    ensures
        r == floor_to(value as int, alignment as int),
{
    proof {
        lemma_floor_to(value as int, alignment as int);
    }
    value / alignment * alignment
}

/// Where the parts of a container lie.
#[derive(Clone, Copy, Debug, PartialEq, Eq, Structural)]
pub struct Layout {
    /// Container size, a multiple of the block size.
    pub capacity: u64,
    /// Size of the file header and the clean-tail marker.
    pub metadata_bytes: u64,
    /// Size of the index.
    pub index_bytes: u64,
    /// Start of the record ring.
    pub data_offset: u64,
    /// Number of segments in the record ring.
    pub segment_count: usize,
    /// End of the record ring.
    pub ring_end: u64,
}

/// Usable bytes of a container of `capacity` bytes.
pub open spec fn usable_capacity(capacity: u64, g: CacheGeometry) -> int {
    floor_to(capacity as int, g.block_bytes as int)
}

/// Index bytes of a container of `capacity` bytes.
pub open spec fn index_size(capacity: u64, g: CacheGeometry) -> int {
    floor_to(usable_capacity(capacity, g) / g.index_divisor as int, g.block_bytes as int)
}

/// Start of the record ring in a container of `capacity` bytes.
pub open spec fn ring_start(capacity: u64, g: CacheGeometry) -> int {
    2 * g.block_bytes + index_size(capacity, g)
}

/// Whole segments that fit behind the index.
pub open spec fn ring_segments(capacity: u64, g: CacheGeometry) -> int {
    (usable_capacity(capacity, g) - ring_start(capacity, g)) / g.segment_bytes as int
}

/// Why no layout exists, if none does.
pub open spec fn layout_error(capacity: u64, g: CacheGeometry) -> Option<FormatError> {
    if !g.valid() {
        Some(FormatError::InvalidGeometry)
    } else if 2 * g.block_bytes > u64::MAX {
        Some(FormatError::Overflow)
    } else if index_size(capacity, g) < g.block_bytes {
        Some(FormatError::NoIndexBucket)
    } else if ring_start(capacity, g) > u64::MAX {
        Some(FormatError::Overflow)
    } else if usable_capacity(capacity, g) < ring_start(capacity, g) {
        Some(FormatError::SmallerThanMetadata)
    } else if ring_segments(capacity, g) < g.minimum_segments {
        Some(FormatError::TooFewSegments)
    } else if ring_segments(capacity, g) > usize::MAX {
        Some(FormatError::TooManySegments)
    } else {
        None
    }
}

impl Layout {
    /// The layout is the one of a container of `capacity` bytes.
    pub open spec fn of(self, capacity: u64, g: CacheGeometry) -> bool {
        &&& self.capacity == usable_capacity(capacity, g)
        &&& self.metadata_bytes == 2 * g.block_bytes
        &&& self.index_bytes == index_size(capacity, g)
        &&& self.data_offset == ring_start(capacity, g)
        &&& self.segment_count == ring_segments(capacity, g)
        &&& self.ring_end == ring_start(capacity, g) + ring_segments(capacity, g) * g.segment_bytes
    }

    /// Derives the layout of a container of `capacity` bytes.
    pub fn derive(capacity: u64, geometry: CacheGeometry) -> (r: Result<Self, FormatError>)
        ensures
            r is Ok <==> layout_error(capacity, geometry) is None,
            r matches Ok(layout) ==> layout.of(capacity, geometry),
            r matches Err(error) ==> layout_error(capacity, geometry) == Some(error),
    {
        if geometry.block_bytes < 4096 || !power_of_two(geometry.block_bytes)
            || geometry.minimum_record_bytes < RECORD_HEADER_BYTES
            || geometry.minimum_record_bytes % RECORD_ALIGNMENT != 0
            || geometry.segment_bytes <= geometry.block_bytes
            || geometry.segment_bytes % geometry.block_bytes != 0
            || geometry.index_divisor == 0
            || geometry.minimum_segments < 2 {
            return Err(FormatError::InvalidGeometry);
        }
        let usable: u64 = floor(capacity, geometry.block_bytes);
        let metadata_bytes: u64 = match geometry.block_bytes.checked_mul(2) {
            Some(bytes) => bytes,
            None => return Err(FormatError::Overflow),
        };
        let index_bytes: u64 = floor(usable / geometry.index_divisor, geometry.block_bytes);
        if index_bytes < geometry.block_bytes {
            return Err(FormatError::NoIndexBucket);
        }
        let data_offset: u64 = match metadata_bytes.checked_add(index_bytes) {
            Some(offset) => offset,
            None => return Err(FormatError::Overflow),
        };
        let data_bytes: u64 = match usable.checked_sub(data_offset) {
            Some(bytes) => bytes,
            None => return Err(FormatError::SmallerThanMetadata),
        };
        let segments: u64 = data_bytes / geometry.segment_bytes;
        if segments < geometry.minimum_segments {
            return Err(FormatError::TooFewSegments);
        }
        if segments > usize::MAX as u64 {
            return Err(FormatError::TooManySegments);
        }
        proof {
            lemma_floor_to(data_bytes as int, geometry.segment_bytes as int);
        }
        let ring_end: u64 = data_offset + segments * geometry.segment_bytes;
        Ok(
            Layout {
                capacity: usable,
                metadata_bytes,
                index_bytes,
                data_offset,
                segment_count: segments as usize,
                ring_end,
            },
        )
    }
}

/// A pointer from the index to one record.
#[derive(Clone, Copy, Debug, PartialEq, Eq, Structural)]
pub struct Slot {
    /// Fingerprint of the record's path.
    pub fingerprint: u64,
    /// Generation of the segment that holds the record; zero marks an empty slot.
    pub generation: u64,
    /// Offset of the record in the container.
    pub record_offset: u64,
    /// Encoded size of the record.
    pub record_bytes: u64,
    /// Point after which the record was known to be current.
    pub current_after: SequencePoint,
}

/// A decoded record.
#[derive(Clone, Debug, PartialEq, Eq)]
pub struct Record {
    /// Revision token of the cached body.
    pub revision: Vec<u8>,
    /// Encoded object body.
    pub body: Vec<u8>,
    /// Point after which the body was known to be current.
    pub current_after: SequencePoint,
}

/// The complete binary-format context for one persistent-cache container.
#[derive(Clone, Copy, Debug)]
pub struct CacheFormat {
    geometry: CacheGeometry,
    layout: Layout,
    identity: [u8; 32],
}

/// The identity of the container of one database.
pub open spec fn container_identity(g: CacheGeometry, name: Seq<u8>, id: Seq<u8>) -> Seq<u8> {
    sha256(g.identity_domain.spec_bytes() + bytes::le32(name.len() as u32) + name + id)@
}

/// The encoded slot.
pub open spec fn slot_bytes(slot: Slot) -> Seq<u8> {
    bytes::le64(slot.fingerprint) + bytes::le64(slot.generation)
        + bytes::le64(slot.record_offset) + bytes::le64(slot.record_bytes)
        + bytes::le64(slot.current_after@)
}

/// The slot that the first bytes of `raw` decode to.
pub open spec fn decoded_slot(raw: Seq<u8>) -> Slot {
    Slot {
        fingerprint: bytes::le64_value(raw.subrange(0, 8)),
        generation: bytes::le64_value(raw.subrange(8, 16)),
        record_offset: bytes::le64_value(raw.subrange(16, 24)),
        record_bytes: bytes::le64_value(raw.subrange(24, 32)),
        current_after: SequencePoint { raw: bytes::le64_value(raw.subrange(32, 40)) },
    }
}

/// The fixed first bytes of a record.
pub open spec fn record_prefix(revision_len: int, body_len: int, current_after: u64) -> Seq<u8> {
    bytes::le32(revision_len as u32) + bytes::le32(body_len as u32)
        + bytes::le64(current_after)
}

impl CacheFormat {
    /// The geometry of the container.
    pub closed spec fn spec_geometry(&self) -> CacheGeometry {
        self.geometry
    }

    /// The layout of the container.
    pub closed spec fn spec_layout(&self) -> Layout {
        self.layout
    }

    /// The identity stored in the container.
    pub closed spec fn spec_identity(&self) -> Seq<u8> {
        self.identity@
    }

    /// The layout was derived from the geometry and some capacity.
    pub open spec fn wf(&self) -> bool {
        &&& self.spec_identity().len() == 32
        &&& exists|capacity: u64|
            {
                &&& layout_error(capacity, self.spec_geometry()) is None
                &&& #[trigger] self.spec_layout().of(capacity, self.spec_geometry())
            }
    }

    /// One block and one segment fit in memory.
    pub open spec fn fits_memory(&self) -> bool {
        self.spec_geometry().segment_bytes <= usize::MAX
    }

    /// What a well-formed context fixes about its layout.
    pub proof fn lemma_layout(&self)
        requires
            self.wf(),
        ensures
            ({
                let g = self.spec_geometry();
                let l = self.spec_layout();
                &&& g.valid()
                &&& l.metadata_bytes == 2 * g.block_bytes
                &&& l.index_bytes >= g.block_bytes
                &&& l.index_bytes % g.block_bytes == 0
                &&& l.data_offset == l.metadata_bytes + l.index_bytes
                &&& l.segment_count >= 2
                &&& l.ring_end == l.data_offset + l.segment_count * g.segment_bytes
                &&& l.ring_end <= l.capacity
            }),
    {
        let g = self.spec_geometry();
        let capacity = choose|capacity: u64|
            {
                &&& layout_error(capacity, g) is None
                &&& #[trigger] self.spec_layout().of(capacity, g)
            };
        lemma_floor_to(usable_capacity(capacity, g) / g.index_divisor as int, g.block_bytes as int);
        lemma_floor_to(capacity as int, g.block_bytes as int);
        vstd::arithmetic::div_mod::lemma_div_pos_is_pos(
            usable_capacity(capacity, g),
            g.index_divisor as int,
        );
        let data = usable_capacity(capacity, g) - ring_start(capacity, g);
        lemma_floor_to(data, g.segment_bytes as int);
    }

    /// The context is that of a container of this geometry and capacity, for one
    /// database.
    pub open spec fn made_of(
        &self,
        geometry: CacheGeometry,
        capacity: u64,
        database_name: &str,
        database_id: DatabaseId,
    ) -> bool {
        &&& self.spec_geometry() == geometry
        &&& self.spec_layout().of(capacity, geometry)
        &&& self.spec_identity() == container_identity(
            geometry,
            database_name.spec_bytes(),
            database_id@,
        )
    }

    /// A container is no larger than what it may take.
    pub proof fn lemma_capacity(&self, capacity: u64)
        requires
            self.wf(),
            self.spec_layout().of(capacity, self.spec_geometry()),
        ensures
            self.spec_layout().capacity <= capacity,
    {
        self.lemma_layout();
        lemma_floor_to(capacity as int, self.spec_geometry().block_bytes as int);
    }

    /// Reports whether a segment fits in memory.
    pub fn memory_suffices(&self) -> (r: bool)
        ensures
            r == self.fits_memory(),
    {
        self.geometry.segment_bytes <= usize::MAX as u64
    }

    /// Creates the format context of one database's container.
    pub fn new(
        geometry: CacheGeometry,
        capacity: u64,
        database_name: &str,
        database_id: DatabaseId,
    ) -> (r: Result<Self, FormatError>)
        ensures
            layout_error(capacity, geometry) matches Some(error) ==> r == Err::<
                Self,
                FormatError,
            >(error),
            layout_error(capacity, geometry) is None && database_name.spec_bytes().len() > u32::MAX
                ==> r == Err::<Self, FormatError>(FormatError::NameTooLong),
            layout_error(capacity, geometry) is None && database_name.spec_bytes().len()
                <= u32::MAX ==> r is Ok,
            r matches Ok(format) ==> {
                &&& format.wf()
                &&& format.made_of(geometry, capacity, database_name, database_id)
            },
    {
        let layout = match Layout::derive(capacity, geometry) {
            Ok(layout) => layout,
            Err(error) => return Err(error),
        };
        let name: &[u8] = database_name.as_bytes();
        if name.len() as u64 > u32::MAX as u64 {
            return Err(FormatError::NameTooLong);
        }
        let mut input: Vec<u8> = Vec::new();
        bytes::append(&mut input, geometry.identity_domain.as_bytes());
        bytes::append(&mut input, bytes::to_le32(name.len() as u32).as_slice());
        bytes::append(&mut input, name);
        bytes::append(&mut input, database_id.as_bytes());
        proof {
            assert(input@ =~= geometry.identity_domain.spec_bytes() + bytes::le32(
                name@.len() as u32,
            ) + name@ + database_id@);
        }
        let identity = sha256_digest(input.as_slice());
        let format = CacheFormat { geometry, layout, identity };
        proof {
            assert(format.spec_layout().of(capacity, format.spec_geometry()));
        }
        Ok(format)
    }

    /// Returns the container size.
    pub fn capacity(&self) -> (r: u64)
        ensures
            r == self.spec_layout().capacity,
    {
        self.layout.capacity
    }

    /// Returns the size of a block.
    pub fn block_bytes(&self) -> (r: u64)
        ensures
            r == self.spec_geometry().block_bytes,
    {
        self.geometry.block_bytes
    }

    /// Returns the smallest size charged for a record.
    pub fn minimum_record_bytes(&self) -> (r: u64)
        ensures
            r == self.spec_geometry().minimum_record_bytes,
    {
        self.geometry.minimum_record_bytes
    }

    /// Returns the size of a segment.
    pub fn segment_bytes(&self) -> (r: u64)
        ensures
            r == self.spec_geometry().segment_bytes,
    {
        self.geometry.segment_bytes
    }

    /// Returns the largest record that fits behind a segment header.
    pub fn maximum_record_bytes(&self) -> (r: u64)
        requires
            self.wf(),
        ensures
            r == self.spec_geometry().segment_bytes - self.spec_geometry().block_bytes,
    {
        proof {
            self.lemma_layout();
        }
        self.geometry.segment_bytes - self.geometry.block_bytes
    }

    /// Returns the size of the metadata before the index.
    pub fn metadata_bytes(&self) -> (r: u64)
        ensures
            r == self.spec_layout().metadata_bytes,
    {
        self.layout.metadata_bytes
    }

    /// Returns the start of the record ring.
    pub fn data_offset(&self) -> (r: u64)
        ensures
            r == self.spec_layout().data_offset,
    {
        self.layout.data_offset
    }

    /// Returns the number of segments.
    pub fn segment_count(&self) -> (r: usize)
        ensures
            r == self.spec_layout().segment_count,
    {
        self.layout.segment_count
    }

    /// Returns the end of the record ring.
    pub fn ring_end(&self) -> (r: u64)
        ensures
            r == self.spec_layout().ring_end,
    {
        self.layout.ring_end
    }

    /// Index buckets of the container.
    pub open spec fn buckets(&self) -> int {
        self.spec_layout().index_bytes as int / self.spec_geometry().block_bytes as int
    }

    /// There is at least one bucket, and the buckets fill the index.
    pub proof fn lemma_buckets(&self)
        requires
            self.wf(),
        ensures
            self.buckets() >= 1,
            self.buckets() * self.spec_geometry().block_bytes == self.spec_layout().index_bytes,
    {
        self.lemma_layout();
        let block = self.spec_geometry().block_bytes as int;
        let index = self.spec_layout().index_bytes as int;
        vstd::arithmetic::div_mod::lemma_fundamental_div_mod(index, block);
        assert(block * (index / block) == (index / block) * block) by (nonlinear_arith);
        assert(index / block >= 1) by (nonlinear_arith)
            requires
                index >= block,
                block > 0,
        ;
    }

    /// Returns the number of index buckets.
    pub fn bucket_count(&self) -> (r: u64)
        requires
            self.wf(),
        ensures
            r == self.buckets(),
            r >= 1,
    {
        proof {
            self.lemma_layout();
            self.lemma_buckets();
        }
        self.layout.index_bytes / self.geometry.block_bytes
    }

    /// Offset of segment `index`.
    pub open spec fn segment_offset(&self, index: int) -> int {
        self.spec_layout().data_offset + index * self.spec_geometry().segment_bytes
    }

    /// A segment lies inside the ring, and segments do not overlap.
    pub proof fn lemma_segment(&self, index: int)
        requires
            self.wf(),
            0 <= index < self.spec_layout().segment_count,
        ensures
            self.spec_layout().data_offset <= self.segment_offset(index),
            self.segment_offset(index) + self.spec_geometry().segment_bytes
                <= self.spec_layout().ring_end,
            self.segment_offset(index + 1) == self.segment_offset(index)
                + self.spec_geometry().segment_bytes,
    {
        self.lemma_layout();
        let n = self.spec_layout().segment_count as int;
        let seg = self.spec_geometry().segment_bytes as int;
        assert(0 <= index * seg) by (nonlinear_arith)
            requires
                index >= 0,
                seg > 0,
        ;
        assert((index + 1) * seg == index * seg + seg) by (nonlinear_arith);
        assert((index + 1) * seg <= n * seg) by (nonlinear_arith)
            requires
                index + 1 <= n,
                seg > 0,
        ;
    }

    /// Returns the offset of segment `index`.
    pub fn segment_start(&self, index: usize) -> (r: u64)
        requires
            self.wf(),
            index < self.spec_layout().segment_count,
        ensures
            r == self.segment_offset(index as int),
    {
        proof {
            self.lemma_layout();
            self.lemma_segment(index as int);
            let seg = self.spec_geometry().segment_bytes as int;
            assert(0 <= index * seg) by (nonlinear_arith)
                requires
                    index >= 0,
                    seg > 0,
            ;
        }
        self.layout.data_offset + index as u64 * self.geometry.segment_bytes
    }

    /// Encoded size of a record with the given content sizes, or `None` when a
    /// content size does not fit its field.
    pub open spec fn record_size(&self, revision_len: int, body_len: int) -> Option<int> {
        if revision_len > u32::MAX || body_len > u32::MAX {
            None
        } else {
            let content = align_up(
                RECORD_HEADER_BYTES + revision_len + body_len,
                RECORD_ALIGNMENT as int,
            );
            let least = self.spec_geometry().minimum_record_bytes as int;
            Some(if content >= least { content } else { least })
        }
    }

    /// A record size is aligned and covers the record's content.
    pub proof fn lemma_record_size(&self, revision_len: int, body_len: int)
        requires
            self.spec_geometry().valid(),
            0 <= revision_len <= u32::MAX,
            0 <= body_len <= u32::MAX,
        ensures
            self.record_size(revision_len, body_len) matches Some(size) && {
                &&& size >= RECORD_HEADER_BYTES + revision_len + body_len
                &&& size % RECORD_ALIGNMENT as int == 0
                &&& size >= self.spec_geometry().minimum_record_bytes
                &&& size <= u64::MAX
            },
    {
        lemma_floor_to(RECORD_HEADER_BYTES + revision_len + body_len + 7, 8);
    }

    /// Returns the encoded size of a record with the given content sizes.
    pub fn record_bytes(&self, revision_bytes: usize, body_bytes: usize) -> (r: Option<u64>)
        requires
            self.wf(),
        ensures
            r is Some <==> self.record_size(revision_bytes as int, body_bytes as int) is Some,
            r matches Some(size) ==> self.record_size(revision_bytes as int, body_bytes as int)
                == Some(size as int),
    {
        if revision_bytes as u64 > u32::MAX as u64 || body_bytes as u64 > u32::MAX as u64 {
            return None;
        }
        proof {
            self.lemma_layout();
            self.lemma_record_size(revision_bytes as int, body_bytes as int);
        }
        let content: u64 = RECORD_HEADER_BYTES + revision_bytes as u64 + body_bytes as u64;
        proof {
            lemma_floor_to(content + 7, 8);
        }
        let aligned: u64 = floor(content + (RECORD_ALIGNMENT - 1), RECORD_ALIGNMENT);
        if aligned >= self.geometry.minimum_record_bytes {
            Some(aligned)
        } else {
            Some(self.geometry.minimum_record_bytes)
        }
    }

    /// Fingerprint of a path in this container.
    pub open spec fn fingerprint(&self, path: Seq<u8>) -> u64 {
        bytes::le64_value(
            sha256(
                self.spec_geometry().path_domain.spec_bytes() + self.spec_identity()
                    + bytes::le32(path.len() as u32) + path,
            )@.subrange(0, 8),
        )
    }

    /// Returns the fingerprint of `path`.
    pub fn path_fingerprint(&self, path: &str) -> (r: u64)
        ensures
            r == self.fingerprint(path.spec_bytes()),
    {
        let name: &[u8] = path.as_bytes();
        let mut input: Vec<u8> = Vec::new();
        bytes::append(&mut input, self.geometry.path_domain.as_bytes());
        bytes::append(&mut input, self.identity.as_slice());
        #[verifier::truncate]
        let name_len: u32 = name.len() as u32;
        bytes::append(&mut input, bytes::to_le32(name_len).as_slice());
        bytes::append(&mut input, name);
        proof {
            assert(input@ =~= self.spec_geometry().path_domain.spec_bytes() + self.spec_identity()
                + bytes::le32(name@.len() as u32) + name@);
        }
        let digest = sha256_digest(input.as_slice());
        bytes::from_le64(vstd::slice::slice_subrange(digest.as_slice(), 0, 8))
    }
}

impl CacheFormat {
    /// Digest that closes a file header.
    pub open spec fn header_digest(&self, header: Seq<u8>) -> Seq<u8> {
        sha256(
            self.spec_geometry().header_domain.spec_bytes() + header + bytes::le64(
                self.spec_layout().capacity,
            ),
        )@
    }

    /// The magic, version and identity that start a file header.
    pub open spec fn header_identity(&self) -> Seq<u8> {
        self.spec_geometry().magic@ + bytes::le64(self.spec_geometry().format_version)
            + self.spec_identity()
    }

    /// The significant bytes of the file header.
    pub open spec fn header_content(&self) -> Seq<u8> {
        self.header_identity() + self.header_digest(self.header_identity())
    }

    fn header_content_bytes(&self) -> (r: Vec<u8>)
        requires
            self.wf(),
        ensures
            r@ == self.header_content(),
            r@.len() == 80,
    {
        proof {
            bytes::lemma_le64();
        }
        let mut header: Vec<u8> = Vec::new();
        bytes::append(&mut header, self.geometry.magic.as_slice());
        bytes::append(&mut header, bytes::to_le64(self.geometry.format_version).as_slice());
        bytes::append(&mut header, self.identity.as_slice());
        proof {
            assert(header@ =~= self.header_identity());
        }
        let mut input: Vec<u8> = Vec::new();
        bytes::append(&mut input, self.geometry.header_domain.as_bytes());
        bytes::append(&mut input, header.as_slice());
        bytes::append(&mut input, bytes::to_le64(self.layout.capacity).as_slice());
        proof {
            assert(input@ =~= self.spec_geometry().header_domain.spec_bytes()
                + self.header_identity() + bytes::le64(self.spec_layout().capacity));
        }
        let digest = sha256_digest(input.as_slice());
        bytes::append(&mut header, digest.as_slice());
        proof {
            assert(header@ =~= self.header_content());
        }
        header
    }

    /// Encodes the first block of the container.
    pub fn encode_file_header(&self) -> (r: Vec<u8>)
        requires
            self.wf(),
            self.fits_memory(),
        ensures
            r@ == bytes::padded(self.header_content(), self.spec_geometry().block_bytes as int),
            r@.len() == self.spec_geometry().block_bytes,
    {
        proof {
            self.lemma_layout();
        }
        let mut header = self.header_content_bytes();
        bytes::pad(&mut header, self.geometry.block_bytes as usize);
        header
    }

    /// Reports whether `header` starts like this container's own file header.
    pub fn file_header_valid(&self, header: &[u8]) -> (r: bool)
        requires
            self.wf(),
        ensures
            r == (header@.len() >= 80 && header@.subrange(0, 80) == self.header_content()),
    {
        if header.len() < 80 {
            return false;
        }
        let content = self.header_content_bytes();
        bytes::same(vstd::slice::slice_subrange(header, 0, 80), content.as_slice())
    }

    /// The significant bytes of a segment header.
    pub open spec fn segment_content(generation: u64) -> Seq<u8> {
        bytes::le64(generation) + bytes::le64(!generation)
    }

    /// Encodes the header of a segment.
    pub fn encode_segment_header(&self, generation: u64) -> (r: Vec<u8>)
        requires
            self.wf(),
            self.fits_memory(),
        ensures
            r@ == bytes::padded(
                Self::segment_content(generation),
                self.spec_geometry().block_bytes as int,
            ),
            r@.len() == self.spec_geometry().block_bytes,
    {
        proof {
            self.lemma_layout();
            bytes::lemma_le64();
        }
        let mut header: Vec<u8> = Vec::new();
        bytes::append(&mut header, bytes::to_le64(generation).as_slice());
        bytes::append(&mut header, bytes::to_le64(!generation).as_slice());
        proof {
            assert(header@ =~= Self::segment_content(generation));
        }
        bytes::pad(&mut header, self.geometry.block_bytes as usize);
        header
    }

    /// The generation that a segment header names, if it is intact.
    pub open spec fn segment_generation(header: Seq<u8>) -> Option<u64> {
        let generation = bytes::le64_value(header.subrange(0, 8));
        let complement = bytes::le64_value(header.subrange(8, 16));
        if header.len() >= 16 && generation != 0 && complement == !generation {
            Some(generation)
        } else {
            None
        }
    }

    /// Decodes the generation of a segment header.
    pub fn decode_segment_generation(&self, header: &[u8]) -> (r: Option<u64>)
        ensures
            r == Self::segment_generation(header@),
    {
        if header.len() < 16 {
            return None;
        }
        let generation: u64 = bytes::from_le64(vstd::slice::slice_subrange(header, 0, 8));
        let complement: u64 = bytes::from_le64(vstd::slice::slice_subrange(header, 8, 16));
        if generation != 0 && complement == !generation {
            Some(generation)
        } else {
            None
        }
    }

    /// Digest that closes a clean-tail marker.
    pub open spec fn marker_digest(&self, marker: Seq<u8>) -> Seq<u8> {
        sha256(
            self.spec_geometry().marker_domain.spec_bytes() + self.spec_identity()
                + bytes::le64(self.spec_layout().capacity) + marker,
        )@
    }

    fn marker_digest_bytes(&self, marker: &[u8]) -> (r: [u8; 32])
        ensures
            r@ == self.marker_digest(marker@),
    {
        let mut input: Vec<u8> = Vec::new();
        bytes::append(&mut input, self.geometry.marker_domain.as_bytes());
        bytes::append(&mut input, self.identity.as_slice());
        bytes::append(&mut input, bytes::to_le64(self.layout.capacity).as_slice());
        bytes::append(&mut input, marker);
        proof {
            assert(input@ =~= self.spec_geometry().marker_domain.spec_bytes()
                + self.spec_identity() + bytes::le64(self.spec_layout().capacity)
                + marker@);
        }
        sha256_digest(input.as_slice())
    }

    /// The significant bytes of a clean-tail marker.
    pub open spec fn tail_content(&self, generation: u64, append_offset: u64) -> Seq<u8> {
        let tail = bytes::le64(generation) + bytes::le64(append_offset);
        tail + self.marker_digest(tail)
    }

    /// Encodes the clean-tail marker; without a tail it is all zeros.
    pub fn encode_clean_tail(&self, tail: Option<(u64, u64)>) -> (r: Vec<u8>)
        requires
            self.wf(),
            self.fits_memory(),
        ensures
            r@ == match tail {
                Some((generation, append_offset)) => bytes::padded(
                    self.tail_content(generation, append_offset),
                    self.spec_geometry().block_bytes as int,
                ),
                None => bytes::zeros(self.spec_geometry().block_bytes as int),
            },
            r@.len() == self.spec_geometry().block_bytes,
    {
        proof {
            self.lemma_layout();
            bytes::lemma_le64();
        }
        let mut marker: Vec<u8> = Vec::new();
        if let Some((generation, append_offset)) = tail {
            bytes::append(&mut marker, bytes::to_le64(generation).as_slice());
            bytes::append(&mut marker, bytes::to_le64(append_offset).as_slice());
            let digest = self.marker_digest_bytes(marker.as_slice());
            bytes::append(&mut marker, digest.as_slice());
            proof {
                let start = bytes::le64(generation) + bytes::le64(append_offset);
                assert(Seq::<u8>::empty() + bytes::le64(generation) =~=
                    bytes::le64(generation));
                assert(marker@ =~= start + self.marker_digest(start));
            }
        }
        let ghost content = marker@;
        bytes::pad(&mut marker, self.geometry.block_bytes as usize);
        proof {
            if tail is None {
                assert(marker@ =~= bytes::zeros(self.spec_geometry().block_bytes as int));
            }
        }
        marker
    }

    /// The generation and append offset of an intact clean-tail marker.
    pub open spec fn clean_tail(&self, marker: Seq<u8>) -> Option<(u64, u64)> {
        if marker.len() >= 48 && marker.subrange(16, 48) == self.marker_digest(
            marker.subrange(0, 16),
        ) {
            Some(
                (
                    bytes::le64_value(marker.subrange(0, 8)),
                    bytes::le64_value(marker.subrange(8, 16)),
                ),
            )
        } else {
            None
        }
    }

    /// Decodes a clean-tail marker.
    pub fn decode_clean_tail(&self, marker: &[u8]) -> (r: Option<(u64, u64)>)
        ensures
            r == self.clean_tail(marker@),
    {
        if marker.len() < 48 {
            return None;
        }
        let digest = self.marker_digest_bytes(vstd::slice::slice_subrange(marker, 0, 16));
        if !bytes::same(vstd::slice::slice_subrange(marker, 16, 48), digest.as_slice()) {
            return None;
        }
        let generation: u64 = bytes::from_le64(vstd::slice::slice_subrange(marker, 0, 8));
        let append_offset: u64 = bytes::from_le64(vstd::slice::slice_subrange(marker, 8, 16));
        Some((generation, append_offset))
    }

    /// Encodes a slot.
    pub fn encode_slot(&self, slot: Slot) -> (r: Vec<u8>)
        ensures
            r@ == slot_bytes(slot),
            r@.len() == SLOT_BYTES,
    {
        proof {
            bytes::lemma_le64();
        }
        let mut raw: Vec<u8> = Vec::new();
        bytes::append(&mut raw, bytes::to_le64(slot.fingerprint).as_slice());
        bytes::append(&mut raw, bytes::to_le64(slot.generation).as_slice());
        bytes::append(&mut raw, bytes::to_le64(slot.record_offset).as_slice());
        bytes::append(&mut raw, bytes::to_le64(slot.record_bytes).as_slice());
        bytes::append(&mut raw, bytes::to_le64(slot.current_after.raw()).as_slice());
        proof {
            assert(raw@ =~= slot_bytes(slot));
        }
        raw
    }

    /// Decodes a slot.
    pub fn decode_slot(&self, raw: &[u8]) -> (r: Slot)
        requires
            raw@.len() >= SLOT_BYTES,
        ensures
            r == decoded_slot(raw@),
    {
        Slot {
            fingerprint: bytes::from_le64(vstd::slice::slice_subrange(raw, 0, 8)),
            generation: bytes::from_le64(vstd::slice::slice_subrange(raw, 8, 16)),
            record_offset: bytes::from_le64(vstd::slice::slice_subrange(raw, 16, 24)),
            record_bytes: bytes::from_le64(vstd::slice::slice_subrange(raw, 24, 32)),
            current_after: SequencePoint::from_raw(
                bytes::from_le64(vstd::slice::slice_subrange(raw, 32, 40)),
            ),
        }
    }
}

impl CacheFormat {
    /// Digest that binds a record to its container and path.
    pub open spec fn record_digest(
        &self,
        path: Seq<u8>,
        prefix: Seq<u8>,
        revision: Seq<u8>,
        body: Seq<u8>,
    ) -> Seq<u8> {
        sha256(
            self.spec_geometry().record_domain.spec_bytes() + self.spec_identity()
                + bytes::le32(path.len() as u32) + path + prefix + revision + body,
        )@
    }

    fn record_digest_bytes(
        &self,
        path: &[u8],
        prefix: &[u8],
        revision: &[u8],
        body: &[u8],
    ) -> (r: [u8; 32])
        requires
            path@.len() <= u32::MAX,
        ensures
            r@ == self.record_digest(path@, prefix@, revision@, body@),
    {
        let mut input: Vec<u8> = Vec::new();
        bytes::append(&mut input, self.geometry.record_domain.as_bytes());
        bytes::append(&mut input, self.identity.as_slice());
        bytes::append(&mut input, bytes::to_le32(path.len() as u32).as_slice());
        bytes::append(&mut input, path);
        bytes::append(&mut input, prefix);
        bytes::append(&mut input, revision);
        bytes::append(&mut input, body);
        proof {
            assert(input@ =~= self.spec_geometry().record_domain.spec_bytes()
                + self.spec_identity() + bytes::le32(path@.len() as u32) + path@ + prefix@
                + revision@ + body@);
        }
        sha256_digest(input.as_slice())
    }

    /// The significant bytes of a record.
    pub open spec fn record_content(
        &self,
        path: Seq<u8>,
        revision: Seq<u8>,
        body: Seq<u8>,
        current_after: u64,
    ) -> Seq<u8> {
        let prefix = record_prefix(revision.len() as int, body.len() as int, current_after);
        prefix + self.record_digest(path, prefix, revision, body) + revision + body
    }

    /// A record with these contents can be encoded.
    pub open spec fn record_encodable(&self, path: Seq<u8>, revision: Seq<u8>, body: Seq<u8>) -> bool {
        &&& self.record_size(revision.len() as int, body.len() as int) is Some
        &&& path.len() <= u32::MAX
    }

    /// Encodes a record for `path`.
    pub fn encode_record(
        &self,
        path: &str,
        revision: &[u8],
        body: &[u8],
        current_after: SequencePoint,
    ) -> (r: Result<Vec<u8>, FormatError>)
        requires
            self.wf(),
            self.record_size(revision@.len() as int, body@.len() as int) matches Some(size) ==> size
                <= usize::MAX,
        ensures
            r is Ok <==> self.record_encodable(path.spec_bytes(), revision@, body@),
            r matches Err(error) ==> error == FormatError::InvalidRecord,
            r matches Ok(record) ==> {
                let size = self.record_size(revision@.len() as int, body@.len() as int)->0;
                &&& record@ == bytes::padded(
                    self.record_content(path.spec_bytes(), revision@, body@, current_after@),
                    size,
                )
                &&& record@.len() == size
            },
    {
        let record_bytes: u64 = match self.record_bytes(revision.len(), body.len()) {
            Some(record_bytes) => record_bytes,
            None => return Err(FormatError::InvalidRecord),
        };
        let name: &[u8] = path.as_bytes();
        if name.len() as u64 > u32::MAX as u64 {
            return Err(FormatError::InvalidRecord);
        }
        proof {
            self.lemma_layout();
            self.lemma_record_size(revision@.len() as int, body@.len() as int);
            bytes::lemma_le64();
            bytes::lemma_le32();
        }
        let mut record: Vec<u8> = Vec::new();
        bytes::append(&mut record, bytes::to_le32(revision.len() as u32).as_slice());
        bytes::append(&mut record, bytes::to_le32(body.len() as u32).as_slice());
        bytes::append(&mut record, bytes::to_le64(current_after.raw()).as_slice());
        let ghost prefix = record_prefix(
            revision@.len() as int,
            body@.len() as int,
            current_after@,
        );
        proof {
            assert(record@ =~= prefix);
        }
        let digest = self.record_digest_bytes(name, record.as_slice(), revision, body);
        bytes::append(&mut record, digest.as_slice());
        bytes::append(&mut record, revision);
        bytes::append(&mut record, body);
        proof {
            assert(record@ =~= self.record_content(
                path.spec_bytes(),
                revision@,
                body@,
                current_after@,
            ));
        }
        bytes::pad(&mut record, record_bytes as usize);
        Ok(record)
    }

    /// Length of the revision stored in a record.
    pub open spec fn stored_revision_len(raw: Seq<u8>) -> int {
        bytes::le32_value(raw.subrange(0, 4)) as int
    }

    /// Length of the body stored in a record.
    pub open spec fn stored_body_len(raw: Seq<u8>) -> int {
        bytes::le32_value(raw.subrange(4, 8)) as int
    }

    /// Revision stored in a record.
    pub open spec fn stored_revision(raw: Seq<u8>) -> Seq<u8> {
        raw.subrange(48, 48 + Self::stored_revision_len(raw))
    }

    /// Body stored in a record.
    pub open spec fn stored_body(raw: Seq<u8>) -> Seq<u8> {
        raw.subrange(
            48 + Self::stored_revision_len(raw),
            48 + Self::stored_revision_len(raw) + Self::stored_body_len(raw),
        )
    }

    /// `raw` is an intact record of `path` in this container.
    pub open spec fn record_intact(&self, path: Seq<u8>, raw: Seq<u8>) -> bool {
        &&& raw.len() >= RECORD_HEADER_BYTES
        &&& self.record_size(Self::stored_revision_len(raw), Self::stored_body_len(raw)) == Some(
            raw.len() as int,
        )
        &&& path.len() <= u32::MAX
        &&& raw.subrange(16, 48) == self.record_digest(
            path,
            raw.subrange(0, 16),
            Self::stored_revision(raw),
            Self::stored_body(raw),
        )
    }

    /// Decodes a record of `path`.
    pub fn decode_record(&self, path: &str, raw: &[u8]) -> (r: Result<Record, FormatError>)
        requires
            self.wf(),
        ensures
            r is Ok <==> self.record_intact(path.spec_bytes(), raw@),
            r matches Err(error) ==> error == FormatError::InvalidRecord,
            r matches Ok(record) ==> {
                &&& record.revision@ == Self::stored_revision(raw@)
                &&& record.body@ == Self::stored_body(raw@)
                &&& record.current_after@ == bytes::le64_value(raw@.subrange(8, 16))
            },
    {
        if raw.len() < RECORD_HEADER_BYTES as usize {
            return Err(FormatError::InvalidRecord);
        }
        let revision_bytes: u32 = bytes::from_le32(vstd::slice::slice_subrange(raw, 0, 4));
        let body_bytes: u32 = bytes::from_le32(vstd::slice::slice_subrange(raw, 4, 8));
        let current_after = SequencePoint::from_raw(
            bytes::from_le64(vstd::slice::slice_subrange(raw, 8, 16)),
        );
        proof {
            self.lemma_layout();
            self.lemma_record_size(revision_bytes as int, body_bytes as int);
        }
        let expected: u64 = match self.record_bytes(revision_bytes as usize, body_bytes as usize) {
            Some(expected) => expected,
            None => return Err(FormatError::InvalidRecord),
        };
        if expected != raw.len() as u64 {
            return Err(FormatError::InvalidRecord);
        }
        let revision_end: usize = RECORD_HEADER_BYTES as usize + revision_bytes as usize;
        let content_end: usize = revision_end + body_bytes as usize;
        let revision: &[u8] = vstd::slice::slice_subrange(
            raw,
            RECORD_HEADER_BYTES as usize,
            revision_end,
        );
        let body: &[u8] = vstd::slice::slice_subrange(raw, revision_end, content_end);
        let name: &[u8] = path.as_bytes();
        if name.len() as u64 > u32::MAX as u64 {
            return Err(FormatError::InvalidRecord);
        }
        let digest = self.record_digest_bytes(
            name,
            vstd::slice::slice_subrange(raw, 0, 16),
            revision,
            body,
        );
        if !bytes::same(vstd::slice::slice_subrange(raw, 16, 48), digest.as_slice()) {
            return Err(FormatError::InvalidRecord);
        }
        Ok(Record { revision: bytes::copy(revision), body: bytes::copy(body), current_after })
    }

    /// Law: an encoded record decodes to what was encoded, under the same path
    /// and container.
    pub proof fn law_record_round_trip(
        &self,
        path: Seq<u8>,
        revision: Seq<u8>,
        body: Seq<u8>,
        current_after: u64,
    )
        requires
            self.wf(),
            self.record_encodable(path, revision, body),
        ensures
            ({
                let raw = bytes::padded(
                    self.record_content(path, revision, body, current_after),
                    self.record_size(revision.len() as int, body.len() as int)->0,
                );
                &&& self.record_intact(path, raw)
                &&& Self::stored_revision(raw) == revision
                &&& Self::stored_body(raw) == body
                &&& bytes::le64_value(raw.subrange(8, 16)) == current_after
            }),
    {
        self.lemma_layout();
        self.lemma_record_size(revision.len() as int, body.len() as int);
        bytes::lemma_le64();
        bytes::lemma_le32();
        let size = self.record_size(revision.len() as int, body.len() as int)->0;
        let prefix = record_prefix(revision.len() as int, body.len() as int, current_after);
        let digest = self.record_digest(path, prefix, revision, body);
        let raw = bytes::padded(self.record_content(path, revision, body, current_after), size);
        assert(digest.len() == 32);
        assert(prefix.len() == 16);
        assert(raw.subrange(0, 4) =~= bytes::le32(revision.len() as u32));
        assert(raw.subrange(4, 8) =~= bytes::le32(body.len() as u32));
        assert(raw.subrange(8, 16) =~= bytes::le64(current_after));
        assert(raw.subrange(0, 16) =~= prefix);
        assert(raw.subrange(16, 48) =~= digest);
        assert(Self::stored_revision(raw) =~= revision);
        assert(Self::stored_body(raw) =~= body);
    }

    /// Law: an encoded slot decodes to itself.
    pub proof fn law_slot_round_trip(slot: Slot)
        ensures
            slot_bytes(slot).len() == SLOT_BYTES,
            decoded_slot(slot_bytes(slot)) == slot,
    {
        bytes::lemma_le64();
        let raw = slot_bytes(slot);
        assert(raw.subrange(0, 8) =~= bytes::le64(slot.fingerprint));
        assert(raw.subrange(8, 16) =~= bytes::le64(slot.generation));
        assert(raw.subrange(16, 24) =~= bytes::le64(slot.record_offset));
        assert(raw.subrange(24, 32) =~= bytes::le64(slot.record_bytes));
        assert(raw.subrange(32, 40) =~= bytes::le64(slot.current_after@));
    }

    /// Law: an encoded segment header names its generation, unless that is zero.
    pub proof fn law_segment_header_round_trip(&self, generation: u64)
        requires
            self.wf(),
            generation != 0,
        ensures
            Self::segment_generation(
                bytes::padded(
                    Self::segment_content(generation),
                    self.spec_geometry().block_bytes as int,
                ),
            ) == Some(generation),
    {
        self.lemma_layout();
        bytes::lemma_le64();
        let raw = bytes::padded(
            Self::segment_content(generation),
            self.spec_geometry().block_bytes as int,
        );
        assert(raw.subrange(0, 8) =~= bytes::le64(generation));
        assert(raw.subrange(8, 16) =~= bytes::le64(!generation));
    }

    /// Law: an encoded clean tail decodes to itself.
    pub proof fn law_clean_tail_round_trip(&self, generation: u64, append_offset: u64)
        requires
            self.wf(),
        ensures
            self.clean_tail(
                bytes::padded(
                    self.tail_content(generation, append_offset),
                    self.spec_geometry().block_bytes as int,
                ),
            ) == Some((generation, append_offset)),
    {
        self.lemma_layout();
        bytes::lemma_le64();
        let tail = bytes::le64(generation) + bytes::le64(append_offset);
        let raw = bytes::padded(
            self.tail_content(generation, append_offset),
            self.spec_geometry().block_bytes as int,
        );
        assert(raw.subrange(0, 16) =~= tail);
        assert(raw.subrange(0, 8) =~= bytes::le64(generation));
        assert(raw.subrange(8, 16) =~= bytes::le64(append_offset));
        assert(raw.subrange(16, 48) =~= self.marker_digest(tail));
    }

    /// Law: the encoded file header is accepted by the container that wrote it.
    pub proof fn law_file_header_accepted(&self)
        requires
            self.wf(),
        ensures
            ({
                let raw = bytes::padded(
                    self.header_content(),
                    self.spec_geometry().block_bytes as int,
                );
                raw.len() >= 80 && raw.subrange(0, 80) == self.header_content()
            }),
    {
        self.lemma_layout();
        bytes::lemma_le64();
        let raw = bytes::padded(self.header_content(), self.spec_geometry().block_bytes as int);
        assert(self.spec_geometry().magic@.len() == 8);
        assert(self.header_content().len() == 80);
        assert(raw.subrange(0, 80) =~= self.header_content());
    }
}

} // verus!
