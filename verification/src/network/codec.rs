//! Bounded, versioned framing of snapshots for storage and state transfer.

use crate::error;
use crate::error::{ErrorView, QuePaxaError, Result};
use crate::network::envelope;
use crate::network::envelope::{open, seal, EnvelopeFault, FaultView};
use crate::text;
use crate::text::{joined, numbered, with_number};
use vstd::prelude::*;

verus! {

/// The version of stored snapshots.
pub const STORAGE_VERSION: u16 = 5;

const DEFAULT_MAX_SNAPSHOT: usize = 67_108_864;

/// The refusal of a snapshot that became too large.
pub open spec fn oversized(size: nat, limit: usize) -> ErrorView {
    ErrorView::StorageError(
        "encoded snapshot is "@ + text::decimal(size) + " bytes, exceeding the configured limit "@
            + text::decimal(limit as nat),
    )
}

/// The refusal of an envelope.
pub open spec fn fault_error(fault: FaultView) -> ErrorView {
    ErrorView::StorageError(
        match fault {
            FaultView::Malformed(complaint) => "snapshot decoding failed: "@ + complaint,
            FaultView::Version(version) => "unsupported snapshot version "@ + text::decimal(
                version as nat,
            ),
            FaultView::Checksum => "snapshot checksum verification failed"@,
        },
    )
}

/// The stored bytes of a snapshot's payload.
pub open spec fn encoded(payload: Seq<u8>, limit: usize) -> std::result::Result<
    Seq<u8>,
    ErrorView,
> {
    let bytes = envelope::sealed(STORAGE_VERSION, payload);
    if bytes.len() > limit {
        Err(oversized(bytes.len(), limit))
    } else {
        Ok(bytes)
    }
}

/// The payload of a stored snapshot.
pub open spec fn decoded(bytes: Seq<u8>, limit: usize) -> std::result::Result<Seq<u8>, ErrorView> {
    if bytes.len() == 0 || bytes.len() > limit {
        Err(
            ErrorView::StorageError(
                "snapshot size "@ + text::decimal(bytes.len())
                    + " is outside the accepted range"@,
            ),
        )
    } else {
        match envelope::opened(STORAGE_VERSION, bytes) {
            Ok(payload) => Ok(payload),
            Err(fault) => Err(fault_error(fault)),
        }
    }
}

/// A limit that admits something.
pub open spec fn usable_limit(limit: usize) -> std::result::Result<usize, ErrorView> {
    if limit == 0 {
        Err(ErrorView::StorageError("maximum snapshot size must be non-zero"@))
    } else {
        Ok(limit)
    }
}

fn validate_limit(limit: usize) -> (checked: Result<usize>)
    ensures
        error::outcome(checked) == usable_limit(limit),
{
    if limit == 0 {
        return Err(
            QuePaxaError::StorageError("maximum snapshot size must be non-zero".to_owned()),
        );
    }
    Ok(limit)
}

fn encode_snapshot(payload: &[u8], limit: usize) -> (bytes: Result<Vec<u8>>)
    ensures
        error::outcome(bytes) == encoded(payload@, limit),
{
    let bytes: Vec<u8> = match seal(STORAGE_VERSION, payload) {
        Ok(bytes) => bytes,
        Err(complaint) => {
            return Err(
                QuePaxaError::StorageError(
                    joined("snapshot encoding failed: ", complaint.as_str()),
                ),
            );
        },
    };
    if bytes.len() > limit {
        let mut message: String = numbered(
            "encoded snapshot is ",
            bytes.len() as u64,
            " bytes, exceeding the configured limit ",
        );
        text::push_decimal(&mut message, limit as u64);
        return Err(QuePaxaError::StorageError(message));
    }
    Ok(bytes)
}

fn decode_snapshot(bytes: &[u8], limit: usize) -> (payload: Result<Vec<u8>>)
    ensures
        error::outcome(payload) == decoded(bytes@, limit),
{
    if bytes.len() == 0 || bytes.len() > limit {
        return Err(
            QuePaxaError::StorageError(
                numbered("snapshot size ", bytes.len() as u64, " is outside the accepted range"),
            ),
        );
    }
    match open(STORAGE_VERSION, bytes) {
        Ok(payload) => Ok(payload),
        Err(EnvelopeFault::Malformed(complaint)) => Err(
            QuePaxaError::StorageError(joined("snapshot decoding failed: ", complaint.as_str())),
        ),
        Err(EnvelopeFault::Version(version)) => Err(
            QuePaxaError::StorageError(
                with_number("unsupported snapshot version ", version as u64),
            ),
        ),
        Err(EnvelopeFault::Checksum) => Err(
            QuePaxaError::StorageError("snapshot checksum verification failed".to_owned()),
        ),
    }
}

/// A stored payload is read back as it was, under any limit that admits its
/// bytes.
pub proof fn stored_payloads_are_read_back(payload: Seq<u8>, written: usize, read: usize)
    requires
        payload.len() <= usize::MAX,
        encoded(payload, written) is Ok,
        encoded(payload, written)->Ok_0.len() <= read,
    ensures
        decoded(encoded(payload, written)->Ok_0, read) == Ok::<Seq<u8>, ErrorView>(payload),
{
    envelope::sealed_payloads_are_opened(STORAGE_VERSION, STORAGE_VERSION, payload);
    assert(envelope::varint(STORAGE_VERSION as nat).len() == 1);
}

/// Frames recorder snapshots.
#[derive(Debug, Clone, Copy)]
pub struct PostcardRecorderCodec {
    max_snapshot_bytes: usize,
}

impl PostcardRecorderCodec {
    /// The most bytes that a stored snapshot may take.
    pub closed spec fn limit(self) -> usize {
        self.max_snapshot_bytes
    }

    pub fn with_max_snapshot_bytes(self, max_snapshot_bytes: usize) -> (codec: Result<Self>)
        ensures
            match codec {
                Ok(codec) => usable_limit(max_snapshot_bytes) == Ok::<usize, ErrorView>(
                    codec.limit(),
                ),
                Err(refusal) => usable_limit(max_snapshot_bytes) == Err::<usize, ErrorView>(
                    refusal@,
                ),
            },
    {
        match validate_limit(max_snapshot_bytes) {
            Ok(max_snapshot_bytes) => Ok(PostcardRecorderCodec { max_snapshot_bytes }),
            Err(refusal) => Err(refusal),
        }
    }

    /// The bytes to store for a serialized snapshot.
    pub fn encode(&self, payload: &[u8]) -> (bytes: Result<Vec<u8>>)
        ensures
            error::outcome(bytes) == encoded(payload@, self.limit()),
    {
        encode_snapshot(payload, self.max_snapshot_bytes)
    }

    /// The serialized snapshot that bytes were stored for.
    pub fn decode(&self, bytes: &[u8]) -> (payload: Result<Vec<u8>>)
        ensures
            error::outcome(payload) == decoded(bytes@, self.limit()),
    {
        decode_snapshot(bytes, self.max_snapshot_bytes)
    }
}

impl Default for PostcardRecorderCodec {
    fn default() -> (codec: Self)
        ensures
            codec.limit() == 67_108_864,
    {
        PostcardRecorderCodec { max_snapshot_bytes: DEFAULT_MAX_SNAPSHOT }
    }
}

/// Frames runtime snapshots.
#[derive(Debug, Clone, Copy)]
pub struct PostcardRuntimeCodec {
    max_snapshot_bytes: usize,
}

impl PostcardRuntimeCodec {
    /// The most bytes that a stored snapshot may take.
    pub closed spec fn limit(self) -> usize {
        self.max_snapshot_bytes
    }

    pub fn with_max_snapshot_bytes(self, max_snapshot_bytes: usize) -> (codec: Result<Self>)
        ensures
            match codec {
                Ok(codec) => usable_limit(max_snapshot_bytes) == Ok::<usize, ErrorView>(
                    codec.limit(),
                ),
                Err(refusal) => usable_limit(max_snapshot_bytes) == Err::<usize, ErrorView>(
                    refusal@,
                ),
            },
    {
        match validate_limit(max_snapshot_bytes) {
            Ok(max_snapshot_bytes) => Ok(PostcardRuntimeCodec { max_snapshot_bytes }),
            Err(refusal) => Err(refusal),
        }
    }

    /// The bytes to store for a serialized snapshot.
    pub fn encode(&self, payload: &[u8]) -> (bytes: Result<Vec<u8>>)
        ensures
            error::outcome(bytes) == encoded(payload@, self.limit()),
    {
        encode_snapshot(payload, self.max_snapshot_bytes)
    }

    /// The serialized snapshot that bytes were stored for.
    pub fn decode(&self, bytes: &[u8]) -> (payload: Result<Vec<u8>>)
        ensures
            error::outcome(payload) == decoded(bytes@, self.limit()),
    {
        decode_snapshot(bytes, self.max_snapshot_bytes)
    }
}

impl Default for PostcardRuntimeCodec {
    fn default() -> (codec: Self)
        ensures
            codec.limit() == 67_108_864,
    {
        PostcardRuntimeCodec { max_snapshot_bytes: DEFAULT_MAX_SNAPSHOT }
    }
}

/// Frames portable state-transfer snapshots.
#[derive(Debug, Clone, Copy)]
pub struct PostcardStateTransferCodec {
    max_snapshot_bytes: usize,
}

impl PostcardStateTransferCodec {
    /// The most bytes that a stored snapshot may take.
    pub closed spec fn limit(self) -> usize {
        self.max_snapshot_bytes
    }

    pub fn with_max_snapshot_bytes(self, max_snapshot_bytes: usize) -> (codec: Result<Self>)
        ensures
            match codec {
                Ok(codec) => usable_limit(max_snapshot_bytes) == Ok::<usize, ErrorView>(
                    codec.limit(),
                ),
                Err(refusal) => usable_limit(max_snapshot_bytes) == Err::<usize, ErrorView>(
                    refusal@,
                ),
            },
    {
        match validate_limit(max_snapshot_bytes) {
            Ok(max_snapshot_bytes) => Ok(PostcardStateTransferCodec { max_snapshot_bytes }),
            Err(refusal) => Err(refusal),
        }
    }

    /// The bytes to store for a serialized snapshot.
    pub fn encode(&self, payload: &[u8]) -> (bytes: Result<Vec<u8>>)
        ensures
            error::outcome(bytes) == encoded(payload@, self.limit()),
    {
        encode_snapshot(payload, self.max_snapshot_bytes)
    }

    /// The serialized snapshot that bytes were stored for.
    pub fn decode(&self, bytes: &[u8]) -> (payload: Result<Vec<u8>>)
        ensures
            error::outcome(payload) == decoded(bytes@, self.limit()),
    {
        decode_snapshot(bytes, self.max_snapshot_bytes)
    }
}

impl Default for PostcardStateTransferCodec {
    fn default() -> (codec: Self)
        ensures
            codec.limit() == 67_108_864,
    {
        PostcardStateTransferCodec { max_snapshot_bytes: DEFAULT_MAX_SNAPSHOT }
    }
}

} // verus!
