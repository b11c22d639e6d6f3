//! The framing of stored snapshots: a version, a digest and a payload.

use crate::bytes::same_bytes;
use crate::digest;
use crate::digest::sha256_digest;
use vstd::prelude::*;

verus! {

/// A number in groups of seven bits, lowest first: every byte but the last has
/// its high bit set.
pub open spec fn varint(value: nat) -> Seq<u8>
    decreases value,
{
    if value < 128 {
        seq![value as u8]
    } else {
        seq![(128 + value % 128) as u8] + varint(value / 128)
    }
}

/// The bytes of an envelope.
pub open spec fn envelope(version: u16, checksum: Seq<u8>, payload: Seq<u8>) -> Seq<u8> {
    varint(version as nat) + checksum + varint(payload.len()) + payload
}

/// The complaint about bytes that end too early.
pub open spec fn cut_short() -> Seq<char> {
    "Hit the end of buffer, expected more data"@
}

/// The complaint about a number with too many groups or too large a value.
pub open spec fn endless_number() -> Seq<char> {
    "Found a varint that didn't terminate. Is the usize too big for this platform?"@
}

/// The number at the head of `bytes`, of at most `groups` groups, and how many
/// bytes it takes.
pub open spec fn leading_number(bytes: Seq<u8>, groups: nat) -> Result<(nat, nat), Seq<char>>
    decreases groups,
{
    if groups == 0 {
        Err(endless_number())
    } else if bytes.len() == 0 {
        Err(cut_short())
    } else if bytes[0] < 128 {
        Ok((bytes[0] as nat, 1))
    } else {
        match leading_number(bytes.skip(1), (groups - 1) as nat) {
            Ok((rest, used)) => Ok(((bytes[0] - 128 + 128 * rest) as nat, used + 1)),
            Err(complaint) => Err(complaint),
        }
    }
}

/// The number at the head of `bytes`, at most `limit`.
pub open spec fn leading_number_within(bytes: Seq<u8>, groups: nat, limit: nat) -> Result<
    (nat, nat),
    Seq<char>,
> {
    match leading_number(bytes, groups) {
        Ok((value, used)) => if value <= limit {
            Ok((value, used))
        } else {
            Err(endless_number())
        },
        Err(complaint) => Err(complaint),
    }
}

/// How many groups a length may take.
pub open spec fn length_groups() -> nat {
    ((usize::BITS + 6) / 7) as nat
}

/// What an envelope at the head of `bytes` holds: version, digest, payload.
/// Bytes behind it are ignored.
pub open spec fn parsed_envelope(bytes: Seq<u8>) -> Result<(u16, Seq<u8>, Seq<u8>), Seq<char>> {
    match leading_number_within(bytes, 3, u16::MAX as nat) {
        Err(complaint) => Err(complaint),
        Ok((version, used)) => {
            let start = used + 32;
            if bytes.len() < start {
                Err(cut_short())
            } else {
                let rest = bytes.skip(start as int);
                match leading_number_within(rest, length_groups(), usize::MAX as nat) {
                    Err(complaint) => Err(complaint),
                    Ok((count, width)) => if rest.len() < width + count {
                        Err(cut_short())
                    } else {
                        Ok(
                            (
                                version as u16,
                                bytes.subrange(used as int, start as int),
                                rest.subrange(width as int, (width + count) as int),
                            ),
                        )
                    },
                }
            }
        },
    }
}

/// Writes an envelope with `postcard::to_allocvec`: the version as a number in
/// seven-bit groups, the digest as it is, the payload behind its length. The
/// call grows a vector and does not fail.
#[verifier::external_body]
fn write_envelope(version: u16, checksum: &[u8; 32], payload: &[u8]) -> (written: Result<
    Vec<u8>,
    String,
>)
    ensures
        match written {
            Ok(bytes) => bytes@ == envelope(version, checksum@, payload@),
            Err(_) => false,
        },
{
    postcard::to_allocvec(&(version, checksum, payload)).map_err(|error| error.to_string())
}

/// Reads an envelope with `postcard::from_bytes`; a refusal comes as the text
/// that `postcard::Error` displays.
#[verifier::external_body]
fn read_envelope(bytes: &[u8]) -> (parts: Result<(u16, [u8; 32], Vec<u8>), String>)
    ensures
        match parts {
            Ok((version, checksum, payload)) => parsed_envelope(bytes@) == Ok::<
                (u16, Seq<u8>, Seq<u8>),
                Seq<char>,
            >((version, checksum@, payload@)),
            Err(complaint) => parsed_envelope(bytes@) == Err::<
                (u16, Seq<u8>, Seq<u8>),
                Seq<char>,
            >(complaint@),
        },
{
    postcard::from_bytes(bytes).map_err(|error| error.to_string())
}

/// Why an envelope was not opened.
#[derive(Debug, PartialEq, Eq)]
pub enum EnvelopeFault {
    /// The bytes are no envelope.
    Malformed(String),
    /// The envelope has another version.
    Version(u16),
    /// The payload does not have the digest that the envelope names.
    Checksum,
}

/// A fault with its text as a sequence of characters.
pub enum FaultView {
    Malformed(Seq<char>),
    Version(u16),
    Checksum,
}

impl View for EnvelopeFault {
    type V = FaultView;

    open spec fn view(&self) -> FaultView {
        match self {
            EnvelopeFault::Malformed(complaint) => FaultView::Malformed(complaint@),
            EnvelopeFault::Version(version) => FaultView::Version(*version),
            EnvelopeFault::Checksum => FaultView::Checksum,
        }
    }
}

/// The bytes of a payload in its envelope.
pub open spec fn sealed(version: u16, payload: Seq<u8>) -> Seq<u8> {
    envelope(version, digest::sha256(payload)@, payload)
}

/// The payload of an envelope with the expected version and a true digest.
pub open spec fn opened(version: u16, bytes: Seq<u8>) -> Result<Seq<u8>, FaultView> {
    match parsed_envelope(bytes) {
        Err(complaint) => Err(FaultView::Malformed(complaint)),
        Ok((found, checksum, payload)) => if found != version {
            Err(FaultView::Version(found))
        } else if checksum != digest::sha256(payload)@ {
            Err(FaultView::Checksum)
        } else {
            Ok(payload)
        },
    }
}

/// Puts a payload into an envelope.
pub fn seal(version: u16, payload: &[u8]) -> (written: Result<Vec<u8>, String>)
    ensures
        written matches Ok(bytes) && bytes@ == sealed(version, payload@),
{
    let checksum: [u8; 32] = sha256_digest(payload);
    write_envelope(version, &checksum, payload)
}

/// Takes the payload out of an envelope.
pub fn open(version: u16, bytes: &[u8]) -> (payload: Result<Vec<u8>, EnvelopeFault>)
    ensures
        match payload {
            Ok(payload) => opened(version, bytes@) == Ok::<Seq<u8>, FaultView>(payload@),
            Err(fault) => opened(version, bytes@) == Err::<Seq<u8>, FaultView>(fault@),
        },
{
    match read_envelope(bytes) {
        Err(complaint) => Err(EnvelopeFault::Malformed(complaint)),
        Ok((found, checksum, payload)) => {
            if found != version {
                return Err(EnvelopeFault::Version(found));
            }
            let actual: [u8; 32] = sha256_digest(payload.as_slice());
            if !same_bytes(&checksum, &actual) {
                return Err(EnvelopeFault::Checksum);
            }
            Ok(payload)
        },
    }
}

/// The largest number of so many groups, plus one.
spec fn group_capacity(groups: nat) -> nat
    decreases groups,
{
    if groups == 0 {
        1
    } else {
        128 * group_capacity((groups - 1) as nat)
    }
}

proof fn lemma_leading_number(value: nat, tail: Seq<u8>, groups: nat)
    requires
        groups > 0,
        value < group_capacity(groups),
    ensures
        leading_number(varint(value) + tail, groups) == Ok::<(nat, nat), Seq<char>>(
            (value, varint(value).len()),
        ),
    decreases groups,
{
    let bytes = varint(value) + tail;
    if value < 128 {
        assert(bytes[0] == value as u8);
    } else {
        let rest = value / 128;
        assert(rest < group_capacity((groups - 1) as nat));
        lemma_leading_number(rest, tail, (groups - 1) as nat);
        assert(bytes[0] == (128 + value % 128) as u8);
        assert(bytes.skip(1) =~= varint(rest) + tail);
        assert(varint(value).len() == varint(rest).len() + 1);
        assert(128 + value % 128 <= 255);
        assert(bytes[0] - 128 + 128 * rest == value);
    }
}

proof fn lemma_group_capacity()
    ensures
        u16::MAX < group_capacity(3),
        usize::MAX < group_capacity(length_groups()),
{
    assert(group_capacity(3) == 0x20_0000) by {
        reveal_with_fuel(group_capacity, 4);
    }
    assert(group_capacity(5) == 0x8_0000_0000) by {
        reveal_with_fuel(group_capacity, 6);
    }
    assert(group_capacity(10) == 0x40_0000_0000_0000_0000) by {
        reveal_with_fuel(group_capacity, 11);
    }
}

/// An envelope is read back as it was written, whatever stands behind it.
pub proof fn envelopes_are_read_back(
    version: u16,
    checksum: Seq<u8>,
    payload: Seq<u8>,
    tail: Seq<u8>,
)
    requires
        checksum.len() == 32,
        payload.len() <= usize::MAX,
    ensures
        parsed_envelope(envelope(version, checksum, payload) + tail) == Ok::<
            (u16, Seq<u8>, Seq<u8>),
            Seq<char>,
        >((version, checksum, payload)),
{
    let bytes = envelope(version, checksum, payload) + tail;
    let head = varint(version as nat);
    let length = varint(payload.len());
    lemma_group_capacity();
    lemma_leading_number(version as nat, checksum + length + payload + tail, 3);
    assert(bytes =~= head + (checksum + length + payload + tail));
    let start = head.len() + 32;
    let rest = bytes.skip(start as int);
    assert(rest =~= length + (payload + tail));
    lemma_leading_number(payload.len(), payload + tail, length_groups());
    assert(bytes.subrange(head.len() as int, start as int) =~= checksum);
    assert(rest.subrange(length.len() as int, (length.len() + payload.len()) as int) =~= payload);
}

/// What was sealed is opened again, and under no other version.
pub proof fn sealed_payloads_are_opened(version: u16, expected: u16, payload: Seq<u8>)
    requires
        payload.len() <= usize::MAX,
    ensures
        opened(expected, sealed(version, payload)) == if expected == version {
            Ok::<Seq<u8>, FaultView>(payload)
        } else {
            Err(FaultView::Version(version))
        },
{
    envelopes_are_read_back(version, digest::sha256(payload)@, payload, Seq::empty());
    assert(sealed(version, payload) + Seq::<u8>::empty() =~= sealed(version, payload));
}

/// A payload that does not have the digest in its envelope is refused.
pub proof fn altered_payloads_are_refused(version: u16, checksum: Seq<u8>, payload: Seq<u8>)
    requires
        payload.len() <= usize::MAX,
        checksum.len() == 32,
    ensures
        checksum != digest::sha256(payload)@ ==> opened(
            version,
            envelope(version, checksum, payload),
        ) == Err::<Seq<u8>, FaultView>(FaultView::Checksum),
{
    envelopes_are_read_back(version, checksum, payload, Seq::empty());
    assert(envelope(version, checksum, payload) + Seq::<u8>::empty() =~= envelope(
        version,
        checksum,
        payload,
    ));
}

} // verus!
