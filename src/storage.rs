use vstd::prelude::*;

use crate::bytes::{le16, push_u16_le, read_u16_le, u16_le_at};
use crate::codec::{zstd_decode, zstd_decoded, zstd_encode, zstd_encoded};

verus! {

/// Version of the snapshot file layout.
pub const SNAPSHOT_VERSION: u16 = 1;

/// Why a snapshot file was refused.
#[derive(Clone, Copy, Debug, PartialEq, Eq, Structural)]
pub enum SnapshotFileError {
    /// The zstd frame did not decode.
    Decompress,
    /// The file is shorter than its magic and version.
    TooShort,
    /// The file does not start with `AVSN`.
    BadMagic,
    /// The layout version is not one this library reads.
    UnsupportedVersion(u16),
}

pub open spec fn snapshot_magic() -> Seq<u8> {
    seq![0x41u8, 0x56, 0x53, 0x4E]
}

/// The file body of a snapshot payload: magic, version, payload.
pub open spec fn framed(payload: Seq<u8>) -> Seq<u8> {
    snapshot_magic() + le16(SNAPSHOT_VERSION as nat) + payload
}

/// What reading a file body yields.
pub open spec fn unframed(body: Seq<u8>) -> Result<Seq<u8>, SnapshotFileError> {
    if body.len() < 6 {
        Err(SnapshotFileError::TooShort)
    } else if body.subrange(0, 4) != snapshot_magic() {
        Err(SnapshotFileError::BadMagic)
    } else if u16_le_at(body, 4) != SNAPSHOT_VERSION {
        Err(SnapshotFileError::UnsupportedVersion(u16_le_at(body, 4) as u16))
    } else {
        Ok(body.subrange(6, body.len() as int))
    }
}

/// Puts the magic and the layout version in front of an encoded snapshot.
pub fn frame_snapshot(payload: &Vec<u8>) -> (r: Vec<u8>)
    ensures
        r@ == framed(payload@),
{
    let mut out: Vec<u8> = Vec::new();
    out.push(0x41);
    out.push(0x56);
    out.push(0x53);
    out.push(0x4E);
    push_u16_le(&mut out, SNAPSHOT_VERSION);
    let mut i: usize = 0;
    let ghost head = out@;
    while i < payload.len()
        invariant
            0 <= i <= payload@.len(),
            out@ == head + payload@.subrange(0, i as int),
        decreases payload@.len() - i,
    {
        out.push(payload[i]);
        i = i + 1;
        assert(out@ =~= head + payload@.subrange(0, i as int));
    }
    assert(out@ =~= framed(payload@));
    out
}

/// Checks the magic and the version of a file body and hands back its payload.
pub fn unframe_snapshot(body: &Vec<u8>) -> (r: Result<Vec<u8>, SnapshotFileError>)
    ensures
        match unframed(body@) {
            Ok(p) => r matches Ok(v) && v@ == p,
            Err(e) => r == Err::<Vec<u8>, SnapshotFileError>(e),
        },
{
    if body.len() < 6 {
        return Err(SnapshotFileError::TooShort);
    }
    if body[0] != 0x41 || body[1] != 0x56 || body[2] != 0x53 || body[3] != 0x4E {
        proof {
            if body@.subrange(0, 4) == snapshot_magic() {
                assert(body@.subrange(0, 4)[0] == body@[0]);
                assert(body@.subrange(0, 4)[1] == body@[1]);
                assert(body@.subrange(0, 4)[2] == body@[2]);
                assert(body@.subrange(0, 4)[3] == body@[3]);
            }
        }
        return Err(SnapshotFileError::BadMagic);
    }
    assert(body@.subrange(0, 4) =~= snapshot_magic());
    let version = read_u16_le(body.as_slice(), 4).unwrap_or(0);
    if version != SNAPSHOT_VERSION {
        return Err(SnapshotFileError::UnsupportedVersion(version));
    }
    let mut out: Vec<u8> = Vec::new();
    let mut i: usize = 6;
    while i < body.len()
        invariant
            6 <= i <= body@.len(),
            out@ == body@.subrange(6, i as int),
        decreases body@.len() - i,
    {
        out.push(body[i]);
        i = i + 1;
        assert(out@ =~= body@.subrange(6, i as int));
    }
    Ok(out)
}

/// Reading back a framed payload gives the payload, byte for byte.
pub proof fn lemma_frame_round_trip(payload: Seq<u8>)
    ensures
        unframed(framed(payload)) == Ok::<Seq<u8>, SnapshotFileError>(payload),
{
    let b = framed(payload);
    assert(b.subrange(0, 4) =~= snapshot_magic());
    assert(b[4] == 1 && b[5] == 0);
    assert(b.subrange(6, b.len() as int) =~= payload);
}

/// The bytes of a snapshot file for an encoded snapshot: framed, then
/// compressed; `None` when compression fails.
pub fn snapshot_file_bytes(payload: &Vec<u8>) -> (r: Option<Vec<u8>>)
    ensures
        r is Some <==> zstd_encoded(framed(payload@)) is Some,
        r matches Some(v) ==> zstd_encoded(framed(payload@)) == Some(v@),
{
    let body = frame_snapshot(payload);
    zstd_encode(body.as_slice())
}

/// The encoded snapshot of a snapshot file: decompressed, then unframed.
pub fn snapshot_payload(file: &[u8]) -> (r: Result<Vec<u8>, SnapshotFileError>)
    ensures
        match zstd_decoded(file@) {
            None => r == Err::<Vec<u8>, SnapshotFileError>(SnapshotFileError::Decompress),
            Some(body) => match unframed(body) {
                Ok(p) => r matches Ok(v) && v@ == p,
                Err(e) => r == Err::<Vec<u8>, SnapshotFileError>(e),
            },
        },
{
    match zstd_decode(file) {
        Some(body) => unframe_snapshot(&body),
        None => Err(SnapshotFileError::Decompress),
    }
}

/// Total of the sizes.
pub open spec fn sizes_sum(s: Seq<u64>) -> int
    decreases s.len(),
{
    if s.len() == 0 {
        0
    } else {
        s[0] + sizes_sum(s.drop_first())
    }
}

/// How many of the snapshot files, oldest first with the given sizes, retention
/// deletes: the fewest oldest files whose removal brings the total within
/// `budget_bytes`.
pub fn retention_deletions(sizes: &Vec<u64>, budget_bytes: u64) -> (r: usize)
    ensures
        r <= sizes@.len(),
        sizes_sum(sizes@.subrange(r as int, sizes@.len() as int)) <= budget_bytes,
        forall|j: int| 0 <= j < r ==> sizes_sum(sizes@.subrange(j, sizes@.len() as int)) > budget_bytes,
{
    let n = sizes.len();
    let mut total: u128 = 0;
    let mut i: usize = n;
    while i > 0
        invariant
            n == sizes@.len(),
            0 <= i <= n,
            total == sizes_sum(sizes@.subrange(i as int, n as int)),
            total <= (n - i) as int * 0xffff_ffff_ffff_ffff,
        decreases i,
    {
        assert(sizes@.subrange(i - 1, n as int).drop_first() =~= sizes@.subrange(i as int, n as int));
        total = total + sizes[i - 1] as u128;
        i = i - 1;
    }
    let mut k: usize = 0;
    while k < n && total > budget_bytes as u128
        invariant
            n == sizes@.len(),
            0 <= k <= n,
            total == sizes_sum(sizes@.subrange(k as int, n as int)),
            forall|j: int| 0 <= j < k ==> sizes_sum(sizes@.subrange(j, n as int)) > budget_bytes,
        decreases n - k,
    {
        assert(sizes@.subrange(k as int, n as int).drop_first() =~= sizes@.subrange(k + 1, n as int));
        proof {
            lemma_sizes_sum_nonneg(sizes@.subrange(k + 1, n as int));
        }
        total = total - sizes[k] as u128;
        k = k + 1;
    }
    proof {
        if k == n {
            assert(sizes@.subrange(n as int, n as int) =~= Seq::<u64>::empty());
        }
    }
    k
}

proof fn lemma_sizes_sum_nonneg(s: Seq<u64>)
    ensures
        sizes_sum(s) >= 0,
    decreases s.len(),
{
    if s.len() > 0 {
        lemma_sizes_sum_nonneg(s.drop_first());
    }
}

} // verus!
