//! Content fingerprints: a CRC32 of a file's leading bytes combined with its size.

use vstd::prelude::*;
use vstd::slice::slice_subrange;

verus! {

/// Number of bytes handed to the checksum at a time.
pub const BUF_SIZE: usize = 1024;

/// `crc32fast::Hasher`, a CRC32 computation in progress. Nothing is known of
/// what is inside.
#[verifier::external_type_specification]
#[verifier::external_body]
pub struct ExHasher(crc32fast::Hasher);

/// The CRC32 (IEEE) checksum of a byte string, as `crc32fast` computes it.
pub uninterp spec fn crc32_of(bytes: Seq<u8>) -> u32;

/// The bytes that a `crc32fast::Hasher` has processed since it was created.
pub uninterp spec fn hasher_input(hasher: crc32fast::Hasher) -> Seq<u8>;

/// `crc32fast::Hasher::new`: a hasher that has processed nothing yet.
#[verifier::external_body]
fn hasher_new() -> (hasher: crc32fast::Hasher)
    ensures
        hasher_input(hasher) == Seq::<u8>::empty(),
{
    crc32fast::Hasher::new()
}

/// `crc32fast::Hasher::update`: the hasher has processed `buf` after what it
/// had processed before. The hasher counts its bytes in a `u64`, so the total
/// must fit there.
#[verifier::external_body]
fn hasher_update(hasher: &mut crc32fast::Hasher, buf: &[u8])
    requires
        hasher_input(*old(hasher)).len() + buf@.len() <= u64::MAX,
    ensures
        hasher_input(*final(hasher)) == hasher_input(*old(hasher)) + buf@,
{
    hasher.update(buf)
}

/// `crc32fast::Hasher::finalize`: the CRC32 of everything the hasher processed.
#[verifier::external_body]
fn hasher_finalize(hasher: crc32fast::Hasher) -> (crc: u32)
    ensures
        crc == crc32_of(hasher_input(hasher)),
{
    hasher.finalize()
}

/// The first `n` bytes of `content`, or all of it when it is shorter.
pub open spec fn prefix(content: Seq<u8>, n: nat) -> Seq<u8> {
    if n >= content.len() {
        content
    } else {
        content.take(n as int)
    }
}

/// The part of `content` that enters the checksum: all of it when `limit` is
/// zero, else its first `limit` bytes (all of it when it is shorter).
pub open spec fn head_of(content: Seq<u8>, limit: nat) -> Seq<u8> {
    if limit == 0 {
        content
    } else {
        prefix(content, limit)
    }
}

/// The fingerprint of a file with the given checksum and size.
pub open spec fn fingerprint_of(crc: u32, filesize: nat) -> u64 {
    ((crc as nat + filesize) % 0x1_0000_0000_0000_0000) as u64
}

/// A checksum over the head of a byte stream that arrives in pieces.
pub struct HeadChecksum {
    hasher: crc32fast::Hasher,
    taken: usize,
    cap: usize,
}

impl HeadChecksum {
    /// The bytes taken into the checksum so far.
    pub closed spec fn input(&self) -> Seq<u8> {
        hasher_input(self.hasher)
    }

    /// The most bytes this checksum will ever take.
    pub closed spec fn capacity(&self) -> nat {
        self.cap as nat
    }

    /// The count of the bytes taken is right, and within the capacity.
    pub closed spec fn wf(&self) -> bool {
        self.input().len() == self.taken && self.taken <= self.cap
    }

    /// A checksum that has taken nothing yet and will take the first
    /// `read_first_bytes` bytes it is fed; with zero, all that a `usize` can
    /// count.
    pub fn new(read_first_bytes: usize) -> (checksum: Self)
        ensures
            checksum.wf(),
            checksum.input() == Seq::<u8>::empty(),
            checksum.capacity() == if read_first_bytes == 0 {
                usize::MAX as nat
            } else {
                read_first_bytes as nat
            },
    {
        let cap: usize = if read_first_bytes == 0 {
            usize::MAX
        } else {
            read_first_bytes
        };
        HeadChecksum { hasher: hasher_new(), taken: 0, cap }
    }

    /// How many bytes the checksum will still take: when this is zero,
    /// nothing more needs to be read.
    pub fn remaining(&self) -> (n: usize)
        requires
            self.wf(),
        ensures
            n == self.capacity() - self.input().len(),
    {
        self.cap - self.taken
    }

    /// Takes the next piece of the stream in, as far as the capacity allows.
    pub fn feed(&mut self, chunk: &[u8])
        requires
            old(self).wf(),
        ensures
            final(self).wf(),
            final(self).capacity() == old(self).capacity(),
            final(self).input() == old(self).input() + prefix(
                chunk@,
                (old(self).capacity() - old(self).input().len()) as nat,
            ),
    {
        let room: usize = self.cap - self.taken;
        let n: usize = if chunk.len() < room {
            chunk.len()
        } else {
            room
        };
        let part = slice_subrange(chunk, 0, n);
        hasher_update(&mut self.hasher, part);
        self.taken = self.taken + n;
    }

    /// The CRC32 of the bytes taken.
    pub fn finish(self) -> (crc: u32)
        ensures
            crc == crc32_of(self.input()),
    {
        hasher_finalize(self.hasher)
    }
}

/// The CRC32 of the head of `content`: of all of it when `read_first_bytes`
/// is zero, else of its first `read_first_bytes` bytes. The bytes reach the
/// checksum in pieces of at most `BUF_SIZE`.
pub fn get_crc32_checksum(content: &[u8], read_first_bytes: usize) -> (crc: u32)
    ensures
        crc == crc32_of(head_of(content@, read_first_bytes as nat)),
{
    let mut checksum = HeadChecksum::new(read_first_bytes);
    let mut pos: usize = 0;
    while pos < content.len() && checksum.remaining() > 0
        invariant
            checksum.wf(),
            pos <= content.len(),
            checksum.capacity() == if read_first_bytes == 0 {
                usize::MAX as nat
            } else {
                read_first_bytes as nat
            },
            checksum.input() == prefix(
                content@,
                if pos <= checksum.capacity() {
                    pos as nat
                } else {
                    checksum.capacity()
                },
            ),
        decreases content.len() - pos,
    {
        let end: usize = if content.len() - pos < BUF_SIZE {
            content.len()
        } else {
            pos + BUF_SIZE
        };
        let piece = slice_subrange(content, pos, end);
        let ghost before = checksum.input();
        let ghost room = (checksum.capacity() - before.len()) as nat;
        checksum.feed(piece);
        proof {
            assert(before == content@.take(pos as int));
            if room >= piece@.len() {
                assert(before + piece@ =~= content@.take(end as int));
            } else {
                assert(before + piece@.take(room as int) =~= content@.take(pos + room));
            }
        }
        pos = end;
    }
    checksum.finish()
}

/// The fingerprint of a file of `filesize` bytes whose head has the checksum
/// `crc`: their sum, in 64 bits.
pub fn fingerprint(crc: u32, filesize: usize) -> (hash: u64)
    ensures
        hash == fingerprint_of(crc, filesize as nat),
{
    (crc as u64).wrapping_add(filesize as u64)
}

/// The fingerprint of a file of `filesize` bytes whose content starts with
/// `content`: the checksum of its head plus its size, in 64 bits.
pub fn get_hash(content: &[u8], filesize: usize, read_first_bytes: usize) -> (hash: u64)
    ensures
        hash == fingerprint_of(
            crc32_of(head_of(content@, read_first_bytes as nat)),
            filesize as nat,
        ),
{
    let crc32 = get_crc32_checksum(content, read_first_bytes);
    fingerprint(crc32, filesize)
}

} // verus!
