//! Splitting files into content-addressed chunks and putting them back together.

use crate::cache::ChunkCache;
use crate::index::{FileRecord, FileRecordModel};
use vstd::prelude::*;
use vstd::slice::{slice_subrange, slice_to_vec};

verus! {

broadcast use vstd::array::group_array_axioms;

/// Largest number of bytes in one chunk: 4 MiB less the room kept for transport framing.
pub const MAX_CHUNK_SIZE: usize = 4 * 1024 * 1024 - 256;

/// The content address of a byte string: its 32-byte cryptographic hash.
pub uninterp spec fn content_address(data: Seq<u8>) -> [u8; 32];

/// Calls `blake3::hash` on `data` and hands back the 32 bytes of the digest.
/// Trusted: the digest is a function of the input bytes alone, so equal inputs
/// have equal addresses. Nothing is claimed about distinct inputs.
#[verifier::external_body]
pub(crate) fn hash_bytes(data: &[u8]) -> (digest: [u8; 32])
    ensures
        digest == content_address(data@),
{
    *blake3::hash(data).as_bytes()
}

/// Whether two addresses hold the same 32 bytes.
pub fn same_address(a: &[u8; 32], b: &[u8; 32]) -> (same: bool)
    ensures
        same == (*a == *b),
{
    let mut i: usize = 0;
    while i < 32
        invariant
            i <= 32,
            forall|j: int| 0 <= j < i ==> a@[j] == b@[j],
        decreases 32 - i,
    {
        if a[i] != b[i] {
            return false;
        }
        i = i + 1;
    }
    assert(*a =~= *b);
    true
}

/// One piece of a file together with the address its bytes hash to.
#[derive(Debug)]
pub struct Chunk {
    pub data: Vec<u8>,
    pub address: [u8; 32],
}

/// Mathematical model of a [`Chunk`].
pub struct ChunkModel {
    pub data: Seq<u8>,
    pub address: [u8; 32],
}

impl View for Chunk {
    type V = ChunkModel;

    open spec fn view(&self) -> ChunkModel {
        ChunkModel { data: self.data@, address: self.address }
    }
}

/// The models of a sequence of chunks, in order.
pub open spec fn chunk_models(chunks: Seq<Chunk>) -> Seq<ChunkModel> {
    Seq::new(chunks.len(), |i: int| chunks[i]@)
}

/// Number of chunks a file of `len` bytes is cut into when no chunk may exceed `size`.
pub open spec fn chunk_count(len: nat, size: nat) -> nat
    recommends
        size > 0,
{
    ((len + size - 1) / (size as int)) as nat
}

/// Where chunk `i` ends: a full chunk further on, or at the end of the file.
pub open spec fn chunk_end(len: nat, size: nat, i: int) -> int {
    if (i + 1) * size <= len {
        (i + 1) * size
    } else {
        len as int
    }
}

/// The bytes of chunk `i`: every chunk is `size` bytes long but the last, which
/// holds the remainder.
pub open spec fn chunk_bytes(data: Seq<u8>, size: nat, i: int) -> Seq<u8> {
    data.subrange(i * size, chunk_end(data.len(), size, i))
}

/// The chunks of a file, each with the address of its bytes.
pub open spec fn split_spec(data: Seq<u8>, size: nat) -> Seq<ChunkModel> {
    Seq::new(
        chunk_count(data.len(), size),
        |i: int|
            ChunkModel {
                data: chunk_bytes(data, size, i),
                address: content_address(chunk_bytes(data, size, i)),
            },
    )
}

/// The addresses of a sequence of chunks, in order: the manifest of the file.
pub open spec fn manifest_of(chunks: Seq<ChunkModel>) -> Seq<[u8; 32]> {
    Seq::new(chunks.len(), |i: int| chunks[i].address)
}

/// The byte strings of a sequence of chunks, in order.
pub open spec fn payloads_of(chunks: Seq<ChunkModel>) -> Seq<Seq<u8>> {
    Seq::new(chunks.len(), |i: int| chunks[i].data)
}

/// Why a file could not be put back together.
#[derive(Clone, Copy, Debug, PartialEq, Eq)]
pub enum ChunkError {
    /// The chunk at position `index` of the manifest could not be had.
    MissingChunk { index: usize },
    /// The bytes found for position `index` do not hash to the address that
    /// the manifest names there.
    ChecksumMismatch { index: usize },
}

/// Whether `source` holds, under `address`, bytes that hash to `address`.
pub open spec fn chunk_ok(source: Map<[u8; 32], Seq<u8>>, address: [u8; 32]) -> bool {
    source.contains_key(address) && content_address(source[address]) == address
}

/// Whether `source` holds every chunk of the first `upto` positions of the
/// manifest, with bytes that hash to the address.
pub open spec fn intact(manifest: Seq<[u8; 32]>, source: Map<[u8; 32], Seq<u8>>, upto: int) -> bool {
    forall|i: int| 0 <= i < upto ==> chunk_ok(source, #[trigger] manifest[i])
}

/// What `source` holds for each position of the manifest.
pub open spec fn pieces(manifest: Seq<[u8; 32]>, source: Map<[u8; 32], Seq<u8>>) -> Seq<Seq<u8>> {
    Seq::new(manifest.len(), |i: int| source[manifest[i]])
}

/// Whether putting the file of `manifest` together from `source` fails with
/// `error`: at the first position whose chunk is missing or does not hash to
/// its address.
pub open spec fn fails(
    manifest: Seq<[u8; 32]>,
    source: Map<[u8; 32], Seq<u8>>,
    error: ChunkError,
) -> bool {
    match error {
        ChunkError::MissingChunk { index } => {
            &&& index < manifest.len()
            &&& intact(manifest, source, index as int)
            &&& !source.contains_key(manifest[index as int])
        },
        ChunkError::ChecksumMismatch { index } => {
            &&& index < manifest.len()
            &&& intact(manifest, source, index as int)
            &&& source.contains_key(manifest[index as int])
            &&& content_address(source[manifest[index as int]]) != manifest[index as int]
        },
    }
}

/// Holds the digest that was computed for a chunk against the address that
/// the manifest names at position `index`.
pub fn check_digest(expected: &[u8; 32], computed: &[u8; 32], index: usize) -> (r: Result<
    (),
    ChunkError,
>)
    ensures
        r == (if *expected == *computed {
            Ok::<(), ChunkError>(())
        } else {
            Err(ChunkError::ChecksumMismatch { index })
        }),
{
    if same_address(expected, computed) {
        Ok(())
    } else {
        Err(ChunkError::ChecksumMismatch { index })
    }
}

/// The pieces laid end to end.
pub open spec fn join(pieces: Seq<Seq<u8>>) -> Seq<u8>
    decreases pieces.len(),
{
    if pieces.len() == 0 {
        Seq::empty()
    } else {
        join(pieces.drop_last()) + pieces.last()
    }
}

/// `count` is the number of chunks exactly when the last chunk starts inside
/// the file and the chunks together reach its end.
pub proof fn lemma_chunk_count_bounds(len: nat, size: nat, count: nat)
    requires
        size > 0,
    ensures
        count == chunk_count(len, size) <==> (count * size >= len && (count > 0 ==> (count - 1)
            * size < len) && (count == 0 ==> len == 0)),
{
    let q = chunk_count(len, size) as int;
    let n = len + size - 1;
    assert(q == n / (size as int));
    assert((q + 1) * size == q * size + size) by (nonlinear_arith);
    assert(q * size <= n < (q + 1) * size) by {
        vstd::arithmetic::div_mod::lemma_fundamental_div_mod(n, size as int);
        vstd::arithmetic::div_mod::lemma_mod_bound(n, size as int);
        assert(size * q == q * size) by (nonlinear_arith);
    }
    assert((q - 1) * size == q * size - size) by (nonlinear_arith);
    if count * size >= len && (count > 0 ==> (count - 1) * size < len) && (count == 0 ==> len
        == 0) {
        if count < q {
            assert(count * size <= (q - 1) * size) by (nonlinear_arith)
                requires
                    count <= q - 1,
                    size > 0,
            ;
        } else if count > q {
            assert((count - 1) * size >= q * size) by (nonlinear_arith)
                requires
                    count - 1 >= q,
                    size > 0,
            ;
        }
    }
    if count == q {
        if q == 0 {
            assert(q * size == 0) by (nonlinear_arith)
                requires
                    q == 0,
            ;
        }
    }
}

/// The first `k` chunks of a file, laid end to end, are the bytes of the file up
/// to where chunk `k` starts (or the whole file, once the chunks have reached its end).
pub proof fn lemma_join_prefix(data: Seq<u8>, size: nat, k: nat)
    requires
        size > 0,
        k <= chunk_count(data.len(), size),
    ensures
        join(payloads_of(split_spec(data, size)).subrange(0, k as int)) == data.subrange(
            0,
            chunk_end(data.len(), size, k - 1),
        ),
    decreases k,
{
    let len = data.len();
    let count = chunk_count(len, size);
    let pieces = payloads_of(split_spec(data, size));
    let head = pieces.subrange(0, k as int);
    lemma_chunk_count_bounds(len, size, count);
    if k == 0 {
        assert(0 * size == 0) by (nonlinear_arith);
        assert(join(head) =~= data.subrange(0, 0));
    } else {
        lemma_join_prefix(data, size, (k - 1) as nat);
        assert(head.drop_last() =~= pieces.subrange(0, k - 1));
        assert(head.last() == chunk_bytes(data, size, k - 1));
        assert((k - 1) * size <= (count - 1) * size) by (nonlinear_arith)
            requires
                k <= count,
                size > 0,
        ;
        assert((k - 1 + 1) * size == k * size);
        assert((k - 2 + 1) * size == (k - 1) * size);
        assert(k * size == (k - 1) * size + size) by (nonlinear_arith);
        let start = (k - 1) * size;
        let end = chunk_end(len, size, k - 1);
        assert(chunk_end(len, size, k - 2) == start);
        assert(start < end <= len);
        assert(join(head.drop_last()) == data.subrange(0, start));
        assert(head.last() == data.subrange(start, end));
        assert(join(head) == join(head.drop_last()) + head.last());
        assert(data.subrange(0, start) + data.subrange(start, end) =~= data.subrange(0, end));
    }
}

/// Splitting loses nothing: the chunks of a file, laid end to end in order,
/// are the file.
pub proof fn lemma_join_split(data: Seq<u8>, size: nat)
    requires
        size > 0,
    ensures
        join(payloads_of(split_spec(data, size))) == data,
{
    let len = data.len();
    let count = chunk_count(len, size);
    let pieces = payloads_of(split_spec(data, size));
    lemma_chunk_count_bounds(len, size, count);
    lemma_join_prefix(data, size, count);
    assert(pieces.subrange(0, count as int) =~= pieces);
    if count == 0 {
        assert(0 * size == 0) by (nonlinear_arith);
    } else {
        assert((count - 1 + 1) * size == count * size);
    }
    assert(data.subrange(0, len as int) =~= data);
}

/// Equal byte ranges have equal addresses: wherever two files hold the same
/// chunk, their manifests hold the same address.
pub proof fn lemma_shared_chunk_shares_address(
    first: Seq<u8>,
    second: Seq<u8>,
    size: nat,
    i: int,
    j: int,
)
    requires
        0 <= i < chunk_count(first.len(), size),
        0 <= j < chunk_count(second.len(), size),
        chunk_bytes(first, size, i) == chunk_bytes(second, size, j),
    ensures
        manifest_of(split_spec(first, size))[i] == manifest_of(split_spec(second, size))[j],
{
}

/// Configuration for cutting files into chunks of at most `chunk_size` bytes.
pub struct ChunkManager {
    chunk_size: usize,
}

impl ChunkManager {
    #[verifier::type_invariant]
    spec fn valid(self) -> bool {
        0 < self.chunk_size <= MAX_CHUNK_SIZE
    }

    /// The largest chunk this manager produces, in bytes.
    pub closed spec fn limit(&self) -> nat {
        self.chunk_size as nat
    }

    /// A manager that cuts at [`MAX_CHUNK_SIZE`].
    pub fn new() -> (manager: Self)
        ensures
            manager.limit() == MAX_CHUNK_SIZE,
    {
        ChunkManager { chunk_size: MAX_CHUNK_SIZE }
    }

    /// A manager that cuts at `chunk_size` bytes, for sizes from 1 to
    /// [`MAX_CHUNK_SIZE`]; `None` for any other size.
    pub fn with_chunk_size(chunk_size: usize) -> (manager: Option<Self>)
        ensures
            manager is Some <==> 0 < chunk_size <= MAX_CHUNK_SIZE,
            manager matches Some(m) ==> m.limit() == chunk_size,
    {
        if 0 < chunk_size && chunk_size <= MAX_CHUNK_SIZE {
            Some(ChunkManager { chunk_size })
        } else {
            None
        }
    }

    /// The largest chunk this manager produces, in bytes.
    pub fn chunk_size(&self) -> (size: usize)
        ensures
            size == self.limit(),
            0 < size <= MAX_CHUNK_SIZE,
    {
        proof {
            use_type_invariant(self);
        }
        self.chunk_size
    }

    /// Cuts `data` into chunks of `chunk_size` bytes, the last one holding the
    /// remainder, and addresses each by the hash of its bytes.
    pub fn split(&self, data: &[u8]) -> (chunks: Vec<Chunk>)
        ensures
            chunk_models(chunks@) == split_spec(data@, self.limit()),
    {
        proof {
            use_type_invariant(self);
        }
        let size = self.chunk_size;
        let len = data.len();
        let mut chunks: Vec<Chunk> = Vec::new();
        let mut offset: usize = 0;
        while offset < len
            invariant
                0 < size <= MAX_CHUNK_SIZE,
                size == self.limit(),
                len == data@.len(),
                offset <= len,
                offset == chunk_end(len as nat, size as nat, chunks@.len() - 1),
                chunks@.len() > 0 ==> (chunks@.len() - 1) * size < len,
                offset < len ==> offset == chunks@.len() * size,
                forall|j: int|
                    0 <= j < chunks@.len() ==> (#[trigger] chunks@[j])@ == (ChunkModel {
                        data: chunk_bytes(data@, size as nat, j),
                        address: content_address(chunk_bytes(data@, size as nat, j)),
                    }),
            decreases len - offset,
        {
            let ghost i = chunks@.len() as int;
            let end = if len - offset > size {
                offset + size
            } else {
                len
            };
            proof {
                assert((i + 1) * size == i * size + size) by (nonlinear_arith);
                assert((i + 2) * size == i * size + size + size) by (nonlinear_arith);
                assert(end == chunk_end(len as nat, size as nat, i));
            }
            let piece = slice_to_vec(slice_subrange(data, offset, end));
            let address = hash_bytes(piece.as_slice());
            chunks.push(Chunk { data: piece, address });
            offset = end;
        }
        proof {
            let count = chunks@.len();
            assert(count * size >= len) by {
                if count > 0 {
                    assert((count - 1 + 1) * size == count * size);
                } else {
                    assert(0 * size == 0) by (nonlinear_arith);
                }
            }
            assert(count == 0 ==> len == 0) by {
                if count == 0 {
                    assert(0 * size == 0) by (nonlinear_arith);
                    assert(0 * size <= len);
                }
            }
            lemma_chunk_count_bounds(len as nat, size as nat, count);
            assert(chunk_models(chunks@) =~= split_spec(data@, size as nat));
        }
        chunks
    }
}

impl ChunkManager {
    /// The addresses of `chunks`, in order.
    pub fn manifest(chunks: &Vec<Chunk>) -> (manifest: Vec<[u8; 32]>)
        ensures
            manifest@ == manifest_of(chunk_models(chunks@)),
    {
        let mut manifest: Vec<[u8; 32]> = Vec::new();
        let mut i: usize = 0;
        while i < chunks.len()
            invariant
                i <= chunks@.len(),
                manifest@.len() == i,
                forall|j: int| 0 <= j < i ==> manifest@[j] == chunks@[j].address,
            decreases chunks@.len() - i,
        {
            manifest.push(chunks[i].address);
            i = i + 1;
        }
        assert(manifest@ =~= manifest_of(chunk_models(chunks@)));
        manifest
    }

    /// Cuts `data` into chunks and describes the file they make up: its
    /// size, the hash of its bytes and the manifest of its chunks.
    pub fn describe(&self, path: String, modified_time: i64, data: &[u8]) -> (r: (
        FileRecord,
        Vec<Chunk>,
    ))
        ensures
            chunk_models(r.1@) == split_spec(data@, self.limit()),
            r.0@ == (FileRecordModel {
                path: path@,
                size: data@.len() as u64,
                modified_time,
                content_hash: content_address(data@),
                chunk_manifest: manifest_of(split_spec(data@, self.limit())),
            }),
    {
        let chunks = self.split(data);
        let record = FileRecord {
            path,
            size: data.len() as u64,
            modified_time,
            content_hash: hash_bytes(data),
            chunk_manifest: ChunkManager::manifest(&chunks),
        };
        (record, chunks)
    }

    /// Puts a file together from the chunks that `source` holds for the
    /// addresses of `manifest`, in order. Every chunk is held against its
    /// address; the first one that is missing, or whose bytes do not hash to
    /// its address, fails the whole file: bytes are handed back for a
    /// complete file only.
    pub fn reassemble(&self, manifest: &Vec<[u8; 32]>, source: &ChunkCache) -> (r: Result<
        Vec<u8>,
        ChunkError,
    >)
        requires
            source.wf(),
        ensures
            r matches Ok(bytes) ==> intact(manifest@, source@.contents(), manifest@.len() as int)
                && bytes@ == join(pieces(manifest@, source@.contents())),
            r matches Err(e) ==> fails(manifest@, source@.contents(), e),
    {
        let ghost held = source@.contents();
        let mut bytes: Vec<u8> = Vec::new();
        let mut i: usize = 0;
        proof {
            assert(pieces(manifest@, held).subrange(0, 0) =~= Seq::<Seq<u8>>::empty());
        }
        while i < manifest.len()
            invariant
                i <= manifest@.len(),
                source.wf(),
                held == source@.contents(),
                intact(manifest@, held, i as int),
                bytes@ == join(pieces(manifest@, held).subrange(0, i as int)),
            decreases manifest@.len() - i,
        {
            let address = manifest[i];
            let mut piece = match source.peek(&address) {
                None => {
                    return Err(ChunkError::MissingChunk { index: i });
                },
                Some(piece) => piece,
            };
            let digest = hash_bytes(piece.as_slice());
            match check_digest(&address, &digest, i) {
                Err(e) => {
                    return Err(e);
                },
                Ok(()) => {},
            }
            proof {
                let all = pieces(manifest@, held);
                let next = all.subrange(0, i + 1);
                assert(next.drop_last() =~= all.subrange(0, i as int));
                assert(next.last() == piece@);
            }
            bytes.append(&mut piece);
            i = i + 1;
        }
        proof {
            let all = pieces(manifest@, held);
            assert(all.subrange(0, manifest@.len() as int) =~= all);
        }
        Ok(bytes)
    }
}

/// Round trip: from any source that holds the chunks of a file under their
/// addresses, the manifest of the file puts the file together again.
pub proof fn lemma_round_trip(data: Seq<u8>, size: nat, source: Map<[u8; 32], Seq<u8>>)
    requires
        size > 0,
        forall|i: int|
            0 <= i < chunk_count(data.len(), size) ==> source.contains_key(
                #[trigger] split_spec(data, size)[i].address,
            ) && source[split_spec(data, size)[i].address] == split_spec(data, size)[i].data,
    ensures
        intact(
            manifest_of(split_spec(data, size)),
            source,
            manifest_of(split_spec(data, size)).len() as int,
        ),
        join(pieces(manifest_of(split_spec(data, size)), source)) == data,
{
    let chunks = split_spec(data, size);
    let manifest = manifest_of(chunks);
    assert forall|i: int| 0 <= i < manifest.len() implies chunk_ok(
        source,
        #[trigger] manifest[i],
    ) by {
        assert(source.contains_key(chunks[i].address));
    }
    assert(pieces(manifest, source) =~= payloads_of(chunks)) by {
        assert forall|i: int| 0 <= i < manifest.len() implies pieces(manifest, source)[i]
            == payloads_of(chunks)[i] by {
            assert(source.contains_key(chunks[i].address));
        }
    }
    lemma_join_split(data, size);
}

impl Default for ChunkManager {
    fn default() -> (manager: Self)
        ensures
            manager.limit() == MAX_CHUNK_SIZE,
    {
        ChunkManager::new()
    }
}

} // verus!
