//! What a file of vectors gives back.
//!
//! The laws speak of the whole contents of a file, and of what reads and writes
//! at positions do to them.

use vstd::prelude::*;

use crate::codec::{
    byte_ranges,
    from_little_endian,
    little_endian,
    little_endian_reads_back,
};
use crate::scalar::Scalar;
use crate::types::NodeId;
use crate::vector_file::{
    header,
    header_state,
    magic,
    place,
    vector_bytes,
    vector_from,
    HeaderState,
    COUNT_OFFSET,
    HEADER_SIZE,
    VERSION,
};

verus! {

/// The contents of a file after bytes have been written at a position. A gap
/// before them is filled with zeros; writing no bytes changes nothing.
pub open spec fn written(image: Seq<u8>, offset: nat, bytes: Seq<u8>) -> Seq<u8> {
    if bytes.len() == 0 {
        image
    } else {
        Seq::new(
            if image.len() > offset + bytes.len() {
                image.len()
            } else {
                offset + bytes.len()
            },
            |i: int|
                if offset <= i < offset + bytes.len() {
                    bytes[i - offset]
                } else if i < image.len() {
                    image[i]
                } else {
                    0
                },
        )
    }
}

/// The number of vectors that a file says it has.
pub open spec fn stored_count(image: Seq<u8>) -> nat {
    from_little_endian(image.subrange(16, 24))
}

/// The vector that is read from a file for a node.
pub open spec fn fetched(image: Seq<u8>, id: NodeId, dimension: nat) -> Option<Seq<Scalar>> {
    let start = place(id, dimension);
    let end = start + 4 * dimension;
    if end <= image.len() && id < stored_count(image) {
        Some(vector_from(image.subrange(start as int, end as int)))
    } else {
        None
    }
}

/// The contents of a file after the vector of a node has been put.
pub open spec fn after_put(
    image: Seq<u8>,
    id: NodeId,
    vector: Seq<Scalar>,
    dimension: nat,
) -> Seq<u8> {
    let image = written(image, place(id, dimension), vector_bytes(vector));
    if id >= stored_count(image) {
        written(image, COUNT_OFFSET as nat, little_endian(id as nat + 1, 8))
    } else {
        image
    }
}

/// The contents of a new file after vectors have been appended one by one.
pub open spec fn after_appends(vectors: Seq<Seq<Scalar>>, dimension: nat) -> Seq<u8>
    decreases vectors.len(),
{
    if vectors.len() == 0 {
        header(dimension, 0)
    } else {
        let image = after_appends(vectors.drop_last(), dimension);
        after_put(image, stored_count(image) as NodeId, vectors.last(), dimension)
    }
}

/// A vector reads back as it was written.
pub proof fn vector_reads_back(vector: Seq<Scalar>)
    ensures
        vector_bytes(vector).len() == 4 * vector.len(),
        vector_from(vector_bytes(vector)) == vector,
    decreases vector.len(),
{
    if vector.len() > 0 {
        let rest = vector.drop_last();
        vector_reads_back(rest);
        byte_ranges();
        little_endian_reads_back(vector.last().bits as nat, 4);
        let bytes = vector_bytes(vector);
        let head = vector_bytes(rest);
        assert forall|i: int| 0 <= i < vector.len() implies vector_from(bytes)[i] == vector[i] by {
            if i < rest.len() {
                assert(bytes.subrange(4 * i, 4 * i + 4) =~= head.subrange(4 * i, 4 * i + 4));
                assert(vector_from(head)[i] == rest[i]);
            } else {
                assert(bytes.subrange(4 * i, 4 * i + 4) =~= little_endian(
                    vector.last().bits as nat,
                    4,
                ));
            }
        }
        assert(vector_from(bytes) =~= vector);
    } else {
        assert(vector_from(vector_bytes(vector)) =~= vector);
    }
}

/// The vectors of different nodes do not overlap.
pub proof fn places_are_disjoint(a: NodeId, b: NodeId, dimension: nat)
    requires
        a < b,
    ensures
        HEADER_SIZE <= place(a, dimension),
        place(a, dimension) + 4 * dimension <= place(b, dimension),
{
    let size = 4 * dimension;
    assert(0 <= a as nat * size) by (nonlinear_arith)
        requires
            size >= 0,
    ;
    assert(a as nat * size + size <= b as nat * size) by (nonlinear_arith)
        requires
            a + 1 <= b,
            size >= 0,
    ;
}

/// Writing beyond the header leaves it as it is.
proof fn lemma_beyond_header(image: Seq<u8>, offset: nat, bytes: Seq<u8>)
    requires
        image.len() >= HEADER_SIZE,
        offset >= HEADER_SIZE,
    ensures
        written(image, offset, bytes).len() >= HEADER_SIZE,
        written(image, offset, bytes).take(64) == image.take(64),
        stored_count(written(image, offset, bytes)) == stored_count(image),
{
    let now = written(image, offset, bytes);
    assert(now.take(64) =~= image.take(64));
    assert(now.subrange(16, 24) =~= image.subrange(16, 24));
}

/// Writing the number of vectors changes it and nothing else.
proof fn lemma_count_written(image: Seq<u8>, count: nat)
    requires
        image.len() >= HEADER_SIZE,
        count < 0x1_0000_0000_0000_0000,
    ensures
        ({
            let now = written(image, COUNT_OFFSET as nat, little_endian(count, 8));
            &&& now.len() == image.len()
            &&& now.take(16) == image.take(16)
            &&& stored_count(now) == count
            &&& now.skip(64) == image.skip(64)
        }),
{
    byte_ranges();
    little_endian_reads_back(count, 8);
    let bytes = little_endian(count, 8);
    let now = written(image, COUNT_OFFSET as nat, bytes);
    assert(now.take(16) =~= image.take(16));
    assert(now.subrange(16, 24) =~= bytes);
    assert(now.skip(64) =~= image.skip(64));
}

/// A put leaves the file's mark, version and dimension as they were, and makes
/// the number of vectors cover the node.
pub proof fn count_after_put(image: Seq<u8>, id: NodeId, vector: Seq<Scalar>, dimension: nat)
    requires
        image.len() >= HEADER_SIZE,
        id < u64::MAX,
    ensures
        after_put(image, id, vector, dimension).len() >= image.len(),
        after_put(image, id, vector, dimension).take(16) == image.take(16),
        stored_count(after_put(image, id, vector, dimension)) == if id >= stored_count(image) {
            id as nat + 1
        } else {
            stored_count(image)
        },
{
    let size = 4 * dimension;
    assert(0 <= id as nat * size) by (nonlinear_arith)
        requires
            size >= 0,
    ;
    let mid = written(image, place(id, dimension), vector_bytes(vector));
    lemma_beyond_header(image, place(id, dimension), vector_bytes(vector));
    assert(mid.take(16) =~= mid.take(64).take(16));
    assert(image.take(16) =~= image.take(64).take(16));
    if id >= stored_count(mid) {
        lemma_count_written(mid, id as nat + 1);
    }
}

/// Beyond the header, a put is just the write of the vector.
proof fn lemma_body_after_put(image: Seq<u8>, id: NodeId, vector: Seq<Scalar>, dimension: nat)
    requires
        image.len() >= HEADER_SIZE,
        id < u64::MAX,
    ensures
        after_put(image, id, vector, dimension).skip(64) == written(
            image,
            place(id, dimension),
            vector_bytes(vector),
        ).skip(64),
        after_put(image, id, vector, dimension).len() == written(
            image,
            place(id, dimension),
            vector_bytes(vector),
        ).len(),
{
    let size = 4 * dimension;
    assert(0 <= id as nat * size) by (nonlinear_arith)
        requires
            size >= 0,
    ;
    let mid = written(image, place(id, dimension), vector_bytes(vector));
    lemma_beyond_header(image, place(id, dimension), vector_bytes(vector));
    if id >= stored_count(mid) {
        lemma_count_written(mid, id as nat + 1);
    }
}

/// A read gives back what was put.
pub proof fn get_after_put(image: Seq<u8>, id: NodeId, vector: Seq<Scalar>, dimension: nat)
    requires
        image.len() >= HEADER_SIZE,
        id < u64::MAX,
        vector.len() == dimension,
    ensures
        fetched(after_put(image, id, vector, dimension), id, dimension) == Some(vector),
{
    let now = after_put(image, id, vector, dimension);
    let start = place(id, dimension) as int;
    let size = 4 * dimension;
    assert(0 <= id as nat * size) by (nonlinear_arith)
        requires
            size >= 0,
    ;
    vector_reads_back(vector);
    count_after_put(image, id, vector, dimension);
    lemma_body_after_put(image, id, vector, dimension);
    let mid = written(image, place(id, dimension), vector_bytes(vector));
    if dimension == 0 {
        assert(id as nat * size == 0) by (nonlinear_arith)
            requires
                size == 0,
        ;
    }
    let here = now.subrange(start, start + size);
    assert(here =~= vector_bytes(vector)) by {
        assert forall|i: int| 0 <= i < size implies #[trigger] here[i] == vector_bytes(
            vector,
        )[i] by {
            assert(now.skip(64)[start + i - 64] == mid.skip(64)[start + i - 64]);
        }
    }
}

/// A put leaves the vectors of all other nodes as they were.
pub proof fn get_after_other_put(
    image: Seq<u8>,
    id: NodeId,
    vector: Seq<Scalar>,
    dimension: nat,
    other: NodeId,
)
    requires
        image.len() >= HEADER_SIZE,
        id < u64::MAX,
        vector.len() == dimension,
        other != id,
        fetched(image, other, dimension) is Some,
    ensures
        fetched(after_put(image, id, vector, dimension), other, dimension) == fetched(
            image,
            other,
            dimension,
        ),
{
    let now = after_put(image, id, vector, dimension);
    let start = place(other, dimension) as int;
    let size = 4 * dimension;
    assert(0 <= other as nat * size) by (nonlinear_arith)
        requires
            size >= 0,
    ;
    vector_reads_back(vector);
    count_after_put(image, id, vector, dimension);
    lemma_body_after_put(image, id, vector, dimension);
    let mid = written(image, place(id, dimension), vector_bytes(vector));
    if id < other {
        places_are_disjoint(id, other, dimension);
    } else {
        places_are_disjoint(other, id, dimension);
    }
    let here = now.subrange(start, start + size);
    let before = image.subrange(start, start + size);
    assert(here =~= before) by {
        assert forall|i: int| 0 <= i < size implies #[trigger] here[i] == before[i] by {
            assert(now.skip(64)[start + i - 64] == mid.skip(64)[start + i - 64]);
        }
    }
}

/// A read of a node beyond the number of vectors gives nothing.
pub proof fn get_beyond_count(image: Seq<u8>, id: NodeId, dimension: nat)
    requires
        id >= stored_count(image),
    ensures
        fetched(image, id, dimension) is None,
{
}

/// The header of a file is sound to one who expects its dimension and refused to
/// one who expects another, whatever else is in the file. Dimensions that do not
/// fit in four bytes are left out.
pub proof fn header_tells_the_dimension(
    image: Seq<u8>,
    dimension: nat,
    count: nat,
    expected: nat,
)
    requires
        image.len() >= 16,
        image.take(16) == header(dimension, count).take(16),
        dimension < 0x1_0000_0000,
    ensures
        header_state(image, expected) == if expected == dimension {
            HeaderState::Sound
        } else {
            HeaderState::Dimension(dimension)
        },
{
    byte_ranges();
    little_endian_reads_back(VERSION as nat, 4);
    little_endian_reads_back(dimension, 4);
    little_endian_reads_back(count, 8);
    let whole = header(dimension, count);
    assert(image.take(8) =~= image.take(16).take(8));
    assert(whole.take(16).take(8) =~= magic());
    assert(image.subrange(8, 12) =~= image.take(16).subrange(8, 12));
    assert(whole.take(16).subrange(8, 12) =~= little_endian(VERSION as nat, 4));
    assert(image.subrange(12, 16) =~= image.take(16).subrange(12, 16));
    assert(whole.take(16).subrange(12, 16) =~= little_endian(dimension, 4));
}

/// Appended vectors are numbered from zero on and are all given back: after any
/// number of appends to a new file, that is the number of vectors, each node's
/// vector is the one that was appended, the next node has none, and the header is
/// that of the new file up to the number.
pub proof fn appended_vectors_are_kept(
    vectors: Seq<Seq<Scalar>>,
    dimension: nat,
    id: NodeId,
)
    requires
        vectors.len() < u64::MAX,
        forall|i: int| 0 <= i < vectors.len() ==> (#[trigger] vectors[i]).len() == dimension,
    ensures
        ({
            let image = after_appends(vectors, dimension);
            &&& image.len() >= HEADER_SIZE
            &&& image.take(16) == header(dimension, 0).take(16)
            &&& stored_count(image) == vectors.len()
            &&& fetched(image, id, dimension) == if id < vectors.len() {
                Some(vectors[id as int])
            } else {
                None
            }
        }),
    decreases vectors.len(),
{
    if vectors.len() == 0 {
        byte_ranges();
        little_endian_reads_back(VERSION as nat, 4);
        little_endian_reads_back(dimension, 4);
        little_endian_reads_back(0, 8);
        let image = header(dimension, 0);
        assert(image.subrange(16, 24) =~= little_endian(0, 8));
    } else {
        let rest = vectors.drop_last();
        let last = vectors.last();
        assert forall|i: int| 0 <= i < rest.len() implies (#[trigger] rest[i]).len()
            == dimension by {
            assert(rest[i] == vectors[i]);
        }
        appended_vectors_are_kept(rest, dimension, id);
        let image = after_appends(rest, dimension);
        let next = rest.len() as NodeId;
        assert(vectors[vectors.len() - 1].len() == dimension);
        count_after_put(image, next, last, dimension);
        if id == next {
            get_after_put(image, next, last, dimension);
        } else if id < rest.len() {
            get_after_other_put(image, next, last, dimension, id);
        }
    }
}

} // verus!
