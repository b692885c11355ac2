//! The layout of the file that holds the vectors.
//!
//! A header of 64 bytes is followed by the vectors in the order of their nodes,
//! each number in four bytes. So a vector is found from its node alone: it starts
//! at `64 + id * dimension * 4`.
//!
//! The header holds eight bytes that mark the file, four with the version of the
//! layout, four with the dimension, eight with the number of vectors, and forty
//! that are not used. All numbers are stored least significant byte first.

use vstd::prelude::*;

use crate::codec::{
    byte_ranges,
    decimal,
    decimal_text,
    from_little_endian,
    from_little_endian_is_bounded,
    get_little_endian,
    little_endian,
    little_endian_reads_back,
    little_endian_writes_back,
    put_little_endian,
};
use crate::error::{IoError, LsmVecError, Result};
use crate::scalar::Scalar;
use crate::types::{Dimension, NodeId};

verus! {

/// Size of the header in bytes.
pub const HEADER_SIZE: u64 = 64;

/// Position of the number of vectors in the header.
pub const COUNT_OFFSET: u64 = 16;

/// Version of the layout.
pub const VERSION: u32 = 1;

/// The bytes that mark a file of vectors: the letters LSMVEC01.
pub open spec fn magic() -> Seq<u8> {
    seq![0x4c, 0x53, 0x4d, 0x56, 0x45, 0x43, 0x30, 0x31]
}

/// The header of a file.
pub open spec fn header(dimension: nat, count: nat) -> Seq<u8> {
    magic() + little_endian(VERSION as nat, 4) + little_endian(dimension, 4) + little_endian(
        count,
        8,
    ) + Seq::new(40, |i: int| 0u8)
}

/// What the beginning of a file shows.
pub enum HeaderState {
    /// It ends too early.
    Short,
    /// It is not a file of vectors.
    Unmarked,
    /// Its layout has another version.
    Version(nat),
    /// Its vectors have another dimension.
    Dimension(nat),
    /// It is as expected.
    Sound,
}

/// What the beginning of a file shows to one who expects vectors of the given
/// dimension. The parts of the header are looked at in turn.
pub open spec fn header_state(bytes: Seq<u8>, dimension: nat) -> HeaderState {
    if bytes.len() < 8 {
        HeaderState::Short
    } else if bytes.take(8) != magic() {
        HeaderState::Unmarked
    } else if bytes.len() < 12 {
        HeaderState::Short
    } else if from_little_endian(bytes.subrange(8, 12)) != VERSION {
        HeaderState::Version(from_little_endian(bytes.subrange(8, 12)))
    } else if bytes.len() < 16 {
        HeaderState::Short
    } else if from_little_endian(bytes.subrange(12, 16)) != dimension {
        HeaderState::Dimension(from_little_endian(bytes.subrange(12, 16)))
    } else {
        HeaderState::Sound
    }
}

/// A vector as bytes.
pub open spec fn vector_bytes(vector: Seq<Scalar>) -> Seq<u8>
    decreases vector.len(),
{
    if vector.len() == 0 {
        Seq::empty()
    } else {
        vector_bytes(vector.drop_last()) + little_endian(vector.last().bits as nat, 4)
    }
}

/// The vector that bytes stand for.
pub open spec fn vector_from(bytes: Seq<u8>) -> Seq<Scalar> {
    Seq::new(
        bytes.len() / 4,
        |i: int| Scalar { bits: from_little_endian(bytes.subrange(4 * i, 4 * i + 4)) as u32 },
    )
}

/// Where the vector of a node starts.
pub open spec fn place(id: NodeId, dimension: nat) -> nat {
    HEADER_SIZE as nat + id as nat * (4 * dimension)
}

/// Bytes to be written at a position of the file.
#[derive(Debug)]
pub struct Write {
    /// The position.
    pub offset: u64,
    /// The bytes.
    pub bytes: Vec<u8>,
}

/// What has been found wrong, as an error.
pub open spec fn reports(error: LsmVecError, state: HeaderState, dimension: nat) -> bool {
    match state {
        HeaderState::Short => error == LsmVecError::Io(IoError::UnexpectedEof),
        HeaderState::Unmarked => error matches LsmVecError::InvalidFile(text) && text@
            == "Invalid magic number"@,
        HeaderState::Version(version) => error matches LsmVecError::InvalidFile(text) && text@
            == "Unsupported version: "@ + decimal(version),
        HeaderState::Dimension(other) => error matches LsmVecError::InvalidDimension {
            expected,
            actual,
        } && expected == dimension && actual == other,
        HeaderState::Sound => false,
    }
}

/// A file of vectors of one dimension.
pub struct VectorFile {
    dimension: Dimension,
    vector_byte_size: u64,
}

impl View for VectorFile {
    type V = nat;

    /// The dimension of the vectors.
    closed spec fn view(&self) -> nat {
        self.dimension as nat
    }
}

impl VectorFile {
    /// The size of a vector is that of its numbers.
    pub closed spec fn valid(self) -> bool {
        &&& self.vector_byte_size == 4 * self.dimension
        &&& 4 * self.dimension <= usize::MAX
    }

    /// A file for vectors of the given dimension. Of a file that exists already
    /// the beginning is given, at least sixteen bytes if it has as many, and is
    /// checked; for a new one the header to write is handed back.
    pub fn open(dimension: Dimension, existing: Option<&[u8]>) -> (opened: Result<
        (VectorFile, Option<Vec<u8>>),
    >)
        requires
            4 * dimension <= usize::MAX,
        ensures
            match existing {
                Some(bytes) => match opened {
                    Ok((file, to_write)) => {
                        &&& header_state(bytes@, dimension as nat) is Sound
                        &&& file.valid() && file@ == dimension
                        &&& to_write is None
                    },
                    Err(error) => reports(
                        error,
                        header_state(bytes@, dimension as nat),
                        dimension as nat,
                    ),
                },
                None => {
                    &&& opened matches Ok((file, Some(to_write)))
                    &&& file.valid() && file@ == dimension
                    &&& to_write@ == header(dimension as nat, 0)
                },
            },
    {
        let file = VectorFile { dimension, vector_byte_size: (dimension * 4) as u64 };
        match existing {
            Some(bytes) => match file.verify_header(bytes) {
                Ok(()) => Ok((file, None)),
                Err(error) => Err(error),
            },
            None => {
                let to_write = file.write_header(0);
                Ok((file, Some(to_write)))
            },
        }
    }

    /// The header of a file with the given number of vectors.
    pub fn write_header(&self, count: u64) -> (bytes: Vec<u8>)
        ensures
            bytes@ == header(self@, count as nat),
    {
        let mut bytes: Vec<u8> = vec![0x4c, 0x53, 0x4d, 0x56, 0x45, 0x43, 0x30, 0x31];
        assert(bytes@ =~= magic());
        put_little_endian(&mut bytes, VERSION as u64, 4);
        put_little_endian(&mut bytes, self.dimension as u64, 4);
        put_little_endian(&mut bytes, count, 8);
        let ghost used = bytes@;
        let mut at: usize = 0;
        while at < 40
            invariant
                at <= 40,
                bytes@ == used + Seq::new(at as nat, |i: int| 0u8),
            decreases 40 - at,
        {
            bytes.push(0);
            at = at + 1;
            assert(bytes@ =~= used + Seq::new(at as nat, |i: int| 0u8));
        }
        bytes
    }

    /// Checks the beginning of a file.
    pub fn verify_header(&self, bytes: &[u8]) -> (verdict: Result<()>)
        ensures
            match verdict {
                Ok(()) => header_state(bytes@, self@) is Sound,
                Err(error) => reports(error, header_state(bytes@, self@), self@),
            },
    {
        if bytes.len() < 8 {
            return Err(LsmVecError::Io(IoError::UnexpectedEof));
        }
        let marked = bytes[0] == 0x4c && bytes[1] == 0x53 && bytes[2] == 0x4d && bytes[3] == 0x56
            && bytes[4] == 0x45 && bytes[5] == 0x43 && bytes[6] == 0x30 && bytes[7] == 0x31;
        proof {
            if marked {
                assert(bytes@.take(8) =~= magic());
            } else {
                assert(exists|i: int| 0 <= i < 8 && #[trigger] bytes@.take(8)[i] != magic()[i]) by {
                    assert(forall|i: int| 0 <= i < 8 ==> #[trigger] bytes@.take(8)[i] == bytes@[i]);
                    assert(bytes@.take(8)[0] != magic()[0] || bytes@.take(8)[1] != magic()[1]
                        || bytes@.take(8)[2] != magic()[2] || bytes@.take(8)[3] != magic()[3]
                        || bytes@.take(8)[4] != magic()[4] || bytes@.take(8)[5] != magic()[5]
                        || bytes@.take(8)[6] != magic()[6] || bytes@.take(8)[7] != magic()[7]);
                }
            }
        }
        if !marked {
            return Err(LsmVecError::InvalidFile(String::from_str("Invalid magic number")));
        }
        if bytes.len() < 12 {
            return Err(LsmVecError::Io(IoError::UnexpectedEof));
        }
        let version: u64 = get_little_endian(bytes, 8, 4);
        proof {
            lemma_four_bytes(bytes@.subrange(8, 12));
        }
        if version != VERSION as u64 {
            let text = String::from_str("Unsupported version: ").concat(
                decimal_text(version as u32).as_str(),
            );
            return Err(LsmVecError::InvalidFile(text));
        }
        if bytes.len() < 16 {
            return Err(LsmVecError::Io(IoError::UnexpectedEof));
        }
        let file_dimension: u64 = get_little_endian(bytes, 12, 4);
        proof {
            lemma_four_bytes(bytes@.subrange(12, 16));
        }
        if file_dimension != self.dimension as u64 {
            return Err(
                LsmVecError::InvalidDimension {
                    expected: self.dimension,
                    actual: file_dimension as usize,
                },
            );
        }
        Ok(())
    }

    /// The number of vectors, from the eight bytes that hold it; fewer are read if
    /// the file ends before.
    pub fn count(&self, field: &[u8]) -> (count: Result<u64>)
        ensures
            match count {
                Ok(value) => field@.len() >= 8 && value == from_little_endian(field@.take(8)),
                Err(error) => field@.len() < 8 && error == LsmVecError::Io(IoError::UnexpectedEof),
            },
    {
        if field.len() < 8 {
            return Err(LsmVecError::Io(IoError::UnexpectedEof));
        }
        assert(field@.subrange(0, 8) =~= field@.take(8));
        Ok(get_little_endian(field, 0, 8))
    }

    /// What to write for the number of vectors.
    pub fn update_count(&self, count: u64) -> (write: Write)
        ensures
            write.offset == COUNT_OFFSET,
            write.bytes@ == little_endian(count as nat, 8),
    {
        let mut bytes: Vec<u8> = Vec::new();
        put_little_endian(&mut bytes, count, 8);
        assert(bytes@ =~= little_endian(count as nat, 8));
        Write { offset: COUNT_OFFSET, bytes }
    }

    /// Where the vector of a node starts.
    pub fn offset(&self, id: NodeId) -> (offset: u64)
        requires
            self.valid(),
            place(id, self@) <= u64::MAX,
        ensures
            offset == place(id, self@),
            offset == 64 + id * (4 * self@),
    {
        assert(id * self.vector_byte_size == id as nat * (4 * self@)) by (nonlinear_arith)
            requires
                self.vector_byte_size == 4 * self@,
        ;
        HEADER_SIZE + id * self.vector_byte_size
    }

    /// Where to read the vector of a node in a file of the given size, and how
    /// many bytes; nowhere if the file ends before the vector does.
    pub fn locate(&self, id: NodeId, file_size: u64) -> (found: Option<(u64, u64)>)
        requires
            self.valid(),
        ensures
            match found {
                Some((offset, size)) => {
                    &&& offset == place(id, self@)
                    &&& size == 4 * self@
                    &&& place(id, self@) + 4 * self@ <= file_size
                },
                None => place(id, self@) + 4 * self@ > file_size,
            },
    {
        let size: u128 = self.vector_byte_size as u128;
        assert(0 <= id * size <= 0xffff_ffff_ffff_ffff * 0xffff_ffff_ffff_ffff) by (nonlinear_arith)
            requires
                0 <= id <= 0xffff_ffff_ffff_ffff,
                0 <= size <= 0xffff_ffff_ffff_ffff,
        ;
        assert(id * size == id as nat * (4 * self@)) by (nonlinear_arith)
            requires
                size == 4 * self@,
        ;
        let end: u128 = HEADER_SIZE as u128 + id as u128 * size + size;
        if end > file_size as u128 {
            None
        } else {
            Some((self.offset(id), self.vector_byte_size))
        }
    }

    /// The vector of a node, from its bytes, in a file with the given number of
    /// vectors; none if the node is beyond that number.
    pub fn get(&self, id: NodeId, count: u64, bytes: &[u8]) -> (vector: Option<Vec<Scalar>>)
        ensures
            match vector {
                Some(numbers) => id < count && numbers@ == vector_from(bytes@),
                None => id >= count,
            },
    {
        if id >= count {
            return None;
        }
        let mut numbers: Vec<Scalar> = Vec::new();
        let whole: usize = bytes.len() / 4;
        let mut at: usize = 0;
        while at < whole
            invariant
                at <= whole,
                whole == bytes@.len() / 4,
                bytes@.len() <= usize::MAX,
                numbers@ == vector_from(bytes@).take(at as int),
            decreases whole - at,
        {
            let bits: u64 = get_little_endian(bytes, 4 * at, 4);
            proof {
                lemma_four_bytes(bytes@.subrange(4 * at, 4 * at + 4));
            }
            numbers.push(Scalar { bits: bits as u32 });
            at = at + 1;
            assert(numbers@ =~= vector_from(bytes@).take(at as int));
        }
        assert(numbers@ =~= vector_from(bytes@));
        Some(numbers)
    }

    /// What to write for the vector of a node. A vector of another dimension is
    /// refused.
    pub fn put(&self, id: NodeId, vector: &[Scalar]) -> (written: Result<Write>)
        requires
            self.valid(),
            vector@.len() == self@ ==> place(id, self@) <= u64::MAX,
        ensures
            match written {
                Ok(write) => {
                    &&& vector@.len() == self@
                    &&& write.offset == place(id, self@)
                    &&& write.bytes@ == vector_bytes(vector@)
                },
                Err(error) => {
                    &&& vector@.len() != self@
                    &&& error == LsmVecError::InvalidDimension {
                        expected: self@ as usize,
                        actual: vector@.len() as usize,
                    }
                },
            },
    {
        if vector.len() != self.dimension {
            return Err(
                LsmVecError::InvalidDimension { expected: self.dimension, actual: vector.len() },
            );
        }
        let offset: u64 = self.offset(id);
        let mut bytes: Vec<u8> = Vec::new();
        let mut at: usize = 0;
        assert(vector@.take(0) =~= Seq::<Scalar>::empty());
        while at < vector.len()
            invariant
                at <= vector@.len(),
                bytes@ == vector_bytes(vector@.take(at as int)),
            decreases vector@.len() - at,
        {
            assert(vector@.take(at + 1).drop_last() =~= vector@.take(at as int));
            put_little_endian(&mut bytes, vector[at].bits as u64, 4);
            at = at + 1;
        }
        assert(vector@.take(at as int) =~= vector@);
        Ok(Write { offset, bytes })
    }

    /// What to write for the number of vectors after the vector of a node has been
    /// written, if the node is a new one.
    pub fn counted(&self, id: NodeId, current: u64) -> (write: Option<Write>)
        requires
            id < u64::MAX,
        ensures
            match write {
                Some(write) => {
                    &&& id >= current
                    &&& write.offset == COUNT_OFFSET
                    &&& write.bytes@ == little_endian(id as nat + 1, 8)
                },
                None => id < current,
            },
    {
        if id >= current {
            Some(self.update_count(id + 1))
        } else {
            None
        }
    }

    /// The node of the next vector in a file with the given number of them, and
    /// what to write for it.
    pub fn append(&self, count: u64, vector: &[Scalar]) -> (appended: Result<(NodeId, Write)>)
        requires
            self.valid(),
            vector@.len() == self@ ==> place(count, self@) <= u64::MAX,
        ensures
            match appended {
                Ok((id, write)) => {
                    &&& id == count
                    &&& vector@.len() == self@
                    &&& write.offset == place(id, self@)
                    &&& write.bytes@ == vector_bytes(vector@)
                },
                Err(error) => {
                    &&& vector@.len() != self@
                    &&& error == LsmVecError::InvalidDimension {
                        expected: self@ as usize,
                        actual: vector@.len() as usize,
                    }
                },
            },
    {
        match self.put(count, vector) {
            Ok(write) => Ok((count, write)),
            Err(error) => Err(error),
        }
    }

    /// The dimension of the vectors.
    pub fn dimension(&self) -> (dimension: Dimension)
        ensures
            dimension == self@,
    {
        self.dimension
    }
}

/// Four bytes stand for a number of thirty-two bits.
proof fn lemma_four_bytes(bytes: Seq<u8>)
    requires
        bytes.len() == 4,
    ensures
        from_little_endian(bytes) < 0x1_0000_0000,
{
    from_little_endian_is_bounded(bytes);
    byte_ranges();
}

/// The header of a file, in full: the letters LSMVEC01, then one, the dimension and the
/// number of vectors, least significant byte first in four, four and eight bytes, then
/// forty zeros.
pub proof fn header_in_full(dimension: nat, count: nat)
    ensures
        header(dimension, count).len() == 64,
        header(dimension, count).take(8) == seq![
            0x4cu8,
            0x53u8,
            0x4du8,
            0x56u8,
            0x45u8,
            0x43u8,
            0x30u8,
            0x31u8,
        ],
        header(dimension, count).subrange(8, 12) == little_endian(1, 4),
        header(dimension, count).subrange(12, 16) == little_endian(dimension, 4),
        header(dimension, count).subrange(16, 24) == little_endian(count, 8),
        forall|i: int| 24 <= i < 64 ==> #[trigger] header(dimension, count)[i] == 0,
{
    little_endian_reads_back(1, 4);
    little_endian_reads_back(dimension, 4);
    little_endian_reads_back(count, 8);
    let bytes = header(dimension, count);
    assert(bytes.take(8) =~= magic());
    assert(bytes.subrange(8, 12) =~= little_endian(1, 4));
    assert(bytes.subrange(12, 16) =~= little_endian(dimension, 4));
    assert(bytes.subrange(16, 24) =~= little_endian(count, 8));
}

/// Which files are taken and which are refused, and why: a file is sound if and only if it
/// begins with the letters LSMVEC01, the version one and the expected dimension. It is
/// refused for its end if it ends before what is looked at, for its mark if its first
/// eight bytes are others, for its version if that is another, and for its dimension
/// if that is another, in this order.
pub proof fn header_verdicts(bytes: Seq<u8>, dimension: nat)
    ensures
        ({
            let marked = bytes.len() >= 8 && bytes.take(8) == seq![
                0x4cu8,
                0x53u8,
                0x4du8,
                0x56u8,
                0x45u8,
                0x43u8,
                0x30u8,
                0x31u8,
            ];
            let version = from_little_endian(bytes.subrange(8, 12));
            let found = from_little_endian(bytes.subrange(12, 16));
            let state = header_state(bytes, dimension);
            &&& state is Sound <==> marked && bytes.len() >= 16 && version == 1 && found
                == dimension
            &&& state is Short <==> bytes.len() < 8 || (marked && bytes.len() < 12) || (marked
                && version == 1 && bytes.len() < 16)
            &&& state is Unmarked <==> bytes.len() >= 8 && !marked
            &&& state matches HeaderState::Version(v) ==> v == version
            &&& state is Version <==> marked && bytes.len() >= 12 && version != 1
            &&& state matches HeaderState::Dimension(d) ==> d == found
            &&& state is Dimension <==> marked && bytes.len() >= 16 && version == 1 && found
                != dimension
        }),
{
}

/// The bytes of a vector, in full: four for each number, least significant first, in the
/// order of the vector; and any bytes are read so, up to a rest of fewer than four.
pub proof fn vectors_are_laid_out_in_full(vector: Seq<Scalar>, bytes: Seq<u8>, at: int)
    ensures
        vector_bytes(vector).len() == 4 * vector.len(),
        0 <= at < vector.len() ==> vector_bytes(vector).subrange(4 * at, 4 * at + 4)
            == little_endian(vector[at].bits as nat, 4),
        vector_from(bytes).len() == bytes.len() / 4,
        0 <= at < bytes.len() / 4 ==> little_endian(vector_from(bytes)[at].bits as nat, 4)
            == bytes.subrange(4 * at, 4 * at + 4),
    decreases vector.len(),
{
    if vector.len() > 0 {
        let rest = vector.drop_last();
        vectors_are_laid_out_in_full(rest, bytes, at);
        little_endian_reads_back(vector.last().bits as nat, 4);
        let all = vector_bytes(vector);
        if 0 <= at < rest.len() {
            assert(all.subrange(4 * at, 4 * at + 4) =~= vector_bytes(rest).subrange(
                4 * at,
                4 * at + 4,
            ));
        } else if at == rest.len() {
            assert(all.subrange(4 * at, 4 * at + 4) =~= little_endian(vector[at].bits as nat, 4));
        }
    }
    if 0 <= at < bytes.len() / 4 {
        let part = bytes.subrange(4 * at, 4 * at + 4);
        little_endian_writes_back(part);
        lemma_four_bytes(part);
    }
}

} // verus!
