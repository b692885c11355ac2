use lsm_vec::codec::decimal_text;
use lsm_vec::error::{IoError, LsmVecError, Result};
use lsm_vec::scalar::Scalar;
use lsm_vec::vector_file::{VectorFile, Write};

/// A file of vectors whose contents are kept in memory.
struct Image {
    file: VectorFile,
    bytes: Vec<u8>,
}

impl Image {
    fn open(bytes: Option<Vec<u8>>, dimension: usize) -> Result<Image> {
        let (file, header) = VectorFile::open(dimension, bytes.as_deref())?;
        let bytes = match header {
            Some(header) => header,
            None => bytes.unwrap(),
        };
        Ok(Image { file, bytes })
    }

    fn write(&mut self, write: Write) {
        let start = write.offset as usize;
        let end = start + write.bytes.len();
        if self.bytes.len() < end {
            self.bytes.resize(end, 0);
        }
        self.bytes[start..end].copy_from_slice(&write.bytes);
    }

    fn count(&self) -> Result<u64> {
        self.file.count(&self.bytes[16..24])
    }

    fn put(&mut self, id: u64, vector: &[f32]) -> Result<()> {
        let write = self.file.put(id, &scalars(vector))?;
        self.write(write);
        if let Some(write) = self.file.counted(id, self.count()?) {
            self.write(write);
        }
        Ok(())
    }

    fn append(&mut self, vector: &[f32]) -> Result<u64> {
        let (id, write) = self.file.append(self.count()?, &scalars(vector))?;
        self.write(write);
        if let Some(write) = self.file.counted(id, self.count()?) {
            self.write(write);
        }
        Ok(id)
    }

    fn get(&self, id: u64) -> Result<Option<Vec<f32>>> {
        match self.file.locate(id, self.bytes.len() as u64) {
            Some((offset, size)) => {
                let bytes = &self.bytes[offset as usize..(offset + size) as usize];
                Ok(self
                    .file
                    .get(id, self.count()?, bytes)
                    .map(|v| v.iter().map(|s| f32::from_bits(s.bits)).collect()))
            }
            None => Ok(None),
        }
    }
}

fn scalars(values: &[f32]) -> Vec<Scalar> {
    values.iter().map(|v| Scalar::from_bits(v.to_bits())).collect()
}

#[test]
fn test_create_and_append() {
    let mut vf = Image::open(None, 4).unwrap();
    assert_eq!(vf.count().unwrap(), 0);

    let v1 = vec![1.0, 2.0, 3.0, 4.0];
    let id1 = vf.append(&v1).unwrap();
    assert_eq!(id1, 0);
    assert_eq!(vf.count().unwrap(), 1);

    let v2 = vec![5.0, 6.0, 7.0, 8.0];
    let id2 = vf.append(&v2).unwrap();
    assert_eq!(id2, 1);
    assert_eq!(vf.count().unwrap(), 2);

    assert_eq!(vf.get(0).unwrap(), Some(v1));
    assert_eq!(vf.get(1).unwrap(), Some(v2));
    assert_eq!(vf.get(2).unwrap(), None);
}

#[test]
fn test_reopen() {
    let mut vf = Image::open(None, 3).unwrap();
    vf.append(&[1.0, 2.0, 3.0]).unwrap();
    vf.append(&[4.0, 5.0, 6.0]).unwrap();
    let bytes = vf.bytes;

    let vf = Image::open(Some(bytes), 3).unwrap();
    assert_eq!(vf.count().unwrap(), 2);
    assert_eq!(vf.get(0).unwrap(), Some(vec![1.0, 2.0, 3.0]));
    assert_eq!(vf.get(1).unwrap(), Some(vec![4.0, 5.0, 6.0]));
}

#[test]
fn test_dimension_mismatch() {
    let mut vf = Image::open(None, 4).unwrap();
    vf.append(&[1.0, 2.0, 3.0, 4.0]).unwrap();

    let result = Image::open(Some(vf.bytes), 3);
    assert!(matches!(result, Err(LsmVecError::InvalidDimension { .. })));
}

#[test]
fn test_overwrite() {
    let mut vf = Image::open(None, 2).unwrap();
    vf.append(&[1.0, 2.0]).unwrap();
    vf.append(&[3.0, 4.0]).unwrap();

    vf.put(0, &[10.0, 20.0]).unwrap();
    assert_eq!(vf.get(0).unwrap(), Some(vec![10.0, 20.0]));
    assert_eq!(vf.get(1).unwrap(), Some(vec![3.0, 4.0]));
    assert_eq!(vf.count().unwrap(), 2);
}

#[test]
fn header_is_laid_out_exactly() {
    let (file, header) = VectorFile::open(0x0102, None).unwrap();
    let header = header.unwrap();
    assert_eq!(header.len(), 64);
    assert_eq!(&header[..8], b"LSMVEC01");
    assert_eq!(&header[8..12], &[1, 0, 0, 0]);
    assert_eq!(&header[12..16], &[2, 1, 0, 0]);
    assert_eq!(&header[16..24], &[0; 8]);
    assert_eq!(&header[24..], &[0; 40]);
    assert_eq!(&file.write_header(0x0a0b)[16..24], &[0x0b, 0x0a, 0, 0, 0, 0, 0, 0]);
    assert_eq!(file.dimension(), 0x0102);
}

#[test]
fn headers_are_refused_at_the_first_fault() {
    let sound = VectorFile::open(4, None).unwrap().1.unwrap();
    let refusal = |bytes: &[u8]| VectorFile::open(4, Some(bytes)).err();

    assert_eq!(refusal(&sound), None);
    assert_eq!(refusal(&sound[..16]), None);
    assert_eq!(refusal(&[]), Some(LsmVecError::Io(IoError::UnexpectedEof)));
    assert_eq!(refusal(&sound[..7]), Some(LsmVecError::Io(IoError::UnexpectedEof)));
    assert_eq!(refusal(&sound[..11]), Some(LsmVecError::Io(IoError::UnexpectedEof)));
    assert_eq!(refusal(&sound[..15]), Some(LsmVecError::Io(IoError::UnexpectedEof)));

    let mut other = sound.clone();
    other[7] = b'2';
    assert_eq!(
        refusal(&other[..8]),
        Some(LsmVecError::InvalidFile("Invalid magic number".to_string()))
    );

    let mut other = sound.clone();
    other[8] = 0x39;
    other[9] = 0x30;
    assert_eq!(
        refusal(&other[..12]),
        Some(LsmVecError::InvalidFile("Unsupported version: 12345".to_string()))
    );

    let mut other = sound.clone();
    other[13] = 1;
    assert_eq!(refusal(&other), Some(LsmVecError::InvalidDimension { expected: 4, actual: 260 }));
}

#[test]
fn vectors_of_another_dimension_are_refused() {
    let mut vf = Image::open(None, 2).unwrap();
    let refusal = LsmVecError::InvalidDimension { expected: 2, actual: 3 };
    assert_eq!(vf.append(&[1.0, 2.0, 3.0]), Err(refusal));
    let refusal = LsmVecError::InvalidDimension { expected: 2, actual: 0 };
    assert_eq!(vf.put(u64::MAX, &[]), Err(refusal));
    assert_eq!(vf.count().unwrap(), 0);
    assert_eq!(vf.bytes.len(), 64);
}

#[test]
fn places_follow_the_formula() {
    let (file, _) = VectorFile::open(3, None).unwrap();
    assert_eq!(file.offset(0), 64);
    assert_eq!(file.offset(5), 64 + 5 * 3 * 4);
    assert_eq!(file.locate(0, 75), None);
    assert_eq!(file.locate(0, 76), Some((64, 12)));
    assert_eq!(file.locate(1, 88), Some((76, 12)));
    assert_eq!(file.locate(u64::MAX, u64::MAX), None);
    let write = file.put(1, &scalars(&[1.0, -2.0, 0.5])).unwrap();
    assert_eq!(write.offset, 76);
    assert_eq!(write.bytes, vec![0, 0, 128, 63, 0, 0, 0, 192, 0, 0, 0, 63]);
}

#[test]
fn a_put_beyond_the_end_raises_the_count() {
    let mut vf = Image::open(None, 1).unwrap();
    vf.put(3, &[9.0]).unwrap();
    assert_eq!(vf.count().unwrap(), 4);
    assert_eq!(vf.get(3).unwrap(), Some(vec![9.0]));
    assert_eq!(vf.get(1).unwrap(), Some(vec![0.0]));
    assert_eq!(vf.append(&[7.0]).unwrap(), 4);
}

#[test]
fn vectors_beyond_the_count_are_not_there() {
    let mut vf = Image::open(None, 1).unwrap();
    vf.append(&[1.0]).unwrap();
    vf.bytes.extend_from_slice(&[0; 16]);
    assert_eq!(vf.get(0).unwrap(), Some(vec![1.0]));
    assert_eq!(vf.get(1).unwrap(), None);
}

#[test]
fn a_short_count_is_an_error() {
    let (file, _) = VectorFile::open(1, None).unwrap();
    assert_eq!(file.count(&[1, 2, 3]), Err(LsmVecError::Io(IoError::UnexpectedEof)));
    assert_eq!(file.count(&[1, 2, 0, 0, 0, 0, 0, 0]), Ok(513));
}

#[test]
fn every_bit_pattern_survives() {
    let mut vf = Image::open(None, 4).unwrap();
    let bits = [0x7fc0_0001, 0x8000_0000, 0xff80_0000, 0x0000_0001];
    let vector: Vec<Scalar> = bits.iter().map(|b| Scalar::from_bits(*b)).collect();
    let write = vf.file.put(0, &vector).unwrap();
    let bytes = write.bytes.clone();
    vf.write(write);
    assert_eq!(vf.file.get(0, 1, &bytes), Some(vector));
}

#[test]
fn numbers_are_written_in_decimal() {
    assert_eq!(decimal_text(0), "0");
    assert_eq!(decimal_text(907), "907");
    assert_eq!(decimal_text(u32::MAX), "4294967295");
}
