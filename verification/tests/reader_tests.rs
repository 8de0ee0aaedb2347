use endian_io::{Error, FixedBuffer, Reader};

#[test]
fn should_return_a_slice_of_a_given_size() {
    let reader: Vec<u8> = vec![1, 2, 3, 4, 5, 6, 7, 8];
    let slice = reader
        .get_slice_of_size(4, 4)
        .expect("Read should have been successful.");

    let result = [5, 6, 7, 8];
    assert_eq!(slice, result);
}

#[test]
fn reader_should_return_error_if_size_is_too_large_for_offset() {
    let reader: Vec<u8> = vec![1, 2, 3, 4, 5, 6, 7, 8];
    let error = reader
        .get_slice_of_size(6, 4)
        .expect_err("Length should have been too large");

    assert_eq!(
        error,
        Error::InvalidSize {
            wanted_size: 4,
            offset: 6,
            data_len: 8,
        }
    );
}

#[test]
fn should_return_sized_slice() {
    let reader: Vec<u8> = vec![1, 2, 3, 4, 5, 6, 7, 8];
    let slice = reader
        .get_sized_slice::<u32>(4)
        .expect("Read should have been successful.");

    let result = [5, 6, 7, 8];
    assert_eq!(slice, result);
}

#[test]
fn should_return_a_reference() {
    let reader: Vec<u8> = u64::to_ne_bytes(0x11223344aabbccdd).to_vec();
    let slice = reader
        .get_sized_slice::<u32>(4)
        .expect("Read should have been successful.");

    let result = u32::to_ne_bytes(0x11223344);
    assert_eq!(slice, &result);
}

#[test]
fn reader_should_return_a_value() {
    let reader: Vec<u8> = u64::to_ne_bytes(0x1122334411223344).to_vec();
    let value = reader
        .read::<u32>(4)
        .expect("Read should have been successful.");

    assert_eq!(value, 0x11223344);
}

#[test]
fn should_return_error_if_size_is_too_large_for_offset() {
    let reader: Vec<u8> = u64::to_ne_bytes(0x1122334411223344).to_vec();
    let error = reader
        .read::<u32>(6)
        .expect_err("Length should have been too large");

    assert_eq!(
        error,
        Error::InvalidSize {
            wanted_size: 4,
            offset: 6,
            data_len: 8,
        }
    );
}

#[test]
fn reader_should_return_error_if_alignment_is_invalid() {
    let reader: Vec<u8> = u64::to_ne_bytes(0x1122334411223344).to_vec();
    let error = reader
        .read::<u32>(3)
        .expect_err("Alignment should have been invalid");

    assert_eq!(
        error,
        Error::InvalidAlignment {
            wanted_size: 4,
            source_size: 4,
            source_offset: 3,
        }
    );
}

#[test]
fn reader_should_return_default_if_size_is_too_large_for_offset() {
    let reader: Vec<u8> = u64::to_ne_bytes(0x11223344aabbccdd).to_vec();
    let value = reader.default_read::<u32>(6);
    assert_eq!(value, u32::default());
}

#[test]
fn reader_should_return_default_if_alignment_is_invalid() {
    let reader: Vec<u8> = u64::to_ne_bytes(0x11223344aabbccdd).to_vec();
    let value = reader.default_read::<u32>(3);
    assert_eq!(value, u32::default());
}

#[test]
fn default_read_should_return_a_value() {
    let reader: Vec<u8> = u64::to_ne_bytes(0x11223344aabbccdd).to_vec();
    let value = reader.default_read::<u32>(4);
    assert_eq!(value, 0x11223344);
}

#[test]
fn should_return_a_value() {
    let reader: Vec<u8> = vec![0x11, 0x22, 0x33, 0x44, 0xaa, 0xbb, 0xcc, 0xdd];
    let value = reader
        .read_le::<u32>(4)
        .expect("Read should have been successful.");

    assert_eq!(value, 0xddccbbaa);
}

#[test]
fn read_le_should_return_error_if_size_is_too_large_for_offset() {
    let reader: Vec<u8> = vec![0x11, 0x22, 0x33, 0x44, 0xaa, 0xbb, 0xcc, 0xdd];
    let error = reader
        .read_le::<u32>(6)
        .expect_err("Length should have been too large");

    assert_eq!(
        error,
        Error::InvalidSize {
            wanted_size: 4,
            offset: 6,
            data_len: 8,
        }
    );
}

#[test]
fn default_read_le_should_return_a_value() {
    let reader: Vec<u8> = vec![0x11, 0x22, 0x33, 0x44, 0xaa, 0xbb, 0xcc, 0xdd];
    let value = reader.default_read_le::<u32>(4);
    assert_eq!(value, 0xddccbbaa);
}

#[test]
fn should_return_default_if_size_is_too_large_for_offset() {
    let reader: Vec<u8> = vec![0x11, 0x22, 0x33, 0x44, 0xaa, 0xbb, 0xcc, 0xdd];
    let value = reader.default_read_le::<u32>(6);
    assert_eq!(value, u32::default());
}

#[test]
fn read_be_should_return_a_value() {
    let reader: Vec<u8> = vec![0x11, 0x22, 0x33, 0x44, 0xaa, 0xbb, 0xcc, 0xdd];
    let value = reader
        .read_be::<u32>(4)
        .expect("Read should have been successful.");

    assert_eq!(value, 0xaabbccdd);
}

#[test]
fn read_be_should_return_error_if_size_is_too_large_for_offset() {
    let reader: Vec<u8> = vec![0x11, 0x22, 0x33, 0x44, 0xaa, 0xbb, 0xcc, 0xdd];
    let error = reader
        .read_be::<u32>(6)
        .expect_err("Length should have been too large");

    assert_eq!(
        error,
        Error::InvalidSize {
            wanted_size: 4,
            offset: 6,
            data_len: 8,
        }
    );
}

#[test]
fn default_read_be_should_return_a_value() {
    let reader: Vec<u8> = vec![0x11, 0x22, 0x33, 0x44, 0xaa, 0xbb, 0xcc, 0xdd];
    let value = reader.default_read_be::<u32>(4);
    assert_eq!(value, 0xaabbccdd);
}

#[test]
fn default_read_be_should_return_default_if_size_is_too_large_for_offset() {
    let reader: Vec<u8> = vec![0x11, 0x22, 0x33, 0x44, 0xaa, 0xbb, 0xcc, 0xdd];
    let value = reader.default_read_be::<u32>(6);
    assert_eq!(value, u32::default());
}

#[test]
fn read_byte_vec_should_return_a_value() {
    let reader: Vec<u8> = vec![0x11, 0x22, 0x33, 0x44, 0xaa, 0xbb, 0xcc, 0xdd];
    let value = reader
        .read_byte_vec(4, 3)
        .expect("Read should have been successful.");

    assert_eq!(value, vec![0xaa, 0xbb, 0xcc]);
}

#[test]
fn read_byte_vec_should_return_error_if_size_is_too_large_for_offset() {
    let reader: Vec<u8> = vec![0x11, 0x22, 0x33, 0x44, 0xaa, 0xbb, 0xcc, 0xdd];
    let error = reader
        .read_byte_vec(6, 4)
        .expect_err("Length should have been too large");

    assert_eq!(
        error,
        Error::InvalidSize {
            wanted_size: 4,
            offset: 6,
            data_len: 8,
        }
    );
}

#[test]
fn default_read_byte_vec_should_return_a_value() {
    let reader: Vec<u8> = vec![0x11, 0x22, 0x33, 0x44, 0xaa, 0xbb, 0xcc, 0xdd];
    let value = reader.default_read_byte_vec(4, 3);
    assert_eq!(value, vec![0xaa, 0xbb, 0xcc]);
}

#[test]
fn default_read_byte_vec_should_return_zeroes_if_size_is_too_large_for_offset() {
    let reader: Vec<u8> = vec![0x11, 0x22, 0x33, 0x44, 0xaa, 0xbb, 0xcc, 0xdd];
    let value = reader.default_read_byte_vec(6, 4);
    assert_eq!(value, vec![0, 0, 0, 0]);
}

#[test]
fn fixed_buffer_reads_like_its_bytes() {
    let reader = FixedBuffer::new(vec![1, 2, 3, 4, 5, 6, 7, 8]);
    let slice = reader
        .get_slice_of_size(2, 4)
        .expect("Read should have been successful.");
    assert_eq!(slice, [3, 4, 5, 6]);
}

#[test]
fn reading_past_the_end_leaves_the_buffer_unmodified() {
    let reader: Vec<u8> = vec![1, 2, 3, 4, 5, 6, 7, 8];
    let error = reader
        .read_le::<u32>(6)
        .expect_err("Length should have been too large");
    assert_eq!(
        error,
        Error::InvalidSize {
            wanted_size: 4,
            offset: 6,
            data_len: 8,
        }
    );
    assert_eq!(reader, vec![1, 2, 3, 4, 5, 6, 7, 8]);
}
