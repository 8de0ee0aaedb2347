use endian_io::{CustomFail, Error, FixedBuffer, OffsetFail, Reader, Writer};

#[test]
fn writer_should_return_mut_slice() {
    let writer = FixedBuffer::new(vec![1, 2, 3, 4, 5, 6, 7, 8]);
    let slice = writer
        .get_slice_of_size(2, 4)
        .expect("Should have succeeded");

    let expected_result = [3, 4, 5, 6];
    assert_eq!(slice, expected_result);
}

#[test]
fn writer_should_return_error_if_size_is_too_large_for_offset() {
    let mut writer = FixedBuffer::new(vec![1, 2, 3, 4, 5, 6, 7, 8]);
    let bytes = [0u8; 100];
    let error = writer
        .write_bytes(2, &bytes)
        .expect_err("Length should have been too large");

    assert_eq!(
        error,
        Error::InvalidSize {
            wanted_size: 100,
            offset: 2,
            data_len: 8,
        }
    );
}

#[test]
fn writer_should_grow_a_vector_if_needed() {
    let mut writer: Vec<u8> = vec![];
    let bytes = [0xaa, 0xbb, 0xcc, 0xdd];
    let written_length = writer
        .write_bytes(2, &bytes)
        .expect("Write should have succeeded");

    assert_eq!(written_length, 4);
    assert_eq!(writer, vec![0, 0, 0xaa, 0xbb, 0xcc, 0xdd]);
    assert_eq!(writer.len(), 6);
}

#[test]
fn writer_should_not_grow_a_vector_if_not_needed() {
    let mut writer: Vec<u8> = vec![0; 4];
    let bytes = [0xaa, 0xbb, 0xcc, 0xdd];
    let written_length = writer
        .write_bytes(0, &bytes)
        .expect("Write should have succeeded");

    assert_eq!(written_length, 4);
    assert_eq!(writer, vec![0xaa, 0xbb, 0xcc, 0xdd]);
    assert_eq!(writer.len(), 4);
}

#[test]
fn should_not_not_error_if_vector_size_is_larger_than_write_size() {
    let mut writer: Vec<u8> = vec![0; 10];
    let bytes = [0, 0, 0, 0];
    let written_length = writer
        .write_bytes(2, &bytes)
        .expect("Should have succeeded");

    assert_eq!(written_length, 4);
    assert_eq!(writer.len(), 10);
}

#[test]
fn writer_should_grow_a_vector_if_needed_and_written_to_twice() {
    let mut writer: Vec<u8> = vec![];
    let bytes = [0xaa, 0xbb, 0xcc, 0xdd];
    let written_length = writer
        .write_bytes(0, &bytes)
        .expect("Write should have succeeded");
    assert_eq!(written_length, 4);

    let written_length = writer
        .write_bytes(4, &bytes)
        .expect("Write should have succeeded");
    assert_eq!(written_length, 4);

    assert_eq!(writer, vec![0xaa, 0xbb, 0xcc, 0xdd, 0xaa, 0xbb, 0xcc, 0xdd]);
    assert_eq!(writer.len(), 8);
}

#[test]
fn writer_should_grow_a_vector_if_needed_with_le() {
    let mut writer: Vec<u8> = vec![];
    let written_length = writer
        .write_le(0, &0xaabbccddu32)
        .expect("Write should have succeeded");

    assert_eq!(written_length, 4);
    assert_eq!(writer, vec![0xdd, 0xcc, 0xbb, 0xaa]);
    assert_eq!(writer.len(), 4);
}

#[test]
fn writer_should_grow_a_vector_if_needed_with_be() {
    let mut writer: Vec<u8> = vec![];
    let written_length = writer
        .write_be(0, &0xaabbccddu32)
        .expect("Write should have succeeded");

    assert_eq!(written_length, 4);
    assert_eq!(writer, vec![0xaa, 0xbb, 0xcc, 0xdd]);
    assert_eq!(writer.len(), 4);
}

#[test]
fn writer_should_write_bytes() {
    let mut writer = FixedBuffer::new(vec![1, 2, 3, 4, 5, 6, 7, 8]);
    let bytes = [0xaa, 0xbb, 0xcc, 0xdd];
    let written_length = writer
        .write_bytes(2, &bytes)
        .expect("Write should have succeeded");

    assert_eq!(written_length, 4);
    assert_eq!(writer.into_vec(), vec![1, 2, 0xaa, 0xbb, 0xcc, 0xdd, 7, 8]);
}

#[test]
fn writer_should_return_0_if_size_is_too_large_for_offset() {
    let initial_bytes = vec![1, 2, 3, 4, 5, 6, 7, 8];
    let mut writer = FixedBuffer::new(initial_bytes.clone());
    let bytes_to_write = [0xaa, 0xbb, 0xcc, 0xdd];
    let written_length = writer.checked_write_bytes(6, &bytes_to_write);

    assert_eq!(written_length, 0);
    assert_eq!(writer.into_vec(), initial_bytes);
}

#[test]
fn writer_should_write_value() {
    let mut writer = FixedBuffer::new(vec![1, 2, 3, 4, 5, 6, 7, 8]);
    let value = 0xaabbccddu32;
    let written_length = writer
        .write_le(2, &value)
        .expect("Write should have succeeded");

    assert_eq!(written_length, 4);

    let result = writer
        .read_le::<u32>(2)
        .expect("Read should have succeeded");
    assert_eq!(result, 0xaabbccddu32);
}

#[test]
fn should_write_value() {
    let mut writer = FixedBuffer::new(vec![1, 2, 3, 4, 5, 6, 7, 8]);
    let value = 0xaabbccddu32;
    let written_length = writer
        .write_be(2, &value)
        .expect("Write should have succeeded");

    assert_eq!(written_length, 4);

    let result = writer
        .read_be::<u32>(2)
        .expect("Read should have succeeded");
    assert_eq!(result, 0xaabbccddu32);
}

#[test]
fn write_trivial_should_write_value() {
    let mut writer = FixedBuffer::new(vec![1, 2, 3, 4, 5, 6, 7, 8]);
    let value = 0xaabbccddu32;
    let written_length = writer
        .write(4, &value)
        .expect("Write should have succeeded");

    assert_eq!(written_length, 4);

    let result = writer.read::<u32>(4).expect("Read should have succeeded");
    assert_eq!(result, 0xaabbccddu32);
}

#[test]
fn write_trivial_should_return_error_if_size_is_too_large_for_offset() {
    let mut writer = FixedBuffer::new(vec![1, 2, 3, 4, 5, 6, 7, 8]);
    let value = 0xaabbccddu32;
    let error = writer
        .write(6, &value)
        .expect_err("Length should have been too large");

    assert_eq!(
        error,
        Error::InvalidSize {
            wanted_size: 4,
            offset: 6,
            data_len: 8,
        }
    );
}

#[test]
fn checked_write_should_return_0_if_size_is_too_large_for_offset() {
    let bytes = vec![1, 2, 3, 4, 5, 6, 7, 8];
    let mut writer = FixedBuffer::new(bytes.clone());
    let value = 0xaabbccddu32;
    let written_length = writer.checked_write(6, &value);

    assert_eq!(written_length, 0);
    assert_eq!(writer.into_vec(), bytes);
}

#[test]
fn write_le_should_return_error_if_size_is_too_large_for_offset() {
    let mut writer = FixedBuffer::new(vec![1, 2, 3, 4, 5, 6, 7, 8]);
    let value = 0xaabbccddu32;
    let error = writer
        .write_le(6, &value)
        .expect_err("Length should have been too large");

    assert_eq!(
        error,
        Error::InvalidSize {
            wanted_size: 4,
            offset: 6,
            data_len: 8,
        }
    );
}

#[test]
fn should_grow_a_vector_if_needed() {
    let mut writer: Vec<u8> = vec![];
    let value = 0xaabbccddu32;
    let written_length = writer
        .write_le(2, &value)
        .expect("Write should have succeeded");

    assert_eq!(written_length, 4);
    assert_eq!(writer, vec![0, 0, 0xdd, 0xcc, 0xbb, 0xaa]);
    assert_eq!(writer.len(), 6);
}

#[test]
fn writer_should_bubble_up_custom_errors_for_vec() {
    let value = CustomFail(0);
    let mut bytes: Vec<u8> = vec![];
    let result = bytes.write_le(0, &value).unwrap_err();
    let expected = Error::InvalidRead {
        message: "Custom error!",
    };
    assert_eq!(result, expected)
}

#[test]
fn writer_should_bubble_up_custom_errors_for_slice() {
    let value = CustomFail(0);
    let mut bytes = FixedBuffer::new(vec![]);
    let result = bytes.write_le(0, &value).unwrap_err();
    let expected = Error::InvalidRead {
        message: "Custom error!",
    };
    assert_eq!(result, expected)
}

#[test]
fn writer_should_bubble_up_error_offsets_for_vec() {
    let value = OffsetFail(0);
    let mut bytes: Vec<u8> = vec![];
    let result = bytes.write_le(2, &value).unwrap_err();
    let expected = Error::InvalidSize {
        wanted_size: 8,
        offset: 3,
        data_len: 2,
    };
    assert_eq!(result, expected)
}

#[test]
fn writer_should_bubble_up_error_offsets_for_slice() {
    let value = OffsetFail(0);
    let mut bytes = FixedBuffer::new(vec![]);
    let result = bytes.write_le(2, &value).unwrap_err();
    let expected = Error::InvalidSize {
        wanted_size: 8,
        offset: 3,
        data_len: 0,
    };
    assert_eq!(result, expected)
}

#[test]
fn should_bubble_up_custom_errors_for_vec() {
    let value = CustomFail(0);
    let mut bytes: Vec<u8> = vec![];
    let result = bytes.write_be(0, &value).unwrap_err();
    let expected = Error::InvalidRead {
        message: "Custom error!",
    };
    assert_eq!(result, expected)
}

#[test]
fn should_bubble_up_error_offsets_for_vec() {
    let value = OffsetFail(0);
    let mut bytes: Vec<u8> = vec![];
    let result = bytes.write_be(2, &value).unwrap_err();
    let expected = Error::InvalidSize {
        wanted_size: 8,
        offset: 3,
        data_len: 2,
    };
    assert_eq!(result, expected)
}

#[test]
fn write_array_le_should_write_value() {
    let mut writer = FixedBuffer::new(vec![1, 2, 3, 4, 5, 6, 7, 8]);
    let value = [0x1122u16, 0x3344, 0x5566];
    let written_length = writer
        .write_array_le(2, &value)
        .expect("Write should have succeeded");

    assert_eq!(written_length, 6);
    assert_eq!(writer.read_le::<u16>(2).unwrap(), 0x1122);
    assert_eq!(writer.read_le::<u16>(4).unwrap(), 0x3344);
    assert_eq!(writer.read_le::<u16>(6).unwrap(), 0x5566);
}

#[test]
fn write_array_le_should_return_error_if_size_is_too_large_for_offset() {
    let mut writer = FixedBuffer::new(vec![1, 2, 3, 4, 5, 6, 7, 8]);
    let value = [0x1122u16, 0x3344, 0x5566];
    let error = writer
        .write_array_le(6, &value)
        .expect_err("Length should have been too large");

    assert_eq!(
        error,
        Error::InvalidSize {
            wanted_size: 2,
            offset: 8,
            data_len: 8,
        }
    );
}

#[test]
fn write_array_le_should_grow_a_vector_if_needed() {
    let mut writer: Vec<u8> = vec![];
    let value = [0x1122u16, 0x3344, 0x5566];
    let written_length = writer
        .write_array_le(2, &value)
        .expect("Write should have succeeded");

    assert_eq!(written_length, 6);
    assert_eq!(writer, vec![0, 0, 0x22, 0x11, 0x44, 0x33, 0x66, 0x55]);
    assert_eq!(writer.len(), 8);
}

#[test]
fn write_array_be_should_write_value() {
    let mut writer = FixedBuffer::new(vec![1, 2, 3, 4, 5, 6, 7, 8]);
    let value = [0x1122u16, 0x3344, 0x5566];
    let written_length = writer
        .write_array_be(2, &value)
        .expect("Write should have succeeded");

    assert_eq!(written_length, 6);
    assert_eq!(writer.read_be::<u16>(2).unwrap(), 0x1122);
    assert_eq!(writer.read_be::<u16>(4).unwrap(), 0x3344);
    assert_eq!(writer.read_be::<u16>(6).unwrap(), 0x5566);
}

#[test]
fn checked_write_array_le_should_return_0_if_size_is_too_large_for_offset() {
    let bytes = vec![1, 2, 3, 4, 5, 6, 7, 8];
    let mut writer = FixedBuffer::new(bytes.clone());
    let value = [0x1122u16, 0x3344, 0x5566];
    let written_length = writer.checked_write_array_le(6, &value);

    assert_eq!(written_length, 0);
    assert_eq!(writer.into_vec(), bytes);
}

#[test]
fn checked_write_le_should_return_0_if_size_is_too_large_for_offset() {
    let bytes = vec![1, 2, 3, 4, 5, 6, 7, 8];
    let mut writer = FixedBuffer::new(bytes.clone());
    let value = 0xaabbccddu32;
    let written_length = writer.checked_write_le(6, &value);

    assert_eq!(written_length, 0);
    assert_eq!(writer.into_vec(), bytes);
}

#[test]
fn checked_write_be_should_write_value() {
    let mut writer = FixedBuffer::new(vec![1, 2, 3, 4, 5, 6, 7, 8]);
    let value = 0xaabbccddu32;
    let written_length = writer.checked_write_be(2, &value);

    assert_eq!(written_length, 4);
    assert_eq!(writer.read_be::<u32>(2).unwrap(), 0xaabbccdd);
}

#[test]
fn should_return_mut_slice() {
    let writer = FixedBuffer::new(vec![1, 2, 3, 4, 5, 6, 7, 8]);
    let slice = writer
        .get_sized_slice::<u32>(2)
        .expect("Should have succeeded");

    let expected_result = [3, 4, 5, 6];
    assert_eq!(slice, expected_result);
}

#[test]
fn should_not_grow_a_vector_if_not_needed() {
    let mut writer: Vec<u8> = vec![0; 4];
    let value = 0xaabbccddu32;
    let written_length = writer
        .write_le(0, &value)
        .expect("Write should have succeeded");

    assert_eq!(written_length, 4);
    assert_eq!(writer.read_le::<u32>(0).unwrap(), 0xaabbccdd);
    assert_eq!(writer.len(), 4);
}

#[test]
fn should_bubble_up_custom_errors_for_slice() {
    let value = CustomFail(0);
    let mut bytes = FixedBuffer::new(vec![]);
    let result = bytes.write_be(0, &value).unwrap_err();
    let expected = Error::InvalidRead {
        message: "Custom error!",
    };
    assert_eq!(result, expected)
}

#[test]
fn should_bubble_up_error_offsets_for_slice() {
    let value = OffsetFail(0);
    let mut bytes = FixedBuffer::new(vec![]);
    let result = bytes.write_be(2, &value).unwrap_err();
    let expected = Error::InvalidSize {
        wanted_size: 8,
        offset: 3,
        data_len: 0,
    };
    assert_eq!(result, expected)
}
