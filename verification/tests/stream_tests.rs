use endian_io::{Cursor, Error, FixedBuffer, Reader, Repeat, StreamContainer, Sum, Writer};

#[test]
fn should_work_with_vectors() {
    let data: Vec<u8> = vec![0xaa, 0xbb, 0xcc, 0xdd];
    StreamContainer::new(data).default_read_stream::<u32>();
}

#[test]
fn should_work_with_slices() {
    let data: [u8; 4] = [0xaa, 0xbb, 0xcc, 0xdd];
    StreamContainer::new(data.as_slice()).default_read_stream::<u32>();
}

#[test]
fn stream_container_should_grow_a_vector_if_needed() {
    let data: Vec<u8> = vec![];
    let mut stream = StreamContainer::new(data);
    stream.checked_write_stream_bytes(&[0xaa, 0xbb, 0xcc, 0xdd]);
    assert_eq!(stream.into_raw(), [0xaa, 0xbb, 0xcc, 0xdd]);
}

#[test]
fn stream_container_should_grow_a_vector_if_needed_with_le() {
    let data: Vec<u8> = vec![];
    let mut stream = StreamContainer::new(data);
    stream.write_stream_le(&0xaabbccddu32).unwrap();
    assert_eq!(stream.into_raw(), [0xdd, 0xcc, 0xbb, 0xaa]);
}

#[test]
fn stream_container_should_grow_a_vector_if_needed_with_be() {
    let data: Vec<u8> = vec![];
    let mut stream = StreamContainer::new(data);
    stream.checked_write_stream_be(&0xaabbccddu32);
    assert_eq!(stream.into_raw(), [0xaa, 0xbb, 0xcc, 0xdd]);
}

#[test]
fn stream_container_should_not_grow_a_vector_if_not_needed() {
    let data: Vec<u8> = vec![0; 4];
    let mut stream = StreamContainer::new(data);
    stream.checked_write_stream_bytes(&[0xaa, 0xbb, 0xcc, 0xdd]);
    assert_eq!(stream.into_raw(), [0xaa, 0xbb, 0xcc, 0xdd]);
}

#[test]
fn stream_container_should_grow_a_vector_if_needed_and_written_to_twice() {
    let data: Vec<u8> = vec![0; 4];
    let mut stream = StreamContainer::new(data);
    stream.checked_write_stream_bytes(&[0xaa, 0xbb, 0xcc, 0xdd]);
    stream.checked_write_stream_bytes(&[0xaa, 0xbb, 0xcc, 0xdd]);
    assert_eq!(
        stream.into_raw(),
        [0xaa, 0xbb, 0xcc, 0xdd, 0xaa, 0xbb, 0xcc, 0xdd]
    );
}

#[test]
fn should_get_the_current_index() {
    let mut cursor = StreamContainer::new(vec![0u8; 8]);
    cursor.set_index(3);
    assert_eq!(cursor.get_index(), 3)
}

#[test]
fn should_set_the_current_index() {
    let mut cursor = StreamContainer::new(vec![0u8; 8]);
    cursor.set_index(3);
    cursor.set_index(5);
    assert_eq!(cursor.get_index(), 5)
}

#[test]
fn should_swap_incremented_index() {
    let mut cursor = StreamContainer::new(vec![0u8; 8]);
    cursor.set_index(3);
    let previous_index = cursor.swap_incremented_index(5);
    let current_index = cursor.get_index();

    assert_eq!(previous_index, 3);
    assert_eq!(current_index, 8);
}

#[test]
fn should_swap_incremented_index_for_type() {
    let mut cursor = StreamContainer::new(vec![0u8; 8]);
    cursor.set_index(3);
    let previous_index = cursor.swap_incremented_index_for_type::<u32>();
    let current_index = cursor.get_index();

    assert_eq!(previous_index, 3);
    assert_eq!(current_index, 7);
}

#[test]
fn read_stream_should_return_a_value() {
    let mut reader = StreamContainer::new(u64::to_ne_bytes(0x1122334411223344).to_vec());
    let value = reader
        .read_stream::<u32>()
        .expect("Read should have been successful.");

    assert_eq!(value, 0x11223344);
    assert_eq!(reader.get_index(), 4);
}

#[test]
fn read_stream_should_return_error_if_size_is_too_large_for_offset() {
    let mut reader = StreamContainer::new(u64::to_ne_bytes(0x1122334411223344).to_vec());
    reader.set_index(8);
    let error = reader
        .read_stream::<u32>()
        .expect_err("Length should have been too large");

    assert_eq!(
        error,
        Error::InvalidSize {
            wanted_size: 4,
            offset: 8,
            data_len: 8,
        }
    );
}

#[test]
fn read_stream_should_return_error_if_alignment_is_invalid() {
    let mut reader = StreamContainer::new(u64::to_ne_bytes(0x1122334411223344).to_vec());
    reader.set_index(3);
    let error = reader
        .read_stream::<u32>()
        .expect_err("Alignment should have been invalid");

    assert_eq!(
        error,
        Error::InvalidAlignment {
            wanted_size: 4,
            source_size: 4,
            source_offset: 3,
        }
    );
}

#[test]
fn default_read_stream_should_return_default_if_size_is_too_large_for_offset() {
    let mut reader = StreamContainer::new(u64::to_ne_bytes(0x11223344aabbccdd).to_vec());
    reader.set_index(8);
    let value = reader.default_read_stream::<u32>();
    assert_eq!(value, u32::default());
}

#[test]
fn read_stream_le_should_return_a_value() {
    let mut reader =
        StreamContainer::new(vec![0x11, 0x22, 0x33, 0x44, 0xaa, 0xbb, 0xcc, 0xdd]);
    reader.set_index(4);
    let value = reader
        .read_stream_le::<u32>()
        .expect("Read should have been successful.");

    assert_eq!(value, 0xddccbbaa);
}

#[test]
fn read_stream_le_should_return_error_if_size_is_too_large_for_offset() {
    let mut reader =
        StreamContainer::new(vec![0x11, 0x22, 0x33, 0x44, 0xaa, 0xbb, 0xcc, 0xdd]);
    reader.set_index(8);
    let error = reader
        .read_stream_le::<u32>()
        .expect_err("Length should have been too large");

    assert_eq!(
        error,
        Error::InvalidSize {
            wanted_size: 4,
            offset: 8,
            data_len: 8,
        }
    );
}

#[test]
fn should_read_values_with_dynamic_read_lengths() {
    let mut reader =
        StreamContainer::new(vec![0x11, 0x22, 0xaa, 0xbb, 0x88, 0x99, 0x01, 0x02]);
    let value = reader
        .read_stream_le::<Sum>()
        .expect("Read should have been successful.");

    assert_eq!(value, Sum(0x33));
}

#[test]
fn should_read_multple_values_with_dynamic_read_lengths() {
    let mut reader =
        StreamContainer::new(vec![0x11, 0x22, 0xaa, 0xbb, 0x88, 0x99, 0x01, 0x02]);

    let value = reader
        .read_stream_le::<Sum>()
        .expect("Read should have been successful.");
    assert_eq!(value, Sum(0x33));

    let value = reader
        .read_stream_le::<Sum>()
        .expect("Read should have been successful.");
    assert_eq!(value, Sum(0x65));
}

#[test]
fn default_read_stream_le_should_return_a_value() {
    let mut reader =
        StreamContainer::new(vec![0x11, 0x22, 0x33, 0x44, 0xaa, 0xbb, 0xcc, 0xdd]);
    reader.set_index(4);
    let value = reader.default_read_stream_le::<u32>();
    assert_eq!(value, 0xddccbbaa);
}

#[test]
fn default_read_stream_le_should_return_default_if_size_is_too_large_for_offset() {
    let mut reader =
        StreamContainer::new(vec![0x11, 0x22, 0x33, 0x44, 0xaa, 0xbb, 0xcc, 0xdd]);
    reader.set_index(6);
    let value = reader.default_read_stream_le::<u32>();
    assert_eq!(value, u32::default());
}

#[test]
fn read_byte_stream_should_return_a_value() {
    let mut reader =
        StreamContainer::new(vec![0x11, 0x22, 0x33, 0x44, 0xaa, 0xbb, 0xcc, 0xdd]);
    reader.set_index(4);
    let value = reader
        .read_byte_stream(3)
        .expect("Read should have been successful.");

    assert_eq!(value, vec![0xaa, 0xbb, 0xcc]);
}

#[test]
fn read_byte_stream_should_return_error_if_size_is_too_large_for_offset() {
    let mut reader =
        StreamContainer::new(vec![0x11, 0x22, 0x33, 0x44, 0xaa, 0xbb, 0xcc, 0xdd]);
    reader.set_index(6);
    let error = reader
        .read_byte_stream(4)
        .expect_err("Length should have been too large");

    assert_eq!(
        error,
        Error::InvalidSize {
            wanted_size: 4,
            offset: 6,
            data_len: 8,
        }
    );
}

#[test]
fn default_read_byte_stream_should_return_zeroes_if_size_is_too_large_for_offset() {
    let mut reader =
        StreamContainer::new(vec![0x11, 0x22, 0x33, 0x44, 0xaa, 0xbb, 0xcc, 0xdd]);
    reader.set_index(6);
    let value = reader.default_read_byte_stream(4);
    assert_eq!(value, vec![0, 0, 0, 0]);
}

#[test]
fn write_stream_bytes_should_write_bytes() {
    let mut writer = StreamContainer::new(FixedBuffer::new(vec![1, 2, 3, 4, 5, 6, 7, 8]));
    let bytes = [0xaa, 0xbb, 0xcc, 0xdd];
    writer.set_index(2);
    let written_length = writer
        .write_stream_bytes(&bytes)
        .expect("Write should have succeeded");

    assert_eq!(written_length, 4);
    assert_eq!(
        writer.into_raw().into_vec(),
        vec![1, 2, 0xaa, 0xbb, 0xcc, 0xdd, 7, 8]
    );
}

#[test]
fn write_stream_bytes_should_return_error_if_size_is_too_large_for_offset() {
    let mut writer = StreamContainer::new(FixedBuffer::new(vec![1, 2, 3, 4, 5, 6, 7, 8]));
    let bytes = [0xaa, 0xbb, 0xcc, 0xdd];
    writer.set_index(6);
    let error = writer
        .write_stream_bytes(&bytes)
        .expect_err("Length should have been too large");

    assert_eq!(
        error,
        Error::InvalidSize {
            wanted_size: 4,
            offset: 6,
            data_len: 8,
        }
    );
}

#[test]
fn checked_write_stream_bytes_should_return_0_if_size_is_too_large_for_offset() {
    let initial_bytes = vec![1, 2, 3, 4, 5, 6, 7, 8];
    let mut writer = StreamContainer::new(FixedBuffer::new(initial_bytes.clone()));
    let bytes_to_write = [0xaa, 0xbb, 0xcc, 0xdd];
    writer.set_index(6);
    let written_length = writer.checked_write_stream_bytes(&bytes_to_write);

    assert_eq!(written_length, 0);
    assert_eq!(writer.into_raw().into_vec(), initial_bytes);
}

#[test]
fn write_stream_le_should_write_value() {
    let mut writer = StreamContainer::new(FixedBuffer::new(vec![1, 2, 3, 4, 5, 6, 7, 8]));
    let value = 0xaabbccddu32;
    writer.set_index(2);
    let written_length = writer
        .write_stream_le(&value)
        .expect("Write should have succeeded");

    assert_eq!(written_length, 4);
    assert_eq!(writer.read_le::<u32>(2).unwrap(), 0xaabbccdd);
}

#[test]
fn write_stream_le_should_return_error_if_size_is_too_large_for_offset() {
    let mut writer = StreamContainer::new(FixedBuffer::new(vec![1, 2, 3, 4, 5, 6, 7, 8]));
    let value = 0xaabbccddu32;
    writer.set_index(6);
    let error = writer
        .write_stream_le(&value)
        .expect_err("Length should have been too large");

    assert_eq!(
        error,
        Error::InvalidSize {
            wanted_size: 4,
            offset: 6,
            data_len: 8,
        }
    );
}

#[test]
fn writer_should_write_values_with_dynamic_read_lengths() {
    let mut writer = StreamContainer::new(FixedBuffer::new(vec![
        0x11, 0x22, 0xaa, 0xbb, 0x88, 0x99, 0x01, 0x02,
    ]));
    let written_bytes = writer
        .write_stream_le(&Repeat(0x50))
        .expect("Should have been written successfully");
    assert_eq!(written_bytes, 3);

    let result = writer.into_raw().into_vec();
    let expected = vec![0x50, 0x50, 0x50, 0xbb, 0x88, 0x99, 0x01, 0x02];
    assert_eq!(result, expected);
}

#[test]
fn write_array_stream_le_should_write_value() {
    let mut writer = StreamContainer::new(FixedBuffer::new(vec![1, 2, 3, 4, 5, 6, 7, 8]));
    let value = [0x1122u16, 0x3344];
    writer.set_index(2);
    let written_length = writer
        .write_array_stream_le(&value)
        .expect("Write should have succeeded");

    assert_eq!(written_length, 4);
    assert_eq!(writer.read_le::<u16>(2).unwrap(), 0x1122);
    assert_eq!(writer.read_le::<u16>(4).unwrap(), 0x3344);
}

#[test]
fn write_array_stream_le_should_return_error_if_size_is_too_large_for_offset() {
    let mut writer = StreamContainer::new(FixedBuffer::new(vec![1, 2, 3, 4, 5, 6, 7, 8]));
    let value = [0x1122u16, 0x3344];
    writer.set_index(6);
    let error = writer
        .write_array_stream_le(&value)
        .expect_err("Length should have been too large");

    assert_eq!(
        error,
        Error::InvalidSize {
            wanted_size: 2,
            offset: 8,
            data_len: 8,
        }
    );
}

#[test]
fn checked_write_array_stream_le_should_return_0_if_size_is_too_large_for_offset() {
    let initial_bytes = vec![1, 2, 3, 4, 5, 6, 7, 8];
    let mut writer = StreamContainer::new(FixedBuffer::new(initial_bytes.clone()));
    let value = [0x1122u16, 0x3344];
    writer.set_index(6);
    let written_length = writer.checked_write_array_stream_le(&value);

    assert_eq!(written_length, 0);
    assert_eq!(writer.get_index(), 6);
    assert_eq!(writer.into_raw().into_vec(), initial_bytes);
}

#[test]
fn write_stream_should_write_value() {
    let mut writer = StreamContainer::new(FixedBuffer::new(vec![1, 2, 3, 4, 5, 6, 7, 8]));
    let value = 0xaabbccddu32;
    writer.set_index(4);
    let written_length = writer
        .write_stream(&value)
        .expect("Write should have succeeded");

    assert_eq!(written_length, 4);
    assert_eq!(writer.read::<u32>(4).unwrap(), 0xaabbccdd);
}

#[test]
fn checked_write_stream_should_return_0_if_size_is_too_large_for_offset() {
    let bytes = vec![1, 2, 3, 4, 5, 6, 7, 8];
    let mut writer = StreamContainer::new(FixedBuffer::new(bytes.clone()));
    let value = 0xaabbccddu32;
    writer.set_index(6);
    let written_length = writer.checked_write_stream(&value);

    assert_eq!(written_length, 0);
    assert_eq!(writer.into_raw().into_vec(), bytes);
}
