use endian_io::{
    Composite, EndianRead, EndianWrite, Error, FixedBuffer, ListContainer, NestedContainer,
    PaddedRecord, Reader, Record, Writer,
};

#[test]
fn endian_write_should_write_le() {
    let value = Record {
        first: 0xaa,
        second: 0xeeddccbb,
        array: [0x1122, 0x3344],
    };
    let mut bytes: Vec<u8> = vec![0; 9];
    let result = bytes.write_le(0, &value).expect("Write should have worked");

    assert_eq!(result, 9);
    assert_eq!(
        bytes,
        [0xaa, 0xbb, 0xcc, 0xdd, 0xee, 0x22, 0x11, 0x44, 0x33]
    );
}

#[test]
fn endian_write_should_write_be() {
    let value = Record {
        first: 0xaa,
        second: 0xbbccddee,
        array: [0x1122, 0x3344],
    };
    let mut bytes: Vec<u8> = vec![0; 9];
    let result = bytes.write_be(0, &value).expect("Write should have worked");

    assert_eq!(result, 9);
    assert_eq!(
        bytes,
        [0xaa, 0xbb, 0xcc, 0xdd, 0xee, 0x11, 0x22, 0x33, 0x44]
    );
}

#[test]
fn endian_write_should_error_if_there_are_not_enough_bytes() {
    let value = Record {
        first: 0xaa,
        second: 0xeeddccbb,
        array: [0x1122, 0x3344],
    };
    let mut bytes = FixedBuffer::new(vec![0; 4]);
    let result = bytes
        .write_le(0, &value)
        .expect_err("This should have failed");

    assert_eq!(
        result,
        Error::InvalidSize {
            wanted_size: 4,
            offset: 1,
            data_len: 4
        }
    );
}

#[test]
fn endian_read_should_error_if_there_are_not_enough_bytes() {
    let bytes = vec![0xaa, 0xbb, 0xcc, 0xdd];
    let result = bytes
        .read_le::<Record>(0)
        .expect_err("This should have failed");
    assert_eq!(
        result,
        Error::InvalidSize {
            wanted_size: 4,
            offset: 1,
            data_len: 4
        }
    );
}

#[test]
fn endian_write_should_write_dynamic_size_le() {
    let value = ListContainer::<u32>(vec![0x44332211, 0xddccbbaa]);
    let mut bytes: Vec<u8> = vec![];
    let result = bytes.write_le(0, &value).expect("Write should have worked");

    assert_eq!(result, 9);
    assert_eq!(
        bytes,
        [0x02, 0x11, 0x22, 0x33, 0x44, 0xaa, 0xbb, 0xcc, 0xdd]
    );
}

#[test]
fn endian_write_should_write_dynamic_size_be() {
    let value = ListContainer::<u32>(vec![0x11223344, 0xaabbccdd]);
    let mut bytes: Vec<u8> = vec![];
    let result = bytes.write_be(0, &value).expect("Write should have worked");

    assert_eq!(result, 9);
    assert_eq!(
        bytes,
        [0x02, 0x11, 0x22, 0x33, 0x44, 0xaa, 0xbb, 0xcc, 0xdd]
    );
}

#[test]
fn endian_read_should_read_dynamic_size_le() {
    let bytes = vec![0x02, 0x11, 0x22, 0x33, 0x44, 0xaa, 0xbb, 0xcc, 0xdd];
    let result: ListContainer<u32> = bytes.read_le(0).expect("Read should have worked");
    let expected = ListContainer(vec![0x44332211, 0xddccbbaa]);

    assert_eq!(result, expected);
}

#[test]
fn endian_read_should_read_dynamic_size_be() {
    let bytes = vec![0x02, 0x11, 0x22, 0x33, 0x44, 0xaa, 0xbb, 0xcc, 0xdd];
    let result: ListContainer<u32> = bytes.read_be(0).expect("Read should have worked");
    let expected = ListContainer(vec![0x11223344, 0xaabbccdd]);

    assert_eq!(result, expected);
}

#[test]
fn list_decode_reports_its_consumed_byte_count() {
    let bytes = vec![0x02, 0x11, 0x22, 0x33, 0x44, 0xaa, 0xbb, 0xcc, 0xdd];
    let output = <ListContainer<u32>>::try_read_le(&bytes).expect("Read should have worked");
    assert_eq!(output.get_read_bytes(), 9);
    assert_eq!(output.into_data(), ListContainer(vec![0x44332211, 0xddccbbaa]));
}

#[test]
fn endian_write_should_write_nested_le() {
    let value = Composite {
        record: Record {
            first: 0x00,
            second: 0x44332211,
            array: [0x1122, 0x3344],
        },
        list: ListContainer(vec![0xddccbbaa, 0x88776655]),
    };
    let mut bytes: Vec<u8> = vec![];
    let result = bytes.write_le(0, &value).expect("Write should have worked");

    assert_eq!(result, 18);
    assert_eq!(
        bytes,
        [
            0x00, 0x11, 0x22, 0x33, 0x44, 0x22, 0x11, 0x44, 0x33, 0x02, 0xaa, 0xbb, 0xcc, 0xdd,
            0x55, 0x66, 0x77, 0x88,
        ]
    )
}

#[test]
fn endian_write_should_write_nested_be() {
    let value = Composite {
        record: Record {
            first: 0x00,
            second: 0x11223344,
            array: [0x1122, 0x3344],
        },
        list: ListContainer(vec![0xaabbccdd, 0x55667788]),
    };
    let mut bytes: Vec<u8> = vec![];
    let result = bytes.write_be(0, &value).expect("Write should have worked");

    assert_eq!(result, 18);
    assert_eq!(
        bytes,
        [
            0x00, 0x11, 0x22, 0x33, 0x44, 0x11, 0x22, 0x33, 0x44, 0x02, 0xaa, 0xbb, 0xcc, 0xdd,
            0x55, 0x66, 0x77, 0x88,
        ]
    )
}

#[test]
fn composite_round_trips_through_its_own_encoding() {
    let value = Composite {
        record: Record {
            first: 0x00,
            second: 0x44332211,
            array: [0x1122, 0x3344],
        },
        list: ListContainer(vec![0xddccbbaa, 0x88776655]),
    };
    let mut bytes: Vec<u8> = vec![];
    bytes.write_le(0, &value).expect("Write should have worked");
    let back: Composite = bytes.read_le(0).expect("Read should have worked");
    assert_eq!(back, value);
}

#[test]
fn should_get_size() {
    let value = PaddedRecord {
        first: 0xaa,
        second: 0xbbccddee,
    };
    assert_eq!(value.get_size(), 8);
}

#[test]
fn should_get_nested_size() {
    let value = NestedContainer {
        first: 0x11223344,
        data: PaddedRecord {
            first: 0xaa,
            second: 0xbbccddee,
        },
    };
    assert_eq!(value.get_size(), 12);
}

#[test]
fn endian_read_should_read_le() {
    let bytes = vec![0x00, 0xaa, 0x00, 0x00, 0xee, 0xdd, 0xcc, 0xbb];
    let result: PaddedRecord = bytes.read_le(0).expect("Read should have worked");
    let expected = PaddedRecord {
        first: 0xaa,
        second: 0xbbccddee,
    };

    assert_eq!(result, expected);
}

#[test]
fn endian_read_should_read_be() {
    let bytes = vec![0x00, 0xaa, 0x00, 0x00, 0xbb, 0xcc, 0xdd, 0xee];
    let result: PaddedRecord = bytes.read_be(0).expect("Read should have worked");
    let expected = PaddedRecord {
        first: 0xaa,
        second: 0xbbccddee,
    };

    assert_eq!(result, expected);
}

#[test]
fn truncated_padded_record_reports_an_absolute_offset() {
    let bytes = vec![0x00, 0xaa, 0x00, 0x00, 0xee, 0xdd, 0xcc];
    let error = bytes
        .read_le::<PaddedRecord>(0)
        .expect_err("This should have failed");
    assert_eq!(
        error,
        Error::InvalidSize {
            wanted_size: 4,
            offset: 4,
            data_len: 7,
        }
    );
}

#[test]
fn should_write_le() {
    let value = PaddedRecord {
        first: 0xaa,
        second: 0xbbccddee,
    };
    let mut bytes: Vec<u8> = vec![0; 8];
    let result = bytes.write_le(0, &value).expect("Write should have worked");

    assert_eq!(result, 8);
    assert_eq!(bytes, [0x00, 0xaa, 0x00, 0x00, 0xee, 0xdd, 0xcc, 0xbb]);
}

#[test]
fn should_write_be() {
    let value = PaddedRecord {
        first: 0xaa,
        second: 0xbbccddee,
    };
    let mut bytes: Vec<u8> = vec![0; 8];
    let result = bytes.write_be(0, &value).expect("Write should have worked");

    assert_eq!(result, 8);
    assert_eq!(bytes, [0x00, 0xaa, 0x00, 0x00, 0xbb, 0xcc, 0xdd, 0xee]);
}

#[test]
fn endian_read_should_read_nested_le() {
    let bytes = vec![
        0x44, 0x33, 0x22, 0x11, 0x00, 0xaa, 0x00, 0x00, 0xee, 0xdd, 0xcc, 0xbb,
    ];
    let result: NestedContainer<PaddedRecord> =
        bytes.read_le(0).expect("Read should have worked");
    let expected = NestedContainer {
        first: 0x11223344,
        data: PaddedRecord {
            first: 0xaa,
            second: 0xbbccddee,
        },
    };

    assert_eq!(result, expected);
}

#[test]
fn endian_read_should_read_nested_be() {
    let bytes = vec![
        0x11, 0x22, 0x33, 0x44, 0x00, 0xaa, 0x00, 0x00, 0xbb, 0xcc, 0xdd, 0xee,
    ];
    let result: NestedContainer<PaddedRecord> =
        bytes.read_be(0).expect("Read should have worked");
    let expected = NestedContainer {
        first: 0x11223344,
        data: PaddedRecord {
            first: 0xaa,
            second: 0xbbccddee,
        },
    };

    assert_eq!(result, expected);
}

#[test]
fn should_write_nested_le() {
    let value = NestedContainer {
        first: 0x11223344,
        data: PaddedRecord {
            first: 0xaa,
            second: 0xbbccddee,
        },
    };
    let mut bytes: Vec<u8> = vec![0; 12];
    let result = bytes.write_le(0, &value).expect("Write should have worked");

    assert_eq!(result, 12);
    assert_eq!(
        bytes,
        [0x44, 0x33, 0x22, 0x11, 0x00, 0xaa, 0x00, 0x00, 0xee, 0xdd, 0xcc, 0xbb]
    );
}

#[test]
fn should_write_nested_be() {
    let value = NestedContainer {
        first: 0x11223344,
        data: PaddedRecord {
            first: 0xaa,
            second: 0xbbccddee,
        },
    };
    let mut bytes: Vec<u8> = vec![0; 12];
    let result = bytes.write_be(0, &value).expect("Write should have worked");

    assert_eq!(result, 12);
    assert_eq!(
        bytes,
        [0x11, 0x22, 0x33, 0x44, 0x00, 0xaa, 0x00, 0x00, 0xbb, 0xcc, 0xdd, 0xee]
    );
}

#[test]
fn list_of_padded_records_should_read_le() {
    let bytes = vec![
        0x02, 0x00, 0xaa, 0x00, 0x00, 0xee, 0xdd, 0xcc, 0xbb, 0x00, 0x11, 0x00, 0x00, 0x55,
        0x44, 0x33, 0x22,
    ];
    let result: ListContainer<PaddedRecord> =
        bytes.read_le(0).expect("Read should have worked");
    let expected = ListContainer::<PaddedRecord>(vec![
        PaddedRecord {
            first: 0xaa,
            second: 0xbbccddee,
        },
        PaddedRecord {
            first: 0x11,
            second: 0x22334455,
        },
    ]);

    assert_eq!(result, expected);
}

#[test]
fn list_of_padded_records_should_read_be() {
    let bytes = vec![
        0x02, 0x00, 0xaa, 0x00, 0x00, 0xbb, 0xcc, 0xdd, 0xee, 0x00, 0x11, 0x00, 0x00, 0x22,
        0x33, 0x44, 0x55,
    ];
    let result: ListContainer<PaddedRecord> =
        bytes.read_be(0).expect("Read should have worked");
    let expected = ListContainer::<PaddedRecord>(vec![
        PaddedRecord {
            first: 0xaa,
            second: 0xbbccddee,
        },
        PaddedRecord {
            first: 0x11,
            second: 0x22334455,
        },
    ]);
    assert_eq!(result, expected);
}

#[test]
fn should_write_dynamic_size_le() {
    let value = ListContainer::<PaddedRecord>(vec![
        PaddedRecord {
            first: 0xaa,
            second: 0xbbccddee,
        },
        PaddedRecord {
            first: 0x11,
            second: 0x22334455,
        },
    ]);
    let mut bytes: Vec<u8> = vec![];
    let result = bytes.write_le(0, &value).expect("Write should have worked");

    assert_eq!(result, 17);
    assert_eq!(
        bytes,
        [
            0x02, 0x00, 0xaa, 0x00, 0x00, 0xee, 0xdd, 0xcc, 0xbb, 0x00, 0x11, 0x00, 0x00, 0x55,
            0x44, 0x33, 0x22
        ]
    );
}

#[test]
fn should_write_dynamic_size_be() {
    let value = ListContainer::<PaddedRecord>(vec![
        PaddedRecord {
            first: 0xaa,
            second: 0xbbccddee,
        },
        PaddedRecord {
            first: 0x11,
            second: 0x22334455,
        },
    ]);
    let mut bytes: Vec<u8> = vec![];
    let result = bytes.write_be(0, &value).expect("Write should have worked");

    assert_eq!(result, 17);
    assert_eq!(
        bytes,
        [
            0x02, 0x00, 0xaa, 0x00, 0x00, 0xbb, 0xcc, 0xdd, 0xee, 0x00, 0x11, 0x00, 0x00, 0x22,
            0x33, 0x44, 0x55
        ]
    );
}

#[test]
fn record_write_fits_exactly_its_reported_size() {
    let value = Record {
        first: 0xaa,
        second: 0xeeddccbb,
        array: [0x1122, 0x3344],
    };
    assert_eq!(value.get_size(), 9);

    let mut exact = FixedBuffer::new(vec![0; 9]);
    let written = exact.write_le(0, &value).expect("Write should have worked");
    assert_eq!(written, 9);

    let mut short = FixedBuffer::new(vec![0; 8]);
    let error = short
        .write_le(0, &value)
        .expect_err("This should have failed");
    assert!(matches!(error, Error::InvalidSize { .. }));
}

#[test]
fn list_write_fits_exactly_its_reported_size() {
    let value = ListContainer::<u32>(vec![0x44332211, 0xddccbbaa]);
    assert_eq!(value.get_size(), 9);

    let mut exact = FixedBuffer::new(vec![0; 9]);
    let written = exact.write_le(0, &value).expect("Write should have worked");
    assert_eq!(written, 9);

    let mut short = FixedBuffer::new(vec![0; 8]);
    let error = short
        .write_le(0, &value)
        .expect_err("This should have failed");
    assert!(matches!(error, Error::InvalidSize { .. }));
}

#[test]
fn list_longer_than_its_count_byte_reports_invalid_write() {
    let value = ListContainer::<u8>(vec![0; 256]);
    let mut bytes: Vec<u8> = vec![0; 300];
    let error = bytes
        .write_le(0, &value)
        .expect_err("This should have failed");
    assert!(matches!(error, Error::InvalidWrite { .. }));
}

#[test]
fn scalars_round_trip_through_both_byte_orders() {
    let mut bytes: Vec<u8> = vec![];
    bytes.write_le(0, &0xaabbccddu32).unwrap();
    assert_eq!(bytes.read_le::<u32>(0).unwrap(), 0xaabbccdd);

    let mut bytes: Vec<u8> = vec![];
    bytes.write_be(0, &0xaabbccddu32).unwrap();
    assert_eq!(bytes.read_be::<u32>(0).unwrap(), 0xaabbccdd);

    let mut bytes: Vec<u8> = vec![];
    bytes.write_le(0, &(-12345i16)).unwrap();
    assert_eq!(bytes.read_le::<i16>(0).unwrap(), -12345);

    let mut bytes: Vec<u8> = vec![];
    bytes.write_be(0, &(-1234567890123i64)).unwrap();
    assert_eq!(bytes.read_be::<i64>(0).unwrap(), -1234567890123);

    let mut bytes: Vec<u8> = vec![];
    bytes.write_le(0, &true).unwrap();
    assert_eq!(bytes, [0x01]);
    assert_eq!(bytes.read_le::<bool>(0).unwrap(), true);

    let mut bytes: Vec<u8> = vec![];
    bytes.write_le(0, &0x42u8).unwrap();
    assert_eq!(bytes.read_le::<u8>(0).unwrap(), 0x42);

    let mut bytes: Vec<u8> = vec![];
    bytes.write_le(0, &0x1122334455667788u64).unwrap();
    assert_eq!(bytes, [0x88, 0x77, 0x66, 0x55, 0x44, 0x33, 0x22, 0x11]);
    assert_eq!(bytes.read_le::<u64>(0).unwrap(), 0x1122334455667788);
}

#[test]
fn vec_write_le_at_offset_grows_and_zero_fills() {
    let mut bytes: Vec<u8> = vec![];
    let written = bytes
        .write_le(2, &0xaabbccddu32)
        .expect("Write should have worked");

    assert_eq!(written, 4);
    assert_eq!(bytes, [0x00, 0x00, 0xdd, 0xcc, 0xbb, 0xaa]);
}

#[test]
fn unit_value_occupies_no_bytes() {
    let value = ();
    assert_eq!(value.get_size(), 0);

    let mut bytes: Vec<u8> = vec![];
    let written = bytes.write_le(0, &value).expect("Write should have worked");
    assert_eq!(written, 0);
    assert_eq!(bytes.len(), 0);

    let back = <()>::try_read_le(&bytes).expect("Read should have worked");
    assert_eq!(back.get_read_bytes(), 0);
}

#[test]
fn nonzero_byte_decodes_as_true() {
    let bytes: Vec<u8> = vec![0x7f];
    assert_eq!(bytes.read_le::<bool>(0).unwrap(), true);
    assert_eq!(bytes.read_be::<bool>(0).unwrap(), true);
    let bytes: Vec<u8> = vec![0x00];
    assert_eq!(bytes.read_le::<bool>(0).unwrap(), false);
}

#[test]
fn byte_arrays_are_written_verbatim_in_either_order() {
    let value: [u8; 4] = [0xde, 0xad, 0xbe, 0xef];
    let mut bytes: Vec<u8> = vec![0; 6];
    let written = bytes.write_le(1, &value).expect("Write should have worked");
    assert_eq!(written, 4);
    assert_eq!(bytes, [0x00, 0xde, 0xad, 0xbe, 0xef, 0x00]);

    let mut bytes: Vec<u8> = vec![0; 6];
    let written = bytes.write_be(1, &value).expect("Write should have worked");
    assert_eq!(written, 4);
    assert_eq!(bytes, [0x00, 0xde, 0xad, 0xbe, 0xef, 0x00]);
}

#[test]
fn sum_decoder_reports_a_short_read() {
    let bytes: Vec<u8> = vec![0x11];
    let error = bytes
        .read_le::<endian_io::Sum>(0)
        .expect_err("This should have failed");
    assert_eq!(
        error,
        Error::InvalidSize {
            wanted_size: 2,
            offset: 0,
            data_len: 1,
        }
    );
}
