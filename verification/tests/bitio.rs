use ae_rs::bitio::{BitReader, BitWriter, ReadResult};

fn copy_bits(input: &[u8]) -> Vec<u8> {
    let mut writer = BitWriter::new(Vec::new());
    let mut reader = BitReader::new(input);
    for _ in 0..input.len() * 8 {
        writer.write(match reader.read() {
            ReadResult::EOF => panic!(),
            ReadResult::Bit(r) => r,
        });
    }
    writer.flush();
    writer.into_inner()
}

#[test]
fn test_in_memory_representation_reader() {
    // The bits are read most significant bit first.
    let src = vec![0b11110000];
    let mut reader = BitReader::new(&src);

    assert_eq!(reader.read(), ReadResult::Bit(true));
    assert_eq!(reader.read(), ReadResult::Bit(true));
    assert_eq!(reader.read(), ReadResult::Bit(true));
    assert_eq!(reader.read(), ReadResult::Bit(true));
    assert_eq!(reader.read(), ReadResult::Bit(false));
    assert_eq!(reader.read(), ReadResult::Bit(false));
    assert_eq!(reader.read(), ReadResult::Bit(false));
    assert_eq!(reader.read(), ReadResult::Bit(false));

    assert_eq!(reader.read(), ReadResult::EOF);
    assert_eq!(reader.read(), ReadResult::EOF);
}

#[test]
fn test_writer() {
    // The bits are written most significant bit first.
    let mut writer = BitWriter::new(Vec::new());

    writer.write(true);
    writer.write(true);
    writer.write(true);
    writer.write(true);

    writer.write(false);
    writer.write(false);
    writer.write(false);
    writer.write(false);

    let output = writer.into_inner();
    assert_eq!(output, [0b11110000]);
}

#[test]
fn can_read_and_write_same_data() {
    let inputs: Vec<Vec<u8>> = vec![
        vec![],
        vec![0x00],
        vec![0xFF],
        vec![0x80, 0x01],
        vec![0xDE, 0xAD, 0xBE, 0xEF],
        (0..=255u8).collect(),
    ];
    for input in inputs {
        assert_eq!(copy_bits(&input), input);
    }
}

#[test]
fn reader_yields_each_bit_of_every_byte_value() {
    for byte in 0..=255u8 {
        let src = [byte];
        let mut reader = BitReader::new(&src);
        for k in 0..8 {
            let expected = byte & (0x80 >> k) != 0;
            assert_eq!(reader.read(), ReadResult::Bit(expected));
        }
        assert_eq!(reader.read(), ReadResult::EOF);
    }
}

#[test]
fn reader_over_empty_source_reports_eof() {
    let src: Vec<u8> = Vec::new();
    let mut reader = BitReader::new(&src);
    assert_eq!(reader.read(), ReadResult::EOF);
    assert_eq!(reader.read(), ReadResult::EOF);
}

#[test]
fn reader_crosses_byte_boundaries_in_order() {
    let src = [0b1010_0101, 0b0000_1111];
    let mut reader = BitReader::new(&src);
    let expected = [
        true, false, true, false, false, true, false, true, false, false, false, false, true,
        true, true, true,
    ];
    for bit in expected {
        assert_eq!(reader.read(), ReadResult::Bit(bit));
    }
    assert_eq!(reader.read(), ReadResult::EOF);
}

#[test]
fn writer_packs_bit_k_into_position_seven_minus_k() {
    for k in 0..8 {
        let mut writer = BitWriter::new(Vec::new());
        for i in 0..8 {
            writer.write(i == k);
        }
        assert_eq!(writer.into_inner(), [0x80u8 >> k]);
    }
}

#[test]
fn flush_pads_the_last_byte_with_zeros() {
    let mut writer = BitWriter::new(Vec::new());
    writer.write(true);
    writer.write(false);
    writer.write(true);
    writer.flush();
    assert_eq!(writer.into_inner(), [0b1010_0000]);
}

#[test]
fn flush_is_idempotent() {
    let mut writer = BitWriter::new(Vec::new());
    for _ in 0..9 {
        writer.write(true);
    }
    writer.flush();
    writer.flush();
    assert_eq!(writer.into_inner(), [0xFF, 0x80]);
}

#[test]
fn flush_on_byte_boundary_emits_nothing() {
    let mut writer = BitWriter::new(Vec::new());
    writer.flush();
    for _ in 0..8 {
        writer.write(false);
    }
    writer.flush();
    assert_eq!(writer.into_inner(), [0x00]);
}

#[test]
fn byte_count_is_bits_over_eight_rounded_up() {
    for bits in 0..40usize {
        let mut writer = BitWriter::new(Vec::new());
        for _ in 0..bits {
            writer.write(true);
        }
        writer.flush();
        assert_eq!(writer.into_inner().len(), (bits + 7) / 8);
    }
}

#[test]
fn unflushed_bits_are_not_part_of_the_buffer() {
    let mut writer = BitWriter::new(Vec::new());
    for _ in 0..11 {
        writer.write(true);
    }
    assert_eq!(writer.into_inner(), [0xFF]);
}

#[test]
fn writer_appends_to_what_the_buffer_holds() {
    let mut writer = BitWriter::new(vec![0x12, 0x34]);
    for bit in [false, true, false, true, false, true, true, false] {
        writer.write(bit);
    }
    assert_eq!(writer.into_inner(), [0x12, 0x34, 0x56]);
}
