use lzw_decode::{ByteStream, Code, DecodeError, Reader};

fn packed(raws: &[u32]) -> Vec<u8> {
    let mut bytes: Vec<u8> = Vec::new();
    let mut acc: u64 = 0;
    let mut bits: u32 = 0;
    let mut width: u32 = 9;
    for &raw in raws {
        acc |= (raw as u64) << bits;
        bits += width;
        while bits >= 8 {
            bytes.push((acc & 0xff) as u8);
            acc >>= 8;
            bits -= 8;
        }
        if raw == 1 || raw == 3 {
            if bits > 0 {
                bytes.push((acc & 0xff) as u8);
            }
            acc = 0;
            bits = 0;
        }
        if raw == 1 {
            width = 9;
        }
        if raw == 2 {
            width += 1;
        }
    }
    if bits > 0 {
        bytes.push((acc & 0xff) as u8);
    }
    bytes
}

#[test]
fn new_reader_starts_at_nine_bits() {
    let reader: Reader = Reader::new();
    assert_eq!(reader.code_width(), 9);
    assert_eq!(reader.available_bits(), 0);
}

#[test]
fn one_byte_is_not_enough_for_a_code() {
    let mut stream: ByteStream = ByteStream::new(vec![0x01]);
    let mut reader: Reader = Reader::new();
    assert_eq!(reader.read(&mut stream), Err(DecodeError::TruncatedStream));
    assert_eq!(stream.position(), 1);
}

#[test]
fn empty_source_is_truncated() {
    let mut stream: ByteStream = ByteStream::new(Vec::new());
    let mut reader: Reader = Reader::new();
    assert_eq!(reader.read(&mut stream), Err(DecodeError::TruncatedStream));
    assert_eq!(stream.position(), 0);
}

#[test]
fn codes_are_cut_least_significant_bit_first() {
    // 0x9449 = 0b1001_0100_0100_1001: the low nine bits are 0x049, the seven
    // above them are 0x4a.
    let mut stream: ByteStream = ByteStream::new(vec![0x49, 0x94, 0x0c]);
    let mut reader: Reader = Reader::new();
    assert_eq!(reader.read(&mut stream), Ok(Code::Value(0x41)));
    assert_eq!(stream.position(), 2);
    assert_eq!(reader.available_bits(), 7);
    assert_eq!(reader.read(&mut stream), Ok(Code::Value(0x42)));
    assert_eq!(stream.position(), 3);
    assert_eq!(reader.available_bits(), 6);
    assert_eq!(reader.read(&mut stream), Err(DecodeError::TruncatedStream));
    assert_eq!(stream.position(), 3);
}

#[test]
fn a_read_takes_only_the_bytes_it_needs() {
    let mut stream: ByteStream = ByteStream::new(vec![0xff, 0xff, 0xff, 0xff, 0xff]);
    let mut reader: Reader = Reader::new();
    assert_eq!(reader.read(&mut stream), Ok(Code::Index(0x1ff - 0x108)));
    assert_eq!(stream.position(), 2);
    assert_eq!(reader.read(&mut stream), Ok(Code::Index(0x1ff - 0x108)));
    assert_eq!(stream.position(), 3);
}

#[test]
fn reset_empties_the_buffer_and_restores_the_width() {
    let mut stream: ByteStream = ByteStream::new(packed(&[1, 2, 2, 1, 0x49]));
    let mut reader: Reader = Reader::new();
    assert_eq!(reader.read(&mut stream), Ok(Code::Command(1)));
    assert_eq!(reader.read(&mut stream), Ok(Code::Command(2)));
    assert_eq!(reader.code_width(), 10);
    assert_eq!(reader.read(&mut stream), Ok(Code::Command(2)));
    assert_eq!(reader.code_width(), 11);
    assert_eq!(reader.read(&mut stream), Ok(Code::Command(1)));
    assert_eq!(reader.code_width(), 9);
    assert_eq!(reader.available_bits(), 0);
    assert_eq!(reader.read(&mut stream), Ok(Code::Value(0x41)));
}

#[test]
fn reset_drops_the_bits_left_in_the_buffer() {
    // The seven bits above the reset command are all set; the next code
    // must not see them.
    let mut stream: ByteStream = ByteStream::new(vec![0x01, 0xfe, 0x49, 0x00]);
    let mut reader: Reader = Reader::new();
    assert_eq!(reader.read(&mut stream), Ok(Code::Command(1)));
    assert_eq!(reader.available_bits(), 0);
    assert_eq!(reader.read(&mut stream), Ok(Code::Value(0x41)));
    assert_eq!(stream.position(), 4);
}

#[test]
fn widen_adds_one_bit_to_every_following_code() {
    let mut stream: ByteStream = ByteStream::new(packed(&[1, 2, 0x3ff, 0x49]));
    let mut reader: Reader = Reader::new();
    assert_eq!(reader.read(&mut stream), Ok(Code::Command(1)));
    assert_eq!(reader.read(&mut stream), Ok(Code::Command(2)));
    assert_eq!(reader.code_width(), 10);
    assert_eq!(reader.read(&mut stream), Ok(Code::Index(0x3ff - 0x108)));
    assert_eq!(reader.read(&mut stream), Ok(Code::Value(0x41)));
    assert_eq!(reader.code_width(), 10);
}

#[test]
fn realign_drops_the_buffer_and_keeps_the_width() {
    let mut stream: ByteStream = ByteStream::new(packed(&[1, 2, 3, 0x49]));
    let mut reader: Reader = Reader::new();
    assert_eq!(reader.read(&mut stream), Ok(Code::Command(1)));
    assert_eq!(reader.read(&mut stream), Ok(Code::Command(2)));
    assert_eq!(reader.read(&mut stream), Ok(Code::Command(3)));
    assert_eq!(reader.code_width(), 10);
    assert_eq!(reader.available_bits(), 0);
    assert_eq!(reader.read(&mut stream), Ok(Code::Value(0x41)));
    assert_eq!(reader.code_width(), 10);
}

#[test]
fn other_codes_leave_the_width_alone() {
    let mut stream: ByteStream = ByteStream::new(packed(&[0, 4, 5, 6, 7, 8, 0x107, 0x108, 0x1ff]));
    let mut reader: Reader = Reader::new();
    let mut count: u32 = 0;
    while count < 9 {
        assert!(reader.read(&mut stream).is_ok());
        assert_eq!(reader.code_width(), 9);
        assert!(reader.available_bits() < 8);
        count += 1;
    }
}

#[test]
fn width_grows_to_32_bits_and_no_further() {
    let mut raws: Vec<u32> = vec![1];
    let mut count: u32 = 0;
    while count < 24 {
        raws.push(2);
        count += 1;
    }
    let mut stream: ByteStream = ByteStream::new(packed(&raws));
    let mut reader: Reader = Reader::new();
    assert_eq!(reader.read(&mut stream), Ok(Code::Command(1)));
    let mut width: u8 = 9;
    while width < 32 {
        assert_eq!(reader.read(&mut stream), Ok(Code::Command(2)));
        width += 1;
        assert_eq!(reader.code_width(), width);
    }
    assert_eq!(reader.read(&mut stream), Err(DecodeError::WidthOverflow));
    assert_eq!(reader.code_width(), 32);
}

#[test]
fn codes_of_32_bits_are_read_whole() {
    let mut raws: Vec<u32> = vec![1];
    let mut count: u32 = 0;
    while count < 23 {
        raws.push(2);
        count += 1;
    }
    raws.push(0xdead_beef);
    raws.push(0x49);
    raws.push(u32::MAX);
    let mut stream: ByteStream = ByteStream::new(packed(&raws));
    let mut reader: Reader = Reader::new();
    let mut count: u32 = 0;
    while count < 24 {
        assert!(reader.read(&mut stream).is_ok());
        count += 1;
    }
    assert_eq!(reader.code_width(), 32);
    assert_eq!(reader.read(&mut stream), Ok(Code::Index(0xdead_beef - 0x108)));
    assert_eq!(reader.read(&mut stream), Ok(Code::Value(0x41)));
    assert_eq!(reader.read(&mut stream), Ok(Code::Index(0xffff_ffff - 0x108)));
}

#[test]
fn byte_stream_hands_out_its_bytes_in_order() {
    let mut stream: ByteStream = ByteStream::new(vec![7, 8, 9]);
    assert_eq!(stream.len(), 3);
    assert_eq!(stream.position(), 0);
    assert_eq!(stream.next_byte(), Some(7));
    assert_eq!(stream.next_byte(), Some(8));
    assert_eq!(stream.position(), 2);
    assert_eq!(stream.next_byte(), Some(9));
    assert_eq!(stream.next_byte(), None);
    assert_eq!(stream.next_byte(), None);
    assert_eq!(stream.position(), 3);
}
