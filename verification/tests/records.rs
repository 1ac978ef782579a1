use mdfr::mdfinfo::mdfinfo4::{Ca4Block, Cn4, Cn4Block, Compo, Composition, InvalidMask};
use mdfr::mdfreader::channel_data::{data_init, data_type_init, ChannelData, ElemKind};
use mdfr::mdfreader::data_read4::{
    decode_channel, layout_of, read_channels_from_bytes, read_one_channel_array,
};

fn rec_block(cn_type: u8, cn_data_type: u8, bit_count: u32) -> Cn4Block {
    Cn4Block {
        cn_cn_next: 0,
        cn_composition: 0,
        cn_tx_name: 0,
        cn_si_source: 0,
        cn_cc_conversion: 0,
        cn_data: 0,
        cn_md_unit: 0,
        cn_md_comment: 0,
        cn_type,
        cn_sync_type: 0,
        cn_data_type,
        cn_bit_offset: 0,
        cn_byte_offset: 0,
        cn_bit_count: bit_count,
        cn_flags: 0,
        cn_inval_bit_pos: 0,
    }
}

fn rec_channel(name: &str, data: ChannelData, pos: u32, n_bytes: u32, endian: bool) -> Cn4 {
    Cn4 {
        block: rec_block(0, 0, n_bytes * 8),
        block_position: 0,
        rec_pos: (pos * 8) as i32,
        unique_name: name.to_string(),
        pos_byte_beg: pos,
        n_bytes,
        composition: None,
        data,
        endian,
        invalid_mask: None,
        channel_data_valid: false,
    }
}

fn rec_counter_records(n: usize, stride: usize, pos: usize, width: usize, big: bool) -> Vec<u8> {
    let mut out = vec![0xAAu8; n * stride];
    for i in 0..n {
        let bytes = (i as u64).to_le_bytes();
        for b in 0..width {
            let at = if big { pos + width - 1 - b } else { pos + b };
            out[i * stride + at] = bytes[b];
        }
    }
    out
}

fn rec_decode_counter(data: ChannelData, width: u32, big: bool, n: usize) -> ChannelData {
    let stride = 11usize;
    let pos = 2usize;
    let chunk = rec_counter_records(n, stride, pos, width as usize, big);
    let mut channels = vec![rec_channel("c", data, pos as u32, width, big)];
    let names = vec!["c".to_string()];
    let vlsd = read_channels_from_bytes(&chunk, &mut channels, stride, 0, &names, false);
    assert!(vlsd.is_empty());
    channels.remove(0).data
}

#[test]
fn counting_records_decode_to_counting_columns() {
    let n = 120usize;
    for big in [false, true] {
        match rec_decode_counter(ChannelData::UInt8(vec![0; n]), 1, big, n) {
            ChannelData::UInt8(v) => assert_eq!(v, (0..n as u8).collect::<Vec<u8>>()),
            other => panic!("unexpected {:?}", other),
        }
        match rec_decode_counter(ChannelData::Int8(vec![0; n]), 1, big, n) {
            ChannelData::Int8(v) => assert_eq!(v, (0..n as i8).collect::<Vec<i8>>()),
            other => panic!("unexpected {:?}", other),
        }
        match rec_decode_counter(ChannelData::UInt16(vec![0; n]), 2, big, n) {
            ChannelData::UInt16(v) => assert_eq!(v, (0..n as u16).collect::<Vec<u16>>()),
            other => panic!("unexpected {:?}", other),
        }
        match rec_decode_counter(ChannelData::Int16(vec![0; n]), 2, big, n) {
            ChannelData::Int16(v) => assert_eq!(v, (0..n as i16).collect::<Vec<i16>>()),
            other => panic!("unexpected {:?}", other),
        }
        match rec_decode_counter(ChannelData::UInt24(vec![0; n]), 3, big, n) {
            ChannelData::UInt24(v) => assert_eq!(v, (0..n as u32).collect::<Vec<u32>>()),
            other => panic!("unexpected {:?}", other),
        }
        match rec_decode_counter(ChannelData::Int24(vec![0; n]), 3, big, n) {
            ChannelData::Int24(v) => assert_eq!(v, (0..n as i32).collect::<Vec<i32>>()),
            other => panic!("unexpected {:?}", other),
        }
        match rec_decode_counter(ChannelData::UInt32(vec![0; n]), 4, big, n) {
            ChannelData::UInt32(v) => assert_eq!(v, (0..n as u32).collect::<Vec<u32>>()),
            other => panic!("unexpected {:?}", other),
        }
        match rec_decode_counter(ChannelData::Int32(vec![0; n]), 4, big, n) {
            ChannelData::Int32(v) => assert_eq!(v, (0..n as i32).collect::<Vec<i32>>()),
            other => panic!("unexpected {:?}", other),
        }
        match rec_decode_counter(ChannelData::UInt48(vec![0; n]), 5, big, n) {
            ChannelData::UInt48(v) => assert_eq!(v, (0..n as u64).collect::<Vec<u64>>()),
            other => panic!("unexpected {:?}", other),
        }
        match rec_decode_counter(ChannelData::UInt48(vec![0; n]), 6, big, n) {
            ChannelData::UInt48(v) => assert_eq!(v, (0..n as u64).collect::<Vec<u64>>()),
            other => panic!("unexpected {:?}", other),
        }
        match rec_decode_counter(ChannelData::Int48(vec![0; n]), 6, big, n) {
            ChannelData::Int48(v) => assert_eq!(v, (0..n as i64).collect::<Vec<i64>>()),
            other => panic!("unexpected {:?}", other),
        }
        match rec_decode_counter(ChannelData::UInt64(vec![0; n]), 7, big, n) {
            ChannelData::UInt64(v) => assert_eq!(v, (0..n as u64).collect::<Vec<u64>>()),
            other => panic!("unexpected {:?}", other),
        }
        match rec_decode_counter(ChannelData::UInt64(vec![0; n]), 8, big, n) {
            ChannelData::UInt64(v) => assert_eq!(v, (0..n as u64).collect::<Vec<u64>>()),
            other => panic!("unexpected {:?}", other),
        }
        match rec_decode_counter(ChannelData::Int64(vec![0; n]), 8, big, n) {
            ChannelData::Int64(v) => assert_eq!(v, (0..n as i64).collect::<Vec<i64>>()),
            other => panic!("unexpected {:?}", other),
        }
    }
}

#[test]
fn signed_values_of_odd_width_keep_their_sign() {
    // -2 in three bytes, big endian, then -3 in five bytes, little endian
    let chunk = [0xff, 0xff, 0xfe, 0xfd, 0xff, 0xff, 0xff, 0xff];
    let mut a = rec_channel("a", ChannelData::Int24(vec![7]), 0, 3, true);
    decode_channel(&mut a, &chunk, 8, 0);
    match &a.data {
        ChannelData::Int24(v) => assert_eq!(v, &vec![-2]),
        other => panic!("unexpected {:?}", other),
    }
    let mut b = rec_channel("b", ChannelData::Int48(vec![7]), 3, 5, false);
    decode_channel(&mut b, &chunk, 8, 0);
    match &b.data {
        ChannelData::Int48(v) => assert_eq!(v, &vec![-3]),
        other => panic!("unexpected {:?}", other),
    }
}

#[test]
fn floats_are_kept_as_their_bits() {
    let mut chunk = Vec::new();
    for x in [0.0f64, 1.5, -2.25] {
        chunk.extend_from_slice(&x.to_be_bytes());
        chunk.extend_from_slice(&(x as f32).to_le_bytes());
    }
    let mut channels = vec![
        rec_channel("d", ChannelData::Float64(vec![0; 3]), 0, 8, true),
        rec_channel("s", ChannelData::Float32(vec![0; 3]), 8, 4, false),
    ];
    let names = vec!["d".to_string(), "s".to_string()];
    read_channels_from_bytes(&chunk, &mut channels, 12, 0, &names, false);
    match &channels[0].data {
        ChannelData::Float64(v) => {
            let got: Vec<f64> = v.iter().map(|b| f64::from_bits(*b)).collect();
            assert_eq!(got, vec![0.0, 1.5, -2.25]);
        }
        other => panic!("unexpected {:?}", other),
    }
    match &channels[1].data {
        ChannelData::Float32(v) => {
            let got: Vec<f32> = v.iter().map(|b| f32::from_bits(*b)).collect();
            assert_eq!(got, vec![0.0, 1.5, -2.25]);
        }
        other => panic!("unexpected {:?}", other),
    }
}

#[test]
fn complex_numbers_take_two_places_each() {
    let mut chunk = Vec::new();
    for (re, im) in [(1.0f32, 2.0f32), (3.0, -4.0)] {
        chunk.extend_from_slice(&re.to_le_bytes());
        chunk.extend_from_slice(&im.to_le_bytes());
    }
    let mut cn = rec_channel("z", ChannelData::Complex32(vec![0; 4]), 0, 8, false);
    decode_channel(&mut cn, &chunk, 8, 0);
    match &cn.data {
        ChannelData::Complex32(v) => {
            let got: Vec<f32> = v.iter().map(|b| f32::from_bits(*b)).collect();
            assert_eq!(got, vec![1.0, 2.0, 3.0, -4.0]);
        }
        other => panic!("unexpected {:?}", other),
    }
}

#[test]
fn unlisted_empty_and_valid_channels_are_left_alone() {
    let chunk = [1u8, 2, 3, 4];
    let mut valid = rec_channel("valid", ChannelData::UInt8(vec![9, 9]), 0, 1, false);
    valid.channel_data_valid = true;
    let mut channels = vec![
        rec_channel("unlisted", ChannelData::UInt8(vec![9, 9]), 0, 1, false),
        rec_channel("empty", ChannelData::UInt8(vec![]), 0, 1, false),
        valid,
        rec_channel("read", ChannelData::UInt8(vec![9, 9]), 1, 1, false),
    ];
    let names = vec!["empty".to_string(), "valid".to_string(), "read".to_string()];
    read_channels_from_bytes(&chunk, &mut channels, 2, 0, &names, false);
    for (i, expected) in [vec![9u8, 9], vec![], vec![9, 9], vec![2, 4]].iter().enumerate() {
        match &channels[i].data {
            ChannelData::UInt8(v) => assert_eq!(v, expected),
            other => panic!("unexpected {:?}", other),
        }
    }
    assert!(!channels[3].channel_data_valid);
}

#[test]
fn channels_that_do_not_fit_are_skipped() {
    let chunk = [1u8, 2, 3, 4];
    // the value would end after the record
    let mut beyond = rec_channel("b", ChannelData::UInt16(vec![9, 9]), 1, 2, false);
    decode_channel(&mut beyond, &chunk, 2, 0);
    match &beyond.data {
        ChannelData::UInt16(v) => assert_eq!(v, &vec![9, 9]),
        other => panic!("unexpected {:?}", other),
    }
    assert!(layout_of(&beyond, 2).is_none());
    // the column is too short for the records
    let mut short = rec_channel("s", ChannelData::UInt8(vec![9]), 0, 1, false);
    decode_channel(&mut short, &chunk, 2, 0);
    match &short.data {
        ChannelData::UInt8(v) => assert_eq!(v, &vec![9]),
        other => panic!("unexpected {:?}", other),
    }
    // nine bytes do not fit a column of 64-bit integers
    let wide = rec_channel("w", ChannelData::UInt64(vec![9]), 0, 9, false);
    assert!(layout_of(&wide, 16).is_none());
    // a record length of zero decodes nothing
    let mut zero = rec_channel("z", ChannelData::UInt8(vec![9]), 0, 1, false);
    decode_channel(&mut zero, &chunk, 0, 0);
    match &zero.data {
        ChannelData::UInt8(v) => assert_eq!(v, &vec![9]),
        other => panic!("unexpected {:?}", other),
    }
}

#[test]
fn layout_follows_position_and_width() {
    let cn = rec_channel("c", ChannelData::UInt24(vec![0; 4]), 5, 3, true);
    let lay = layout_of(&cn, 8).unwrap();
    assert_eq!(lay.record_length, 8);
    assert_eq!(lay.pos, 5);
    assert_eq!(lay.elem_bytes, 3);
    assert_eq!(lay.per_record, 1);
    assert!(lay.big_endian);
    assert!(layout_of(&cn, 7).is_none());
}

#[test]
fn decoding_in_chunks_equals_decoding_at_once() {
    let n = 50usize;
    let stride = 6usize;
    let mut records = Vec::new();
    for i in 0..n {
        records.extend_from_slice(&(i as u16 * 3).to_le_bytes());
        records.extend_from_slice(&(1000 - i as i32).to_be_bytes());
    }
    let names = vec!["a".to_string(), "b".to_string()];
    let fresh = |n: usize| {
        vec![
            rec_channel("a", ChannelData::UInt16(vec![0; n]), 0, 2, false),
            rec_channel("b", ChannelData::Int32(vec![0; n]), 2, 4, true),
        ]
    };
    let mut once = fresh(n);
    read_channels_from_bytes(&records, &mut once, stride, 0, &names, false);
    let mut pieces = fresh(n);
    let mut done = 0usize;
    for take in [7usize, 1, 20, 22] {
        let chunk = &records[done * stride..(done + take) * stride];
        read_channels_from_bytes(chunk, &mut pieces, stride, done, &names, false);
        done += take;
    }
    assert_eq!(done, n);
    for i in 0..2 {
        assert_eq!(format!("{:?}", once[i].data), format!("{:?}", pieces[i].data));
    }
    match &once[1].data {
        ChannelData::Int32(v) => assert_eq!(v[49], 951),
        other => panic!("unexpected {:?}", other),
    }
}

#[test]
fn strings_of_all_encodings_lose_their_padding() {
    let words = ["zero", "one", "two", "three", "four", "five", "six", "seven", "eight", "nine"];
    let expected: Vec<String> = words.iter().map(|w| w.to_string()).collect();
    let width = 12usize;
    let mut utf8 = Vec::new();
    let mut utf16be = Vec::new();
    let mut utf16le = Vec::new();
    for w in words.iter() {
        let mut field = w.as_bytes().to_vec();
        field.resize(width, 0);
        utf8.extend_from_slice(&field);
        let mut be = Vec::new();
        let mut le = Vec::new();
        for unit in w.encode_utf16() {
            be.extend_from_slice(&unit.to_be_bytes());
            le.extend_from_slice(&unit.to_le_bytes());
        }
        be.resize(width, 0);
        le.resize(width, 0);
        utf16be.extend_from_slice(&be);
        utf16le.extend_from_slice(&le);
    }
    let empty = vec![String::new(); 10];
    let mut a = rec_channel("a", ChannelData::StringUTF8(empty.clone()), 0, 12, false);
    decode_channel(&mut a, &utf8, width, 0);
    match &a.data {
        ChannelData::StringUTF8(v) => assert_eq!(v, &expected),
        other => panic!("unexpected {:?}", other),
    }
    let mut b = rec_channel("b", ChannelData::StringSBC(empty.clone()), 0, 12, false);
    decode_channel(&mut b, &utf8, width, 0);
    match &b.data {
        ChannelData::StringSBC(v) => assert_eq!(v, &expected),
        other => panic!("unexpected {:?}", other),
    }
    let mut c = rec_channel("c", ChannelData::StringUTF16(empty.clone()), 0, 12, true);
    decode_channel(&mut c, &utf16be, width, 0);
    match &c.data {
        ChannelData::StringUTF16(v) => assert_eq!(v, &expected),
        other => panic!("unexpected {:?}", other),
    }
    let mut d = rec_channel("d", ChannelData::StringUTF16(empty), 0, 12, false);
    decode_channel(&mut d, &utf16le, width, 0);
    match &d.data {
        ChannelData::StringUTF16(v) => assert_eq!(v, &expected),
        other => panic!("unexpected {:?}", other),
    }
}

#[test]
fn byte_arrays_are_copied_verbatim() {
    let chunk = [1u8, 2, 3, 4, 5, 6, 7, 8];
    let mut fixed = rec_channel("f", ChannelData::FixedSizeByteArray(vec![0; 6], 3), 1, 3, false);
    decode_channel(&mut fixed, &chunk, 4, 0);
    match &fixed.data {
        ChannelData::FixedSizeByteArray(v, n) => {
            assert_eq!(v, &vec![2, 3, 4, 6, 7, 8]);
            assert_eq!(*n, 3);
        }
        other => panic!("unexpected {:?}", other),
    }
    let rows = vec![Vec::new(), Vec::new()];
    let mut var = rec_channel("v", ChannelData::VariableSizeByteArray(rows), 0, 2, false);
    decode_channel(&mut var, &chunk, 4, 0);
    match &var.data {
        ChannelData::VariableSizeByteArray(v) => assert_eq!(v, &vec![vec![1, 2], vec![5, 6]]),
        other => panic!("unexpected {:?}", other),
    }
}

#[test]
fn arrays_hold_all_entries_of_every_sample() {
    // two records, each with three 16-bit entries after one byte
    let chunk = [9u8, 1, 0, 2, 0, 3, 0, 9, 4, 0, 5, 0, 6, 0];
    let mut cn = rec_channel("m", ChannelData::ArrayDUInt16(vec![0; 6], vec![3]), 1, 2, false);
    cn.composition =
        Some(Composition { block: Compo::CA(Ca4Block { shape: vec![3], pnd: 3 }) });
    decode_channel(&mut cn, &chunk, 7, 0);
    match &cn.data {
        ChannelData::ArrayDUInt16(v, shape) => {
            assert_eq!(v, &vec![1, 2, 3, 4, 5, 6]);
            assert_eq!(shape, &vec![3]);
        }
        other => panic!("unexpected {:?}", other),
    }
    // without its array block the channel cannot be decoded
    let mut bare = rec_channel("m", ChannelData::ArrayDUInt16(vec![0; 6], vec![3]), 1, 2, false);
    decode_channel(&mut bare, &chunk, 7, 0);
    match &bare.data {
        ChannelData::ArrayDUInt16(v, _) => assert_eq!(v, &vec![0; 6]),
        other => panic!("unexpected {:?}", other),
    }
}

#[test]
fn invalidation_bits_are_read_per_record() {
    // records of two bytes: a value and the invalidation byte
    let chunk = [10u8, 0b0000_0000, 11, 0b0000_0100, 12, 0b0000_0011];
    let mut cn = rec_channel("c", ChannelData::UInt8(vec![0; 3]), 0, 1, false);
    cn.invalid_mask =
        Some(InvalidMask { mask: vec![true; 3], byte_position: 1, byte_mask: 0b0000_0100 });
    let mut channels = vec![cn];
    let names = vec!["c".to_string()];
    read_channels_from_bytes(&chunk, &mut channels, 2, 0, &names, true);
    let mask = channels[0].invalid_mask.as_ref().unwrap();
    assert_eq!(mask.mask, vec![true, false, true]);
    match &channels[0].data {
        ChannelData::UInt8(v) => assert_eq!(v, &vec![10, 11, 12]),
        other => panic!("unexpected {:?}", other),
    }
}

#[test]
fn variable_length_channels_are_reported() {
    let chunk = [0u8; 4];
    let mut vlsd = rec_channel("text", ChannelData::StringUTF8(vec![String::new(); 2]), 0, 0, false);
    vlsd.block.cn_type = 1;
    vlsd.block.cn_data = 4096;
    vlsd.rec_pos = 16;
    let mut other = rec_channel("other", ChannelData::StringUTF8(vec![String::new(); 2]), 0, 0, false);
    other.block.cn_type = 1;
    other.rec_pos = 24;
    let mut channels = vec![rec_channel("n", ChannelData::UInt8(vec![0; 2]), 0, 1, false), vlsd, other];
    let names = vec!["n".to_string(), "text".to_string(), "other".to_string()];
    let found = read_channels_from_bytes(&chunk, &mut channels, 2, 0, &names, false);
    assert_eq!(found, vec![16]);
}

#[test]
fn a_block_of_one_channel_is_read_whole() {
    let block: Vec<u8> = (0u16..5).flat_map(|x| (x * 257).to_be_bytes()).collect();
    let mut cn = rec_channel("c", ChannelData::UInt16(vec![0; 5]), 3, 2, true);
    read_one_channel_array(&block, &mut cn, 5);
    assert!(cn.channel_data_valid);
    match &cn.data {
        ChannelData::UInt16(v) => assert_eq!(v, &vec![0, 257, 514, 771, 1028]),
        other => panic!("unexpected {:?}", other),
    }
    // a block that is too short leaves the channel untouched
    let mut short = rec_channel("c", ChannelData::UInt16(vec![7; 5]), 3, 2, true);
    read_one_channel_array(&block[..9], &mut short, 5);
    assert!(!short.channel_data_valid);
    match &short.data {
        ChannelData::UInt16(v) => assert_eq!(v, &vec![7; 5]),
        other => panic!("unexpected {:?}", other),
    }
}

#[test]
fn columns_start_zeroed_in_the_representation_of_the_data_type() {
    match data_init(0, 0, 2, 3) {
        ChannelData::UInt16(v) => assert_eq!(v, vec![0, 0, 0]),
        other => panic!("unexpected {:?}", other),
    }
    match data_init(0, 3, 6, 2) {
        ChannelData::Int48(v) => assert_eq!(v, vec![0, 0]),
        other => panic!("unexpected {:?}", other),
    }
    match data_init(0, 4, 8, 2) {
        ChannelData::Float64(v) => assert_eq!(v, vec![0, 0]),
        other => panic!("unexpected {:?}", other),
    }
    match data_init(0, 7, 16, 2) {
        ChannelData::StringUTF8(v) => assert_eq!(v, vec![String::new(), String::new()]),
        other => panic!("unexpected {:?}", other),
    }
    match data_init(0, 10, 3, 2) {
        ChannelData::FixedSizeByteArray(v, n) => {
            assert_eq!(v, vec![0; 6]);
            assert_eq!(n, 3);
        }
        other => panic!("unexpected {:?}", other),
    }
    match data_init(1, 10, 3, 2) {
        ChannelData::VariableSizeByteArray(v) => assert_eq!(v, vec![vec![0; 3], vec![0; 3]]),
        other => panic!("unexpected {:?}", other),
    }
    match data_init(3, 0, 0, 4) {
        ChannelData::UInt64(v) => assert_eq!(v, vec![0, 1, 2, 3]),
        other => panic!("unexpected {:?}", other),
    }
    match data_init(6, 4, 8, 2) {
        ChannelData::UInt64(v) => assert_eq!(v, vec![0, 1]),
        other => panic!("unexpected {:?}", other),
    }
    let d = ChannelData::default();
    assert!(d.is_empty());
    assert_eq!(d.elem_kind(), ElemKind::UInt8);
    let model = data_type_init(0, 16, 16, true);
    assert_eq!(model.elem_kind(), ElemKind::Complex64);
    assert!(model.is_array());
    assert_eq!(model.len(), 0);
    let z = ChannelData::ArrayDInt8(vec![], vec![2, 3]).zeros(4, 1);
    match z {
        ChannelData::ArrayDInt8(v, shape) => {
            assert_eq!(v, vec![0; 24]);
            assert_eq!(shape, vec![2, 3]);
        }
        other => panic!("unexpected {:?}", other),
    }
    assert_eq!(ChannelData::Complex16(vec![]).stored_count(5, 4), Some(10));
    assert_eq!(ChannelData::StringSBC(vec![]).stored_count(5, 4), Some(5));
}
