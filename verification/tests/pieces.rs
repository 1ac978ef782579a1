use mdfr::error::MdfError;
use mdfr::mdfinfo::channel_db3::{decimal_string, ChannelEntry3, ChannelId3, ChannelNamesSet3};
use mdfr::mdfinfo::mdfinfo4::{
    comments_from_nodes, Cg4, Cg4Block, Cn4, Cn4Block, Compo, Composition, Dg4, Dg4Block, XmlNode,
};
use mdfr::mdfreader::bit_field::{extract_bits, extract_signed_bits, normalise_bits};
use mdfr::mdfreader::channel_data::{data_type_init, product_of, ChannelData};
use mdfr::mdfreader::data_read4::supported_layout;
use mdfr::mdfreader::group_layout::{check_group_bits, check_group_layout, check_spans, Span};
use mdfr::mdfreader::mdfreader4::{
    apply_bit_mask_offset, generate_chunks, initialise_arrays, read_all_channels_sorted_from_bytes,
    CHUNK_SIZE_READING,
};
use mdfr::mdfreader::unsorted::{
    demux, next_step, read_all_channels_unsorted_from_bytes, save_vlsd, RecordAt, Step,
};

fn pc_channel(name: &str, cn_type: u8, data_type: u8, pos: u32, bits: u32) -> Cn4 {
    Cn4 {
        block: Cn4Block {
            cn_cn_next: 0,
            cn_composition: 0,
            cn_tx_name: 0,
            cn_si_source: 0,
            cn_cc_conversion: 0,
            cn_data: 0,
            cn_md_unit: 0,
            cn_md_comment: 0,
            cn_type,
            cn_sync_type: 0,
            cn_data_type: data_type,
            cn_bit_offset: 0,
            cn_byte_offset: pos,
            cn_bit_count: bits,
            cn_flags: 0,
            cn_inval_bit_pos: 0,
        },
        block_position: 0,
        rec_pos: 0,
        unique_name: name.to_string(),
        pos_byte_beg: pos,
        n_bytes: (bits + 7) / 8,
        composition: None,
        data: ChannelData::default(),
        endian: false,
        invalid_mask: None,
        channel_data_valid: false,
    }
}

fn pc_group(record_id: u64, cycles: u64, flags: u16, record_length: u32, cn: Vec<Cn4>) -> Cg4 {
    Cg4 {
        block: Cg4Block {
            cg_cg_next: 0,
            cg_cn_first: 0,
            cg_record_id: record_id,
            cg_cycle_count: cycles,
            cg_flags: flags,
            cg_data_bytes: record_length,
            cg_inval_bytes: 0,
        },
        block_position: 1000 + record_id as i64,
        cn,
        master_channel_name: String::new(),
        record_length,
        vlsd: None,
    }
}

#[test]
fn interleaved_records_are_taken_apart_by_record_id() {
    // group 7 has records of three bytes, group 9 of five, the record id included
    let cgs = vec![pc_group(7, 0, 0, 3, vec![]), pc_group(9, 0, 0, 5, vec![])];
    let stream = vec![
        7, 1, 2, //
        9, 10, 11, 12, 13, //
        9, 20, 21, 22, 23, //
        7, 3, 4, //
        9, 30, 31, 32, 33, //
        7, 5, // the start of a record
    ];
    let mut sinks = vec![vec![0xEE], vec![]];
    let out = demux(&stream, 1, &cgs, &mut sinks, 500).unwrap();
    assert_eq!(sinks[0], vec![0xEE, 7, 1, 2, 7, 3, 4]);
    assert_eq!(sinks[1], vec![9, 10, 11, 12, 13, 9, 20, 21, 22, 23, 9, 30, 31, 32, 33]);
    assert_eq!(out.consumed, 21);
    assert!(out.vlsd.is_empty());
    // a record id of no group
    let mut sinks = vec![vec![], vec![]];
    let bad = vec![7, 1, 2, 8, 0, 0];
    assert_eq!(
        demux(&bad, 1, &cgs, &mut sinks, 500).err(),
        Some(MdfError::CorruptBlock { offset: 500, expected: 3, actual: 6 })
    );
    assert_eq!(sinks[0], vec![7, 1, 2]);
    // a record id of a size that the format does not have
    let mut sinks = vec![vec![], vec![]];
    assert_eq!(
        demux(&stream, 3, &cgs, &mut sinks, 500).err(),
        Some(MdfError::CorruptBlock { offset: 500, expected: 0, actual: 23 })
    );
    // an empty stream
    let mut sinks = vec![vec![], vec![]];
    assert_eq!(demux(&[], 1, &cgs, &mut sinks, 500).unwrap().consumed, 0);
}

#[test]
fn record_ids_of_all_sizes_are_read_least_significant_byte_first() {
    let cgs = vec![pc_group(0x0102, 0, 0, 4, vec![]), pc_group(0x0102030405060708, 0, 0, 9, vec![])];
    assert_eq!(
        next_step(&[0x02, 0x01, 5, 6], 0, 2, &cgs),
        Step::Record(RecordAt { group: 0, start: 0, len: 4, next: 4, vlsd: false })
    );
    assert_eq!(
        next_step(&[0, 8, 7, 6, 5, 4, 3, 2, 1, 9], 1, 8, &cgs),
        Step::Record(RecordAt { group: 1, start: 1, len: 9, next: 10, vlsd: false })
    );
    assert_eq!(next_step(&[0x02, 0x01, 5], 0, 2, &cgs), Step::NeedMore);
    assert_eq!(next_step(&[0x02], 0, 2, &cgs), Step::NeedMore);
    assert_eq!(next_step(&[0x02, 0x02, 5, 6], 0, 2, &cgs), Step::Corrupt);
    assert_eq!(next_step(&[0x02, 0x01, 5, 6], 0, 0, &cgs), Step::Corrupt);
    // a group whose records are shorter than the record id
    let short = vec![pc_group(1, 0, 0, 1, vec![])];
    assert_eq!(next_step(&[1, 0, 0, 0], 0, 2, &short), Step::Corrupt);
    // values of variable length carry their length
    let vlsd = vec![pc_group(3, 0, 1, 0, vec![])];
    assert_eq!(
        next_step(&[3, 2, 0, 0, 0, 0xAA, 0xBB, 3], 0, 1, &vlsd),
        Step::Record(RecordAt { group: 0, start: 5, len: 2, next: 7, vlsd: true })
    );
    assert_eq!(next_step(&[3, 2, 0, 0, 0, 0xAA], 0, 1, &vlsd), Step::NeedMore);
    assert_eq!(next_step(&[3, 2, 0], 0, 1, &vlsd), Step::NeedMore);
}

#[test]
fn pieces_of_an_unsorted_stream_continue_where_the_last_ended() {
    let make = || {
        let mut a = pc_channel("a", 0, 0, 1, 8);
        a.data = ChannelData::UInt8(vec![0; 4]);
        let mut b = pc_channel("b", 0, 0, 1, 16);
        b.data = ChannelData::UInt16(vec![0; 2]);
        Dg4 {
            block: Dg4Block { dg_dg_next: 0, dg_cg_first: 0, dg_data: 0, dg_rec_id_size: 1 },
            block_position: 0,
            cg: vec![pc_group(1, 4, 0, 2, vec![a]), pc_group(2, 2, 0, 3, vec![b])],
        }
    };
    let stream = vec![1, 10, 2, 1, 0, 1, 11, 1, 12, 2, 2, 0, 1, 13];
    let names = vec!["a".to_string(), "b".to_string()];
    let mut whole = make();
    let mut counters = vec![0usize, 0];
    let mut data = stream.clone();
    read_all_channels_unsorted_from_bytes(&mut data, &mut whole, &mut counters, &names, 0).unwrap();
    assert!(data.is_empty());
    assert_eq!(counters, vec![4, 2]);
    let mut parts = make();
    let mut counters = vec![0usize, 0];
    let mut pending: Vec<u8> = Vec::new();
    for piece in [&stream[..4], &stream[4..5], &stream[5..11], &stream[11..]] {
        pending.extend_from_slice(piece);
        read_all_channels_unsorted_from_bytes(&mut pending, &mut parts, &mut counters, &names, 0)
            .unwrap();
    }
    assert!(pending.is_empty());
    assert_eq!(counters, vec![4, 2]);
    for g in 0..2 {
        assert_eq!(
            format!("{:?}", whole.cg[g].cn[0].data),
            format!("{:?}", parts.cg[g].cn[0].data)
        );
    }
    match &whole.cg[0].cn[0].data {
        ChannelData::UInt8(v) => assert_eq!(v, &vec![10, 11, 12, 13]),
        other => panic!("unexpected {:?}", other),
    }
    match &whole.cg[1].cn[0].data {
        ChannelData::UInt16(v) => assert_eq!(v, &vec![1, 2]),
        other => panic!("unexpected {:?}", other),
    }
    // what cannot be a record leaves everything as it was
    let mut broken = make();
    let mut counters = vec![0usize, 0];
    let mut data = vec![1, 10, 5, 5];
    assert!(read_all_channels_unsorted_from_bytes(&mut data, &mut broken, &mut counters, &names, 9)
        .is_err());
    assert_eq!(data, vec![1, 10, 5, 5]);
    assert_eq!(counters, vec![0, 0]);
}

#[test]
fn values_of_variable_length_are_stored_by_their_number() {
    let mut text = ChannelData::StringUTF16(vec![String::new(); 3]);
    save_vlsd(&mut text, &[b'h', 0, b'i', 0, 0, 0], 1, false);
    save_vlsd(&mut text, &[0, b'y', 0, b'o'], 2, true);
    save_vlsd(&mut text, &[0, b'n'], 3, true);
    match &text {
        ChannelData::StringUTF16(v) => assert_eq!(v, &vec!["", "hi", "yo"]),
        other => panic!("unexpected {:?}", other),
    }
    let mut sbc = ChannelData::StringSBC(vec![String::new(); 1]);
    save_vlsd(&mut sbc, b"caf\xe9\0", 0, false);
    match &sbc {
        ChannelData::StringSBC(v) => assert_eq!(v, &vec!["caf\u{e9}"]),
        other => panic!("unexpected {:?}", other),
    }
    let mut rows = ChannelData::VariableSizeByteArray(vec![vec![9], vec![9]]);
    save_vlsd(&mut rows, &[1, 2, 3], 1, false);
    match &rows {
        ChannelData::VariableSizeByteArray(v) => assert_eq!(v, &vec![vec![9], vec![1, 2, 3]]),
        other => panic!("unexpected {:?}", other),
    }
    let mut numbers = ChannelData::UInt8(vec![5, 6]);
    save_vlsd(&mut numbers, &[1, 2, 3], 0, false);
    match &numbers {
        ChannelData::UInt8(v) => assert_eq!(v, &vec![5, 6]),
        other => panic!("unexpected {:?}", other),
    }
}

#[test]
fn fields_of_bits_are_taken_out_of_integers() {
    assert_eq!(extract_bits(0b1011_0110, 1, 3), 0b011);
    assert_eq!(extract_bits(0b1011_0110, 4, 4), 0b1011);
    assert_eq!(extract_bits(u64::MAX, 0, 64), u64::MAX);
    assert_eq!(extract_bits(u64::MAX, 63, 1), 1);
    assert_eq!(extract_bits(0x1234_5678_9abc_def0, 8, 16), 0xbcde);
    assert_eq!(extract_signed_bits(0b1011_0110, 1, 3), 3);
    assert_eq!(extract_signed_bits(0b1011_0110, 4, 4), -5);
    assert_eq!(extract_signed_bits(-1, 0, 64), -1);
    assert_eq!(extract_signed_bits(i64::MIN, 0, 64), i64::MIN);
    assert_eq!(extract_signed_bits(-1, 10, 1), -1);
    assert_eq!(extract_signed_bits(0x7f, 0, 8), 127);
    assert_eq!(extract_signed_bits(0x80, 0, 8), -128);
    assert_eq!(extract_signed_bits(-2, 1, 63), -1);
}

#[test]
fn only_integer_channels_with_a_field_are_normalised() {
    let mut cn = pc_channel("c", 0, 0, 0, 4);
    cn.block.cn_bit_offset = 2;
    cn.data = ChannelData::UInt8(vec![0b0011_1100, 0b1111_1111, 0b0000_0100]);
    normalise_bits(&mut cn);
    match &cn.data {
        ChannelData::UInt8(v) => assert_eq!(v, &vec![15, 15, 1]),
        other => panic!("unexpected {:?}", other),
    }
    // the bits do not lie within one stored integer
    let mut wide = pc_channel("w", 0, 0, 0, 8);
    wide.block.cn_bit_offset = 4;
    wide.data = ChannelData::UInt8(vec![0xAB]);
    normalise_bits(&mut wide);
    match &wide.data {
        ChannelData::UInt8(v) => assert_eq!(v, &vec![0xAB]),
        other => panic!("unexpected {:?}", other),
    }
    // floats are never touched
    let mut float = pc_channel("f", 0, 4, 0, 30);
    float.data = ChannelData::Float32(vec![0xFFFF_FFFF]);
    normalise_bits(&mut float);
    match &float.data {
        ChannelData::Float32(v) => assert_eq!(v, &vec![0xFFFF_FFFF]),
        other => panic!("unexpected {:?}", other),
    }
    // a whole data group at once
    let mut a = pc_channel("a", 0, 2, 0, 3);
    a.data = ChannelData::Int8(vec![0b0000_0101, 0b0000_0011]);
    let mut dg = Dg4 {
        block: Dg4Block { dg_dg_next: 0, dg_cg_first: 0, dg_data: 0, dg_rec_id_size: 0 },
        block_position: 0,
        cg: vec![pc_group(0, 2, 0, 1, vec![a])],
    };
    apply_bit_mask_offset(&mut dg);
    match &dg.cg[0].cn[0].data {
        ChannelData::Int8(v) => assert_eq!(v, &vec![-3, 3]),
        other => panic!("unexpected {:?}", other),
    }
}

#[test]
fn chunks_hold_every_record_once() {
    for (record_length, cycles) in
        [(1u32, 0u64), (24, 10), (8, 65536), (8, 65537), (100, 100_000), (524288, 100), (3, 1_000_003)]
    {
        let cg = pc_group(0, cycles, 0, record_length, vec![]);
        let chunks = generate_chunks(&cg);
        let records: usize = chunks.iter().map(|c| c.0).sum();
        assert_eq!(records as u64, cycles);
        for (n, bytes) in &chunks {
            assert_eq!(*bytes, n * record_length as usize);
        }
        if (record_length as usize) < CHUNK_SIZE_READING / 2 {
            for (_, bytes) in &chunks[..chunks.len().saturating_sub(1)] {
                assert!(*bytes <= CHUNK_SIZE_READING);
            }
        }
    }
    let cg = pc_group(0, 10, 0, 24, vec![]);
    assert_eq!(generate_chunks(&cg), vec![(10, 240)]);
    let cg = pc_group(0, 65537, 0, 8, vec![]);
    assert_eq!(generate_chunks(&cg), vec![(32768, 262144), (32768, 262144), (1, 8)]);
}

#[test]
fn a_sorted_group_is_read_in_chunks() {
    // more records than one chunk holds
    let cycles = 70_000u64;
    let mut records = Vec::with_capacity(cycles as usize * 12);
    for i in 0..cycles {
        records.extend_from_slice(&i.to_le_bytes());
        records.extend_from_slice(&(i as u32 ^ 0x5555).to_be_bytes());
    }
    let a = pc_channel("a", 0, 0, 0, 64);
    let mut b = pc_channel("b", 0, 1, 8, 32);
    b.endian = true;
    let skipped = pc_channel("skipped", 0, 0, 0, 8);
    let mut virt = pc_channel("index", 6, 0, 0, 0);
    virt.n_bytes = 0;
    let mut cg = pc_group(0, cycles, 0, 12, vec![a, b, skipped, virt]);
    let names = vec!["a".to_string(), "b".to_string(), "index".to_string()];
    read_all_channels_sorted_from_bytes(&records, &mut cg, &names, 0).unwrap();
    match &cg.cn[0].data {
        ChannelData::UInt64(v) => assert_eq!(v, &(0..cycles).collect::<Vec<u64>>()),
        other => panic!("unexpected {:?}", other),
    }
    match &cg.cn[1].data {
        ChannelData::UInt32(v) => {
            assert_eq!(v.len(), cycles as usize);
            assert_eq!(v[69_999], 69_999 ^ 0x5555);
        }
        other => panic!("unexpected {:?}", other),
    }
    assert!(cg.cn[0].channel_data_valid && cg.cn[1].channel_data_valid);
    assert!(cg.cn[2].data.is_empty());
    assert!(!cg.cn[2].channel_data_valid);
    match &cg.cn[3].data {
        ChannelData::UInt64(v) => assert_eq!(v[69_999], 69_999),
        other => panic!("unexpected {:?}", other),
    }
    assert!(cg.cn[3].channel_data_valid);
    // a group of no record length holds virtual channels only
    let mut lone = pc_channel("index", 3, 0, 0, 0);
    lone.n_bytes = 0;
    let mut empty = pc_group(0, 5, 0, 0, vec![lone]);
    read_all_channels_sorted_from_bytes(&[], &mut empty, &vec!["index".to_string()], 0).unwrap();
    match &empty.cn[0].data {
        ChannelData::UInt64(v) => assert_eq!(v, &vec![0, 1, 2, 3, 4]),
        other => panic!("unexpected {:?}", other),
    }
    // too few bytes for the records
    let mut short = pc_group(0, 3, 0, 4, vec![pc_channel("a", 0, 0, 0, 32)]);
    assert_eq!(
        read_all_channels_sorted_from_bytes(&[0; 11], &mut short, &vec!["a".to_string()], 77).err(),
        Some(MdfError::CorruptBlock { offset: 77, expected: 12, actual: 11 })
    );
    assert!(short.cn[0].data.is_empty());
}

#[test]
fn columns_are_made_for_listed_channels_only() {
    let mut arr = pc_channel("arr", 0, 0, 0, 16);
    arr.composition =
        Some(Composition { block: Compo::CA(mdfr::mdfinfo::mdfinfo4::Ca4Block { shape: vec![2, 2], pnd: 4 }) });
    let mut wrong = pc_channel("wrong", 0, 0, 0, 16);
    wrong.composition =
        Some(Composition { block: Compo::CA(mdfr::mdfinfo::mdfinfo4::Ca4Block { shape: vec![2, 2], pnd: 5 }) });
    wrong.data = ChannelData::UInt16(vec![1, 2, 3]);
    let mut valid = pc_channel("valid", 0, 0, 0, 8);
    valid.data = ChannelData::UInt8(vec![1, 2, 3]);
    valid.channel_data_valid = true;
    let mut cg = pc_group(
        0,
        3,
        0,
        8,
        vec![pc_channel("n", 0, 2, 0, 24), pc_channel("off", 0, 0, 0, 8), arr, wrong, valid],
    );
    let names: Vec<String> =
        ["n", "arr", "wrong", "valid"].iter().map(|s| s.to_string()).collect();
    initialise_arrays(&mut cg, &names, 3);
    match &cg.cn[0].data {
        ChannelData::Int24(v) => assert_eq!(v, &vec![0, 0, 0]),
        other => panic!("unexpected {:?}", other),
    }
    assert!(cg.cn[1].data.is_empty());
    match &cg.cn[2].data {
        ChannelData::ArrayDUInt16(v, shape) => {
            assert_eq!(v.len(), 12);
            assert_eq!(shape, &vec![2, 2]);
        }
        other => panic!("unexpected {:?}", other),
    }
    // an array block that contradicts itself gives no column
    assert!(cg.cn[3].data.is_empty());
    match &cg.cn[4].data {
        ChannelData::UInt8(v) => assert_eq!(v, &vec![1, 2, 3]),
        other => panic!("unexpected {:?}", other),
    }
}

#[test]
fn channels_that_share_bytes_or_bits_are_found() {
    let mut cg = pc_group(0, 0, 0, 4, vec![pc_channel("a", 0, 0, 0, 16), pc_channel("b", 0, 0, 2, 16)]);
    assert!(check_group_layout(&cg));
    assert!(check_group_bits(&cg));
    // two channels of four bits each in one byte
    let mut low = pc_channel("low", 0, 0, 0, 4);
    let mut high = pc_channel("high", 0, 0, 0, 4);
    high.block.cn_bit_offset = 4;
    low.n_bytes = 1;
    high.n_bytes = 1;
    let packed = pc_group(0, 0, 0, 1, vec![low, high]);
    assert!(!check_group_layout(&packed));
    assert!(check_group_bits(&packed));
    // overlapping bits
    cg.cn[1].pos_byte_beg = 1;
    assert!(!check_group_layout(&cg));
    assert!(!check_group_bits(&cg));
    // a channel beyond the record
    cg.cn[1].pos_byte_beg = 3;
    assert!(!check_group_layout(&cg));
    // virtual channels and composed channels take no room
    let mut virt = pc_channel("v", 3, 0, 0, 64);
    virt.n_bytes = 8;
    let mut both = pc_group(0, 0, 0, 2, vec![pc_channel("a", 0, 0, 0, 16), virt]);
    assert!(check_group_layout(&both));
    both.cn[1].block.cn_type = 0;
    assert!(!check_group_layout(&both));
    both.cn[1].composition = Some(Composition { block: Compo::CN(64) });
    assert!(check_group_layout(&both));
    assert!(check_spans(&vec![Span { start: 0, len: 3 }, Span { start: 3, len: 0 }, Span { start: 3, len: 2 }], 5));
    assert!(!check_spans(&vec![Span { start: 0, len: 3 }, Span { start: 2, len: 2 }], 5));
    assert!(!check_spans(&vec![Span { start: u64::MAX, len: 3 }], u64::MAX));
}

#[test]
fn names_are_filed_once() {
    let id = |cn_pos: u32| ChannelId3 {
        master: String::new(),
        dg_pos: 1,
        cg_pos: 2,
        rec_id: 3,
        cn_pos,
    };
    let mut set = ChannelNamesSet3::new();
    assert_eq!(set.len(), 0);
    set.insert("a".to_string(), id(10));
    set.insert("b".to_string(), id(20));
    set.insert("a".to_string(), id(30));
    assert_eq!(set.len(), 2);
    assert_eq!(set.get(&"a".to_string()).unwrap().cn_pos, 30);
    assert_eq!(set.get(&"b".to_string()).unwrap().cn_pos, 20);
    assert!(set.get(&"c".to_string()).is_none());
    assert!(set.contains(&"b".to_string()));
    assert_eq!(set.find(&"b".to_string()), Some(1));
    set.set_master(&"b".to_string(), "time".to_string());
    set.set_master(&"c".to_string(), "time".to_string());
    assert_eq!(set.get(&"b".to_string()).unwrap().master, "time");
    assert_eq!(set.get(&"b".to_string()).unwrap().cn_pos, 20);
    assert_eq!(set.get(&"a".to_string()).unwrap().master, "");
    assert_eq!(set.len(), 2);
}

#[test]
fn numbers_are_written_in_decimal() {
    assert_eq!(decimal_string(0), "0");
    assert_eq!(decimal_string(7), "7");
    assert_eq!(decimal_string(10), "10");
    assert_eq!(decimal_string(4096), "4096");
    assert_eq!(decimal_string(u64::MAX), "18446744073709551615");
}

#[test]
fn dimensions_multiply_unless_they_overflow() {
    assert_eq!(product_of(&vec![]), Some(1));
    assert_eq!(product_of(&vec![2, 3, 4]), Some(24));
    assert_eq!(product_of(&vec![usize::MAX, 2, 0]), Some(0));
    assert_eq!(product_of(&vec![usize::MAX, 2]), None);
    assert_eq!(product_of(&vec![usize::MAX, 1]), Some(usize::MAX));
}

#[test]
fn entries_of_comments_are_the_named_elements_with_text() {
    let node = |tag: &str, name: Option<&str>, text: Option<&str>| XmlNode {
        tag: tag.to_string(),
        name: name.map(|s| s.to_string()),
        text: text.map(|s| s.to_string()),
    };
    let nodes = vec![
        node("", None, None),
        node("root", Some("r"), Some("x")),
        node("e", Some("first"), Some("1")),
        node("e", None, Some("2")),
        node("e", Some("third"), None),
        node("E", Some("fourth"), Some("4")),
        node("e", Some("first"), Some("5")),
    ];
    let got: Vec<(String, String)> =
        comments_from_nodes(&nodes).iter().map(|c| (c.name.clone(), c.text.clone())).collect();
    assert_eq!(
        got,
        vec![("first".to_string(), "1".to_string()), ("first".to_string(), "5".to_string())]
    );
    assert!(comments_from_nodes(&vec![]).is_empty());
}

#[test]
fn errors_of_the_structure_are_fatal() {
    assert!(MdfError::CorruptBlock { offset: 1, expected: 2, actual: 3 }.is_fatal());
    assert!(MdfError::UnexpectedBlockType { offset: 1 }.is_fatal());
    assert!(MdfError::MalformedDate { offset: 64 }.is_fatal());
    assert!(!MdfError::UnsupportedEncoding.is_fatal());
    assert!(!MdfError::MalformedComment.is_fatal());
}

#[test]
fn a_name_filed_twice_is_found() {
    let entry = |name: &str, cn_pos: u32| ChannelEntry3 {
        name: name.to_string(),
        id: ChannelId3 { master: String::new(), dg_pos: 1, cg_pos: 2, rec_id: 3, cn_pos },
    };
    let mut set = ChannelNamesSet3::new();
    assert!(set.is_well_formed());
    set.insert("a".to_string(), entry("a", 10).id);
    set.insert("b".to_string(), entry("b", 20).id);
    assert!(set.is_well_formed());
    let twice = ChannelNamesSet3 { entries: vec![entry("a", 10), entry("b", 20), entry("a", 30)] };
    assert!(!twice.is_well_formed());
    let once = ChannelNamesSet3 { entries: vec![entry("a", 10), entry("b", 20), entry("c", 30)] };
    assert!(once.is_well_formed());
}

#[test]
fn channels_that_cannot_be_decoded_have_an_unsupported_encoding() {
    // an unsigned integer of four bytes, from byte 2 of records of 8 bytes
    let mut cn = pc_channel("a", 0, 0, 2, 32);
    cn.data = data_type_init(0, 0, 4, false);
    let lay = supported_layout(&cn, 8).unwrap();
    assert_eq!(lay.record_length, 8);
    assert_eq!(lay.pos, 2);
    assert_eq!(lay.elem_bytes, 4);
    assert_eq!(lay.per_record, 1);
    assert!(!lay.big_endian);
    // the same channel does not lie within records of 5 bytes
    assert_eq!(supported_layout(&cn, 5).err(), Some(MdfError::UnsupportedEncoding));
    assert!(supported_layout(&cn, 6).is_ok());
    // values of five bytes do not fit a column of integers of 24 bits
    let mut wide = pc_channel("b", 0, 0, 0, 40);
    wide.data = ChannelData::UInt24(Vec::new());
    assert_eq!(supported_layout(&wide, 16).err(), Some(MdfError::UnsupportedEncoding));
    wide.data = data_type_init(0, 0, 5, false);
    assert_eq!(supported_layout(&wide, 16).unwrap().elem_bytes, 5);
    // an array whose description is missing
    let mut array = pc_channel("c", 0, 0, 0, 16);
    array.data = data_type_init(0, 0, 2, true);
    assert_eq!(supported_layout(&array, 16).err(), Some(MdfError::UnsupportedEncoding));
}

#[test]
fn kinds_of_columns_tell_what_they_hold() {
    let signed = data_type_init(0, 2, 3, false).elem_kind();
    assert!(signed.is_signed());
    assert!(signed.is_integer());
    assert!(signed.is_numeric());
    assert!(!signed.is_text());
    let unsigned = data_type_init(0, 0, 3, false).elem_kind();
    assert!(!unsigned.is_signed());
    assert!(unsigned.is_integer());
    let float = data_type_init(0, 4, 8, false).elem_kind();
    assert!(!float.is_signed());
    assert!(!float.is_integer());
    assert!(float.is_numeric());
    let text = data_type_init(0, 7, 8, false).elem_kind();
    assert!(text.is_text());
    assert!(!text.is_numeric());
    let bytes = data_type_init(0, 10, 8, false).elem_kind();
    assert!(!bytes.is_text());
    assert!(!bytes.is_numeric());
}
