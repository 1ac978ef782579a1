use mdfr::error::MdfError;
use mdfr::mdfinfo::mdfinfo3::{hd3_parser, parse_three_numbers, parse_tx, Conversion, ThreeNumbers};
use mdfr::mdfinfo::{parse_id_block, select_format, Format, MdfInfo};
use mdfr::mdfreader::channel_data::ChannelData;
use mdfr::mdfreader::conversions4::{conversion_action3, ConversionAction};

fn v3_put_u16(file: &mut Vec<u8>, at: usize, v: u16) {
    file[at..at + 2].copy_from_slice(&v.to_le_bytes());
}

fn v3_put_u32(file: &mut Vec<u8>, at: usize, v: u32) {
    file[at..at + 4].copy_from_slice(&v.to_le_bytes());
}

fn v3_text(file: &mut Vec<u8>, at: usize, text: &str) {
    file[at..at + text.len()].copy_from_slice(text.as_bytes());
}

fn v3_header(ver: u16, date: &str, time: &str) -> Vec<u8> {
    let hd_len = if ver >= 320 { 208 } else { 164 };
    let mut file = vec![0u8; 64 + hd_len];
    v3_text(&mut file, 0, "MDF     ");
    v3_text(&mut file, 8, "3.20    ");
    v3_text(&mut file, 16, "tester  ");
    v3_put_u16(&mut file, 28, ver);
    v3_text(&mut file, 64, "HD");
    v3_put_u16(&mut file, 66, hd_len as u16);
    v3_text(&mut file, 64 + 18, date);
    v3_text(&mut file, 64 + 28, time);
    v3_text(&mut file, 64 + 36, "Ada");
    v3_text(&mut file, 64 + 68, "Lab");
    v3_text(&mut file, 64 + 100, "Engine");
    v3_text(&mut file, 64 + 132, "Run 7");
    if ver >= 320 {
        file[64 + 164..64 + 172].copy_from_slice(&1_600_000_000_000_000_000u64.to_le_bytes());
        file[64 + 172..64 + 174].copy_from_slice(&(-2i16).to_le_bytes());
        v3_put_u16(&mut file, 64 + 174, 10);
        v3_text(&mut file, 64 + 176, "GPS");
    }
    file
}

fn v3_add_tx(file: &mut Vec<u8>, text: &str) -> u32 {
    let at = file.len() as u32;
    file.extend_from_slice(b"TX");
    file.extend_from_slice(&((4 + text.len() + 1) as u16).to_le_bytes());
    file.extend_from_slice(text.as_bytes());
    file.push(0);
    at
}

fn v3_add_dg(file: &mut Vec<u8>, n_record_ids: u16) -> u32 {
    let at = file.len();
    file.extend_from_slice(&[0u8; 28]);
    v3_text(file, at, "DG");
    v3_put_u16(file, at + 2, 28);
    v3_put_u16(file, at + 20, 1);
    v3_put_u16(file, at + 22, n_record_ids);
    at as u32
}

fn v3_add_cg(file: &mut Vec<u8>, record_id: u16, data_bytes: u16, cycles: u32) -> u32 {
    let at = file.len();
    file.extend_from_slice(&[0u8; 30]);
    v3_text(file, at, "CG");
    v3_put_u16(file, at + 2, 30);
    v3_put_u16(file, at + 16, record_id);
    v3_put_u16(file, at + 20, data_bytes);
    v3_put_u32(file, at + 22, cycles);
    at as u32
}

fn v3_add_cn(
    file: &mut Vec<u8>,
    name: &str,
    cn_type: u16,
    bit_offset: u16,
    bit_count: u16,
    data_type: u16,
) -> u32 {
    let at = file.len();
    file.extend_from_slice(&[0u8; 228]);
    v3_text(file, at, "CN");
    v3_put_u16(file, at + 2, 228);
    v3_put_u16(file, at + 24, cn_type);
    v3_text(file, at + 26, name);
    v3_text(file, at + 58, "described");
    v3_put_u16(file, at + 186, bit_offset);
    v3_put_u16(file, at + 188, bit_count);
    v3_put_u16(file, at + 190, data_type);
    at as u32
}

fn v3_add_cc_linear(file: &mut Vec<u8>, unit: &str, p1: f64, p2: f64) -> u32 {
    let at = file.len();
    file.extend_from_slice(&[0u8; 46]);
    v3_text(file, at, "CC");
    v3_put_u16(file, at + 2, 62);
    v3_text(file, at + 22, unit);
    v3_put_u16(file, at + 42, 0);
    v3_put_u16(file, at + 44, 2);
    file.extend_from_slice(&p1.to_le_bytes());
    file.extend_from_slice(&p2.to_le_bytes());
    at as u32
}

fn v3_add_ce_can(file: &mut Vec<u8>, message: &str, sender: &str) -> u32 {
    let at = file.len();
    file.extend_from_slice(&[0u8; 86]);
    v3_text(file, at, "CE");
    v3_put_u16(file, at + 2, 86);
    v3_put_u16(file, at + 4, 19);
    v3_put_u32(file, at + 6, 0x123);
    v3_put_u32(file, at + 10, 1);
    v3_text(file, at + 14, message);
    v3_text(file, at + 50, sender);
    at as u32
}

fn v3_add_ce_dim(file: &mut Vec<u8>, desc: &str, ecu: &str) -> u32 {
    let at = file.len();
    file.extend_from_slice(&[0u8; 124]);
    v3_text(file, at, "CE");
    v3_put_u16(file, at + 2, 124);
    v3_put_u16(file, at + 4, 2);
    v3_put_u16(file, at + 6, 5);
    v3_put_u32(file, at + 8, 0x4000);
    v3_text(file, at + 12, desc);
    v3_text(file, at + 92, ecu);
    at as u32
}

/// A file of two data groups. The first holds a time channel and a counter
/// named "Speed"; the second a "Speed" with a CAN source and a "Speed"
/// without one.
fn v3_sample_file() -> Vec<u8> {
    let mut file = v3_header(320, "24:12:2021", "13:45:59");
    let comment = v3_add_tx(&mut file, "first run");
    v3_put_u32(&mut file, 64 + 8, comment);
    // first data group: sorted
    let dg1 = v3_add_dg(&mut file, 0);
    v3_put_u32(&mut file, 64 + 4, dg1);
    let cg1 = v3_add_cg(&mut file, 0, 10, 4);
    v3_put_u32(&mut file, dg1 as usize + 8, cg1);
    let time = v3_add_cn(&mut file, "time", 1, 0, 64, 3);
    v3_put_u32(&mut file, cg1 as usize + 8, time);
    let speed = v3_add_cn(&mut file, "Speed", 0, 64, 16, 0);
    v3_put_u32(&mut file, time as usize + 4, speed);
    let cc = v3_add_cc_linear(&mut file, "km/h", 1.0, 0.5);
    v3_put_u32(&mut file, speed as usize + 8, cc);
    let long_comment = v3_add_tx(&mut file, "wheel speed");
    v3_put_u32(&mut file, speed as usize + 20, long_comment);
    let data1 = file.len() as u32;
    for i in 0..4u16 {
        file.extend_from_slice(&(i as f64 * 0.25).to_le_bytes());
        file.extend_from_slice(&(100 + i).to_le_bytes());
    }
    v3_put_u32(&mut file, dg1 as usize + 16, data1);
    // second data group: two channels named "Speed" again
    let dg2 = v3_add_dg(&mut file, 0);
    v3_put_u32(&mut file, dg1 as usize + 4, dg2);
    let cg2 = v3_add_cg(&mut file, 0, 3, 2);
    v3_put_u32(&mut file, dg2 as usize + 8, cg2);
    let speed2 = v3_add_cn(&mut file, "Speed", 0, 0, 8, 0);
    v3_put_u32(&mut file, cg2 as usize + 8, speed2);
    let ce = v3_add_ce_can(&mut file, "ECU1", "gateway");
    v3_put_u32(&mut file, speed2 as usize + 12, ce);
    v3_put_u32(&mut file, speed2 as usize + 8, cc);
    let speed3 = v3_add_cn(&mut file, "Speed", 0, 8, 16, 9);
    v3_put_u32(&mut file, speed2 as usize + 4, speed3);
    let data2 = file.len() as u32;
    file.extend_from_slice(&[7, 0x01, 0x02, 8, 0x03, 0x04]);
    v3_put_u32(&mut file, dg2 as usize + 16, data2);
    file
}

fn v3_info(file: &[u8]) -> MdfInfo {
    MdfInfo::new(file, "sample.dat").unwrap()
}

#[test]
fn info_test() {
    let file = v3_sample_file();
    let info = v3_info(&file);
    assert_eq!(info.get_version(), 320);
    let mut v4 = file.clone();
    v3_put_u16(&mut v4, 28, 410);
    assert_eq!(parse_id_block(&v4).unwrap().id_ver, 410);
    assert_eq!(select_format(410), Format::V4);
    assert_eq!(select_format(399), Format::V3);
    assert_eq!(select_format(400), Format::V4);
    assert_eq!(select_format(320), Format::V3);
}

#[test]
fn the_header_of_version_3_is_read() {
    let file = v3_sample_file();
    let (hd, position) = hd3_parser(&file, 320).unwrap();
    assert_eq!(position, 272);
    assert_eq!(hd.hd_date.day, 24);
    assert_eq!(hd.hd_date.month, 12);
    assert_eq!(hd.hd_date.year, 2021);
    assert_eq!(hd.hd_time.hour, 13);
    assert_eq!(hd.hd_time.minute, 45);
    assert_eq!(hd.hd_time.second, 59);
    assert_eq!(hd.hd_author.trim_end_matches('\0'), "Ada");
    assert_eq!(hd.hd_author.len(), 32);
    assert_eq!(hd.hd_organization.trim_end_matches('\0'), "Lab");
    assert_eq!(hd.hd_project.trim_end_matches('\0'), "Engine");
    assert_eq!(hd.hd_subject.trim_end_matches('\0'), "Run 7");
    assert_eq!(hd.hd_start_time_ns, Some(1_600_000_000_000_000_000));
    assert_eq!(hd.hd_time_offset, Some(-2));
    assert_eq!(hd.hd_time_quality, Some(10));
    assert_eq!(hd.hd_time_identifier.unwrap().trim_end_matches('\0'), "GPS");
    match v3_info(&file) {
        MdfInfo::V3(info) => {
            assert_eq!(info.hd_comment, "first run");
            assert_eq!(info.file_name, "sample.dat");
            assert_eq!(info.dg.len(), 2);
            assert_eq!(info.dg[0].cg[0].cn.len(), 2);
            assert_eq!(info.dg[0].cg[0].record_length, 10);
            assert_eq!(info.dg[0].cg[0].cn[1].pos_byte_beg, 8);
            assert_eq!(info.dg[0].cg[0].cn[1].n_bytes, 2);
            assert_eq!(info.dg[0].cg[0].cn[1].comment, "wheel speed");
        }
        MdfInfo::V4(_) => panic!("a file of version 3 was read as version 4"),
    }
}

#[test]
fn older_headers_get_their_start_time_from_the_calendar() {
    let file = v3_header(310, "01:01:1970", "00:00:01");
    let (hd, position) = hd3_parser(&file, 310).unwrap();
    assert_eq!(position, 228);
    assert_eq!(hd.hd_start_time_ns, Some(1_000_000_000));
    assert_eq!(hd.hd_time_offset, None);
    assert_eq!(hd.hd_time_identifier, None);
    let later = v3_header(310, "02:01:1970", "00:00:00");
    assert_eq!(hd3_parser(&later, 310).unwrap().0.hd_start_time_ns, Some(86_400_000_000_000));
    // a day that the calendar does not have
    let wrong = v3_header(310, "31:02:2020", "00:00:00");
    assert_eq!(
        hd3_parser(&wrong, 310).err(),
        Some(MdfError::MalformedDate { offset: 64 })
    );
    // a time before 1970
    let early = v3_header(310, "31:12:1969", "23:59:59");
    assert_eq!(
        hd3_parser(&early, 310).err(),
        Some(MdfError::MalformedDate { offset: 64 })
    );
    // from version 3.2 on the calendar is not asked
    let stored = v3_header(320, "31:02:2020", "00:00:00");
    assert!(hd3_parser(&stored, 320).is_ok());
}

#[test]
fn dates_are_three_numbers_between_colons() {
    assert_eq!(
        parse_three_numbers(b"01:02:2020", true),
        Some(ThreeNumbers { first: 1, second: 2, third: 2020 })
    );
    assert_eq!(
        parse_three_numbers(b"1:+2:-44", true),
        Some(ThreeNumbers { first: 1, second: 2, third: -44 })
    );
    assert_eq!(
        parse_three_numbers(b"23:59:58:77", false),
        Some(ThreeNumbers { first: 23, second: 59, third: 58 })
    );
    assert_eq!(parse_three_numbers(b"23:59", false), None);
    assert_eq!(parse_three_numbers(b"23:59:", false), None);
    assert_eq!(parse_three_numbers(b"a:1:2", false), None);
    assert_eq!(parse_three_numbers(b"1:2:3 ", false), None);
    assert_eq!(parse_three_numbers(b"1:2:-3", false), None);
    assert_eq!(parse_three_numbers(b"4294967296:2:3", false), None);
    assert_eq!(
        parse_three_numbers(b"4294967295:2:-2147483648", true),
        Some(ThreeNumbers { first: 4294967295, second: 2, third: -2147483648 })
    );
    assert_eq!(parse_three_numbers(b"1:2:2147483648", true), None);
    assert_eq!(parse_three_numbers(b"", true), None);
}

#[test]
fn malformed_dates_end_the_parse() {
    let mut file = v3_sample_file();
    v3_text(&mut file, 64 + 18, "24-12-2021");
    assert_eq!(MdfInfo::new(&file, "f").err(), Some(MdfError::MalformedDate { offset: 64 }));
}

#[test]
fn colliding_names_get_a_suffix() {
    let file = v3_sample_file();
    let info = v3_info(&file);
    let mut names = info.get_channel_names_set();
    names.sort();
    let third = match &info {
        MdfInfo::V3(i) => i.dg[1].cg[0].cn[1].block_position,
        MdfInfo::V4(_) => panic!("a file of version 3 was read as version 4"),
    };
    let mut expected = vec![
        "time".to_string(),
        "Speed".to_string(),
        "Speed ECU1".to_string(),
        format!("Speed {}", third),
    ];
    expected.sort();
    assert_eq!(names, expected);
    match &info {
        MdfInfo::V3(i) => {
            assert_eq!(i.dg[0].cg[0].cn[1].unique_name, "Speed");
            assert_eq!(i.dg[1].cg[0].cn[0].unique_name, "Speed ECU1");
            assert_eq!(i.dg[1].cg[0].cn[1].unique_name, format!("Speed {}", third));
            assert_eq!(i.dg[0].cg[0].channel_names, vec!["time", "Speed"]);
        }
        MdfInfo::V4(_) => panic!("a file of version 3 was read as version 4"),
    }
}

#[test]
fn an_ecu_name_serves_as_suffix_too() {
    let mut file = v3_sample_file();
    // give the last channel a DIM extension
    let last = match v3_info(&file) {
        MdfInfo::V3(i) => i.dg[1].cg[0].cn[1].block_position,
        MdfInfo::V4(_) => panic!("a file of version 3 was read as version 4"),
    };
    let ce = v3_add_ce_dim(&mut file, "engine control", "ECU7");
    v3_put_u32(&mut file, last as usize + 12, ce);
    match v3_info(&file) {
        MdfInfo::V3(i) => {
            assert_eq!(i.dg[1].cg[0].cn[1].unique_name, "Speed ECU7");
        }
        MdfInfo::V4(_) => panic!("a file of version 3 was read as version 4"),
    }
}

#[test]
fn masters_units_and_descriptions_are_found_by_name() {
    let file = v3_sample_file();
    let info = v3_info(&file);
    assert_eq!(info.get_channel_master(&"Speed".to_string()), "time");
    assert_eq!(info.get_channel_master(&"time".to_string()), "time");
    let second = match &info {
        MdfInfo::V3(i) => i.dg[1].cg[0].block_position,
        MdfInfo::V4(_) => panic!("a file of version 3 was read as version 4"),
    };
    assert_eq!(
        info.get_channel_master(&"Speed ECU1".to_string()),
        format!("master_{}", second)
    );
    assert_eq!(info.get_channel_master(&"nothing".to_string()), "");
    assert_eq!(info.get_channel_unit(&file, &"Speed".to_string()), "km/h");
    assert_eq!(info.get_channel_unit(&file, &"Speed ECU1".to_string()), "km/h");
    assert_eq!(info.get_channel_unit(&file, &"time".to_string()), "");
    assert_eq!(info.get_channel_unit(&file, &"nothing".to_string()), "");
    assert_eq!(info.get_channel_desc(&file, &"Speed".to_string()), "described");
    assert_eq!(info.get_channel_desc(&file, &"nothing".to_string()), "");
    assert_eq!(info.get_channel_master_type(&"Speed".to_string()), 1);
    assert_eq!(info.get_channel_master_type(&"nothing".to_string()), 0);
    match &info {
        MdfInfo::V3(i) => {
            let id = i.get_channel_id(&"Speed ECU1".to_string()).unwrap();
            assert_eq!(id.dg_pos, i.dg[1].block_position);
            assert_eq!(id.cg_pos, second);
            assert_eq!(id.cn_pos, i.dg[1].cg[0].cn[0].block_position);
            assert!(i.get_channel_id(&"nothing".to_string()).is_none());
            assert_eq!(i.sharable.cc.len(), 1);
            assert_eq!(i.sharable.ce.len(), 1);
            let entry = i.sharable.cc.values().next().unwrap();
            match &entry.conversion {
                Conversion::Linear(p) => {
                    assert_eq!(f64::from_bits(p[0]), 1.0);
                    assert_eq!(f64::from_bits(p[1]), 0.5);
                }
                other => panic!("unexpected {:?}", other),
            }
        }
        MdfInfo::V4(_) => panic!("a file of version 3 was read as version 4"),
    }
}

#[test]
fn parse_file() {
    let file = v3_sample_file();
    let mut info = v3_info(&file);
    info.load_all_channels_data_in_memory(&file).unwrap();
    match info.get_channel_data(&"time".to_string()).unwrap() {
        ChannelData::Float64(v) => {
            let got: Vec<f64> = v.iter().map(|b| f64::from_bits(*b)).collect();
            assert_eq!(got, vec![0.0, 0.25, 0.5, 0.75]);
        }
        other => panic!("unexpected {:?}", other),
    }
    match info.get_channel_data(&"Speed".to_string()).unwrap() {
        ChannelData::UInt16(v) => assert_eq!(v, &vec![100, 101, 102, 103]),
        other => panic!("unexpected {:?}", other),
    }
    match info.get_channel_data(&"Speed ECU1".to_string()).unwrap() {
        ChannelData::UInt8(v) => assert_eq!(v, &vec![7, 8]),
        other => panic!("unexpected {:?}", other),
    }
    // data type 9 is an unsigned integer in big endian
    let names = info.get_channel_names_set();
    let last = names.iter().find(|n| n.starts_with("Speed ") && *n != "Speed ECU1").unwrap();
    match info.get_channel_data(last).unwrap() {
        ChannelData::UInt16(v) => assert_eq!(v, &vec![0x0102, 0x0304]),
        other => panic!("unexpected {:?}", other),
    }
    assert!(info.get_channel_data(&"nothing".to_string()).is_none());
    match &info {
        MdfInfo::V3(i) => assert!(i.dg[0].cg[0].cn[0].channel_data_valid),
        MdfInfo::V4(_) => panic!("a file of version 3 was read as version 4"),
    }
    // clearing drops the samples of the listed channels only
    info.clear_channel_data_from_memory(&vec!["Speed".to_string()]);
    assert!(info.get_channel_data(&"Speed".to_string()).unwrap().is_empty());
    assert!(!info.get_channel_data(&"time".to_string()).unwrap().is_empty());
    // and they can be read again
    info.load_channels_data_in_memory(&file, &vec!["Speed".to_string()]).unwrap();
    match info.get_channel_data(&"Speed".to_string()).unwrap() {
        ChannelData::UInt16(v) => assert_eq!(v, &vec![100, 101, 102, 103]),
        other => panic!("unexpected {:?}", other),
    }
}

#[test]
fn only_listed_channels_are_read() {
    let file = v3_sample_file();
    let mut info = v3_info(&file);
    info.load_channels_data_in_memory(&file, &vec!["Speed".to_string()]).unwrap();
    assert_eq!(info.get_channel_data(&"Speed".to_string()).unwrap().len(), 4);
    assert!(info.get_channel_data(&"time".to_string()).unwrap().is_empty());
}

#[test]
fn unsorted_records_of_version_3_are_sorted_by_record_id() {
    let mut file = v3_header(320, "24:12:2021", "13:45:59");
    let dg = v3_add_dg(&mut file, 1);
    v3_put_u32(&mut file, 64 + 4, dg);
    let cg1 = v3_add_cg(&mut file, 1, 2, 3);
    v3_put_u32(&mut file, dg as usize + 8, cg1);
    let a = v3_add_cn(&mut file, "a", 0, 0, 16, 0);
    v3_put_u32(&mut file, cg1 as usize + 8, a);
    let cg2 = v3_add_cg(&mut file, 2, 1, 2);
    v3_put_u32(&mut file, cg1 as usize + 4, cg2);
    let b = v3_add_cn(&mut file, "b", 0, 0, 8, 1);
    v3_put_u32(&mut file, cg2 as usize + 8, b);
    let data = file.len() as u32;
    file.extend_from_slice(&[1, 10, 0, 2, 0xff, 1, 11, 0, 1, 12, 0, 2, 0xfe]);
    v3_put_u32(&mut file, dg as usize + 16, data);
    let mut info = v3_info(&file);
    info.load_all_channels_data_in_memory(&file).unwrap();
    match info.get_channel_data(&"a".to_string()).unwrap() {
        ChannelData::UInt16(v) => assert_eq!(v, &vec![10, 11, 12]),
        other => panic!("unexpected {:?}", other),
    }
    match info.get_channel_data(&"b".to_string()).unwrap() {
        ChannelData::Int8(v) => assert_eq!(v, &vec![-1, -2]),
        other => panic!("unexpected {:?}", other),
    }
}

#[test]
fn short_files_are_corrupt() {
    let file = v3_sample_file();
    assert_eq!(
        MdfInfo::new(&file[..40], "f").err(),
        Some(MdfError::CorruptBlock { offset: 0, expected: 64, actual: 40 })
    );
    assert_eq!(
        MdfInfo::new(&file[..100], "f").err(),
        Some(MdfError::CorruptBlock { offset: 64, expected: 164, actual: 36 })
    );
    assert_eq!(
        MdfInfo::new(&file[..250], "f").err(),
        Some(MdfError::CorruptBlock { offset: 64, expected: 208, actual: 186 })
    );
    // the first channel block is cut
    let first_cn = match v3_info(&file) {
        MdfInfo::V3(i) => i.dg[0].cg[0].cn[0].block_position as usize,
        MdfInfo::V4(_) => panic!("a file of version 3 was read as version 4"),
    };
    let cut = &file[..first_cn + 100];
    assert_eq!(
        MdfInfo::new(cut, "f").err(),
        Some(MdfError::CorruptBlock { offset: first_cn as u64, expected: 228, actual: 100 })
    );
    // the records are cut
    let mut info = v3_info(&file);
    let short = &file[..file.len() - 1];
    let err = info.load_all_channels_data_in_memory(short).err().unwrap();
    assert!(matches!(err, MdfError::CorruptBlock { .. }));
    assert!(err.is_fatal());
}

#[test]
fn wrong_identifiers_are_unexpected_blocks() {
    let mut file = v3_sample_file();
    let (first_dg, first_cg) = match v3_info(&file) {
        MdfInfo::V3(i) => (i.dg[0].block_position, i.dg[0].cg[0].block_position),
        MdfInfo::V4(_) => panic!("a file of version 3 was read as version 4"),
    };
    v3_text(&mut file, first_cg as usize, "XX");
    assert_eq!(
        MdfInfo::new(&file, "f").err(),
        Some(MdfError::UnexpectedBlockType { offset: first_cg as u64 })
    );
    v3_text(&mut file, first_dg as usize, "CG");
    assert_eq!(
        MdfInfo::new(&file, "f").err(),
        Some(MdfError::UnexpectedBlockType { offset: first_dg as u64 })
    );
    v3_text(&mut file, 0, "NOTMDF  ");
    assert_eq!(
        MdfInfo::new(&file, "f").err(),
        Some(MdfError::UnexpectedBlockType { offset: 0 })
    );
}

#[test]
fn chains_that_run_in_a_circle_are_refused() {
    let mut file = v3_sample_file();
    let first_cn = match v3_info(&file) {
        MdfInfo::V3(i) => i.dg[0].cg[0].cn[0].block_position,
        MdfInfo::V4(_) => panic!("a file of version 3 was read as version 4"),
    };
    // the second channel links back to the first
    let second_cn = u32::from_le_bytes([
        file[first_cn as usize + 4],
        file[first_cn as usize + 5],
        file[first_cn as usize + 6],
        file[first_cn as usize + 7],
    ]);
    v3_put_u32(&mut file, second_cn as usize + 4, first_cn);
    let err = MdfInfo::new(&file, "f").err().unwrap();
    assert!(matches!(err, MdfError::UnexpectedBlockType { .. }));
}

#[test]
fn text_blocks_are_read_as_latin_1() {
    let mut file = vec![0u8; 10];
    let at = file.len() as u32;
    file.extend_from_slice(b"TX");
    file.extend_from_slice(&9u16.to_le_bytes());
    file.extend_from_slice(&[b'm', 0xfc, b'd', 0, 0]);
    let (header, text, position) = parse_tx(&file, at).unwrap();
    assert_eq!(&header.hdr_id, b"TX");
    assert_eq!(header.hdr_len, 9);
    assert_eq!(text, "m\u{fc}d");
    assert_eq!(position, 19);
    // a declared length beyond the end of the file
    file[12] = 200;
    assert_eq!(
        parse_tx(&file, at).err(),
        Some(MdfError::CorruptBlock { offset: 10, expected: 200, actual: 9 })
    );
    // a declared length below that of the header
    file[12] = 3;
    assert_eq!(
        parse_tx(&file, at).err(),
        Some(MdfError::CorruptBlock { offset: 10, expected: 4, actual: 3 })
    );
}

#[test]
fn linear_rules_of_version_3_call_for_a_conversion() {
    let file = v3_sample_file();
    let mut info = v3_info(&file);
    assert!(info.is_well_formed());
    // without samples there is nothing to convert
    match &info {
        MdfInfo::V3(i) => {
            let speed = &i.dg[0].cg[0].cn[1];
            assert_eq!(conversion_action3(speed, &i.sharable.cc), ConversionAction::Keep);
        }
        MdfInfo::V4(_) => panic!("a file of version 3 was read as version 4"),
    }
    info.load_all_channels_data_in_memory(&file).unwrap();
    assert!(info.is_well_formed());
    match &info {
        MdfInfo::V3(i) => {
            let time = &i.dg[0].cg[0].cn[0];
            let speed = &i.dg[0].cg[0].cn[1];
            assert_eq!(speed.unique_name, "Speed");
            assert_eq!(
                conversion_action3(speed, &i.sharable.cc),
                ConversionAction::Linear { p1: 1.0f64.to_bits(), p2: 0.5f64.to_bits() }
            );
            // a channel without a rule keeps its raw values
            assert_eq!(conversion_action3(time, &i.sharable.cc), ConversionAction::Keep);
            // physical values of the linear rule: raw * p2 + p1
            let raw = match &speed.data {
                ChannelData::UInt16(v) => v.clone(),
                other => panic!("unexpected {:?}", other),
            };
            let physical: Vec<f64> = raw.iter().map(|m| *m as f64 * 0.5 + 1.0).collect();
            assert_eq!(physical, vec![51.0, 51.5, 52.0, 52.5]);
        }
        MdfInfo::V4(_) => panic!("a file of version 3 was read as version 4"),
    }
}

#[test]
fn channels_are_listed_by_their_master() {
    let file = v3_sample_file();
    let info = v3_info(&file);
    let (second, third) = match &info {
        MdfInfo::V3(i) => (i.dg[1].cg[0].block_position, i.dg[1].cg[0].cn[1].block_position),
        MdfInfo::V4(_) => panic!("a file of version 3 was read as version 4"),
    };
    let list = info.get_master_channel_names_set();
    assert_eq!(list.len(), 2);
    assert_eq!(list[0].master, "time");
    assert_eq!(list[0].channels, vec!["time".to_string(), "Speed".to_string()]);
    assert_eq!(list[1].master, format!("master_{}", second));
    assert_eq!(list[1].channels, vec!["Speed ECU1".to_string(), format!("Speed {}", third)]);
}

#[test]
fn reading_twice_gives_the_same() {
    let file = v3_sample_file();
    let first = v3_info(&file);
    let second = v3_info(&file);
    assert_eq!(first.get_version(), second.get_version());
    match (&first, &second) {
        (MdfInfo::V3(a), MdfInfo::V3(b)) => {
            assert_eq!(a.id_block, b.id_block);
            assert_eq!(format!("{:?}", a.hd_block), format!("{:?}", b.hd_block));
            assert_eq!(a.hd_comment, b.hd_comment);
            assert_eq!(format!("{:?}", a.dg), format!("{:?}", b.dg));
            assert_eq!(
                format!("{:?}", a.channel_names_set),
                format!("{:?}", b.channel_names_set)
            );
            assert_eq!(a.sharable.cc.len(), b.sharable.cc.len());
            for (link, entry) in a.sharable.cc.iter() {
                assert_eq!(format!("{:?}", entry), format!("{:?}", b.sharable.cc[link]));
            }
            assert_eq!(a.sharable.ce.len(), b.sharable.ce.len());
            for (link, entry) in a.sharable.ce.iter() {
                assert_eq!(format!("{:?}", entry), format!("{:?}", b.sharable.ce[link]));
            }
        }
        _ => panic!("a file of version 3 was read as version 4"),
    }
    // a file that cannot be read gives the same error twice
    assert_eq!(MdfInfo::new(&file[..100], "f").err(), MdfInfo::new(&file[..100], "f").err());
}
