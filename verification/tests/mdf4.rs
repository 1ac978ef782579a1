use mdfr::error::MdfError;
use mdfr::mdfinfo::mdfinfo4::{
    comment_status, hd4_comment_parser, hd4_parser, parse_fh, parse_id4, parse_md, Compo,
};
use mdfr::mdfinfo::MdfInfo;
use mdfr::mdfreader::channel_data::ChannelData;
use mdfr::mdfreader::conversions4::{convert_all_channels, ConversionAction};
use mdfr::mdfreader::data_blocks::{read_data_stream, untranspose};
use mdfr::mdfreader::data_read4::read_channels_from_bytes;
use mdfr::mdfreader::mdfreader4::{finish_sorted, initialise_arrays, read_data};
use mdfr::mdfreader::streamed::{find_records, plan_pieces, read_in_pieces, Piece};
use std::io::Write;

fn m4_block(file: &mut Vec<u8>, id: &[u8; 4], links: &[i64], data: &[u8]) -> i64 {
    while file.len() % 8 != 0 {
        file.push(0);
    }
    let at = file.len() as i64;
    file.extend_from_slice(id);
    file.extend_from_slice(&[0u8; 4]);
    file.extend_from_slice(&((24 + 8 * links.len() + data.len()) as u64).to_le_bytes());
    file.extend_from_slice(&(links.len() as u64).to_le_bytes());
    for l in links {
        file.extend_from_slice(&l.to_le_bytes());
    }
    file.extend_from_slice(data);
    at
}

fn m4_start(ver: u16) -> Vec<u8> {
    let mut file = vec![0u8; 64];
    file[0..8].copy_from_slice(b"MDF     ");
    file[8..16].copy_from_slice(b"4.10    ");
    file[16..24].copy_from_slice(b"tester  ");
    file[28..30].copy_from_slice(&ver.to_le_bytes());
    let mut data = vec![0u8; 32];
    data[0..8].copy_from_slice(&1_700_000_000_000_000_000u64.to_le_bytes());
    data[8..10].copy_from_slice(&60i16.to_le_bytes());
    let hd = m4_block(&mut file, b"##HD", &[0; 6], &data);
    assert_eq!(hd, 64);
    file
}

fn m4_set_link(file: &mut Vec<u8>, block: i64, index: usize, target: i64) {
    let at = block as usize + 24 + 8 * index;
    file[at..at + 8].copy_from_slice(&target.to_le_bytes());
}

fn m4_tx(file: &mut Vec<u8>, text: &str) -> i64 {
    let mut data = text.as_bytes().to_vec();
    data.push(0);
    m4_block(file, b"##TX", &[], &data)
}

fn m4_md(file: &mut Vec<u8>, xml: &str) -> i64 {
    let mut data = xml.as_bytes().to_vec();
    data.push(0);
    m4_block(file, b"##MD", &[], &data)
}

fn m4_cn(
    file: &mut Vec<u8>,
    name: &str,
    next: i64,
    cn_type: u8,
    sync: u8,
    data_type: u8,
    byte_offset: u32,
    bit_count: u32,
    cc: i64,
    composition: i64,
) -> i64 {
    let tx = m4_tx(file, name);
    let mut data = vec![0u8; 72];
    data[0] = cn_type;
    data[1] = sync;
    data[2] = data_type;
    data[4..8].copy_from_slice(&byte_offset.to_le_bytes());
    data[8..12].copy_from_slice(&bit_count.to_le_bytes());
    m4_block(file, b"##CN", &[next, composition, tx, 0, cc, 0, 0, 0], &data)
}

fn m4_cg(
    file: &mut Vec<u8>,
    next: i64,
    cn_first: i64,
    record_id: u64,
    cycles: u64,
    flags: u16,
    data_bytes: u32,
    inval_bytes: u32,
) -> i64 {
    let mut data = vec![0u8; 32];
    data[0..8].copy_from_slice(&record_id.to_le_bytes());
    data[8..16].copy_from_slice(&cycles.to_le_bytes());
    data[16..18].copy_from_slice(&flags.to_le_bytes());
    data[24..28].copy_from_slice(&data_bytes.to_le_bytes());
    data[28..32].copy_from_slice(&inval_bytes.to_le_bytes());
    m4_block(file, b"##CG", &[next, cn_first, 0, 0, 0, 0], &data)
}

fn m4_dg(file: &mut Vec<u8>, next: i64, cg_first: i64, data: i64, rec_id_size: u8) -> i64 {
    let mut d = vec![0u8; 8];
    d[0] = rec_id_size;
    m4_block(file, b"##DG", &[next, cg_first, data, 0], &d)
}

fn m4_cc(file: &mut Vec<u8>, cc_type: u8, vals: &[f64]) -> i64 {
    let mut data = vec![0u8; 24];
    data[0] = cc_type;
    data[6..8].copy_from_slice(&(vals.len() as u16).to_le_bytes());
    for v in vals {
        data.extend_from_slice(&v.to_le_bytes());
    }
    m4_block(file, b"##CC", &[0, 0, 0, 0], &data)
}

fn m4_dz(file: &mut Vec<u8>, records: &[u8], transposed_columns: Option<u32>) -> i64 {
    let stored: Vec<u8> = match transposed_columns {
        Some(n) => {
            let n = n as usize;
            let rows = records.len() / n;
            let mut t = Vec::with_capacity(records.len());
            for c in 0..n {
                for r in 0..rows {
                    t.push(records[r * n + c]);
                }
            }
            t.extend_from_slice(&records[rows * n..]);
            t
        }
        None => records.to_vec(),
    };
    let mut encoder = flate2::write::ZlibEncoder::new(Vec::new(), flate2::Compression::default());
    encoder.write_all(&stored).unwrap();
    let zipped = encoder.finish().unwrap();
    let mut data = Vec::new();
    data.extend_from_slice(b"DT");
    data.push(if transposed_columns.is_some() { 1 } else { 0 });
    data.push(0);
    data.extend_from_slice(&transposed_columns.unwrap_or(0).to_le_bytes());
    data.extend_from_slice(&(records.len() as u64).to_le_bytes());
    data.extend_from_slice(&(zipped.len() as u64).to_le_bytes());
    data.extend_from_slice(&zipped);
    m4_block(file, b"##DZ", &[], &data)
}

fn m4_dl(file: &mut Vec<u8>, next: i64, blocks: &[i64]) -> i64 {
    let mut links = vec![next];
    links.extend_from_slice(blocks);
    let mut data = vec![0u8; 8];
    data[4..8].copy_from_slice(&(blocks.len() as u32).to_le_bytes());
    m4_block(file, b"##DL", &links, &data)
}

fn m4_words() -> Vec<String> {
    ["zero", "one", "two", "three", "four", "five", "six", "seven", "eight", "nine"]
        .iter()
        .map(|w| w.to_string())
        .collect()
}

/// A file with one sorted data group: a master of time as doubles and a
/// channel of strings of 16 bytes in the given encoding.
fn m4_string_file(data_type: u8) -> Vec<u8> {
    let mut file = m4_start(410);
    let mut records = Vec::new();
    for (i, w) in m4_words().iter().enumerate() {
        records.extend_from_slice(&(i as f64).to_le_bytes());
        let mut field: Vec<u8> = match data_type {
            8 => w.encode_utf16().flat_map(|u| u.to_le_bytes()).collect(),
            9 => w.encode_utf16().flat_map(|u| u.to_be_bytes()).collect(),
            _ => w.as_bytes().to_vec(),
        };
        field.resize(16, 0);
        records.extend_from_slice(&field);
    }
    let dt = m4_block(&mut file, b"##DT", &[], &records);
    let data = m4_cn(&mut file, "Data channel", 0, 0, 0, data_type, 8, 128, 0, 0);
    let time = m4_cn(&mut file, "Time channel", data, 2, 1, 4, 0, 64, 0, 0);
    let cg = m4_cg(&mut file, 0, time, 0, 10, 0, 24, 0);
    let dg = m4_dg(&mut file, 0, cg, dt, 0);
    m4_set_link(&mut file, 64, 0, dg);
    file
}

fn m4_loaded(file: &[u8]) -> MdfInfo {
    let mut info = MdfInfo::new(file, "sample.mf4").unwrap();
    info.load_all_channels_data_in_memory(file).unwrap();
    info
}

fn m4_floats(data: &ChannelData) -> Vec<f64> {
    match data {
        ChannelData::Float64(v) => v.iter().map(|b| f64::from_bits(*b)).collect(),
        other => panic!("unexpected {:?}", other),
    }
}

#[test]
fn data_types() {
    let expected_string_result = m4_words();
    // UTF-8
    let info = m4_loaded(&m4_string_file(7));
    assert_eq!(info.get_version(), 410);
    assert_eq!(
        m4_floats(info.get_channel_data(&"Time channel".to_string()).unwrap()),
        vec![0., 1., 2., 3., 4., 5., 6., 7., 8., 9.]
    );
    match info.get_channel_data(&"Data channel".to_string()).unwrap() {
        ChannelData::StringUTF8(v) => assert_eq!(v, &expected_string_result),
        other => panic!("unexpected {:?}", other),
    }
    // UTF-16, big endian
    let info = m4_loaded(&m4_string_file(9));
    match info.get_channel_data(&"Data channel".to_string()).unwrap() {
        ChannelData::StringUTF16(v) => assert_eq!(v, &expected_string_result),
        other => panic!("unexpected {:?}", other),
    }
    // UTF-16, little endian
    let info = m4_loaded(&m4_string_file(8));
    match info.get_channel_data(&"Data channel".to_string()).unwrap() {
        ChannelData::StringUTF16(v) => assert_eq!(v, &expected_string_result),
        other => panic!("unexpected {:?}", other),
    }
    // single-byte characters
    let info = m4_loaded(&m4_string_file(6));
    match info.get_channel_data(&"Data channel".to_string()).unwrap() {
        ChannelData::StringSBC(v) => assert_eq!(v, &expected_string_result),
        other => panic!("unexpected {:?}", other),
    }
    // byte arrays
    let info = m4_loaded(&m4_string_file(10));
    assert_eq!(
        m4_floats(info.get_channel_data(&"Time channel".to_string()).unwrap()),
        vec![0., 1., 2., 3., 4., 5., 6., 7., 8., 9.]
    );
    match info.get_channel_data(&"Data channel".to_string()).unwrap() {
        ChannelData::FixedSizeByteArray(v, n) => {
            assert_eq!(*n, 16);
            assert_eq!(v.len(), 160);
            assert_eq!(&v[16..19], b"one");
        }
        other => panic!("unexpected {:?}", other),
    }
    // integers
    let mut file = m4_start(410);
    let mut records = Vec::new();
    for i in 0..201i64 {
        records.extend_from_slice(&(100 - i).to_be_bytes());
        records.extend_from_slice(&((100 - i) as i32).to_be_bytes());
        records.extend_from_slice(&((100 - i) as i16).to_le_bytes());
    }
    let dt = m4_block(&mut file, b"##DT", &[], &records);
    let c = m4_cn(&mut file, "Counter_INT16_LE", 0, 0, 0, 2, 12, 16, 0, 0);
    let b = m4_cn(&mut file, "Counter_INT32_BE", c, 0, 0, 3, 8, 32, 0, 0);
    let a = m4_cn(&mut file, "Counter_INT64_BE", b, 0, 0, 3, 0, 64, 0, 0);
    let cg = m4_cg(&mut file, 0, a, 0, 201, 0, 14, 0);
    let dg = m4_dg(&mut file, 0, cg, dt, 0);
    m4_set_link(&mut file, 64, 0, dg);
    let info = m4_loaded(&file);
    let mut vect: Vec<i64> = vec![100; 201];
    let mut counter: i64 = 0;
    vect.iter_mut().for_each(|v| {
        *v -= counter;
        counter += 1
    });
    match info.get_channel_data(&"Counter_INT64_BE".to_string()).unwrap() {
        ChannelData::Int64(v) => assert_eq!(v, &vect),
        other => panic!("unexpected {:?}", other),
    }
    let mut vect: Vec<i32> = vec![100; 201];
    let mut counter: i32 = 0;
    vect.iter_mut().for_each(|v| {
        *v -= counter;
        counter += 1
    });
    match info.get_channel_data(&"Counter_INT32_BE".to_string()).unwrap() {
        ChannelData::Int32(v) => assert_eq!(v, &vect),
        other => panic!("unexpected {:?}", other),
    }
    let mut vect: Vec<i16> = vec![100; 201];
    let mut counter: i16 = 0;
    vect.iter_mut().for_each(|v| {
        *v -= counter;
        counter += 1
    });
    match info.get_channel_data(&"Counter_INT16_LE".to_string()).unwrap() {
        ChannelData::Int16(v) => assert_eq!(v, &vect),
        other => panic!("unexpected {:?}", other),
    }
}

#[test]
fn channel_types() {
    // a virtual master of time: no bytes in the record, and a linear conversion
    let mut file = m4_start(410);
    let records: Vec<u8> = (0..101u8).collect();
    let dt = m4_block(&mut file, b"##DT", &[], &records);
    let cc = m4_cc(&mut file, 1, &[0.0, 0.03]);
    let value = m4_cn(&mut file, "Value", 0, 0, 0, 0, 0, 8, 0, 0);
    let time = m4_cn(&mut file, "Time channel", value, 3, 1, 0, 0, 0, cc, 0);
    let cg = m4_cg(&mut file, 0, time, 0, 101, 0, 1, 0);
    let dg = m4_dg(&mut file, 0, cg, dt, 0);
    m4_set_link(&mut file, 64, 0, dg);
    let info = m4_loaded(&file);
    assert_eq!(info.get_channel_master(&"Value".to_string()), "Time channel");
    assert_eq!(info.get_channel_master_type(&"Value".to_string()), 1);
    let raw = match info.get_channel_data(&"Time channel".to_string()).unwrap() {
        ChannelData::UInt64(v) => v.clone(),
        other => panic!("unexpected {:?}", other),
    };
    assert_eq!(raw, (0..101u64).collect::<Vec<u64>>());
    let actions = match &info {
        MdfInfo::V4(i) => convert_all_channels(&i.dg[0], &i.sharable.cc),
        MdfInfo::V3(_) => panic!("a file of version 4 was read as version 3"),
    };
    assert_eq!(actions.len(), 1);
    assert_eq!(actions[0][1], ConversionAction::Keep);
    let (p1, p2) = match actions[0][0] {
        ConversionAction::Linear { p1, p2 } => (f64::from_bits(p1), f64::from_bits(p2)),
        other => panic!("unexpected {:?}", other),
    };
    let data: Vec<f64> = raw.iter().map(|x| *x as f64 * p2 + p1).collect();
    let mut vect: Vec<f64> = vec![0.; 101];
    let mut counter: f64 = 0.;
    vect.iter_mut().for_each(|v| {
        *v = counter.clone() * 0.03;
        counter += 1.
    });
    assert_eq!(data, vect);
}

#[test]
fn conversions_are_chosen_by_type_and_kind() {
    let mut file = m4_start(410);
    let records = vec![0u8; 4 * 17];
    let dt = m4_block(&mut file, b"##DT", &[], &records);
    let identity = m4_cc(&mut file, 1, &[0.0, 1.0]);
    let minus_zero = m4_cc(&mut file, 1, &[-0.0, 1.0]);
    let rational = m4_cc(&mut file, 2, &[0.0, 1.0, 0.0, 0.0, 0.0, 1.0]);
    let table = m4_cc(&mut file, 4, &[0.0, 1.0, 1.0, 2.0]);
    let short = m4_cc(&mut file, 2, &[0.0, 1.0]);
    let linear = m4_cc(&mut file, 1, &[2.5, 4.0]);
    let g = m4_cn(&mut file, "complex", 0, 0, 0, 15, 9, 64, linear, 0);
    let f = m4_cn(&mut file, "text", g, 0, 0, 7, 5, 32, linear, 0);
    let e = m4_cn(&mut file, "short", f, 0, 0, 0, 4, 8, short, 0);
    let d = m4_cn(&mut file, "table", e, 0, 0, 0, 3, 8, table, 0);
    let c = m4_cn(&mut file, "rational", d, 0, 0, 0, 2, 8, rational, 0);
    let b = m4_cn(&mut file, "minus", c, 0, 0, 0, 1, 8, minus_zero, 0);
    let a = m4_cn(&mut file, "identity", b, 0, 0, 0, 0, 8, identity, 0);
    let cg = m4_cg(&mut file, 0, a, 0, 4, 0, 17, 0);
    let dg = m4_dg(&mut file, 0, cg, dt, 0);
    m4_set_link(&mut file, 64, 0, dg);
    let info = m4_loaded(&file);
    let actions = match &info {
        MdfInfo::V4(i) => convert_all_channels(&i.dg[0], &i.sharable.cc),
        MdfInfo::V3(_) => panic!("a file of version 4 was read as version 3"),
    };
    assert_eq!(actions[0][0], ConversionAction::Keep);
    assert_eq!(actions[0][1], ConversionAction::Keep);
    match actions[0][2] {
        ConversionAction::Rational { p1, p2, p3, p4, p5, p6 } => {
            let p: Vec<f64> = [p1, p2, p3, p4, p5, p6].iter().map(|b| f64::from_bits(*b)).collect();
            assert_eq!(p, vec![0.0, 1.0, 0.0, 0.0, 0.0, 1.0]);
            // with these parameters the value stays as it is
            for raw in [0.0f64, 1.0, 7.0, -3.5] {
                let m2 = raw * raw;
                assert_eq!((m2 * p[0] + raw * p[1] + p[2]) / (m2 * p[3] + raw * p[4] + p[5]), raw);
            }
        }
        other => panic!("unexpected {:?}", other),
    }
    assert_eq!(actions[0][3], ConversionAction::Keep);
    assert_eq!(actions[0][4], ConversionAction::Keep);
    assert_eq!(actions[0][5], ConversionAction::Keep);
    assert_eq!(actions[0][6], ConversionAction::Keep);
    // before the records are read nothing is converted
    let unread = MdfInfo::new(&file, "f").unwrap();
    let none = match &unread {
        MdfInfo::V4(i) => convert_all_channels(&i.dg[0], &i.sharable.cc),
        MdfInfo::V3(_) => panic!("a file of version 4 was read as version 3"),
    };
    assert_eq!(none[0][2], ConversionAction::Keep);
}

#[test]
fn headers_and_comments_of_version_4_are_read() {
    let mut file = m4_start(410);
    let xml = "<HDcomment><TX>a run</TX><common_properties><e name=\"author\">Ada</e>\
               <e name=\"project\">Engine</e><e>nameless</e><e name=\"empty\"/></common_properties></HDcomment>";
    let md = m4_md(&mut file, xml);
    m4_set_link(&mut file, 64, 5, md);
    let fh_comment = m4_tx(&mut file, "created");
    let mut fh_data = vec![0u8; 16];
    fh_data[0..8].copy_from_slice(&42u64.to_le_bytes());
    let fh2 = m4_block(&mut file, b"##FH", &[0, 0], &fh_data);
    let fh1 = m4_block(&mut file, b"##FH", &[fh2, fh_comment], &fh_data);
    m4_set_link(&mut file, 64, 1, fh1);
    let hd = hd4_parser(&file).unwrap();
    assert_eq!(hd.hd_md_comment, md);
    assert_eq!(hd.hd_fh_first, fh1);
    assert_eq!(hd.hd_start_time_ns, 1_700_000_000_000_000_000);
    assert_eq!(hd.hd_tz_offset_min, 60);
    let (comments, position) = hd4_comment_parser(&file, &hd).unwrap();
    assert_eq!(position as usize, md as usize + 24 + xml.len() + 1);
    let got: Vec<(String, String)> =
        comments.iter().map(|c| (c.name.clone(), c.text.clone())).collect();
    assert_eq!(
        got,
        vec![("author".to_string(), "Ada".to_string()), ("project".to_string(), "Engine".to_string())]
    );
    let (fh, after) = parse_fh(&file, fh1).unwrap();
    assert_eq!(fh.fh_fh_next, fh2);
    assert_eq!(fh.fh_time_ns, 42);
    assert_eq!(after, fh1 + 56);
    let (header, text, _) = parse_md(&file, fh_comment).unwrap();
    assert_eq!(&header.hdr_id, b"##TX");
    assert_eq!(text, "created");
    match MdfInfo::new(&file, "f").unwrap() {
        MdfInfo::V4(info) => {
            assert_eq!(info.hd_comment.len(), 2);
            assert_eq!(info.fh.len(), 2);
            assert_eq!(info.fh[0].comments.len(), 1);
            assert_eq!(info.fh[0].comments[0].name, "comment");
            assert_eq!(info.fh[0].comments[0].text, "created");
            assert!(info.fh[1].comments.is_empty());
            assert!(info.dg.is_empty());
        }
        MdfInfo::V3(_) => panic!("a file of version 4 was read as version 3"),
    }
    let id = parse_id4(&file, *b"MDF     ", *b"4.10", *b"tester  ").unwrap();
    assert_eq!(id.id_ver, 410);
    assert_eq!(
        parse_id4(&file[..30], *b"MDF     ", *b"4.10", *b"tester  ").err(),
        Some(MdfError::CorruptBlock { offset: 0, expected: 64, actual: 30 })
    );
}

#[test]
fn malformed_comments_give_no_entries() {
    let mut file = m4_start(410);
    let md = m4_md(&mut file, "<HDcomment><e name=\"author\">Ada</HDcomment>");
    m4_set_link(&mut file, 64, 5, md);
    match MdfInfo::new(&file, "f").unwrap() {
        MdfInfo::V4(info) => assert!(info.hd_comment.is_empty()),
        MdfInfo::V3(_) => panic!("a file of version 4 was read as version 3"),
    }
    // a comment that is neither text nor XML
    let mut other = m4_start(410);
    let dt = m4_block(&mut other, b"##DT", &[], &[1, 2, 3]);
    m4_set_link(&mut other, 64, 5, dt);
    assert_eq!(
        MdfInfo::new(&other, "f").err(),
        Some(MdfError::UnexpectedBlockType { offset: dt as u64 })
    );
}

#[test]
fn compressed_and_listed_data_give_the_same_stream() {
    let records: Vec<u8> = (0..60u8).collect();
    let mut file = m4_start(410);
    let plain = m4_block(&mut file, b"##DT", &[], &records);
    let zipped = m4_dz(&mut file, &records, None);
    let transposed = m4_dz(&mut file, &records, Some(7));
    let first = m4_block(&mut file, b"##DT", &[], &records[..25]);
    let second = m4_dz(&mut file, &records[25..40], None);
    let third = m4_dz(&mut file, &records[40..], Some(4));
    let tail = m4_dl(&mut file, 0, &[third]);
    let list = m4_dl(&mut file, tail, &[first, second]);
    let header = m4_block(&mut file, b"##HL", &[list], &[0u8; 8]);
    for link in [plain, zipped, transposed, list, header] {
        assert_eq!(read_data_stream(&file, link).unwrap(), records);
    }
    // a list that runs in a circle
    m4_set_link(&mut file, tail, 0, list);
    assert!(matches!(
        read_data_stream(&file, list).err(),
        Some(MdfError::UnexpectedBlockType { .. })
    ));
    // a compressed block whose data is damaged
    let mut damaged = file.clone();
    damaged[zipped as usize + 60] ^= 0x55;
    assert!(matches!(
        read_data_stream(&damaged, zipped).err(),
        Some(MdfError::CorruptBlock { .. })
    ));
    // a compressed block that announces another length
    let mut longer = file.clone();
    longer[zipped as usize + 32] = 61;
    assert_eq!(
        read_data_stream(&longer, zipped).err(),
        Some(MdfError::CorruptBlock { offset: zipped as u64, expected: 61, actual: 60 })
    );
    // a block that is cut
    let cut = &file[..plain as usize + 30];
    assert_eq!(
        read_data_stream(cut, plain).err(),
        Some(MdfError::CorruptBlock { offset: plain as u64, expected: 84, actual: 30 })
    );
    // no data block at all
    assert_eq!(
        read_data_stream(&file, 64).err(),
        Some(MdfError::UnexpectedBlockType { offset: 64 })
    );
    assert!(read_data_stream(&file, -8).is_err());
}

#[test]
fn transposed_bytes_are_put_back_into_rows() {
    // two rows of three columns, stored column by column, and a tail
    let stored = vec![1, 4, 2, 5, 3, 6, 7];
    assert_eq!(untranspose(&stored, 3), vec![1, 2, 3, 4, 5, 6, 7]);
    assert_eq!(untranspose(&stored, 0), stored);
    assert_eq!(untranspose(&stored, 9), stored);
    assert_eq!(untranspose(&vec![], 3), Vec::<u8>::new());
}

#[test]
fn sorted_data_in_a_list_of_blocks_is_decoded() {
    let mut file = m4_start(410);
    let mut records = Vec::new();
    for i in 0..30u32 {
        records.extend_from_slice(&(i * 1000).to_le_bytes());
        records.extend_from_slice(&(i as u16).to_be_bytes());
    }
    // the blocks cut the stream within records
    let a = m4_block(&mut file, b"##DT", &[], &records[..50]);
    let b = m4_dz(&mut file, &records[50..131], Some(6));
    let c = m4_block(&mut file, b"##DT", &[], &records[131..]);
    let list = m4_dl(&mut file, 0, &[a, b, c]);
    let y = m4_cn(&mut file, "y", 0, 0, 0, 1, 4, 16, 0, 0);
    let x = m4_cn(&mut file, "x", y, 0, 0, 0, 0, 32, 0, 0);
    let cg = m4_cg(&mut file, 0, x, 0, 30, 0, 6, 0);
    let dg = m4_dg(&mut file, 0, cg, list, 0);
    m4_set_link(&mut file, 64, 0, dg);
    let info = m4_loaded(&file);
    match info.get_channel_data(&"x".to_string()).unwrap() {
        ChannelData::UInt32(v) => assert_eq!(v, &(0..30u32).map(|i| i * 1000).collect::<Vec<u32>>()),
        other => panic!("unexpected {:?}", other),
    }
    match info.get_channel_data(&"y".to_string()).unwrap() {
        ChannelData::UInt16(v) => assert_eq!(v, &(0..30u16).collect::<Vec<u16>>()),
        other => panic!("unexpected {:?}", other),
    }
    assert_eq!(info.get_channel_master(&"x".to_string()), format!("master_{}", cg));
    assert_eq!(info.get_channel_master_type(&"x".to_string()), 0);
}

#[test]
fn truncated_data_is_an_error_and_leaves_channels_invalid() {
    let mut file = m4_start(410);
    let records = vec![0u8; 9];
    let dt = m4_block(&mut file, b"##DT", &[], &records);
    let x = m4_cn(&mut file, "x", 0, 0, 0, 0, 0, 16, 0, 0);
    let cg = m4_cg(&mut file, 0, x, 0, 5, 0, 2, 0);
    let dg = m4_dg(&mut file, 0, cg, dt, 0);
    m4_set_link(&mut file, 64, 0, dg);
    let mut info = MdfInfo::new(&file, "f").unwrap();
    assert_eq!(
        info.load_all_channels_data_in_memory(&file).err(),
        Some(MdfError::CorruptBlock { offset: dt as u64, expected: 10, actual: 9 })
    );
    match &info {
        MdfInfo::V4(i) => {
            assert!(!i.dg[0].cg[0].cn[0].channel_data_valid);
            assert!(i.dg[0].cg[0].cn[0].data.is_empty());
        }
        MdfInfo::V3(_) => panic!("a file of version 4 was read as version 3"),
    }
}

#[test]
fn unsorted_data_with_values_of_variable_length_is_demultiplexed() {
    let mut file = m4_start(410);
    // group 1: records of a u16 and an offset into the values of group 3
    // group 2: records of one byte
    // group 3: the values of the channel "text" of group 1
    let mut stream = Vec::new();
    let mut fixed = |id: u8, bytes: &[u8]| {
        let mut r = vec![id];
        r.extend_from_slice(bytes);
        r
    };
    let vlsd = |text: &str| {
        let mut r = vec![3u8];
        r.extend_from_slice(&(text.len() as u32 + 1).to_le_bytes());
        r.extend_from_slice(text.as_bytes());
        r.push(0);
        r
    };
    stream.extend(fixed(1, &[10, 0, 0, 0, 0, 0, 0, 0, 0, 0]));
    stream.extend(vlsd("alpha"));
    stream.extend(fixed(2, &[200]));
    stream.extend(fixed(1, &[11, 0, 6, 0, 0, 0, 0, 0, 0, 0]));
    stream.extend(fixed(2, &[201]));
    stream.extend(vlsd("be"));
    stream.extend(fixed(2, &[202]));
    let dt = m4_block(&mut file, b"##DT", &[], &stream);
    let cg3 = m4_cg(&mut file, 0, 0, 3, 2, 1, 0, 0);
    let z = m4_cn(&mut file, "z", 0, 0, 0, 0, 0, 8, 0, 0);
    let cg2 = m4_cg(&mut file, cg3, z, 2, 3, 0, 1, 0);
    let text = m4_cn(&mut file, "text", 0, 1, 0, 7, 2, 64, 0, 0);
    m4_set_link(&mut file, text, 5, cg3);
    let n = m4_cn(&mut file, "n", text, 0, 0, 0, 0, 16, 0, 0);
    let cg1 = m4_cg(&mut file, cg2, n, 1, 2, 0, 10, 0);
    let dg = m4_dg(&mut file, 0, cg1, dt, 1);
    m4_set_link(&mut file, 64, 0, dg);
    let info = m4_loaded(&file);
    match &info {
        MdfInfo::V4(i) => {
            assert_eq!(i.dg[0].cg.len(), 3);
            assert_eq!(i.dg[0].cg[2].vlsd, Some((1, 1)));
            assert_eq!(i.dg[0].cg[0].vlsd, None);
            assert_eq!(i.dg[0].cg[0].record_length, 11);
            assert_eq!(i.dg[0].cg[1].record_length, 2);
        }
        MdfInfo::V3(_) => panic!("a file of version 4 was read as version 3"),
    }
    match info.get_channel_data(&"n".to_string()).unwrap() {
        ChannelData::UInt16(v) => assert_eq!(v, &vec![10, 11]),
        other => panic!("unexpected {:?}", other),
    }
    match info.get_channel_data(&"z".to_string()).unwrap() {
        ChannelData::UInt8(v) => assert_eq!(v, &vec![200, 201, 202]),
        other => panic!("unexpected {:?}", other),
    }
    match info.get_channel_data(&"text".to_string()).unwrap() {
        ChannelData::StringUTF8(v) => assert_eq!(v, &vec!["alpha".to_string(), "be".to_string()]),
        other => panic!("unexpected {:?}", other),
    }
    // a record id of no group
    let mut wrong = file.clone();
    wrong[dt as usize + 24] = 9;
    let mut info = MdfInfo::new(&wrong, "f").unwrap();
    assert_eq!(
        info.load_all_channels_data_in_memory(&wrong).err(),
        Some(MdfError::CorruptBlock { offset: dt as u64, expected: 0, actual: stream.len() as u64 })
    );
    // a stream that ends within a record
    let mut cut = m4_start(410);
    let short = m4_block(&mut cut, b"##DT", &[], &stream[..stream.len() - 1]);
    let z = m4_cn(&mut cut, "z", 0, 0, 0, 0, 0, 8, 0, 0);
    let cg2 = m4_cg(&mut cut, 0, z, 2, 3, 0, 1, 0);
    let n = m4_cn(&mut cut, "n", 0, 0, 0, 0, 0, 16, 0, 0);
    let cg1 = m4_cg(&mut cut, cg2, n, 1, 2, 0, 10, 0);
    let dg = m4_dg(&mut cut, 0, cg1, short, 1);
    m4_set_link(&mut cut, 64, 0, dg);
    let mut info = MdfInfo::new(&cut, "f").unwrap();
    assert!(matches!(
        info.load_all_channels_data_in_memory(&cut).err(),
        Some(MdfError::CorruptBlock { .. })
    ));
}

#[test]
fn arrays_and_invalidation_bits_are_described_by_the_channel() {
    let mut file = m4_start(410);
    let mut records = Vec::new();
    for i in 0..3u8 {
        records.extend_from_slice(&[i, i + 10, i + 20, i + 30, i + 40, i + 50]);
        records.push(if i == 1 { 0b10 } else { 0 });
    }
    let dt = m4_block(&mut file, b"##DT", &[], &records);
    let mut ca_data = vec![0u8; 16];
    ca_data[2..4].copy_from_slice(&2u16.to_le_bytes());
    ca_data.extend_from_slice(&2u64.to_le_bytes());
    ca_data.extend_from_slice(&3u64.to_le_bytes());
    let ca = m4_block(&mut file, b"##CA", &[0], &ca_data);
    let m = m4_cn(&mut file, "matrix", 0, 0, 0, 0, 0, 8, 0, ca);
    // the channel uses the invalidation bit number 1
    let d = m as usize + 24 + 64;
    file[d + 12..d + 16].copy_from_slice(&2u32.to_le_bytes());
    file[d + 16..d + 20].copy_from_slice(&1u32.to_le_bytes());
    let cg = m4_cg(&mut file, 0, m, 0, 3, 0, 6, 1);
    let dg = m4_dg(&mut file, 0, cg, dt, 0);
    m4_set_link(&mut file, 64, 0, dg);
    let info = m4_loaded(&file);
    match &info {
        MdfInfo::V4(i) => {
            let cn = &i.dg[0].cg[0].cn[0];
            match &cn.composition.as_ref().unwrap().block {
                Compo::CA(ca) => {
                    assert_eq!(ca.shape, vec![2, 3]);
                    assert_eq!(ca.pnd, 6);
                }
                other => panic!("unexpected {:?}", other),
            }
            let mask = cn.invalid_mask.as_ref().unwrap();
            assert_eq!(mask.byte_position, 6);
            assert_eq!(mask.byte_mask, 0b10);
            assert_eq!(mask.mask, vec![true, false, true]);
            assert!(cn.channel_data_valid);
        }
        MdfInfo::V3(_) => panic!("a file of version 4 was read as version 3"),
    }
    match info.get_channel_data(&"matrix".to_string()).unwrap() {
        ChannelData::ArrayDUInt8(v, shape) => {
            assert_eq!(shape, &vec![2, 3]);
            assert_eq!(v.len(), 18);
            assert_eq!(&v[6..12], &[1, 11, 21, 31, 41, 51]);
        }
        other => panic!("unexpected {:?}", other),
    }
}

#[test]
fn names_of_version_4_are_made_unique_by_the_offset() {
    let mut file = m4_start(410);
    let b = m4_cn(&mut file, "Speed", 0, 0, 0, 0, 1, 8, 0, 0);
    let a = m4_cn(&mut file, "Speed", b, 0, 0, 0, 0, 8, 0, 0);
    let cg = m4_cg(&mut file, 0, a, 0, 0, 0, 2, 0);
    let dg = m4_dg(&mut file, 0, cg, 0, 0);
    m4_set_link(&mut file, 64, 0, dg);
    let info = MdfInfo::new(&file, "f").unwrap();
    assert_eq!(
        info.get_channel_names_set(),
        vec!["Speed".to_string(), format!("Speed {}", b)]
    );
}

#[test]
fn units_and_descriptions_of_version_4_are_read_on_demand() {
    let mut file = m4_start(410);
    let unit = m4_tx(&mut file, "rpm");
    let desc = m4_tx(&mut file, "engine speed");
    let a = m4_cn(&mut file, "n", 0, 0, 0, 0, 0, 8, 0, 0);
    m4_set_link(&mut file, a, 6, unit);
    m4_set_link(&mut file, a, 7, desc);
    let cg = m4_cg(&mut file, 0, a, 0, 0, 0, 1, 0);
    let dg = m4_dg(&mut file, 0, cg, 0, 0);
    m4_set_link(&mut file, 64, 0, dg);
    let info = MdfInfo::new(&file, "f").unwrap();
    assert_eq!(info.get_channel_unit(&file, &"n".to_string()), "rpm");
    assert_eq!(info.get_channel_desc(&file, &"n".to_string()), "engine speed");
    assert_eq!(info.get_channel_unit(&file, &"other".to_string()), "");
}

#[test]
fn bits_within_bytes_are_taken_out_after_decoding() {
    let mut file = m4_start(410);
    // 12 bits from bit 2 on, unsigned in the first channel and signed in the second
    let mut records = Vec::new();
    for raw in [0b0011_1111_1111_1100u16, 0b0000_0000_0000_0100, 0b0010_0000_0000_0000] {
        records.extend_from_slice(&raw.to_le_bytes());
        records.extend_from_slice(&raw.to_le_bytes());
    }
    let dt = m4_block(&mut file, b"##DT", &[], &records);
    let s = m4_cn(&mut file, "signed", 0, 0, 0, 2, 2, 12, 0, 0);
    let u = m4_cn(&mut file, "unsigned", s, 0, 0, 0, 0, 12, 0, 0);
    for cn in [s, u] {
        let d = cn as usize + 24 + 64;
        file[d + 3] = 2;
    }
    let cg = m4_cg(&mut file, 0, u, 0, 3, 0, 4, 0);
    let dg = m4_dg(&mut file, 0, cg, dt, 0);
    m4_set_link(&mut file, 64, 0, dg);
    let info = m4_loaded(&file);
    match info.get_channel_data(&"unsigned".to_string()).unwrap() {
        ChannelData::UInt16(v) => assert_eq!(v, &vec![4095, 1, 2048]),
        other => panic!("unexpected {:?}", other),
    }
    match info.get_channel_data(&"signed".to_string()).unwrap() {
        ChannelData::Int16(v) => assert_eq!(v, &vec![-1, 1, -2048]),
        other => panic!("unexpected {:?}", other),
    }
}

#[test]
fn a_comment_whose_xml_cannot_be_parsed_is_malformed() {
    let mut file = m4_start(410);
    let broken = m4_md(&mut file, "<HDcomment><e name=\"author\">Ada</HDcomment>");
    let good = m4_md(&mut file, "<HDcomment><e name=\"author\">Ada</e></HDcomment>");
    let text = m4_tx(&mut file, "<not xml");
    let dt = m4_block(&mut file, b"##DT", &[], &[1, 2, 3]);
    assert_eq!(comment_status(&file, broken), Err(MdfError::MalformedComment));
    assert_eq!(comment_status(&file, good), Ok(()));
    assert_eq!(comment_status(&file, text), Ok(()));
    assert_eq!(
        comment_status(&file, dt),
        Err(MdfError::UnexpectedBlockType { offset: dt as u64 })
    );
    let end = file.len() as i64;
    assert!(matches!(comment_status(&file, end), Err(MdfError::CorruptBlock { .. })));
}

#[test]
fn channels_of_version_4_are_listed_by_their_master() {
    let mut file = m4_start(410);
    let b = m4_cn(&mut file, "Speed", 0, 0, 0, 0, 1, 8, 0, 0);
    let a = m4_cn(&mut file, "t", b, 2, 1, 0, 0, 8, 0, 0);
    let cg = m4_cg(&mut file, 0, a, 0, 0, 0, 2, 0);
    let dg2 = m4_dg(&mut file, 0, cg, 0, 0);
    let c = m4_cn(&mut file, "Speed", 0, 0, 0, 0, 0, 8, 0, 0);
    let cg1 = m4_cg(&mut file, 0, c, 0, 0, 0, 1, 0);
    let dg1 = m4_dg(&mut file, dg2, cg1, 0, 0);
    m4_set_link(&mut file, 64, 0, dg1);
    let info = MdfInfo::new(&file, "f").unwrap();
    let list = info.get_master_channel_names_set();
    assert_eq!(list.len(), 2);
    assert_eq!(list[0].master, info.get_channel_master(&"Speed".to_string()));
    assert_eq!(list[0].channels, vec!["Speed".to_string()]);
    assert_eq!(list[1].master, "t");
    assert_eq!(list[1].channels, vec!["t".to_string(), format!("Speed {}", b)]);
    assert_eq!(info.get_channel_master(&format!("Speed {}", b)), "t");
}

#[test]
fn reading_a_file_of_version_4_twice_gives_the_same() {
    let file = m4_string_file(7);
    let first = MdfInfo::new(&file, "f").unwrap();
    let second = MdfInfo::new(&file, "f").unwrap();
    match (&first, &second) {
        (MdfInfo::V4(a), MdfInfo::V4(b)) => {
            assert_eq!(a.id_block, b.id_block);
            assert_eq!(a.hd_block, b.hd_block);
            assert_eq!(format!("{:?}", a.hd_comment), format!("{:?}", b.hd_comment));
            assert_eq!(format!("{:?}", a.fh), format!("{:?}", b.fh));
            assert!(!a.dg.is_empty());
            assert_eq!(format!("{:?}", a.dg), format!("{:?}", b.dg));
            assert_eq!(a.channel_names, b.channel_names);
            assert_eq!(a.sharable.cc.len(), b.sharable.cc.len());
            for (link, cc) in a.sharable.cc.iter() {
                assert_eq!(format!("{:?}", cc), format!("{:?}", b.sharable.cc[link]));
            }
        }
        _ => panic!("a file of version 4 was read as version 3"),
    }
}

fn m4_sorted_file(cycles: u64) -> (Vec<u8>, i64) {
    let mut file = m4_start(410);
    let mut records = Vec::with_capacity(cycles as usize * 7);
    for i in 0..cycles {
        records.extend_from_slice(&(i as u32).to_le_bytes());
        records.extend_from_slice(&((i % 251) as u8).to_le_bytes());
        records.extend_from_slice(&((i as u16) ^ 0x0f0f).to_be_bytes());
    }
    let dt = m4_block(&mut file, b"##DT", &[], &records);
    let c = m4_cn(&mut file, "c", 0, 0, 0, 1, 5, 16, 0, 0);
    let b = m4_cn(&mut file, "b", c, 0, 0, 0, 4, 8, 0, 0);
    let a = m4_cn(&mut file, "a", b, 0, 0, 0, 0, 32, 0, 0);
    let cg = m4_cg(&mut file, 0, a, 0, cycles, 0, 7, 0);
    let dg = m4_dg(&mut file, 0, cg, dt, 0);
    m4_set_link(&mut file, 64, 0, dg);
    (file, dt)
}

#[test]
fn the_pieces_of_a_sorted_group_lie_one_after_the_other() {
    let cycles = 100_001u64;
    let (file, dt) = m4_sorted_file(cycles);
    let info = MdfInfo::new(&file, "f").unwrap();
    let dg = match &info {
        MdfInfo::V4(i) => i.dg[0].clone(),
        MdfInfo::V3(_) => panic!("a file of version 4 was read as version 3"),
    };
    let at = dt as usize;
    let start = find_records(&file[at..at + 24], &dg).unwrap();
    assert_eq!(start, dt as u64 + 24);
    // 700007 bytes: two pieces of 50000 records and one of the record that is left
    assert_eq!(
        plan_pieces(&dg.cg[0], start),
        vec![
            Piece { offset: start, len: 350_000, first_record: 0, records: 50_000 },
            Piece { offset: start + 350_000, len: 350_000, first_record: 50_000, records: 50_000 },
            Piece { offset: start + 700_000, len: 7, first_record: 100_000, records: 1 },
        ]
    );
    // a header that is too short, and a block of another kind
    assert_eq!(find_records(&file[at..at + 23], &dg), None);
    let mut other = file[at..at + 24].to_vec();
    other[3] = b'Z';
    assert_eq!(find_records(&other, &dg), None);
    // a block that holds fewer records than the group has
    let mut short = file[at..at + 24].to_vec();
    short[8..16].copy_from_slice(&(24u64 + 700_006).to_le_bytes());
    assert_eq!(find_records(&short, &dg), None);
    short[8..16].copy_from_slice(&(24u64 + 700_007).to_le_bytes());
    assert_eq!(find_records(&short, &dg), Some(start));
    // a data group of two groups is not sorted
    let mut two = dg.clone();
    two.cg.push(dg.cg[0].clone());
    assert_eq!(find_records(&file[at..at + 24], &two), None);
    // and one without data has no records
    let mut none = dg.clone();
    none.block.dg_data = 0;
    assert_eq!(find_records(&file[at..at + 24], &none), None);
}

#[test]
fn reading_piece_by_piece_gives_what_reading_at_once_gives() {
    let cycles = 100_001u64;
    let (file, dt) = m4_sorted_file(cycles);
    let info = MdfInfo::new(&file, "f").unwrap();
    let fresh = match &info {
        MdfInfo::V4(i) => i.dg[0].clone(),
        MdfInfo::V3(_) => panic!("a file of version 4 was read as version 3"),
    };
    let names = vec!["a".to_string(), "c".to_string()];
    // at once
    let mut whole = fresh.clone();
    read_data(&file, &mut whole, &names).unwrap();
    // piece by piece, by the library
    let mut pieces = fresh.clone();
    assert!(read_in_pieces(&file, &mut pieces, &names));
    // piece by piece, as a caller does that holds the file
    let mut by_hand = fresh.clone();
    let at = dt as usize;
    let start = find_records(&file[at..at + 24], &by_hand).unwrap();
    let cg = &mut by_hand.cg[0];
    initialise_arrays(cg, &names, cycles);
    let mut total = 0usize;
    for piece in plan_pieces(cg, start) {
        let from = piece.offset as usize;
        read_channels_from_bytes(
            &file[from..from + piece.len],
            &mut cg.cn,
            7,
            piece.first_record,
            &names,
            false,
        );
        total += piece.len;
    }
    assert_eq!(total, 700_007);
    finish_sorted(cg, &names, total);
    for dg in [&whole, &pieces, &by_hand] {
        let cn = &dg.cg[0].cn;
        match &cn[0].data {
            ChannelData::UInt32(v) => assert_eq!(v, &(0..cycles as u32).collect::<Vec<u32>>()),
            other => panic!("unexpected {:?}", other),
        }
        assert!(cn[0].channel_data_valid);
        assert!(cn[1].data.is_empty());
        assert!(!cn[1].channel_data_valid);
        match &cn[2].data {
            ChannelData::UInt16(v) => {
                assert_eq!(v.len(), cycles as usize);
                assert_eq!(v[0], 0x0f0f);
                assert_eq!(v[50_000], (50_000u32 as u16) ^ 0x0f0f);
                assert_eq!(v[100_000], (100_000u32 as u16) ^ 0x0f0f);
            }
            other => panic!("unexpected {:?}", other),
        }
        assert!(cn[2].channel_data_valid);
    }
    assert_eq!(format!("{:?}", whole), format!("{:?}", pieces));
    assert_eq!(format!("{:?}", whole), format!("{:?}", by_hand));
    // a file that ends before the records is not read in this way
    let mut cut = fresh.clone();
    assert!(!read_in_pieces(&file[..at + 24 + 700_000], &mut cut, &names));
    assert_eq!(format!("{:?}", cut), format!("{:?}", fresh));
}
