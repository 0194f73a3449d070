use edgepack::decimal::Decimal;
use edgepack::media::cmaf::EmsgBox;
use edgepack::media::scte35::{SCTE35_SCHEME_URI, SCTE35_XML_SCHEME_URI, SPLICE_INSERT, TIME_SIGNAL, is_scte35_emsg, parse_splice_info};

/// A number of the library as a float.
fn float(d: Decimal) -> f64 {
    d.nanos as f64 / 1e9
}

/// Build a minimal splice_info_section with a splice_insert command.
fn build_splice_insert(
    event_id: u32,
    out_of_network: bool,
    pts: Option<u64>,
    break_dur_secs: Option<f64>,
) -> Vec<u8> {
    let mut cmd = Vec::new();
    cmd.extend_from_slice(&event_id.to_be_bytes()); // splice_event_id
    cmd.push(0x00); // splice_event_cancel_indicator = 0

    let mut flags: u8 = 0;
    if out_of_network {
        flags |= 0x80;
    }
    flags |= 0x40; // program_splice_flag = 1
    if break_dur_secs.is_some() {
        flags |= 0x20; // duration_flag = 1
    }
    if pts.is_none() {
        flags |= 0x10; // splice_immediate_flag = 1
    }
    cmd.push(flags);

    if let Some(pts_val) = pts {
        // splice_time with time_specified = 1
        cmd.push(0xFE | ((pts_val >> 32) as u8 & 0x01)); // time_specified(1) + reserved(6) + pts_bit32
        cmd.push((pts_val >> 24) as u8);
        cmd.push((pts_val >> 16) as u8);
        cmd.push((pts_val >> 8) as u8);
        cmd.push(pts_val as u8);
    }

    if let Some(dur) = break_dur_secs {
        let ticks = (dur * 90000.0) as u64;
        cmd.push(0xFE | ((ticks >> 32) as u8 & 0x01)); // auto_return(1) + reserved(6) + duration_bit32
        cmd.push((ticks >> 24) as u8);
        cmd.push((ticks >> 16) as u8);
        cmd.push((ticks >> 8) as u8);
        cmd.push(ticks as u8);
    }

    // unique_program_id + avail_num + avails_expected
    cmd.extend_from_slice(&[0x00, 0x01, 0x00, 0x01]);

    build_splice_info_section(SPLICE_INSERT, &cmd)
}

/// Build a minimal splice_info_section with a time_signal command.
fn build_time_signal(pts: Option<u64>) -> Vec<u8> {
    let mut cmd = Vec::new();
    if let Some(pts_val) = pts {
        cmd.push(0xFE | ((pts_val >> 32) as u8 & 0x01));
        cmd.push((pts_val >> 24) as u8);
        cmd.push((pts_val >> 16) as u8);
        cmd.push((pts_val >> 8) as u8);
        cmd.push(pts_val as u8);
    } else {
        cmd.push(0x00); // time_specified = 0
    }

    build_splice_info_section(TIME_SIGNAL, &cmd)
}

/// Build a splice_info_section wrapper around a command.
fn build_splice_info_section(command_type: u8, command_data: &[u8]) -> Vec<u8> {
    let mut section = Vec::new();
    section.push(0xFC); // table_id

    // We need to compute section_length (everything after these 3 bytes, excluding CRC)
    // header_after_length = protocol_version(1) + encrypted/pts_adj(5) + cw_index(1) +
    //                       tier_cmd_length(3) + command_type(1) = 11
    // + command_data.len() + descriptor_loop_length(2) + CRC(4)
    let section_body_len = 11 + command_data.len() + 2 + 4;
    let section_length = section_body_len as u16;
    section.push(0x30 | ((section_length >> 8) as u8 & 0x0F)); // section_syntax_indicator=0, private=0, sap=3
    section.push(section_length as u8);

    // protocol_version
    section.push(0x00);
    // encrypted_packet(1)=0 + encryption_algo(6)=0 + pts_adjustment(33)=0
    section.extend_from_slice(&[0x00, 0x00, 0x00, 0x00, 0x00]);
    // cw_index
    section.push(0x00);
    // tier(12)=0xFFF + splice_command_length(12)
    let cmd_len = command_data.len() as u16;
    section.push(0xFF); // tier upper 8 bits
    section.push(0xF0 | ((cmd_len >> 8) as u8 & 0x0F)); // tier lower 4 + cmd_length upper 4
    section.push(cmd_len as u8); // cmd_length lower 8
    // splice_command_type
    section.push(command_type);
    // command data
    section.extend_from_slice(command_data);
    // descriptor_loop_length = 0
    section.extend_from_slice(&[0x00, 0x00]);
    // CRC32 placeholder (not validated)
    section.extend_from_slice(&[0x00, 0x00, 0x00, 0x00]);

    section
}

#[test]
fn is_scte35_emsg_true() {
    let emsg = EmsgBox {
        version: 1,
        scheme_id_uri: SCTE35_SCHEME_URI.to_string(),
        value: String::new(),
        timescale: 90000,
        presentation_time: 0,
        event_duration: 0,
        id: 0,
        message_data: Vec::new(),
    };
    assert!(is_scte35_emsg(&emsg));
}

#[test]
fn is_scte35_emsg_xml_variant() {
    let emsg = EmsgBox {
        version: 1,
        scheme_id_uri: SCTE35_XML_SCHEME_URI.to_string(),
        value: String::new(),
        timescale: 90000,
        presentation_time: 0,
        event_duration: 0,
        id: 0,
        message_data: Vec::new(),
    };
    assert!(is_scte35_emsg(&emsg));
}

#[test]
fn is_scte35_emsg_false() {
    let emsg = EmsgBox {
        version: 1,
        scheme_id_uri: "urn:other:scheme".to_string(),
        value: String::new(),
        timescale: 90000,
        presentation_time: 0,
        event_duration: 0,
        id: 0,
        message_data: Vec::new(),
    };
    assert!(!is_scte35_emsg(&emsg));
}

#[test]
fn parse_splice_insert_basic() {
    let data = build_splice_insert(1234, true, None, None);
    let info = parse_splice_info(&data).unwrap();
    assert_eq!(info.splice_command_type, SPLICE_INSERT);
    assert_eq!(info.splice_event_id, 1234);
    assert!(info.out_of_network);
    assert!(info.pts_time.is_none());
    assert!(info.break_duration.is_none());
}

#[test]
fn parse_splice_insert_with_pts() {
    let pts = 900000; // 10 seconds at 90kHz
    let data = build_splice_insert(42, true, Some(pts), None);
    let info = parse_splice_info(&data).unwrap();
    assert_eq!(info.splice_event_id, 42);
    assert_eq!(info.pts_time, Some(pts));
}

#[test]
fn parse_splice_insert_with_duration() {
    let data = build_splice_insert(1, true, None, Some(30.0));
    let info = parse_splice_info(&data).unwrap();
    assert!(info.break_duration.is_some());
    let dur = info.break_duration.unwrap();
    assert!((float(dur) - 30.0).abs() < 0.001);
}

#[test]
fn parse_splice_insert_return_to_content() {
    let data = build_splice_insert(1, false, None, None);
    let info = parse_splice_info(&data).unwrap();
    assert!(!info.out_of_network);
}

#[test]
fn parse_time_signal_with_pts() {
    let pts = 8100000; // 90 seconds at 90kHz
    let data = build_time_signal(Some(pts));
    let info = parse_splice_info(&data).unwrap();
    assert_eq!(info.splice_command_type, TIME_SIGNAL);
    assert_eq!(info.pts_time, Some(pts));
    assert_eq!(info.splice_event_id, 0);
}

#[test]
fn parse_time_signal_no_pts() {
    let data = build_time_signal(None);
    let info = parse_splice_info(&data).unwrap();
    assert_eq!(info.splice_command_type, TIME_SIGNAL);
    assert!(info.pts_time.is_none());
}

#[test]
fn parse_splice_info_invalid_table_id() {
    let data = vec![0x00; 20]; // table_id != 0xFC
    assert!(parse_splice_info(&data).is_err());
}

#[test]
fn parse_splice_info_too_small() {
    let data = vec![0xFC, 0x00];
    assert!(parse_splice_info(&data).is_err());
}
