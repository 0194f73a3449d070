use edgepack::media::box_type;
use edgepack::media::cmaf::{BoxHeader, EmsgBox, PsshBox, SencEntry, SubsampleEntry, box_payload, build_emsg_box, build_pssh_box, build_senc_box, find_child_box, iterate_boxes, parse_emsg, parse_pssh, parse_senc, parse_sidx, parse_tenc, parse_trun, read_box_header, write_box_header, write_full_box_header};

/// Helper: build a minimal box (header + payload).
fn make_box(box_type: &[u8; 4], payload: &[u8]) -> Vec<u8> {
    let size = 8 + payload.len() as u32;
    let mut data = Vec::new();
    data.extend_from_slice(&size.to_be_bytes());
    data.extend_from_slice(box_type);
    data.extend_from_slice(payload);
    data
}

// --- BoxHeader ---

#[test]
fn box_header_payload_offset() {
    let h = BoxHeader {
        size: 100,
        box_type: *b"test",
        offset: 0,
        header_size: 8,
    };
    assert_eq!(h.payload_offset(), 8);
}

#[test]
fn box_header_payload_size() {
    let h = BoxHeader {
        size: 100,
        box_type: *b"test",
        offset: 0,
        header_size: 8,
    };
    assert_eq!(h.payload_size(), 92);
}

#[test]
fn box_header_extended_size_payload() {
    let h = BoxHeader {
        size: 200,
        box_type: *b"test",
        offset: 10,
        header_size: 16,
    };
    assert_eq!(h.payload_offset(), 26);
    assert_eq!(h.payload_size(), 184);
}

// --- read_box_header ---

#[test]
fn read_box_header_normal() {
    let data = make_box(b"ftyp", &[0u8; 4]);
    let header = read_box_header(&data, 0).unwrap();
    assert_eq!(header.size, 12);
    assert_eq!(header.box_type, *b"ftyp");
    assert_eq!(header.offset, 0);
    assert_eq!(header.header_size, 8);
}

#[test]
fn read_box_header_at_offset() {
    let mut data = vec![0u8; 10]; // padding
    data.extend_from_slice(&make_box(b"moov", &[0u8; 20]));
    let header = read_box_header(&data, 10).unwrap();
    assert_eq!(header.box_type, *b"moov");
    assert_eq!(header.offset, 10);
}

#[test]
fn read_box_header_too_short() {
    let data = [0u8; 4]; // only 4 bytes, need 8
    let result = read_box_header(&data, 0);
    assert!(result.is_err());
}

#[test]
fn read_box_header_size_zero_extends_to_end() {
    let mut data = vec![0u8; 8];
    data[4..8].copy_from_slice(b"test");
    // size = 0 means extends to end of data
    let header = read_box_header(&data, 0).unwrap();
    assert_eq!(header.size, 8); // extends to end
}

#[test]
fn read_box_header_extended_size() {
    let mut data = vec![0u8; 24];
    data[0..4].copy_from_slice(&1u32.to_be_bytes()); // size=1 triggers extended
    data[4..8].copy_from_slice(b"test");
    data[8..16].copy_from_slice(&100u64.to_be_bytes()); // extended size
    let header = read_box_header(&data, 0).unwrap();
    assert_eq!(header.size, 100);
    assert_eq!(header.header_size, 16);
}

// --- iterate_boxes ---

#[test]
fn iterate_boxes_single() {
    let data = make_box(b"ftyp", &[0u8; 8]);
    let boxes: Vec<_> = iterate_boxes(&data).collect().into_iter().collect::<std::result::Result<Vec<_>, _>>().unwrap();
    assert_eq!(boxes.len(), 1);
    assert_eq!(boxes[0].box_type, *b"ftyp");
}

#[test]
fn iterate_boxes_multiple() {
    let mut data = make_box(b"ftyp", &[0u8; 4]);
    data.extend_from_slice(&make_box(b"moov", &[0u8; 20]));
    data.extend_from_slice(&make_box(b"mdat", &[0u8; 100]));

    let boxes: Vec<_> = iterate_boxes(&data).collect().into_iter().collect::<std::result::Result<Vec<_>, _>>().unwrap();
    assert_eq!(boxes.len(), 3);
    assert_eq!(boxes[0].box_type, *b"ftyp");
    assert_eq!(boxes[1].box_type, *b"moov");
    assert_eq!(boxes[2].box_type, *b"mdat");
}

#[test]
fn iterate_boxes_empty() {
    let data: &[u8] = &[];
    let boxes: Vec<_> = iterate_boxes(data).collect().into_iter().collect::<std::result::Result<Vec<_>, _>>().unwrap();
    assert!(boxes.is_empty());
}

// --- find_child_box ---

#[test]
fn find_child_box_found() {
    let mut children = make_box(b"tkhd", &[0u8; 10]);
    children.extend_from_slice(&make_box(b"mdia", &[0u8; 20]));

    let result = find_child_box(&children, &box_type::MDIA);
    assert!(result.is_some());
    assert_eq!(result.unwrap().box_type, *b"mdia");
}

#[test]
fn find_child_box_not_found() {
    let children = make_box(b"tkhd", &[0u8; 10]);
    let result = find_child_box(&children, &box_type::SINF);
    assert!(result.is_none());
}

// --- write_box_header ---

#[test]
fn write_box_header_produces_valid_data() {
    let mut output = Vec::new();
    write_box_header(&mut output, 42, b"test");
    assert_eq!(output.len(), 8);
    assert_eq!(&output[0..4], &42u32.to_be_bytes());
    assert_eq!(&output[4..8], b"test");
}

#[test]
fn write_box_header_roundtrip() {
    let mut output = Vec::new();
    write_box_header(&mut output, 100, b"moov");
    let header = read_box_header(&output, 0).unwrap();
    assert_eq!(header.size, 100);
    assert_eq!(header.box_type, *b"moov");
}

// --- write_full_box_header ---

#[test]
fn write_full_box_header_correct() {
    let mut output = Vec::new();
    write_full_box_header(&mut output, 20, b"tenc", 1, 0x000002);
    assert_eq!(output.len(), 12);
    assert_eq!(&output[4..8], b"tenc");
    assert_eq!(output[8], 1); // version
    assert_eq!(&output[9..12], &[0, 0, 2]); // flags
}

// --- parse_tenc ---

#[test]
fn parse_tenc_basic() {
    // version(1) + flags(3) + reserved/crypt_skip(1) + isProtected(1)
    // + ivSize(1) + KID(16) = 23 bytes minimum
    let mut payload = vec![0u8; 23];
    payload[0] = 0; // version
    payload[4] = 0x19; // crypt=1, skip=9
    payload[5] = 1; // isProtected
    payload[6] = 8; // ivSize
    payload[7..23].copy_from_slice(&[0xAA; 16]); // KID

    let tenc = parse_tenc(&payload).unwrap();
    assert_eq!(tenc.is_protected, 1);
    assert_eq!(tenc.default_per_sample_iv_size, 8);
    assert_eq!(tenc.default_kid, [0xAA; 16]);
    assert_eq!(tenc.default_crypt_byte_block, 1);
    assert_eq!(tenc.default_skip_byte_block, 9);
    assert!(tenc.default_constant_iv.is_none());
}

#[test]
fn parse_tenc_with_constant_iv() {
    let mut payload = vec![0u8; 40];
    payload[5] = 1; // isProtected
    payload[6] = 0; // ivSize = 0 → use constant IV
    payload[7..23].copy_from_slice(&[0xBB; 16]); // KID
    payload[23] = 16; // constant IV size
    payload[24..40].copy_from_slice(&[0xCC; 16]); // constant IV

    let tenc = parse_tenc(&payload).unwrap();
    assert_eq!(tenc.default_per_sample_iv_size, 0);
    let civ = tenc.default_constant_iv.unwrap();
    assert_eq!(civ, vec![0xCC; 16]);
}

#[test]
fn parse_tenc_too_small_errors() {
    let payload = vec![0u8; 10]; // too small
    assert!(parse_tenc(&payload).is_err());
}

// --- parse_senc ---

#[test]
fn parse_senc_no_subsamples() {
    // version(1) + flags(3) + sample_count(4) + entries
    let mut data = vec![0u8; 8];
    data[3] = 0; // flags = 0 (no subsamples)
    data[4..8].copy_from_slice(&2u32.to_be_bytes()); // 2 samples

    // 2 entries, each with 8-byte IV
    data.extend_from_slice(&[0x01; 8]); // sample 0 IV
    data.extend_from_slice(&[0x02; 8]); // sample 1 IV

    let senc = parse_senc(&data, 8).unwrap();
    assert_eq!(senc.sample_count, 2);
    assert_eq!(senc.entries.len(), 2);
    assert_eq!(senc.entries[0].iv, vec![0x01; 8]);
    assert_eq!(senc.entries[1].iv, vec![0x02; 8]);
    assert!(senc.entries[0].subsamples.is_none());
}

#[test]
fn parse_senc_with_subsamples() {
    let mut data = vec![0u8; 8];
    data[3] = 0x02; // flags = 0x02 (has subsamples)
    data[4..8].copy_from_slice(&1u32.to_be_bytes()); // 1 sample

    // Sample entry: 8-byte IV + subsample count(2) + subsample data
    data.extend_from_slice(&[0xAA; 8]); // IV
    data.extend_from_slice(&1u16.to_be_bytes()); // 1 subsample
    data.extend_from_slice(&100u16.to_be_bytes()); // clear_bytes
    data.extend_from_slice(&200u32.to_be_bytes()); // encrypted_bytes

    let senc = parse_senc(&data, 8).unwrap();
    assert_eq!(senc.entries.len(), 1);
    let subs = senc.entries[0].subsamples.as_ref().unwrap();
    assert_eq!(subs.len(), 1);
    assert_eq!(subs[0].clear_bytes, 100);
    assert_eq!(subs[0].encrypted_bytes, 200);
}

// --- parse_pssh ---

#[test]
fn parse_pssh_v0() {
    let mut data = vec![0u8; 24];
    data[0] = 0; // version 0
    data[4..20].copy_from_slice(&[0xAA; 16]); // system_id
    data[20..24].copy_from_slice(&0u32.to_be_bytes()); // data_size = 0

    let pssh = parse_pssh(&data).unwrap();
    assert_eq!(pssh.version, 0);
    assert_eq!(pssh.system_id, [0xAA; 16]);
    assert!(pssh.key_ids.is_empty());
    assert!(pssh.data.is_empty());
}

#[test]
fn parse_pssh_v1_with_kids() {
    let mut data = vec![0u8; 44];
    data[0] = 1; // version 1
    data[4..20].copy_from_slice(&[0xBB; 16]); // system_id
    data[20..24].copy_from_slice(&1u32.to_be_bytes()); // 1 KID
    data[24..40].copy_from_slice(&[0xCC; 16]); // KID
    data[40..44].copy_from_slice(&0u32.to_be_bytes()); // data_size = 0

    let pssh = parse_pssh(&data).unwrap();
    assert_eq!(pssh.version, 1);
    assert_eq!(pssh.key_ids.len(), 1);
    assert_eq!(pssh.key_ids[0], [0xCC; 16]);
}

// --- parse_trun ---

#[test]
fn parse_trun_with_sizes() {
    // flags = 0x0200 (has sample_size)
    let mut data = vec![0u8; 8];
    data[1..4].copy_from_slice(&0x000200u32.to_be_bytes()[1..4]);
    data[4..8].copy_from_slice(&2u32.to_be_bytes()); // 2 samples

    // 2 sample sizes
    data.extend_from_slice(&1024u32.to_be_bytes());
    data.extend_from_slice(&2048u32.to_be_bytes());

    let trun = parse_trun(&data).unwrap();
    assert_eq!(trun.sample_count, 2);
    assert_eq!(trun.entries[0].sample_size, Some(1024));
    assert_eq!(trun.entries[1].sample_size, Some(2048));
}

#[test]
fn parse_trun_with_data_offset() {
    let mut data = vec![0u8; 8];
    data[1..4].copy_from_slice(&0x000001u32.to_be_bytes()[1..4]); // has data_offset
    data[4..8].copy_from_slice(&0u32.to_be_bytes()); // 0 samples
    data.extend_from_slice(&42i32.to_be_bytes());

    let trun = parse_trun(&data).unwrap();
    assert_eq!(trun.data_offset, Some(42));
}

// --- build_pssh_box ---

#[test]
fn build_pssh_box_v1() {
    let pssh = PsshBox {
        version: 1,
        system_id: [0xAA; 16],
        key_ids: vec![[0xBB; 16]],
        data: vec![0xCC; 8],
    };
    let built = build_pssh_box(&pssh);

    // Parse it back
    let header = read_box_header(&built, 0).unwrap();
    assert_eq!(header.box_type, box_type::PSSH);
    let payload = &built[header.header_size as usize..];
    let parsed = parse_pssh(payload).unwrap();
    assert_eq!(parsed.version, 1);
    assert_eq!(parsed.system_id, [0xAA; 16]);
    assert_eq!(parsed.key_ids, vec![[0xBB; 16]]);
    assert_eq!(parsed.data, vec![0xCC; 8]);
}

// --- build_senc_box ---

#[test]
fn build_senc_box_no_subsamples() {
    let entries = vec![
        SencEntry { iv: vec![0x01; 8], subsamples: None },
        SencEntry { iv: vec![0x02; 8], subsamples: None },
    ];
    let built = build_senc_box(&entries, false);

    let header = read_box_header(&built, 0).unwrap();
    assert_eq!(header.box_type, box_type::SENC);

    let payload = &built[header.header_size as usize..];
    let parsed = parse_senc(payload, 8).unwrap();
    assert_eq!(parsed.sample_count, 2);
    assert_eq!(parsed.entries[0].iv, vec![0x01; 8]);
    assert_eq!(parsed.entries[1].iv, vec![0x02; 8]);
}

#[test]
fn build_senc_box_with_subsamples() {
    let entries = vec![SencEntry {
        iv: vec![0xAA; 8],
        subsamples: Some(vec![SubsampleEntry {
            clear_bytes: 10,
            encrypted_bytes: 200,
        }]),
    }];
    let built = build_senc_box(&entries, true);

    let header = read_box_header(&built, 0).unwrap();
    let payload = &built[header.header_size as usize..];
    let parsed = parse_senc(payload, 8).unwrap();
    assert_eq!(parsed.entries.len(), 1);
    let subs = parsed.entries[0].subsamples.as_ref().unwrap();
    assert_eq!(subs[0].clear_bytes, 10);
    assert_eq!(subs[0].encrypted_bytes, 200);
}

// --- box_payload ---

#[test]
fn box_payload_extracts_correctly() {
    let data = make_box(b"test", &[0xAA, 0xBB, 0xCC]);
    let header = read_box_header(&data, 0).unwrap();
    let payload = box_payload(&data, &header);
    assert_eq!(payload, &[0xAA, 0xBB, 0xCC]);
}

// --- parse_emsg ---

#[test]
fn parse_emsg_v0() {
    let mut payload = Vec::new();
    payload.push(0); // version
    payload.extend_from_slice(&[0u8; 3]); // flags
    payload.extend_from_slice(b"urn:test:scheme\0"); // scheme_id_uri + NUL
    payload.extend_from_slice(b"value1\0"); // value + NUL
    payload.extend_from_slice(&90000u32.to_be_bytes()); // timescale
    payload.extend_from_slice(&1000u32.to_be_bytes()); // presentation_time_delta
    payload.extend_from_slice(&0xFFFFFFFFu32.to_be_bytes()); // event_duration
    payload.extend_from_slice(&42u32.to_be_bytes()); // id
    payload.extend_from_slice(&[0xDE, 0xAD]); // message_data

    let emsg = parse_emsg(&payload).unwrap();
    assert_eq!(emsg.version, 0);
    assert_eq!(emsg.scheme_id_uri, "urn:test:scheme");
    assert_eq!(emsg.value, "value1");
    assert_eq!(emsg.timescale, 90000);
    assert_eq!(emsg.presentation_time, 1000);
    assert_eq!(emsg.event_duration, 0xFFFFFFFF);
    assert_eq!(emsg.id, 42);
    assert_eq!(emsg.message_data, vec![0xDE, 0xAD]);
}

#[test]
fn parse_emsg_v1() {
    let mut payload = Vec::new();
    payload.push(1); // version
    payload.extend_from_slice(&[0u8; 3]); // flags
    payload.extend_from_slice(&90000u32.to_be_bytes()); // timescale
    payload.extend_from_slice(&8100000u64.to_be_bytes()); // presentation_time (90s)
    payload.extend_from_slice(&2700000u32.to_be_bytes()); // event_duration (30s)
    payload.extend_from_slice(&99u32.to_be_bytes()); // id
    payload.extend_from_slice(b"urn:scte:scte35:2013:bin\0"); // scheme_id_uri + NUL
    payload.extend_from_slice(b"\0"); // value (empty + NUL)
    payload.extend_from_slice(&[0xFC, 0x30]); // message_data

    let emsg = parse_emsg(&payload).unwrap();
    assert_eq!(emsg.version, 1);
    assert_eq!(emsg.scheme_id_uri, "urn:scte:scte35:2013:bin");
    assert_eq!(emsg.value, "");
    assert_eq!(emsg.timescale, 90000);
    assert_eq!(emsg.presentation_time, 8100000);
    assert_eq!(emsg.event_duration, 2700000);
    assert_eq!(emsg.id, 99);
    assert_eq!(emsg.message_data, vec![0xFC, 0x30]);
}

#[test]
fn parse_emsg_v0_empty_message() {
    let mut payload = Vec::new();
    payload.push(0);
    payload.extend_from_slice(&[0u8; 3]);
    payload.extend_from_slice(b"urn:test\0");
    payload.extend_from_slice(b"\0"); // empty value
    payload.extend_from_slice(&1000u32.to_be_bytes());
    payload.extend_from_slice(&0u32.to_be_bytes());
    payload.extend_from_slice(&0u32.to_be_bytes());
    payload.extend_from_slice(&0u32.to_be_bytes());
    // no message_data

    let emsg = parse_emsg(&payload).unwrap();
    assert!(emsg.message_data.is_empty());
}

#[test]
fn parse_emsg_too_small() {
    assert!(parse_emsg(&[0, 0, 0]).is_err());
}

#[test]
fn parse_emsg_unsupported_version() {
    let mut payload = vec![2u8]; // version 2
    payload.extend_from_slice(&[0u8; 3]);
    payload.extend_from_slice(&[0u8; 20]); // padding
    assert!(parse_emsg(&payload).is_err());
}

// --- build_emsg_box ---

#[test]
fn build_emsg_box_v0_roundtrip() {
    let emsg = EmsgBox {
        version: 0,
        scheme_id_uri: "urn:test:scheme".to_string(),
        value: "val".to_string(),
        timescale: 90000,
        presentation_time: 500,
        event_duration: 1000,
        id: 7,
        message_data: vec![0xAA, 0xBB, 0xCC],
    };
    let built = build_emsg_box(&emsg);
    let header = read_box_header(&built, 0).unwrap();
    assert_eq!(header.box_type, box_type::EMSG);
    let payload = &built[header.header_size as usize..];
    let parsed = parse_emsg(payload).unwrap();
    assert_eq!(parsed.version, 0);
    assert_eq!(parsed.scheme_id_uri, "urn:test:scheme");
    assert_eq!(parsed.value, "val");
    assert_eq!(parsed.timescale, 90000);
    assert_eq!(parsed.presentation_time, 500);
    assert_eq!(parsed.event_duration, 1000);
    assert_eq!(parsed.id, 7);
    assert_eq!(parsed.message_data, vec![0xAA, 0xBB, 0xCC]);
}

#[test]
fn build_emsg_box_v1_roundtrip() {
    let emsg = EmsgBox {
        version: 1,
        scheme_id_uri: "urn:scte:scte35:2013:bin".to_string(),
        value: String::new(),
        timescale: 90000,
        presentation_time: 8100000,
        event_duration: 2700000,
        id: 42,
        message_data: vec![0xFC, 0x30, 0x00],
    };
    let built = build_emsg_box(&emsg);
    let header = read_box_header(&built, 0).unwrap();
    let payload = &built[header.header_size as usize..];
    let parsed = parse_emsg(payload).unwrap();
    assert_eq!(parsed.version, 1);
    assert_eq!(parsed.scheme_id_uri, "urn:scte:scte35:2013:bin");
    assert_eq!(parsed.timescale, 90000);
    assert_eq!(parsed.presentation_time, 8100000);
    assert_eq!(parsed.event_duration, 2700000);
    assert_eq!(parsed.id, 42);
    assert_eq!(parsed.message_data, vec![0xFC, 0x30, 0x00]);
}

#[test]
fn build_emsg_box_empty_message() {
    let emsg = EmsgBox {
        version: 0,
        scheme_id_uri: "urn:x".to_string(),
        value: String::new(),
        timescale: 1,
        presentation_time: 0,
        event_duration: 0,
        id: 0,
        message_data: Vec::new(),
    };
    let built = build_emsg_box(&emsg);
    let header = read_box_header(&built, 0).unwrap();
    let payload = &built[header.header_size as usize..];
    let parsed = parse_emsg(payload).unwrap();
    assert!(parsed.message_data.is_empty());
}

// --- sidx parsing tests ---

/// Build a synthetic sidx box for testing.
fn build_test_sidx(version: u8, timescale: u32, first_offset: u64, refs: &[(u32, u32)]) -> Vec<u8> {
    let mut inner = Vec::new();
    // Version + flags
    inner.push(version);
    inner.extend_from_slice(&[0, 0, 0]); // flags
    // reference_ID
    inner.extend_from_slice(&1u32.to_be_bytes());
    // timescale
    inner.extend_from_slice(&timescale.to_be_bytes());
    // earliest_presentation_time + first_offset
    if version == 0 {
        inner.extend_from_slice(&0u32.to_be_bytes()); // ept
        inner.extend_from_slice(&(first_offset as u32).to_be_bytes());
    } else {
        inner.extend_from_slice(&0u64.to_be_bytes()); // ept
        inner.extend_from_slice(&first_offset.to_be_bytes());
    }
    // reserved (2 bytes) + reference_count (2 bytes)
    inner.extend_from_slice(&[0, 0]);
    inner.extend_from_slice(&(refs.len() as u16).to_be_bytes());
    // references
    for (size, duration) in refs {
        // reference_type=0 (media) | referenced_size
        inner.extend_from_slice(&size.to_be_bytes());
        // subsegment_duration
        inner.extend_from_slice(&duration.to_be_bytes());
        // starts_with_SAP=1, SAP_type=1, SAP_delta_time=0
        inner.extend_from_slice(&0x9000_0000u32.to_be_bytes());
    }

    let total_size = 8 + inner.len() as u32;
    let mut output = Vec::with_capacity(total_size as usize);
    write_box_header(&mut output, total_size, &edgepack::media::box_type::SIDX);
    output.extend_from_slice(&inner);
    output
}

#[test]
fn parse_sidx_v0_basic() {
    let data = build_test_sidx(0, 1000, 0, &[
        (50000, 2000),
        (60000, 2000),
        (40000, 1000),
    ]);
    let result = parse_sidx(&data).unwrap();
    assert_eq!(result.timescale, 1000);
    assert_eq!(result.first_offset, 0);
    assert_eq!(result.references.len(), 3);
    assert_eq!(result.references[0].referenced_size, 50000);
    assert_eq!(result.references[0].subsegment_duration, 2000);
    assert!(!result.references[0].reference_type);
    assert_eq!(result.references[1].referenced_size, 60000);
    assert_eq!(result.references[2].referenced_size, 40000);
    assert_eq!(result.references[2].subsegment_duration, 1000);
}

#[test]
fn parse_sidx_v1_with_first_offset() {
    let data = build_test_sidx(1, 90000, 512, &[
        (100000, 360000),
        (80000, 360000),
    ]);
    let result = parse_sidx(&data).unwrap();
    assert_eq!(result.timescale, 90000);
    assert_eq!(result.first_offset, 512);
    assert_eq!(result.references.len(), 2);
    assert_eq!(result.references[0].referenced_size, 100000);
    assert_eq!(result.references[0].subsegment_duration, 360000);
}

#[test]
fn parse_sidx_empty_references() {
    let data = build_test_sidx(0, 1000, 0, &[]);
    let result = parse_sidx(&data).unwrap();
    assert_eq!(result.references.len(), 0);
}

#[test]
fn parse_sidx_no_sidx_box_returns_error() {
    // Just an ftyp box, no sidx
    let mut data = Vec::new();
    write_box_header(&mut data, 12, &edgepack::media::box_type::FTYP);
    data.extend_from_slice(&[0, 0, 0, 0]);
    let result = parse_sidx(&data);
    assert!(result.is_err());
    assert!(result.unwrap_err().to_string().contains("no sidx"));
}

#[test]
fn parse_sidx_duration_to_seconds() {
    let data = build_test_sidx(0, 15360, 0, &[
        (50000, 61440), // 61440 / 15360 = 4.0 seconds
    ]);
    let result = parse_sidx(&data).unwrap();
    let duration_secs = result.references[0].subsegment_duration as f64 / result.timescale as f64;
    assert!((duration_secs - 4.0).abs() < 0.001);
}
