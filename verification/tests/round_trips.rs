use edgepack::drm::sample_cryptor::{create_decryptor, create_encryptor};
use edgepack::drm::scheme::EncryptionScheme;
use edgepack::drm::system_ids;
use edgepack::drm::{ContentKey, DrmKeySet, DrmSystemData};
use edgepack::error::EdgepackError;
use edgepack::media::box_type;
use edgepack::media::cmaf;
use edgepack::media::cmaf::{EmsgBox, PsshBox, SencEntry, SubsampleEntry};
use edgepack::media::codec::TrackKeyMapping;
use edgepack::media::container::ContainerFormat;
use edgepack::media::init;
use edgepack::media::init::{SampleEdit, Target};
use edgepack::media::segment::{
    find_moof_mdat, parse_moof_encryption_info, parse_moof_trun_only, rewrite_clear_to_encrypted,
    rewrite_segment, SegmentRewriteParams,
};
use edgepack::media::TrackType;

const KEY: [u8; 16] = [
    0x2b, 0x7e, 0x15, 0x16, 0x28, 0xae, 0xd2, 0xa6, 0xab, 0xf7, 0x15, 0x88, 0x09, 0xcf, 0x4f, 0x3c,
];
const BLOCK: [u8; 16] = [
    0x6b, 0xc1, 0xbe, 0xe2, 0x2e, 0x40, 0x9f, 0x96, 0xe9, 0x3d, 0x7e, 0x11, 0x73, 0x93, 0x17, 0x2a,
];

fn content_key(key: &[u8]) -> Option<ContentKey> {
    Some(ContentKey { kid: [9; 16], key: key.to_vec(), iv: None })
}

fn params(source: EncryptionScheme, target: EncryptionScheme) -> SegmentRewriteParams {
    SegmentRewriteParams {
        source_key: content_key(&KEY),
        target_key: content_key(&KEY),
        source_scheme: source,
        target_scheme: target,
        source_iv_size: if source == EncryptionScheme::Cbcs { 16 } else { 8 },
        target_iv_size: if target == EncryptionScheme::Cbcs { 16 } else { 8 },
        source_pattern: (1, 9),
        target_pattern: (1, 9),
        constant_iv: None,
        segment_number: 7,
    }
}

fn trun(sizes: &[u32]) -> Vec<u8> {
    let mut body = (sizes.len() as u32).to_be_bytes().to_vec();
    for s in sizes {
        body.extend_from_slice(&s.to_be_bytes());
    }
    cmaf::make_full_box(&box_type::TRUN, 0, 0x200, &body)
}

fn clear_segment(sizes: &[u32], data: &[u8]) -> Vec<u8> {
    let mut traf = cmaf::make_full_box(&box_type::TFHD, 0, 0x20000, &1u32.to_be_bytes());
    traf.extend(trun(sizes));
    let mut moof = cmaf::make_full_box(&box_type::MFHD, 0, 0, &1u32.to_be_bytes());
    moof.extend(cmaf::make_box(&box_type::TRAF, &traf));
    let mut out = cmaf::make_box(&box_type::MOOF, &moof);
    out.extend(cmaf::make_box(&box_type::MDAT, data));
    out
}

fn sample_data(n: usize) -> Vec<u8> {
    (0..n).map(|i| (i * 7 % 251) as u8).collect()
}

#[test]
fn counter_mode_matches_the_published_vector() {
    let iv: Vec<u8> = (0xf0u8..=0xff).collect();
    let c = create_encryptor(EncryptionScheme::Cenc, KEY, (0, 0));
    let out = c.encrypt_sample(&BLOCK, &iv, None).unwrap();
    assert_eq!(
        out,
        vec![
            0x87, 0x4d, 0x61, 0x91, 0xb6, 0x20, 0xe3, 0x26, 0x1b, 0xef, 0x68, 0x64, 0x99, 0x0d,
            0xb6, 0xce
        ]
    );
}

#[test]
fn block_chaining_matches_the_published_vector() {
    let iv: Vec<u8> = (0u8..16).collect();
    let want = vec![
        0x76, 0x49, 0xab, 0xac, 0x81, 0x19, 0xb2, 0x46, 0xce, 0xe9, 0x8e, 0x9b, 0x12, 0xe9, 0x19,
        0x7d,
    ];
    let c = create_encryptor(EncryptionScheme::Cbcs, KEY, (0, 0));
    assert_eq!(c.encrypt_sample(&BLOCK, &iv, None).unwrap(), want);
    let d = create_decryptor(EncryptionScheme::Cbcs, KEY, (0, 0));
    assert_eq!(d.decrypt_sample(&want, &iv, None).unwrap(), BLOCK.to_vec());
}

#[test]
fn patterns_leave_skipped_blocks_and_the_rest_clear() {
    let iv: Vec<u8> = (0u8..16).collect();
    let mut data = BLOCK.to_vec();
    data.extend(sample_data(40));
    let c = create_encryptor(EncryptionScheme::Cbcs, KEY, (1, 1));
    let out = c.encrypt_sample(&data, &iv, None).unwrap();
    assert_eq!(out[0..4], [0x76, 0x49, 0xab, 0xac]);
    assert_eq!(out[16..32], data[16..32]);
    assert_ne!(out[32..48], data[32..48]);
    assert_eq!(out[48..], data[48..]);
    assert_eq!(
        create_decryptor(EncryptionScheme::Cbcs, KEY, (1, 1)).decrypt_sample(&out, &iv, None).unwrap(),
        data
    );
}

#[test]
fn subsamples_keep_their_clear_bytes() {
    let data = sample_data(50);
    let subs = [(4u32, 20u32), (6, 10)];
    for scheme in [EncryptionScheme::Cenc, EncryptionScheme::Cbcs] {
        let c = create_encryptor(scheme, KEY, (1, 0));
        let iv = c.generate_iv(3, 4);
        let out = c.encrypt_sample(&data, &iv, Some(&subs)).unwrap();
        assert_eq!(out.len(), data.len());
        assert_eq!(out[0..4], data[0..4]);
        assert_ne!(out[4..20], data[4..20]);
        assert_eq!(out[24..30], data[24..30]);
        assert_eq!(out[40..], data[40..]);
        assert_eq!(
            create_decryptor(scheme, KEY, (1, 0)).decrypt_sample(&out, &iv, Some(&subs)).unwrap(),
            data
        );
    }
}

#[test]
fn samples_need_an_iv_and_subsamples_that_fit() {
    let c = create_encryptor(EncryptionScheme::Cenc, KEY, (0, 0));
    assert_eq!(
        c.encrypt_sample(&BLOCK, &[1, 2, 3], None).unwrap_err().to_string(),
        "CENC IV must be 8 or 16 bytes"
    );
    let b = create_encryptor(EncryptionScheme::Cbcs, KEY, (0, 0));
    assert_eq!(
        b.encrypt_sample(&BLOCK, &[0; 8], None).unwrap_err().to_string(),
        "CBCS IV must be 16 bytes"
    );
    let r = c.encrypt_sample(&BLOCK, &[0; 8], Some(&[(8, 9)]));
    assert!(matches!(r, Err(EdgepackError::Encryption(_))));
}

#[test]
fn fresh_ivs_tell_segments_and_samples_apart() {
    let c = create_encryptor(EncryptionScheme::Cenc, KEY, (0, 0));
    assert_eq!(c.generate_iv(1, 2), vec![0, 0, 0, 1, 0, 0, 0, 2]);
    assert_ne!(c.generate_iv(1, 2), c.generate_iv(2, 1));
    let b = create_encryptor(EncryptionScheme::Cbcs, KEY, (0, 0));
    assert_eq!(b.generate_iv(1, 2), vec![0, 0, 0, 0, 0, 0, 0, 0, 0, 0, 0, 1, 0, 0, 0, 2]);
}

#[test]
fn clear_segments_come_back_byte_for_byte() {
    let clear = clear_segment(&[20, 33, 16], &sample_data(75));
    for scheme in [EncryptionScheme::Cenc, EncryptionScheme::Cbcs] {
        let locked = rewrite_segment(&clear, &params(EncryptionScheme::Clear, scheme)).unwrap();
        assert_ne!(locked, clear);
        let open = rewrite_segment(&locked, &params(scheme, EncryptionScheme::Clear)).unwrap();
        assert_eq!(open, clear);
    }
}

#[test]
fn reencrypted_segments_decrypt_to_the_same_clear_segment() {
    let clear = clear_segment(&[20, 33], &sample_data(60));
    let cenc =
        rewrite_segment(&clear, &params(EncryptionScheme::Clear, EncryptionScheme::Cenc)).unwrap();
    let cbcs =
        rewrite_segment(&cenc, &params(EncryptionScheme::Cenc, EncryptionScheme::Cbcs)).unwrap();
    assert_ne!(cenc, cbcs);
    let (moof, _) = find_moof_mdat(&cbcs).unwrap();
    let (senc, run) = parse_moof_encryption_info(moof, 16).unwrap();
    assert_eq!(senc.entries.len(), 2);
    assert_eq!(senc.entries[1].iv, vec![0, 0, 0, 0, 0, 0, 0, 0, 0, 0, 0, 7, 0, 0, 0, 1]);
    assert_eq!(run.entries[0].sample_size, Some(20));
    let open =
        rewrite_segment(&cbcs, &params(EncryptionScheme::Cbcs, EncryptionScheme::Clear)).unwrap();
    assert_eq!(open, clear);
}

#[test]
fn rewriting_keeps_the_payload_length() {
    let clear = clear_segment(&[10, 10], &sample_data(31));
    let locked =
        rewrite_segment(&clear, &params(EncryptionScheme::Clear, EncryptionScheme::Cbcs)).unwrap();
    let (_, mdat) = find_moof_mdat(&locked).unwrap();
    assert_eq!(mdat.len(), 31);
    assert_eq!(mdat[20..], sample_data(31)[20..]);
}

#[test]
fn clear_to_clear_hands_the_segment_through() {
    let any = vec![1, 2, 3];
    let p = params(EncryptionScheme::Clear, EncryptionScheme::Clear);
    assert_eq!(rewrite_segment(&any, &p).unwrap(), any);
}

#[test]
fn written_segments_are_found_again() {
    let s = clear_segment(&[5], &[1, 2, 3, 4, 5]);
    let (moof, mdat) = find_moof_mdat(&s).unwrap();
    assert_eq!(mdat, &[1, 2, 3, 4, 5]);
    assert_eq!(parse_moof_trun_only(moof).unwrap().entries[0].sample_size, Some(5));
}

#[test]
fn segments_are_refused_with_their_reason() {
    let p = params(EncryptionScheme::Clear, EncryptionScheme::Cenc);
    let only_mdat = cmaf::make_box(&box_type::MDAT, &[1]);
    assert_eq!(rewrite_segment(&only_mdat, &p).unwrap_err().to_string(), "no moof box found");
    let only_moof = cmaf::make_box(&box_type::MOOF, &[]);
    assert_eq!(rewrite_segment(&only_moof, &p).unwrap_err().to_string(), "no mdat box found");
    let mut bare = cmaf::make_box(&box_type::MOOF, &[]);
    bare.extend(cmaf::make_box(&box_type::MDAT, &[1]));
    assert_eq!(
        rewrite_segment(&bare, &p).unwrap_err().to_string(),
        "no trun box found in moof/traf"
    );
    assert_eq!(
        rewrite_segment(&bare, &params(EncryptionScheme::Cenc, EncryptionScheme::Clear))
            .unwrap_err()
            .to_string(),
        "no senc box found in moof/traf"
    );
    let long = clear_segment(&[50], &[0; 10]);
    assert_eq!(
        rewrite_segment(&long, &p).unwrap_err().to_string(),
        "sample 0 extends beyond mdat (offset=0, size=50, mdat=10)"
    );
    let mut keyless = params(EncryptionScheme::Clear, EncryptionScheme::Cenc);
    keyless.target_key = None;
    let ok = clear_segment(&[4], &[0; 4]);
    assert_eq!(
        rewrite_clear_to_encrypted(&ok, &keyless).unwrap_err().to_string(),
        "target_key required for encrypted target"
    );
    keyless.target_key = content_key(&[1, 2, 3]);
    assert!(matches!(
        rewrite_clear_to_encrypted(&ok, &keyless),
        Err(EdgepackError::Encryption(_))
    ));
}

#[test]
fn boxes_read_back_with_type_and_payload() {
    let mut data = cmaf::make_box(&box_type::FTYP, &[1, 2, 3]);
    data.extend(cmaf::make_box(&box_type::MDAT, &[]));
    data.extend(cmaf::make_full_box(&box_type::TFDT, 1, 5, &[7]));
    let boxes = cmaf::iterate_boxes(&data).collect();
    assert_eq!(boxes.len(), 3);
    let h = boxes[0].as_ref().unwrap();
    assert_eq!(h.box_type, box_type::FTYP);
    assert_eq!(cmaf::box_payload(&data, h), &[1, 2, 3]);
    let h = boxes[1].as_ref().unwrap();
    assert_eq!((h.offset, h.size), (11, 8));
    let h = boxes[2].as_ref().unwrap();
    assert_eq!(cmaf::box_payload(&data, h), &[1, 0, 0, 5, 7]);
}

#[test]
fn open_ended_and_long_headers_are_read() {
    let mut open = vec![0, 0, 0, 0];
    open.extend_from_slice(&box_type::MDAT);
    open.extend_from_slice(&[1, 2]);
    let h = cmaf::read_box_header(&open, 0).unwrap();
    assert_eq!((h.size, h.header_size), (10, 8));
    let mut long = vec![0, 0, 0, 1];
    long.extend_from_slice(&box_type::MDAT);
    long.extend_from_slice(&18u64.to_be_bytes());
    long.extend_from_slice(&[1, 2]);
    let h = cmaf::read_box_header(&long, 0).unwrap();
    assert_eq!((h.size, h.header_size), (18, 16));
    assert!(cmaf::read_box_header(&long[..12], 0).is_err());
    assert!(cmaf::read_box_header(&long, 12).is_err());
}

#[test]
fn senc_boxes_read_back() {
    let entries = vec![
        SencEntry {
            iv: vec![1; 8],
            subsamples: Some(vec![
                SubsampleEntry { clear_bytes: 5, encrypted_bytes: 70000 },
                SubsampleEntry { clear_bytes: 0, encrypted_bytes: 1 },
            ]),
        },
        SencEntry { iv: vec![2; 8], subsamples: Some(vec![]) },
    ];
    let data = cmaf::build_senc_box(&entries, true);
    let back = cmaf::parse_senc(&data[8..], 8).unwrap();
    assert_eq!((back.flags, back.sample_count), (2, 2));
    assert_eq!(back.entries[0].iv, vec![1; 8]);
    let subs = back.entries[0].subsamples.as_ref().unwrap();
    assert_eq!((subs[0].clear_bytes, subs[0].encrypted_bytes), (5, 70000));
    assert_eq!(back.entries[1].subsamples.as_ref().unwrap().len(), 0);
    let plain = vec![SencEntry { iv: vec![3; 16], subsamples: None }];
    let back = cmaf::parse_senc(&cmaf::build_senc_box(&plain, false)[8..], 16).unwrap();
    assert_eq!(back.flags, 0);
    assert_eq!(back.entries[0].iv, vec![3; 16]);
    assert!(back.entries[0].subsamples.is_none());
    assert!(cmaf::parse_senc(&data[8..20], 8).is_err());
}

#[test]
fn pssh_boxes_read_back() {
    for version in [0u8, 1] {
        let p = PsshBox {
            version,
            system_id: system_ids::WIDEVINE,
            key_ids: if version == 0 { vec![] } else { vec![[4; 16], [5; 16]] },
            data: vec![8, 9],
        };
        let back = cmaf::parse_pssh(&cmaf::build_pssh_box(&p)[8..]).unwrap();
        assert_eq!(back.version, version);
        assert_eq!(back.system_id, system_ids::WIDEVINE);
        assert_eq!(back.key_ids, p.key_ids);
        assert_eq!(back.data, vec![8, 9]);
    }
}

#[test]
fn emsg_boxes_read_back_with_text_beyond_ascii() {
    for version in [0u8, 1] {
        let m = EmsgBox {
            version,
            scheme_id_uri: "urn:caf\u{e9}:\u{1f600}".to_string(),
            value: "v".to_string(),
            timescale: 90000,
            presentation_time: if version == 0 { 0xffff_ffff } else { 0x1_0000_0001 },
            event_duration: 5,
            id: 6,
            message_data: vec![0, 1, 2],
        };
        let back = cmaf::parse_emsg(&cmaf::build_emsg_box(&m)[8..]).unwrap();
        assert_eq!(back.version, version);
        assert_eq!(back.scheme_id_uri, m.scheme_id_uri);
        assert_eq!(back.value, "v");
        assert_eq!(back.presentation_time, m.presentation_time);
        assert_eq!((back.timescale, back.event_duration, back.id), (90000, 5, 6));
        assert_eq!(back.message_data, vec![0, 1, 2]);
    }
    assert_eq!(
        cmaf::parse_emsg(&[2, 0, 0, 0]).unwrap_err().to_string(),
        "emsg: unsupported version 2"
    );
    let mut broken = vec![0, 0, 0, 0, 0xff, 0, 0];
    broken.extend_from_slice(&[0; 16]);
    assert_eq!(cmaf::parse_emsg(&broken).unwrap().scheme_id_uri, "\u{fffd}");
}

#[test]
fn tenc_boxes_read_back() {
    let data = init::build_tenc(&[7; 16], 0, (1, 9));
    let t = cmaf::parse_tenc(&data[8..]).unwrap();
    assert_eq!((t.is_protected, t.default_per_sample_iv_size), (1, 0));
    assert_eq!((t.default_crypt_byte_block, t.default_skip_byte_block), (1, 9));
    assert_eq!(t.default_kid, [7; 16]);
    assert!(t.default_constant_iv.is_none());
    let wide = cmaf::parse_tenc(&init::build_tenc(&[7; 16], 8, (17, 18))[8..]).unwrap();
    assert_eq!((wide.default_crypt_byte_block, wide.default_skip_byte_block), (1, 2));
}

fn entry(code: &[u8; 4]) -> Vec<u8> {
    cmaf::make_box(code, &[0xaa; 30])
}

fn clear_init(codes: &[[u8; 4]]) -> Vec<u8> {
    let mut stsd = vec![0, 0, 0, 0];
    stsd.extend_from_slice(&(codes.len() as u32).to_be_bytes());
    for c in codes {
        stsd.extend(entry(c));
    }
    let stbl = cmaf::make_box(&box_type::STBL, &cmaf::make_box(&box_type::STSD, &stsd));
    let minf = cmaf::make_box(&box_type::MINF, &stbl);
    let mut hdlr = vec![0; 8];
    hdlr.extend_from_slice(b"vide");
    hdlr.extend_from_slice(&[0; 12]);
    let mut mdia = cmaf::make_box(&box_type::HDLR, &hdlr);
    mdia.extend(minf);
    let trak = cmaf::make_box(&box_type::TRAK, &cmaf::make_box(&box_type::MDIA, &mdia));
    let mut moov = cmaf::make_full_box(&box_type::MVHD, 0, 0, &[0; 96]);
    moov.extend(trak);
    let mut out = ContainerFormat::Cmaf.build_ftyp();
    out.extend(cmaf::make_box(&box_type::MOOV, &moov));
    out
}

fn key_set() -> DrmKeySet {
    let system = |id: [u8; 16], kid: u8| DrmSystemData {
        system_id: id,
        kid: [kid; 16],
        pssh_data: vec![kid],
        content_protection_data: None,
    };
    DrmKeySet {
        keys: vec![],
        drm_systems: vec![
            system(system_ids::WIDEVINE, 1),
            system(system_ids::FAIRPLAY, 1),
            system(system_ids::WIDEVINE, 2),
        ],
    }
}

#[test]
fn added_protection_is_found_and_comes_off() {
    let clear = clear_init(&[*b"avc1", *b"mp4a", *b"stpp"]);
    let mapping = TrackKeyMapping::per_type([1; 16], [2; 16]);
    let locked = init::create_protection_info(
        &clear,
        &key_set(),
        &mapping,
        EncryptionScheme::Cbcs,
        16,
        (1, 9),
        ContainerFormat::Cmaf,
    )
    .unwrap();
    let found = init::parse_protection_info(&locked).unwrap().unwrap();
    assert_eq!(&found.original_format, b"avc1");
    assert_eq!(&found.scheme_type, b"cbcs");
    assert_eq!(found.scheme_version, 0x10000);
    assert_eq!(found.tenc.default_kid, [1; 16]);
    assert_eq!(found.tenc.default_per_sample_iv_size, 16);
    let open = init::strip_protection_info(&locked, ContainerFormat::Iso).unwrap();
    assert_eq!(open, init::rewrite_ftyp_only(&clear, ContainerFormat::Iso).unwrap());
    assert!(init::parse_protection_info(&open).unwrap().is_none());
}

#[test]
fn rewritten_protection_is_that_of_the_target() {
    let sinf = init::build_sinf(b"avc1", EncryptionScheme::Cbcs, &[1; 16], 16, (1, 9));
    let target = Target { scheme: EncryptionScheme::Cenc, iv_size: 8, pattern: (0, 0) };
    assert_eq!(
        init::rewrite_sinf(&sinf[8..], &[2; 16], target).unwrap(),
        init::build_sinf(b"avc1", EncryptionScheme::Cenc, &[2; 16], 8, (0, 0))
    );
}

#[test]
fn a_rewritten_init_segment_has_the_protection_of_the_target() {
    let clear = clear_init(&[*b"avc1"]);
    assert!(init::parse_protection_info(&clear).unwrap().is_none());
    let mapping = TrackKeyMapping::per_type([1; 16], [2; 16]);
    let cbcs = init::create_protection_info(
        &clear,
        &key_set(),
        &mapping,
        EncryptionScheme::Cbcs,
        16,
        (1, 9),
        ContainerFormat::Cmaf,
    )
    .unwrap();
    let cenc = init::rewrite_init_segment(
        &cbcs,
        &key_set(),
        &TrackKeyMapping::per_type([3; 16], [4; 16]),
        EncryptionScheme::Cenc,
        8,
        (0, 0),
        ContainerFormat::Fmp4,
    )
    .unwrap();
    let found = init::parse_protection_info(&cenc).unwrap().unwrap();
    assert_eq!(&found.original_format, b"avc1");
    assert_eq!(&found.scheme_type, b"cenc");
    assert_eq!(found.tenc.default_kid, [3; 16]);
    assert_eq!(found.tenc.default_per_sample_iv_size, 8);
    assert_eq!(found.tenc.default_crypt_byte_block, 0);
    assert_eq!(found.tenc.default_skip_byte_block, 0);
}

#[test]
fn rewriting_changes_nothing_but_the_protection() {
    let clear = clear_init(&[*b"avc1", *b"mp4a"]);
    let mapping = TrackKeyMapping::per_type([1; 16], [2; 16]);
    let cbcs = init::create_protection_info(
        &clear,
        &key_set(),
        &mapping,
        EncryptionScheme::Cbcs,
        16,
        (1, 9),
        ContainerFormat::Cmaf,
    )
    .unwrap();
    let cenc = init::rewrite_init_segment(
        &cbcs,
        &key_set(),
        &TrackKeyMapping::per_type([3; 16], [4; 16]),
        EncryptionScheme::Cenc,
        8,
        (0, 0),
        ContainerFormat::Fmp4,
    )
    .unwrap();
    assert_ne!(cbcs, cenc);
    assert_eq!(
        init::strip_protection_info(&cenc, ContainerFormat::Iso).unwrap(),
        init::strip_protection_info(&cbcs, ContainerFormat::Iso).unwrap()
    );
    let ftyp = ContainerFormat::Fmp4.build_ftyp();
    assert_eq!(cenc[..ftyp.len()], ftyp[..]);
}

#[test]
fn an_edited_entry_counts_the_header_that_it_gets() {
    let mut long = 1u32.to_be_bytes().to_vec();
    long.extend_from_slice(b"avc1");
    long.extend_from_slice(&24u64.to_be_bytes());
    long.extend_from_slice(&[0xaa; 8]);
    let header = cmaf::read_box_header(&long, 0).unwrap();
    assert_eq!(header.header_size, 16);
    let target = Target { scheme: EncryptionScheme::Cenc, iv_size: 8, pattern: (0, 0) };
    let out = init::edit_entry(&long, &header, SampleEdit::Inject(target), &[1; 16]).unwrap();
    assert_eq!(out.len(), 8 + 8 + 79);
    assert_eq!(out[0..4], 95u32.to_be_bytes());
    assert_eq!(&out[4..8], b"encv");
}

#[test]
fn encrypted_tracks_get_one_senc_box_with_an_entry_for_every_sample() {
    let clear = clear_segment(&[20, 33, 16], &sample_data(75));
    let p = params(EncryptionScheme::Clear, EncryptionScheme::Cenc);
    let locked = rewrite_segment(&clear, &p).unwrap();
    let (moof, mdat) = find_moof_mdat(&locked).unwrap();
    assert_eq!(mdat.len(), 75);
    let traf = cmaf::find_child_box(moof, &box_type::TRAF).unwrap();
    let body = cmaf::box_payload(moof, &traf);
    let (headers, fault) = cmaf::scan_boxes(body);
    assert!(fault.is_none());
    let sencs = headers.iter().filter(|h| h.box_type == box_type::SENC).count();
    assert_eq!(sencs, 1);
    let (senc, run) = parse_moof_encryption_info(moof, 8).unwrap();
    assert_eq!(senc.entries.len(), run.entries.len());
}

#[test]
fn the_pattern_matters_under_cbcs_alone() {
    let clear = clear_segment(&[64], &sample_data(64));
    for (scheme, same) in [(EncryptionScheme::Cenc, true), (EncryptionScheme::Cbcs, false)] {
        let locked = rewrite_segment(&clear, &params(EncryptionScheme::Clear, scheme)).unwrap();
        let mut back = params(scheme, EncryptionScheme::Clear);
        back.source_pattern = (2, 1);
        assert_eq!(rewrite_segment(&locked, &back).unwrap() == clear, same);
    }
}

#[test]
fn every_system_gets_one_header() {
    let mapping = TrackKeyMapping::single([1; 16]);
    let boxes = init::build_pssh_boxes(&key_set(), &mapping, EncryptionScheme::Cbcs).unwrap();
    let (headers, fault) = cmaf::scan_boxes(&boxes);
    assert!(fault.is_none());
    assert_eq!(headers.len(), 2);
    let first = cmaf::parse_pssh(cmaf::box_payload(&boxes, &headers[0])).unwrap();
    assert_eq!(first.system_id, system_ids::WIDEVINE);
    assert_eq!(first.key_ids, vec![[1; 16], [2; 16]]);
    let cenc = init::build_pssh_boxes(&key_set(), &mapping, EncryptionScheme::Cenc).unwrap();
    let (headers, _) = cmaf::scan_boxes(&cenc);
    assert_eq!(headers.len(), 1);
}

#[test]
fn mappings_list_every_key_once() {
    let single = TrackKeyMapping::single([3; 16]);
    assert_eq!(single.all_kids(), vec![[3; 16]]);
    assert!(!single.is_multi_key());
    assert_eq!(single.kid_for_track(TrackType::Unknown), Some(&[3; 16]));
    let two = TrackKeyMapping::per_type([1; 16], [2; 16]);
    assert_eq!(two.all_kids(), vec![[1; 16], [2; 16]]);
    assert_eq!(two.kid_for_track(TrackType::Subtitle), Some(&[1; 16]));
    assert!(TrackKeyMapping::from_tracks(&[]).kid_for_track(TrackType::Video).is_none());
}

#[test]
fn format_names_are_read_back() {
    for f in [ContainerFormat::Cmaf, ContainerFormat::Fmp4, ContainerFormat::Iso] {
        assert_eq!(ContainerFormat::from_str_value(f.as_str()), Some(f));
    }
    assert_eq!(ContainerFormat::from_str_value("ts"), None);
    assert!(ContainerFormat::Cmaf.compatible_brands().contains(b"cmfc"));
    assert!(!ContainerFormat::Fmp4.compatible_brands().contains(b"cmfc"));
}
