use edgepack::media::chunk::{ChunkBoundary, detect_chunk_boundaries, extract_chunk, is_sync_sample};
use edgepack::media::cmaf;

/// Helper: wrap children in a box with the given type.
fn wrap_box(box_type: &[u8; 4], children: &[u8]) -> Vec<u8> {
    let total = 8 + children.len() as u32;
    let mut output = Vec::with_capacity(total as usize);
    cmaf::write_box_header(&mut output, total, box_type);
    output.extend_from_slice(children);
    output
}

/// Build a minimal mfhd box.
fn build_mfhd(seq: u32) -> Vec<u8> {
    let mut mfhd = Vec::new();
    cmaf::write_full_box_header(&mut mfhd, 16, b"mfhd", 0, 0);
    mfhd.extend_from_slice(&seq.to_be_bytes());
    mfhd
}

/// Build a tfhd box with optional default sample flags.
fn build_tfhd(track_id: u32, default_sample_flags: Option<u32>) -> Vec<u8> {
    let flags: u32 = 0x020000 | if default_sample_flags.is_some() { 0x000020 } else { 0 };
    let size = if default_sample_flags.is_some() { 20u32 } else { 16u32 };
    let mut tfhd = Vec::new();
    cmaf::write_full_box_header(&mut tfhd, size, b"tfhd", 0, flags);
    tfhd.extend_from_slice(&track_id.to_be_bytes());
    if let Some(df) = default_sample_flags {
        tfhd.extend_from_slice(&df.to_be_bytes());
    }
    tfhd
}

/// Build a trun box with first_sample_flags.
fn build_trun_with_first_flags(sample_count: u32, first_flags: u32) -> Vec<u8> {
    // flags: 0x000004 (first_sample_flags_present), 0x000200 (sample_size_present)
    let trun_flags: u32 = 0x000004 | 0x000200;
    let size = 8 + 4 + 4 + 4 + (sample_count * 4); // header + ver_flags + count + first_flags + sizes
    let mut trun = Vec::new();
    cmaf::write_box_header(&mut trun, size, b"trun");
    trun.push(0); // version
    trun.extend_from_slice(&trun_flags.to_be_bytes()[1..4]);
    trun.extend_from_slice(&sample_count.to_be_bytes());
    trun.extend_from_slice(&first_flags.to_be_bytes());
    for _ in 0..sample_count {
        trun.extend_from_slice(&100u32.to_be_bytes()); // sample_size
    }
    trun
}

/// Build a simple trun without first_sample_flags.
fn build_simple_trun(sample_count: u32) -> Vec<u8> {
    let trun_flags: u32 = 0x000200; // sample_size_present only
    let size = 8 + 4 + 4 + (sample_count * 4);
    let mut trun = Vec::new();
    cmaf::write_box_header(&mut trun, size, b"trun");
    trun.push(0);
    trun.extend_from_slice(&trun_flags.to_be_bytes()[1..4]);
    trun.extend_from_slice(&sample_count.to_be_bytes());
    for _ in 0..sample_count {
        trun.extend_from_slice(&100u32.to_be_bytes());
    }
    trun
}

/// Build a moof+mdat pair (one chunk).
fn build_chunk(seq: u32, data_size: usize, first_flags: Option<u32>) -> Vec<u8> {
    let mfhd = build_mfhd(seq);
    let tfhd = build_tfhd(1, None);
    let trun = if let Some(ff) = first_flags {
        build_trun_with_first_flags(1, ff)
    } else {
        build_simple_trun(1)
    };
    let mut traf_children = Vec::new();
    traf_children.extend_from_slice(&tfhd);
    traf_children.extend_from_slice(&trun);
    let traf = wrap_box(b"traf", &traf_children);

    let mut moof_children = Vec::new();
    moof_children.extend_from_slice(&mfhd);
    moof_children.extend_from_slice(&traf);
    let moof = wrap_box(b"moof", &moof_children);

    let mdat_payload = vec![0xAA; data_size];
    let mdat = wrap_box(b"mdat", &mdat_payload);

    let mut chunk = Vec::new();
    chunk.extend_from_slice(&moof);
    chunk.extend_from_slice(&mdat);
    chunk
}

#[test]
fn detect_single_chunk() {
    let segment = build_chunk(1, 100, Some(0x02000000));
    let boundaries = detect_chunk_boundaries(&segment);
    assert_eq!(boundaries.len(), 1);
    assert_eq!(boundaries[0].offset, 0);
    assert_eq!(boundaries[0].size, segment.len());
    assert!(boundaries[0].independent);
}

#[test]
fn detect_multiple_chunks() {
    let mut segment = Vec::new();
    // IDR chunk
    let chunk1 = build_chunk(1, 200, Some(0x02000000));
    // Non-IDR chunk (sample_depends_on=1 => depends on others)
    let chunk2 = build_chunk(2, 150, Some(0x01000000));
    // Another non-IDR
    let chunk3 = build_chunk(3, 100, Some(0x01000000));

    segment.extend_from_slice(&chunk1);
    segment.extend_from_slice(&chunk2);
    segment.extend_from_slice(&chunk3);

    let boundaries = detect_chunk_boundaries(&segment);
    assert_eq!(boundaries.len(), 3);

    assert_eq!(boundaries[0].offset, 0);
    assert!(boundaries[0].independent);

    assert_eq!(boundaries[1].offset, chunk1.len());
    assert!(!boundaries[1].independent);

    assert_eq!(boundaries[2].offset, chunk1.len() + chunk2.len());
    assert!(!boundaries[2].independent);
}

#[test]
fn detect_empty_data() {
    let boundaries = detect_chunk_boundaries(&[]);
    assert!(boundaries.is_empty());
}

#[test]
fn detect_too_short_data() {
    let boundaries = detect_chunk_boundaries(&[0x00, 0x00, 0x00]);
    assert!(boundaries.is_empty());
}

#[test]
fn detect_no_moof() {
    // Just an ftyp box, no moof+mdat
    let ftyp = wrap_box(b"ftyp", b"isom\x00\x00\x02\x00");
    let boundaries = detect_chunk_boundaries(&ftyp);
    assert!(boundaries.is_empty());
}

#[test]
fn detect_moof_without_mdat() {
    // moof without a following mdat should not be detected
    let mfhd = build_mfhd(1);
    let tfhd = build_tfhd(1, None);
    let trun = build_simple_trun(1);
    let mut traf_children = Vec::new();
    traf_children.extend_from_slice(&tfhd);
    traf_children.extend_from_slice(&trun);
    let traf = wrap_box(b"traf", &traf_children);
    let mut moof_children = Vec::new();
    moof_children.extend_from_slice(&mfhd);
    moof_children.extend_from_slice(&traf);
    let moof = wrap_box(b"moof", &moof_children);

    // Follow with a non-mdat box
    let free_box = wrap_box(b"free", &[0u8; 8]);
    let mut data = Vec::new();
    data.extend_from_slice(&moof);
    data.extend_from_slice(&free_box);

    let boundaries = detect_chunk_boundaries(&data);
    assert!(boundaries.is_empty());
}

#[test]
fn extract_chunk_valid() {
    let segment = build_chunk(1, 50, None);
    let boundaries = detect_chunk_boundaries(&segment);
    assert_eq!(boundaries.len(), 1);
    let extracted = extract_chunk(&segment, &boundaries[0]);
    assert!(extracted.is_some());
    assert_eq!(extracted.unwrap().len(), segment.len());
}

#[test]
fn extract_chunk_out_of_bounds() {
    let segment = build_chunk(1, 50, None);
    let oob = ChunkBoundary {
        offset: 0,
        size: segment.len() + 100, // larger than data
        duration_ticks: 0,
        independent: true,
    };
    assert!(extract_chunk(&segment, &oob).is_none());
}

#[test]
fn extract_second_chunk_from_multi() {
    let chunk1 = build_chunk(1, 100, Some(0x02000000));
    let chunk2 = build_chunk(2, 80, Some(0x01000000));
    let mut segment = Vec::new();
    segment.extend_from_slice(&chunk1);
    segment.extend_from_slice(&chunk2);

    let boundaries = detect_chunk_boundaries(&segment);
    assert_eq!(boundaries.len(), 2);

    let extracted = extract_chunk(&segment, &boundaries[1]).unwrap();
    assert_eq!(extracted.len(), chunk2.len());
}

#[test]
fn independence_from_tfhd_default_flags() {
    // No first_sample_flags in trun, but default_sample_flags in tfhd
    let mfhd = build_mfhd(1);
    // default_sample_flags with sample_depends_on=2 (independent)
    let tfhd = build_tfhd(1, Some(0x02000000));
    let trun = build_simple_trun(1);
    let mut traf_children = Vec::new();
    traf_children.extend_from_slice(&tfhd);
    traf_children.extend_from_slice(&trun);
    let traf = wrap_box(b"traf", &traf_children);
    let mut moof_children = Vec::new();
    moof_children.extend_from_slice(&mfhd);
    moof_children.extend_from_slice(&traf);
    let moof = wrap_box(b"moof", &moof_children);
    let mdat = wrap_box(b"mdat", &[0xBB; 50]);

    let mut segment = Vec::new();
    segment.extend_from_slice(&moof);
    segment.extend_from_slice(&mdat);

    let boundaries = detect_chunk_boundaries(&segment);
    assert_eq!(boundaries.len(), 1);
    assert!(boundaries[0].independent);
}

#[test]
fn non_independence_from_tfhd_default_flags() {
    let mfhd = build_mfhd(1);
    // default_sample_flags with sample_depends_on=1 (depends on others)
    let tfhd = build_tfhd(1, Some(0x01000000));
    let trun = build_simple_trun(1);
    let mut traf_children = Vec::new();
    traf_children.extend_from_slice(&tfhd);
    traf_children.extend_from_slice(&trun);
    let traf = wrap_box(b"traf", &traf_children);
    let mut moof_children = Vec::new();
    moof_children.extend_from_slice(&mfhd);
    moof_children.extend_from_slice(&traf);
    let moof = wrap_box(b"moof", &moof_children);
    let mdat = wrap_box(b"mdat", &[0xCC; 50]);

    let mut segment = Vec::new();
    segment.extend_from_slice(&moof);
    segment.extend_from_slice(&mdat);

    let boundaries = detect_chunk_boundaries(&segment);
    assert_eq!(boundaries.len(), 1);
    assert!(!boundaries[0].independent);
}

#[test]
fn is_sync_sample_independent() {
    // sample_depends_on=2 at bits 25-24
    assert!(is_sync_sample(0x02000000));
}

#[test]
fn is_sync_sample_dependent() {
    // sample_depends_on=1 at bits 25-24
    assert!(!is_sync_sample(0x01000000));
}

#[test]
fn is_sync_sample_unknown() {
    // sample_depends_on=0 (unknown)
    assert!(!is_sync_sample(0x00000000));
}
