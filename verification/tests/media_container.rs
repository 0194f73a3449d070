use std::collections::HashSet;
use edgepack::media::container::ContainerFormat;

#[test]
fn video_segment_extension_cmaf() {
    assert_eq!(ContainerFormat::Cmaf.video_segment_extension(), ".cmfv");
}

#[test]
fn audio_segment_extension_cmaf() {
    assert_eq!(ContainerFormat::Cmaf.audio_segment_extension(), ".cmfa");
}

#[test]
fn audio_segment_extension_fmp4() {
    assert_eq!(ContainerFormat::Fmp4.audio_segment_extension(), ".m4s");
}

#[test]
fn init_extension_both_formats() {
    assert_eq!(ContainerFormat::Cmaf.init_extension(), ".mp4");
    assert_eq!(ContainerFormat::Fmp4.init_extension(), ".mp4");
}

#[test]
fn major_brand_both_isom() {
    assert_eq!(&ContainerFormat::Cmaf.major_brand(), b"isom");
    assert_eq!(&ContainerFormat::Fmp4.major_brand(), b"isom");
}

#[test]
fn compatible_brands_cmaf_has_cmfc() {
    let brands = ContainerFormat::Cmaf.compatible_brands();
    assert_eq!(brands.len(), 3);
    assert!(brands.contains(&&b"cmfc"));
    assert!(brands.contains(&&b"isom"));
    assert!(brands.contains(&&b"iso6"));
}

#[test]
fn compatible_brands_fmp4_no_cmfc() {
    let brands = ContainerFormat::Fmp4.compatible_brands();
    assert_eq!(brands.len(), 2);
    assert!(!brands.contains(&&b"cmfc"));
    assert!(brands.contains(&&b"isom"));
    assert!(brands.contains(&&b"iso6"));
}

#[test]
fn build_ftyp_cmaf() {
    let ftyp = ContainerFormat::Cmaf.build_ftyp();
    // header(8) + major(4) + minor(4) + 3 brands(12) = 28
    assert_eq!(ftyp.len(), 28);
    // Verify box type
    assert_eq!(&ftyp[4..8], b"ftyp");
    // Verify major brand
    assert_eq!(&ftyp[8..12], b"isom");
    // Verify cmfc is present in compatible brands
    let brands_data = &ftyp[16..];
    assert!(brands_data.chunks(4).any(|b| b == b"cmfc"));
}

#[test]
fn build_ftyp_fmp4() {
    let ftyp = ContainerFormat::Fmp4.build_ftyp();
    // header(8) + major(4) + minor(4) + 2 brands(8) = 24
    assert_eq!(ftyp.len(), 24);
    // Verify box type
    assert_eq!(&ftyp[4..8], b"ftyp");
    // Verify major brand
    assert_eq!(&ftyp[8..12], b"isom");
    // Verify cmfc is NOT present
    let brands_data = &ftyp[16..];
    assert!(!brands_data.chunks(4).any(|b| b == b"cmfc"));
}

#[test]
fn build_ftyp_size_differs() {
    let cmaf = ContainerFormat::Cmaf.build_ftyp();
    let fmp4 = ContainerFormat::Fmp4.build_ftyp();
    // CMAF has one extra brand (cmfc), so 4 bytes larger
    assert_eq!(cmaf.len() - fmp4.len(), 4);
}

#[test]
fn dash_profiles_cmaf_includes_cmaf() {
    let profiles = ContainerFormat::Cmaf.dash_profiles();
    assert!(profiles.contains("cmaf:2019"));
    assert!(profiles.contains("isoff-live:2011"));
}

#[test]
fn dash_profiles_fmp4_no_cmaf() {
    let profiles = ContainerFormat::Fmp4.dash_profiles();
    assert!(!profiles.contains("cmaf"));
    assert!(profiles.contains("isoff-live:2011"));
}

#[test]
fn video_segment_extension_fmp4() {
    assert_eq!(ContainerFormat::Fmp4.video_segment_extension(), ".m4s");
}

#[test]
fn video_segment_extension_iso() {
    assert_eq!(ContainerFormat::Iso.video_segment_extension(), ".mp4");
}

#[test]
fn audio_segment_extension_iso() {
    assert_eq!(ContainerFormat::Iso.audio_segment_extension(), ".mp4");
}

#[test]
fn init_extension_iso() {
    assert_eq!(ContainerFormat::Iso.init_extension(), ".mp4");
}

#[test]
fn compatible_brands_iso_no_cmfc() {
    // Iso has the same brands as Fmp4 by design — they differ only in segment extension.
    let brands = ContainerFormat::Iso.compatible_brands();
    assert_eq!(brands.len(), 2);
    assert!(!brands.contains(&&b"cmfc"));
    assert!(brands.contains(&&b"isom"));
    assert!(brands.contains(&&b"iso6"));
}

#[test]
fn build_ftyp_iso() {
    // Iso ftyp is identical to Fmp4 by design — same brands, same structure.
    let ftyp = ContainerFormat::Iso.build_ftyp();
    // header(8) + major(4) + minor(4) + 2 brands(8) = 24 (same as fmp4)
    assert_eq!(ftyp.len(), 24);
    assert_eq!(&ftyp[4..8], b"ftyp");
    assert_eq!(&ftyp[8..12], b"isom");
    let brands_data = &ftyp[16..];
    assert!(!brands_data.chunks(4).any(|b| b == b"cmfc"));
}

#[test]
fn dash_profiles_iso_no_cmaf() {
    // Iso uses the same DASH profile as Fmp4 by design — they differ only in segment extension.
    let profiles = ContainerFormat::Iso.dash_profiles();
    assert!(!profiles.contains("cmaf"));
    assert!(profiles.contains("isoff-live:2011"));
}

#[test]
fn from_str_value_valid() {
    assert_eq!(ContainerFormat::from_str_value("cmaf"), Some(ContainerFormat::Cmaf));
    assert_eq!(ContainerFormat::from_str_value("fmp4"), Some(ContainerFormat::Fmp4));
    assert_eq!(ContainerFormat::from_str_value("iso"), Some(ContainerFormat::Iso));
}

#[test]
fn from_str_value_invalid() {
    assert_eq!(ContainerFormat::from_str_value("mp4"), None);
    assert_eq!(ContainerFormat::from_str_value(""), None);
    assert_eq!(ContainerFormat::from_str_value("CMAF"), None);
}

#[test]
fn as_str_values() {
    assert_eq!(ContainerFormat::Cmaf.as_str(), "cmaf");
    assert_eq!(ContainerFormat::Fmp4.as_str(), "fmp4");
    assert_eq!(ContainerFormat::Iso.as_str(), "iso");
}

#[test]
fn display_impl() {
    assert_eq!(ContainerFormat::Cmaf.to_string(), "cmaf");
    assert_eq!(ContainerFormat::Fmp4.to_string(), "fmp4");
    assert_eq!(ContainerFormat::Iso.to_string(), "iso");
}

#[test]
fn default_is_cmaf() {
    assert_eq!(ContainerFormat::default(), ContainerFormat::Cmaf);
}

#[test]
fn equality_and_hash() {
    assert_eq!(ContainerFormat::Cmaf, ContainerFormat::Cmaf);
    assert_eq!(ContainerFormat::Fmp4, ContainerFormat::Fmp4);
    assert_eq!(ContainerFormat::Iso, ContainerFormat::Iso);
    assert_ne!(ContainerFormat::Cmaf, ContainerFormat::Fmp4);
    assert_ne!(ContainerFormat::Cmaf, ContainerFormat::Iso);
    assert_ne!(ContainerFormat::Fmp4, ContainerFormat::Iso);

    let mut set = HashSet::new();
    set.insert(ContainerFormat::Cmaf);
    set.insert(ContainerFormat::Fmp4);
    set.insert(ContainerFormat::Iso);
    assert_eq!(set.len(), 3);
}
