use quran_asr_api::assets::array_format;
use quran_asr_api::npy::{load_npy_memmap, parse_header_dict, product, NpyError, NpyMemmap};

fn file(major: u8, header: &str, data: &[u8]) -> Vec<u8> {
    let mut out: Vec<u8> = b"\x93NUMPY".to_vec();
    out.push(major);
    out.push(0);
    if major == 1 {
        out.extend_from_slice(&(header.len() as u16).to_le_bytes());
    } else {
        out.extend_from_slice(&(header.len() as u32).to_le_bytes());
    }
    out.extend_from_slice(header.as_bytes());
    out.extend_from_slice(data);
    out
}

/// Fills a header so that the data behind it is aligned.
fn padded(prefix: usize, header: &str) -> String {
    let mut h = header.to_string();
    while (prefix + h.len() + 1) % 64 != 0 {
        h.push(' ');
    }
    h.push('\n');
    h
}

fn error(bytes: &[u8], descr: &str, ndim: usize) -> NpyError {
    match load_npy_memmap::<u32>(bytes, descr, ndim) {
        Ok(_) => panic!("the array loads"),
        Err(e) => e,
    }
}

#[test]
fn arrays_are_read() {
    let h = padded(10, "{'descr': '<u4', 'fortran_order': False, 'shape': (3,), }");
    let data: Vec<u8> = [1u32, 0x01020304, u32::MAX].iter().flat_map(|v| v.to_le_bytes()).collect();
    let a: NpyMemmap<u32> = load_npy_memmap(&file(1, &h, &data), "<u4", 1).ok().unwrap();
    assert_eq!(a.as_slice(), &[1, 0x01020304, u32::MAX]);
    assert_eq!(a.shape(), &[3]);
    assert_eq!(a.len(), 3);
}

#[test]
fn arrays_of_other_widths_and_versions_are_read() {
    let h = padded(12, "{'descr': '<u2', 'fortran_order': False, 'shape': (2, 2), }");
    let data: Vec<u8> = [1u16, 2, 3, 65535].iter().flat_map(|v| v.to_le_bytes()).collect();
    let a: NpyMemmap<u16> = load_npy_memmap(&file(2, &h, &data), "<u2", 2).ok().unwrap();
    assert_eq!(a.as_slice(), &[1, 2, 3, 65535]);
    assert_eq!(a.shape(), &[2, 2]);
    let h = padded(10, "{'descr': '<u8', 'fortran_order': False, 'shape': (1,), }");
    let a: NpyMemmap<u64> = load_npy_memmap(&file(1, &h, &u64::MAX.to_le_bytes()), "<u8", 1).ok().unwrap();
    assert_eq!(a.as_slice(), &[u64::MAX]);
}

#[test]
fn headers_are_read() {
    let h = parse_header_dict("{'descr': '<f4', 'fortran_order': True, 'shape': (4, 5), }").unwrap();
    assert_eq!(h.descr, "<f4");
    assert!(h.fortran_order);
    assert_eq!(h.shape, vec![4, 5]);
    let h = parse_header_dict("{'descr': '<f4', 'fortran_order': False, 'shape': (), }").unwrap();
    assert_eq!(h.shape, Vec::<usize>::new());
}

#[test]
fn bad_headers_are_told_apart() {
    let e = |s: &str| parse_header_dict(s).err().unwrap();
    assert_eq!(e("{}"), NpyError::MissingDescr);
    assert_eq!(e("{'descr': 5}"), NpyError::InvalidDescr);
    assert_eq!(e("{'descr': '<u4'}"), NpyError::MissingFortranOrder);
    assert_eq!(e("{'descr': '<u4', 'fortran_order'"), NpyError::InvalidFortranOrder);
    assert_eq!(e("{'descr': '<u4', 'fortran_order': No"), NpyError::InvalidFortranOrderValue);
    assert_eq!(e("{'descr': '<u4', 'fortran_order': False}"), NpyError::MissingShape);
    assert_eq!(e("{'descr': '<u4', 'fortran_order': False, 'shape': 3"), NpyError::InvalidShape);
    assert_eq!(e("{'descr': '<u4', 'fortran_order': False, 'shape': (x,)"), NpyError::InvalidShapeElement);
}

#[test]
fn bad_files_are_told_apart() {
    assert_eq!(error(&[], "<u4", 1), NpyError::TooSmall);
    assert_eq!(error(&[0; 20], "<u4", 1), NpyError::BadMagic);
    assert_eq!(error(&file(3, "", &[0; 4]), "<u4", 1), NpyError::UnsupportedVersion { major: 3, minor: 0 });
    let good = padded(10, "{'descr': '<u4', 'fortran_order': False, 'shape': (3,), }");
    let whole = file(1, &good, &[0; 12]);
    assert_eq!(error(&whole[..40], "<u4", 1), NpyError::TruncatedHeader);
    assert_eq!(error(&whole, "<u2", 1), NpyError::DtypeMismatch);
    assert_eq!(error(&whole, "<u4", 2), NpyError::NdimMismatch);
    assert_eq!(error(&file(1, &good, &[0; 11]), "<u4", 1), NpyError::DataTruncated);
    let fortran = padded(10, "{'descr': '<u4', 'fortran_order': True, 'shape': (3,), }");
    assert_eq!(error(&file(1, &fortran, &[0; 12]), "<u4", 1), NpyError::FortranOrder);
    let huge = padded(10, "{'descr': '<u4', 'fortran_order': False, 'shape': (9223372036854775807,), }");
    assert_eq!(error(&file(1, &huge, &[0; 12]), "<u4", 1), NpyError::SizeOverflow);
    let mut bytes = whole.clone();
    bytes[12] = 0xff;
    assert_eq!(error(&bytes, "<u4", 1), NpyError::HeaderNotUtf8);
    let odd = format!("{good} ");
    assert_eq!(error(&file(1, &odd, &[0; 12]), "<u4", 1), NpyError::Misaligned);
    assert_eq!(error(b"\x93NUMPY\x02\x00\x01\x00", "<u4", 1), NpyError::InvalidV2Header);
}

#[test]
fn products_of_extents() {
    assert_eq!(product(&[]), 1);
    assert_eq!(product(&[3, 4]), 12);
}

#[test]
fn array_files_have_known_formats() {
    for name in ["ref_token_ids", "ayah_token_start", "ayah_token_end", "stop_token_ids", "inv_offsets", "inv_positions"] {
        assert_eq!(array_format(&format!("{name}.npy")), Some(("<u4", 1)));
    }
    for name in ["ref_ayah_global", "ref_surah_id", "ref_ayah_num", "ref_word_pos"] {
        assert_eq!(array_format(&format!("{name}.npy")), Some(("<u2", 1)));
    }
    assert_eq!(array_format("passages_start_ayah_global.npy"), Some(("<u2", 1)));
    assert_eq!(array_format("passages_end_ayah_global.npy"), Some(("<u2", 1)));
    assert_eq!(array_format("passages_simhash64.npy"), Some(("<u8", 1)));
    assert_eq!(array_format("token_idf.npy"), Some(("<f4", 1)));
    assert_eq!(array_format("passages_emb_f16.npy"), Some(("<f2", 2)));
    assert_eq!(array_format("token_idf"), None);
}
