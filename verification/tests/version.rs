use value_log::Version;

#[test]
pub fn version_serialize() -> value_log::Result<()> {
    let mut bytes = vec![];
    Version::V1.write_file_header(&mut bytes)?;
    assert_eq!(bytes, &[b'V', b'L', b'G', 1]);
    Ok(())
}

#[test]
pub fn version_deserialize_success() {
    let version = Version::parse_file_header(&[b'V', b'L', b'G', 1]);
    assert_eq!(version, Some(Version::V1));
}

#[test]
pub fn version_deserialize_fail() {
    let version = Version::parse_file_header(&[b'F', b'J', b'X', 1]);
    assert!(version.is_none());
}

#[test]
pub fn version_serde_round_trip() {
    let mut buf = vec![];
    Version::V1.write_file_header(&mut buf).expect("can't fail");

    let version = Version::parse_file_header(&buf);
    assert_eq!(version, Some(Version::V1));
}

#[test]
pub fn version_len() {
    let mut buf = vec![];
    let size = Version::V1.write_file_header(&mut buf).expect("can't fail");
    assert_eq!(Version::len() as usize, size);
}

#[test]
pub fn version_header_needs_four_bytes() {
    assert!(Version::parse_file_header(&[b'V', b'L', b'G']).is_none());
    assert!(Version::parse_file_header(&[]).is_none());
}

#[test]
pub fn version_header_rejects_unknown_version() {
    assert!(Version::parse_file_header(&[b'V', b'L', b'G', 2]).is_none());
    assert!(Version::parse_file_header(&[b'V', b'L', b'G', 0]).is_none());
}

#[test]
pub fn version_header_ignores_what_follows() {
    let version = Version::parse_file_header(&[b'V', b'L', b'G', 1, 9, 9]);
    assert_eq!(version, Some(Version::V1));
}

#[test]
pub fn version_to_byte_and_back() {
    assert_eq!(u8::from(Version::V1), 1);
    assert_eq!(Version::try_from(1u8), Ok(Version::V1));
    assert_eq!(Version::try_from(7u8), Err(()));
}
