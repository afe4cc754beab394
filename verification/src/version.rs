//! The format version and the header of the marker file.

use vstd::prelude::*;

verus! {

/// Disk format version
#[derive(Copy, Clone, Debug, Eq, PartialEq, Structural)]
pub enum Version {
    /// Version for 1.x.x releases
    V1,
}

impl From<Version> for u8 {
    fn from(value: Version) -> (r: u8) {
        match value {
            Version::V1 => 1,
        }
    }
}

impl vstd::std_specs::convert::FromSpecImpl<Version> for u8 {
    open spec fn obeys_from_spec() -> bool {
        true
    }

    open spec fn from_spec(v: Version) -> u8 {
        1
    }
}

impl TryFrom<u8> for Version {
    type Error = ();

    fn try_from(value: u8) -> (r: Result<Self, ()>) {
        match value {
            1 => Ok(Version::V1),
            _ => Err(()),
        }
    }
}

impl vstd::std_specs::convert::TryFromSpecImpl<u8> for Version {
    open spec fn obeys_try_from_spec() -> bool {
        true
    }

    open spec fn try_from_spec(v: u8) -> Result<Self, ()> {
        if v == 1 {
            Ok(Version::V1)
        } else {
            Err(())
        }
    }
}

/// The three magic bytes that every marker file starts with.
pub open spec fn magic_bytes() -> Seq<u8> {
    seq![0x56u8, 0x4cu8, 0x47u8]
}

/// The header that stands for `version`: the magic bytes, then the
/// version byte.
pub open spec fn file_header(version: Version) -> Seq<u8> {
    magic_bytes().push(1u8)
}

/// The version that a marker file states: its first three bytes are the
/// magic bytes and the fourth names a known version.
pub open spec fn parsed_header(bytes: Seq<u8>) -> Option<Version> {
    if bytes.len() >= 4 && bytes.take(3) == magic_bytes() && bytes[3] == 1 {
        Some(Version::V1)
    } else {
        None
    }
}

/// A written header parses to the version that was written, whatever
/// follows it.
pub proof fn lemma_header_round_trip(version: Version, tail: Seq<u8>)
    ensures
        parsed_header(file_header(version) + tail) == Some(version),
{
    let all = file_header(version) + tail;
    assert(all.take(3) =~= magic_bytes());
    assert(all[3] == 1);
}

impl Version {
    /// The length that `write_file_header` reports.
    pub fn len() -> (r: u8)
        ensures
            r == 5,
    {
        5
    }

    /// Reads the version off the start of a marker file.
    pub fn parse_file_header(bytes: &[u8]) -> (r: Option<Self>)
        ensures
            r == parsed_header(bytes@),
    {
        if bytes.len() < 4 {
            return None;
        }
        if bytes[0] == 0x56 && bytes[1] == 0x4c && bytes[2] == 0x47 {
            assert(bytes@.take(3) =~= magic_bytes());
            match Version::try_from(bytes[3]) {
                Ok(version) => Some(version),
                Err(_) => None,
            }
        } else {
            assert(bytes@.take(3)[0] == bytes@[0]);
            assert(bytes@.take(3)[1] == bytes@[1]);
            assert(bytes@.take(3)[2] == bytes@[2]);
            None
        }
    }

    /// Appends the header to `writer`: the magic bytes and the version
    /// byte. It always succeeds, and reports the length 5.
    pub fn write_file_header(self, writer: &mut Vec<u8>) -> (r: Result<usize, std::io::Error>)
        ensures
            r matches Ok(n) && n == 5,
            final(writer)@ == old(writer)@ + file_header(self),
    {
        let ghost before = writer@;
        writer.push(0x56);
        writer.push(0x4c);
        writer.push(0x47);
        writer.push(u8::from(self));
        assert(writer@ =~= before + file_header(self));
        Ok(5)
    }
}

} // verus!
