use vstd::prelude::*;

verus! {

/// The flag byte of a gzip member header: FTEXT, FHCRC, FEXTRA, FNAME and
/// FCOMMENT in bits 0 through 4; bits 5 through 7 are reserved.
#[derive(Clone, Copy, Debug, PartialEq, Eq, Structural)]
pub struct MemberFlags(pub u8);

impl MemberFlags {
    pub open spec fn spec_is_text(self) -> bool {
        self.0 & 1 == 1
    }

    pub open spec fn spec_has_crc(self) -> bool {
        self.0 & 2 == 2
    }

    pub open spec fn spec_has_extra(self) -> bool {
        self.0 & 4 == 4
    }

    pub open spec fn spec_has_name(self) -> bool {
        self.0 & 8 == 8
    }

    pub open spec fn spec_has_comment(self) -> bool {
        self.0 & 16 == 16
    }
}

/// Which compression method a member names; only DEFLATE is supported.
#[derive(Clone, Copy, Debug, PartialEq, Eq, Structural)]
pub enum CompressionMethod {
    Deflate,
    Unknown(u8),
}

impl CompressionMethod {
    pub open spec fn spec_of_byte(v: u8) -> CompressionMethod {
        if v == 8 {
            CompressionMethod::Deflate
        } else {
            CompressionMethod::Unknown(v)
        }
    }

    pub fn of_byte(v: u8) -> (r: CompressionMethod)
        ensures
            r == CompressionMethod::spec_of_byte(v),
    {
        if v == 8 {
            CompressionMethod::Deflate
        } else {
            CompressionMethod::Unknown(v)
        }
    }
}

/// One parsed gzip member header (RFC 1952 section 2.3).
pub struct MemberHeader {
    pub compression_method: CompressionMethod,
    pub modification_time: u32,
    pub extra: Option<Vec<u8>>,
    pub name: Option<String>,
    pub comment: Option<String>,
    pub extra_flags: u8,
    pub os: u8,
    pub has_crc: bool,
    pub is_text: bool,
}

impl MemberHeader {
    /// The flag byte this header would carry.
    pub fn flags(&self) -> (r: MemberFlags)
        ensures
            r.spec_is_text() == self.is_text,
            r.spec_has_crc() == self.has_crc,
            r.spec_has_extra() == (self.extra is Some),
            r.spec_has_name() == (self.name is Some),
            r.spec_has_comment() == (self.comment is Some),
            r.0 < 32,
    {
        let t: u8 = if self.is_text {
            1
        } else {
            0
        };
        let c: u8 = if self.has_crc {
            1
        } else {
            0
        };
        let e: u8 = if self.extra.is_some() {
            1
        } else {
            0
        };
        let n: u8 = if self.name.is_some() {
            1
        } else {
            0
        };
        let m: u8 = if self.comment.is_some() {
            1
        } else {
            0
        };
        let bits: u8 = t + 2 * c + 4 * e + 8 * n + 16 * m;
        proof {
            let b = bits;
            let (tt, cc, ee, nn, mm) = (t, c, e, n, m);
            assert(b < 32 && ((b & 1 == 1) == (tt == 1)) && ((b & 2 == 2) == (cc == 1)) && ((b & 4
                == 4) == (ee == 1)) && ((b & 8 == 8) == (nn == 1)) && ((b & 16 == 16) == (mm
                == 1))) by (bit_vector)
                requires
                    b == tt + 2 * cc + 4 * ee + 8 * nn + 16 * mm,
                    tt <= 1,
                    cc <= 1,
                    ee <= 1,
                    nn <= 1,
                    mm <= 1,
            ;
        }
        MemberFlags(bits)
    }
}

/// One parsed gzip member trailer: the stored CRC-32 and ISIZE values.
#[derive(Clone, Copy, Debug, PartialEq, Eq, Structural)]
pub struct MemberFooter {
    pub data_crc32: u32,
    pub data_size: u32,
}

} // verus!
