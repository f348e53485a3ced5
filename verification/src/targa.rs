//! Uncompressed true-colour Targa: an eighteen-byte header, then the pixel
//! bytes exactly as the framebuffer stores them, row 0 first.

use crate::image::{Image, ImageView};
use vstd::prelude::*;

verus! {

/// Length of the header in bytes.
pub const HEADER_LEN: usize = 18;

/// Image type of an uncompressed true-colour file.
pub const TRUE_COLOR: u8 = 2;

/// Bits per pixel of the stored triples.
pub const DEPTH: u8 = 24;

/// Image descriptor: bit 5 set, rows run from top to bottom.
pub const TOP_TO_BOTTOM: u8 = 0b0010_0000;

/// The fields of a header that vary from file to file.
#[derive(Clone, Copy, Debug, PartialEq, Eq, Structural)]
pub struct TargaHeader {
    pub width: u16,
    pub height: u16,
    pub depth: u8,
    pub descriptor: u8,
}

impl TargaHeader {
    /// The header on the wire: no image ID, no colour map, image type 2, an
    /// all-zero colour-map specification, origin `(0, 0)`, then width and
    /// height as 16-bit little-endian numbers, the pixel depth and the
    /// image descriptor.
    pub open spec fn bytes(self) -> Seq<u8> {
        seq![
            0u8,
            0u8,
            TRUE_COLOR,
            0u8,
            0u8,
            0u8,
            0u8,
            0u8,
            0u8,
            0u8,
            0u8,
            0u8,
            (self.width % 256) as u8,
            (self.width / 256) as u8,
            (self.height % 256) as u8,
            (self.height / 256) as u8,
            self.depth,
            self.descriptor,
        ]
    }

    /// The header of an image of the given size. The two size fields are 16
    /// bits wide whatever the platform: a larger dimension keeps its low 16
    /// bits only.
    pub open spec fn of_size(width: nat, height: nat) -> TargaHeader {
        TargaHeader {
            width: (width % 65536) as u16,
            height: (height % 65536) as u16,
            depth: DEPTH,
            descriptor: TOP_TO_BOTTOM,
        }
    }

    /// What a reader finds at the start of `bytes`: a header, where there
    /// are at least eighteen bytes and they announce an uncompressed
    /// true-colour image without ID field or colour map.
    pub open spec fn parsed(bytes: Seq<u8>) -> Option<TargaHeader> {
        if bytes.len() >= 18 && bytes[0] == 0 && bytes[1] == 0 && bytes[2] == TRUE_COLOR {
            Some(
                TargaHeader {
                    width: (bytes[12] + 256 * bytes[13]) as u16,
                    height: (bytes[14] + 256 * bytes[15]) as u16,
                    depth: bytes[16],
                    descriptor: bytes[17],
                },
            )
        } else {
            None
        }
    }

    /// The header that describes `img`.
    pub fn for_image(img: &Image) -> (h: TargaHeader)
        ensures
            h == TargaHeader::of_size(img@.width, img@.height),
    {
        TargaHeader {
            width: (img.width() % 65536) as u16,
            height: (img.height() % 65536) as u16,
            depth: DEPTH,
            descriptor: TOP_TO_BOTTOM,
        }
    }

    /// Writes the header out.
    pub fn to_bytes(&self) -> (out: Vec<u8>)
        ensures
            out@ == self.bytes(),
            out@.len() == 18,
    {
        let mut out: Vec<u8> = Vec::with_capacity(HEADER_LEN);
        out.push(0);
        out.push(0);
        out.push(TRUE_COLOR);
        let mut i: usize = 3;
        while i < 12
            invariant
                3 <= i <= 12,
                out@.len() == i,
                out@[0] == 0 && out@[1] == 0 && out@[2] == TRUE_COLOR,
                forall|k: int| 3 <= k < i ==> out@[k] == 0,
            decreases 12 - i,
        {
            out.push(0);
            i += 1;
        }
        out.push((self.width % 256) as u8);
        out.push((self.width / 256) as u8);
        out.push((self.height % 256) as u8);
        out.push((self.height / 256) as u8);
        out.push(self.depth);
        out.push(self.descriptor);
        assert(out@ =~= self.bytes());
        out
    }

    /// Reads a header back from the start of `bytes`.
    pub fn parse(bytes: &[u8]) -> (r: Option<TargaHeader>)
        ensures
            r == TargaHeader::parsed(bytes@),
    {
        if bytes.len() >= HEADER_LEN && bytes[0] == 0 && bytes[1] == 0 && bytes[2] == TRUE_COLOR {
            let width: u16 = bytes[12] as u16 + 256 * (bytes[13] as u16);
            let height: u16 = bytes[14] as u16 + 256 * (bytes[15] as u16);
            Some(TargaHeader { width, height, depth: bytes[16], descriptor: bytes[17] })
        } else {
            None
        }
    }
}

/// The whole file for an image: its header, then its pixel bytes unchanged.
pub open spec fn targa(v: ImageView) -> Seq<u8> {
    TargaHeader::of_size(v.width, v.height).bytes() + v.bytes
}

/// Reading a header back from what was written gives the header that was
/// written, whatever follows it.
pub proof fn lemma_parse_inverts_bytes(h: TargaHeader, rest: Seq<u8>)
    ensures
        TargaHeader::parsed(h.bytes() + rest) == Some(h),
{
    let s = h.bytes() + rest;
    assert(s.len() >= 18);
    assert(s[0] == 0 && s[1] == 0 && s[2] == TRUE_COLOR);
    assert(s[12] == (h.width % 256) as u8 && s[13] == (h.width / 256) as u8);
    assert(s[14] == (h.height % 256) as u8 && s[15] == (h.height / 256) as u8);
    assert(s[16] == h.depth && s[17] == h.descriptor);
}

/// Encoding an image and reading the header back recovers the width and
/// height it was made with, a depth of 24 bits and the top-to-bottom
/// descriptor, for every image whose dimensions fit the 16-bit fields.
pub proof fn lemma_targa_round_trip(v: ImageView)
    requires
        v.width < 65536,
        v.height < 65536,
    ensures
        TargaHeader::parsed(targa(v)) == Some(
            TargaHeader {
                width: v.width as u16,
                height: v.height as u16,
                depth: DEPTH,
                descriptor: TOP_TO_BOTTOM,
            },
        ),
{
    lemma_parse_inverts_bytes(TargaHeader::of_size(v.width, v.height), v.bytes);
}

impl Image {
    /// The image as a Targa file: the header for its size, followed by the
    /// pixel buffer as it stands.
    pub fn encode_targa(&self) -> (out: Vec<u8>)
        ensures
            out@ == targa(self@),
            out@.len() == 18 + 3 * self@.width * self@.height,
            out@.subrange(18, out@.len() as int) == self@.bytes,
    {
        let mut out: Vec<u8> = TargaHeader::for_image(self).to_bytes();
        out.extend_from_slice(self.bytes().as_slice());
        assert(out@ =~= targa(self@));
        assert(out@.subrange(18, out@.len() as int) =~= self@.bytes);
        out
    }
}

} // verus!
