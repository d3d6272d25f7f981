//! The bytes of a `.xopp` file: a gzip stream of the UTF-8 text of an XML
//! document.
use vstd::prelude::*;
use vstd::utf8::{decode_utf8, encode_utf8, encode_utf8_decode_utf8, encode_utf8_valid_utf8, valid_utf8};

use crate::error::XoppError;
use crate::xml::{xml_parsed, XmlDocument};

verus! {

/// The gzip stream that `flate2` writes for `data`, with `file_name` in its
/// header and the default compression level.
pub uninterp spec fn gzip_compressed(data: Seq<u8>, file_name: Seq<char>) -> Seq<u8>;

/// What `flate2`'s multi-member gzip decoder reads from `data`: the
/// decompressed bytes, or `None` when `data` is no valid gzip stream.
pub uninterp spec fn gzip_decompressed(data: Seq<u8>) -> Option<Seq<u8>>;

/// One bit step of the CRC-32 of gzip (RFC 1952): the reflected polynomial
/// `0xEDB88320`.
pub open spec fn crc32_bit(c: u32) -> u32 {
    if c & 1 == 1 {
        (c >> 1) ^ 0xEDB8_8320u32
    } else {
        c >> 1
    }
}

/// The CRC-32 register after taking in one more byte.
pub open spec fn crc32_byte(c: u32, b: u8) -> u32 {
    crc32_bit(
        crc32_bit(
            crc32_bit(crc32_bit(crc32_bit(crc32_bit(crc32_bit(crc32_bit(c ^ (b as u32))))))),
        ),
    )
}

/// The CRC-32 register after taking in `data`, starting from all ones.
pub open spec fn crc32_register(data: Seq<u8>) -> u32
    decreases data.len(),
{
    if data.len() == 0 {
        0xffff_ffffu32
    } else {
        crc32_byte(crc32_register(data.drop_last()), data.last())
    }
}

/// The CRC-32 checksum of `data`, as gzip stores it.
pub open spec fn crc32(data: Seq<u8>) -> u32 {
    crc32_register(data) ^ 0xffff_ffffu32
}

/// The four bytes of `v`, least significant first.
pub open spec fn le_bytes(v: u32) -> Seq<u8> {
    seq![
        (v % 0x100) as u8,
        ((v / 0x100) % 0x100) as u8,
        ((v / 0x1_0000) % 0x100) as u8,
        (v / 0x100_0000) as u8,
    ]
}

/// The header of a gzip member as `flate2` writes it with a file name and
/// the default level: magic `1f 8b`, method deflate, flag `FNAME`, mtime 0,
/// no extra flags, OS 255, then the file name and a NUL byte.
pub open spec fn gzip_member_header(file_name: Seq<char>) -> Seq<u8> {
    seq![0x1fu8, 0x8bu8, 0x08u8, 0x08u8, 0u8, 0u8, 0u8, 0u8, 0u8, 0xffu8] + encode_utf8(file_name)
        + seq![0u8]
}

/// The trailer of a gzip member for `data`: the CRC-32 of the data and its
/// length modulo 2^32, both least significant byte first.
pub open spec fn gzip_member_trailer(data: Seq<u8>) -> Seq<u8> {
    le_bytes(crc32(data)) + le_bytes((data.len() % 0x1_0000_0000) as u32)
}

/// `bytes` is a gzip member for `data` named `file_name`: header, deflate
/// stream, trailer.
pub open spec fn frames_gzip_member(bytes: Seq<u8>, data: Seq<u8>, file_name: Seq<char>) -> bool {
    let header = gzip_member_header(file_name);
    &&& bytes.len() >= header.len() + 8
    &&& bytes.subrange(0, header.len() as int) == header
    &&& bytes.subrange(bytes.len() - 8, bytes.len() as int) == gzip_member_trailer(data)
}

/// The concatenation of the gzip members that `flate2` writes for each
/// data and file name, in order.
pub open spec fn gzip_members(members: Seq<(Seq<u8>, Seq<char>)>) -> Seq<u8>
    decreases members.len(),
{
    if members.len() == 0 {
        Seq::empty()
    } else {
        gzip_members(members.drop_last()) + gzip_compressed(
            members.last().0,
            members.last().1,
        )
    }
}

/// The concatenation of the data of the members, in order.
pub open spec fn members_data(members: Seq<(Seq<u8>, Seq<char>)>) -> Seq<u8>
    decreases members.len(),
{
    if members.len() == 0 {
        Seq::empty()
    } else {
        members_data(members.drop_last()) + members.last().0
    }
}

/// At least one member, and no file name holds a NUL character.
pub open spec fn writable_members(members: Seq<(Seq<u8>, Seq<char>)>) -> bool {
    &&& members.len() >= 1
    &&& forall|i: int| 0 <= i < members.len() ==> !(#[trigger] members[i]).1.contains('\0')
}

/// Compresses bytes with `flate2::GzBuilder`, naming the file in the
/// header (which panics on a NUL character), and `GzEncoder::finish`. The
/// encoder writes into a `Vec`, which never fails, so the result is always
/// the stream that `gzip_compressed` names: one gzip member, its header
/// naming the file and its trailer holding the CRC-32 and the length of the
/// data (RFC 1952); of the deflate stream between them only the name is
/// stated.
#[verifier::external_body]
fn compress_to_gzip(to_compress: &[u8], file_name: &str) -> (res: Result<Vec<u8>, ()>)
    requires
        !file_name@.contains('\0'),
    ensures
        res is Ok,
        res matches Ok(bytes) ==> bytes@ == gzip_compressed(to_compress@, file_name@),
        res matches Ok(bytes) ==> frames_gzip_member(bytes@, to_compress@, file_name@),
{
    let mut encoder = flate2::GzBuilder::new().filename(file_name).write(
        Vec::<u8>::new(),
        flate2::Compression::default(),
    );
    std::io::Write::write_all(&mut encoder, to_compress).map_err(|_| ())?;
    encoder.finish().map_err(|_| ())
}

/// Decompresses bytes with `flate2::read::MultiGzDecoder` read to the end.
/// The result is what `gzip_decompressed` names. The decoder reads every
/// member of the stream: one or more members that `flate2` wrote, each for
/// some data and a file name without NUL, decompress to their data
/// concatenated.
#[verifier::external_body]
fn decompress_from_gzip(compressed: &[u8]) -> (res: Result<Vec<u8>, ()>)
    ensures
        match res {
            Ok(bytes) => gzip_decompressed(compressed@) == Some(bytes@),
            Err(_) => gzip_decompressed(compressed@) is None,
        },
        res matches Ok(bytes) ==> forall|members: Seq<(Seq<u8>, Seq<char>)>|
            writable_members(members) && compressed@ == #[trigger] gzip_members(members) ==> bytes@
                == members_data(members),
        res is Err ==> forall|members: Seq<(Seq<u8>, Seq<char>)>|
            writable_members(members) ==> compressed@ != #[trigger] gzip_members(members),
{
    let mut decoder = flate2::read::MultiGzDecoder::new(compressed);
    let mut bytes: Vec<u8> = Vec::new();
    std::io::Read::read_to_end(&mut decoder, &mut bytes).map_err(|_| ())?;
    Ok(bytes)
}

/// `String::from_utf8`: the text that valid UTF-8 bytes encode.
#[verifier::external_body]
fn string_from_utf8(bytes: Vec<u8>) -> (res: Option<String>)
    ensures
        match res {
            Some(s) => valid_utf8(bytes@) && s@ == decode_utf8(bytes@),
            None => !valid_utf8(bytes@),
        },
{
    String::from_utf8(bytes).ok()
}

/// What loading the bytes of a file gives: the XML document that the UTF-8
/// text inside the gzip stream parses to, or the first step that fails.
pub open spec fn document_from_bytes(bytes: Seq<u8>) -> Result<Seq<crate::xml::XmlNodeModel>, XoppError> {
    match gzip_decompressed(bytes) {
        None => Err(XoppError::Decompression),
        Some(raw) => if !valid_utf8(raw) {
            Err(XoppError::InvalidUtf8)
        } else {
            match xml_parsed(decode_utf8(raw)) {
                Some(nodes) => Ok(nodes),
                None => Err(XoppError::InvalidXml { message: arbitrary() }),
            }
        },
    }
}

proof fn lemma_single_member(data: Seq<u8>, name: Seq<char>)
    requires
        !name.contains('\0'),
    ensures
        writable_members(seq![(data, name)]),
        gzip_members(seq![(data, name)]) == gzip_compressed(data, name),
        members_data(seq![(data, name)]) == data,
{
    let ms = seq![(data, name)];
    assert(ms.drop_last() =~= Seq::<(Seq<u8>, Seq<char>)>::empty());
    assert(gzip_members(ms.drop_last()) =~= Seq::<u8>::empty());
    assert(members_data(ms.drop_last()) =~= Seq::<u8>::empty());
    assert(Seq::<u8>::empty() + gzip_compressed(data, name) =~= gzip_compressed(data, name));
    assert(Seq::<u8>::empty() + data =~= data);
}

/// Reads the XML document of a `.xopp` file from its bytes. Bytes written by
/// `encode_xopp_bytes` for an XML text load as the document that text
/// parses to.
pub fn decode_xopp_bytes(bytes: &[u8]) -> (res: Result<XmlDocument, XoppError>)
    ensures
        match document_from_bytes(bytes@) {
            Ok(nodes) => res matches Ok(doc) && doc@ == nodes,
            Err(XoppError::InvalidXml { .. }) => res matches Err(XoppError::InvalidXml { .. }),
            Err(e) => res == Err::<XmlDocument, XoppError>(e),
        },
        forall|xml: Seq<char>, name: Seq<char>|
            !name.contains('\0') && bytes@ == #[trigger] gzip_compressed(encode_utf8(xml), name)
                ==> match xml_parsed(xml) {
                Some(nodes) => res matches Ok(doc) && doc@ == nodes,
                None => res matches Err(XoppError::InvalidXml { .. }),
            },
{
    let raw = match decompress_from_gzip(bytes) {
        Ok(raw) => raw,
        Err(_) => {
            proof {
                assert forall|xml: Seq<char>, name: Seq<char>|
                    !name.contains('\0') implies bytes@ != #[trigger] gzip_compressed(
                    encode_utf8(xml),
                    name,
                ) by {
                    lemma_single_member(encode_utf8(xml), name);
                }
            }
            return Err(XoppError::Decompression);
        },
    };
    proof {
        assert forall|xml: Seq<char>, name: Seq<char>|
            !name.contains('\0') && bytes@ == #[trigger] gzip_compressed(
                encode_utf8(xml),
                name,
            ) implies raw@ == encode_utf8(xml) && valid_utf8(raw@) && decode_utf8(raw@) == xml by {
            lemma_single_member(encode_utf8(xml), name);
            encode_utf8_valid_utf8(xml);
            encode_utf8_decode_utf8(xml);
        }
    }
    let text = match string_from_utf8(raw) {
        Some(text) => text,
        None => {
            return Err(XoppError::InvalidUtf8);
        },
    };
    XmlDocument::parse(text.as_str())
}

fn crc32_bit_exec(c: u32) -> (r: u32)
    ensures
        r == crc32_bit(c),
{
    if c & 1 == 1 {
        (c >> 1) ^ 0xEDB8_8320u32
    } else {
        c >> 1
    }
}

/// The CRC-32 checksum of `data`.
pub fn crc32_of(data: &[u8]) -> (crc: u32)
    ensures
        crc == crc32(data@),
{
    let mut c: u32 = 0xffff_ffff;
    let mut i: usize = 0;
    assert(data@.take(0) =~= Seq::<u8>::empty());
    while i < data.len()
        invariant
            i <= data@.len(),
            c == crc32_register(data@.take(i as int)),
        decreases data@.len() - i,
    {
        assert(data@.take(i + 1).drop_last() =~= data@.take(i as int));
        let mut x: u32 = c ^ (data[i] as u32);
        x = crc32_bit_exec(x);
        x = crc32_bit_exec(x);
        x = crc32_bit_exec(x);
        x = crc32_bit_exec(x);
        x = crc32_bit_exec(x);
        x = crc32_bit_exec(x);
        x = crc32_bit_exec(x);
        x = crc32_bit_exec(x);
        c = x;
        i = i + 1;
    }
    assert(data@.take(data@.len() as int) =~= data@);
    c ^ 0xffff_ffff
}

/// Whether `bytes` ends with the gzip trailer for `data`.
fn ends_with_trailer(bytes: &Vec<u8>, data: &[u8]) -> (res: bool)
    ensures
        res == (bytes@.len() >= 8 && bytes@.subrange(bytes@.len() - 8, bytes@.len() as int)
            == gzip_member_trailer(data@)),
{
    if bytes.len() < 8 {
        return false;
    }
    let crc = crc32_of(data);
    let len: u32 = ((data.len() as u64) % 0x1_0000_0000) as u32;
    let expected: [u8; 8] = [
        (crc % 0x100) as u8,
        ((crc / 0x100) % 0x100) as u8,
        ((crc / 0x1_0000) % 0x100) as u8,
        (crc / 0x100_0000) as u8,
        (len % 0x100) as u8,
        ((len / 0x100) % 0x100) as u8,
        ((len / 0x1_0000) % 0x100) as u8,
        (len / 0x100_0000) as u8,
    ];
    let start = bytes.len() - 8;
    let ghost tail = bytes@.subrange(start as int, bytes@.len() as int);
    let ghost trailer = gzip_member_trailer(data@);
    assert(trailer.len() == 8);
    assert(forall|k: int| 0 <= k < 8 ==> trailer[k] == expected@[k]);
    let mut k: usize = 0;
    while k < 8
        invariant
            k <= 8,
            start == bytes@.len() - 8,
            start + 8 == bytes@.len(),
            tail == bytes@.subrange(start as int, bytes@.len() as int),
            trailer.len() == 8,
            trailer == gzip_member_trailer(data@),
            forall|j: int| 0 <= j < 8 ==> trailer[j] == expected@[j],
            forall|j: int| 0 <= j < k ==> tail[j] == trailer[j],
            forall|j: int| 0 <= j < 8 ==> tail[j] == bytes@[start + j],
        decreases 8 - k,
    {
        let idx = bytes.len() - (8 - k);
        assert(tail[k as int] == bytes@[idx as int]);
        if bytes[idx] != expected[k] {
            assert(tail[k as int] != trailer[k as int]);
            assert(bytes@.subrange(bytes@.len() - 8, bytes@.len() as int) != trailer);
            return false;
        }
        k = k + 1;
    }
    assert(tail =~= trailer);
    true
}

/// Writes the bytes of a `.xopp` file for the text of an XML document: its
/// UTF-8 encoding, gzip-compressed with `file_name` in the header. This
/// always succeeds. The result is one gzip member whose header names the
/// file and whose trailer holds the CRC-32 and the length of the text's
/// UTF-8 bytes; the trailer is checked against the text before the bytes
/// are handed out.
pub fn encode_xopp_bytes(xml: &str, file_name: &str) -> (res: Result<Vec<u8>, XoppError>)
    requires
        !file_name@.contains('\0'),
    ensures
        res matches Ok(bytes) && bytes@ == gzip_compressed(encode_utf8(xml@), file_name@),
        res matches Ok(bytes) && frames_gzip_member(bytes@, encode_utf8(xml@), file_name@),
{
    let data = xml.as_bytes();
    match compress_to_gzip(data, file_name) {
        Ok(bytes) => {
            if ends_with_trailer(&bytes, data) {
                Ok(bytes)
            } else {
                Err(XoppError::Compression)
            }
        },
        Err(_) => Err(XoppError::Compression),
    }
}

} // verus!
