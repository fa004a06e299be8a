//! Objects: their types, the framing `"<type> <size>\0<data>"` under which they are
//! hashed and stored, and reading that framing back.
use vstd::prelude::*;
use vstd::utf8::*;
use crate::codec::{zlib_deflate, hex_encode, hex_lower, is_oid, lemma_digest_oid, sha1_digest, sha1_of, zlib_compress, zlib_decompress, zlib_inflate};
use crate::convert::{string_of, utf8_decode, utf8_error_message, utf8_error_text};
use crate::error::{ErrorView, GitError};
use crate::number::{usize_error_message, usize_error_text, all_digits, decimal, digits_value, lemma_decimal, parse_usize, parse_usize_chars, usize_decimal};
use crate::encoding::{lemma_encode_ascii};
use crate::text::{chars_eq, chars_of, is_first_index, lemma_first_index, lemma_no_index, split_once, split_once_chars};

verus! {

/// The four kinds of object.
#[derive(Debug, Clone, Copy, PartialEq, Eq, Structural)]
pub enum ObjectType {
    Blob,
    Tree,
    Commit,
    Tag,
}

impl ObjectType {
    /// The name under which the type is written in an object header.
    pub open spec fn name(self) -> Seq<char> {
        match self {
            ObjectType::Blob => seq!['b', 'l', 'o', 'b'],
            ObjectType::Tree => seq!['t', 'r', 'e', 'e'],
            ObjectType::Commit => seq!['c', 'o', 'm', 'm', 'i', 't'],
            ObjectType::Tag => seq!['t', 'a', 'g'],
        }
    }

    /// The type's name as characters.
    pub fn name_chars(self) -> (res: Vec<char>)
        ensures
            res@ == self.name(),
    {
        match self {
            ObjectType::Blob => vec!['b', 'l', 'o', 'b'],
            ObjectType::Tree => vec!['t', 'r', 'e', 'e'],
            ObjectType::Commit => vec!['c', 'o', 'm', 'm', 'i', 't'],
            ObjectType::Tag => vec!['t', 'a', 'g'],
        }
    }

    /// The type's name.
    pub fn as_str(self) -> (res: &'static str)
        ensures
            res@ == self.name(),
    {
        match self {
            ObjectType::Blob => {
                proof {
                    reveal_strlit("blob");
                }
                let s = "blob";
                assert(s@ == self.name());
                s
            },
            ObjectType::Tree => {
                proof {
                    reveal_strlit("tree");
                }
                let s = "tree";
                assert(s@ == self.name());
                s
            },
            ObjectType::Commit => {
                proof {
                    reveal_strlit("commit");
                }
                let s = "commit";
                assert(s@ == self.name());
                s
            },
            ObjectType::Tag => {
                proof {
                    reveal_strlit("tag");
                }
                let s = "tag";
                assert(s@ == self.name());
                s
            },
        }
    }

    /// The type that a header name stands for; an unknown name is an error that carries it.
    pub fn from_str(s: &str) -> (res: Result<ObjectType, GitError>)
        ensures
            match type_named(s@) {
                Some(k) => res == Ok::<ObjectType, GitError>(k),
                None => res matches Err(e) && e@ == ErrorView::UnknownObjectType(s@),
            },
    {
        let c = chars_of(s);
        type_from_chars(c.as_slice())
    }
}

/// The type whose header name is `s`, if any.
pub open spec fn type_named(s: Seq<char>) -> Option<ObjectType> {
    if s == ObjectType::Blob.name() {
        Some(ObjectType::Blob)
    } else if s == ObjectType::Tree.name() {
        Some(ObjectType::Tree)
    } else if s == ObjectType::Commit.name() {
        Some(ObjectType::Commit)
    } else if s == ObjectType::Tag.name() {
        Some(ObjectType::Tag)
    } else {
        None
    }
}

/// The type whose header name is `s`.
pub fn type_from_chars(s: &[char]) -> (res: Result<ObjectType, GitError>)
    ensures
        match type_named(s@) {
            Some(k) => res == Ok::<ObjectType, GitError>(k),
            None => res matches Err(e) && e@ == ErrorView::UnknownObjectType(s@),
        },
{
    if chars_eq(s, ObjectType::Blob.name_chars().as_slice()) {
        Ok(ObjectType::Blob)
    } else if chars_eq(s, ObjectType::Tree.name_chars().as_slice()) {
        Ok(ObjectType::Tree)
    } else if chars_eq(s, ObjectType::Commit.name_chars().as_slice()) {
        Ok(ObjectType::Commit)
    } else if chars_eq(s, ObjectType::Tag.name_chars().as_slice()) {
        Ok(ObjectType::Tag)
    } else {
        Err(GitError::UnknownObjectType(string_of(s)))
    }
}

/// The header text `"<type> <size>"`.
pub open spec fn header_text(kind: ObjectType, size: nat) -> Seq<char> {
    kind.name() + seq![' '] + decimal(size)
}

/// The bytes under which an object is hashed and stored: the header in UTF-8, a NUL byte,
/// then the data.
pub open spec fn object_store(kind: ObjectType, data: Seq<u8>) -> Seq<u8> {
    encode_utf8(header_text(kind, data.len())) + seq![0u8] + data
}

/// The id of an object: the lower-case hexadecimal SHA-1 of its stored bytes.
pub open spec fn object_id(kind: ObjectType, data: Seq<u8>) -> Seq<char> {
    hex_lower(sha1_of(object_store(kind, data)))
}

/// What reading stored (decompressed) bytes gives: the header is everything before the
/// first NUL byte and must be UTF-8; it splits at its first space into type name and size;
/// the size must read as a `usize` and equal the number of bytes after the NUL; the type
/// name is checked last.
pub open spec fn parse_object(raw: Seq<u8>) -> Result<(ObjectType, Seq<u8>), ErrorView> {
    match raw.index_of_first(0u8) {
        None => Err(ErrorView::InvalidObjectHeader),
        Some(p) => {
            let hb = raw.take(p);
            if !valid_utf8(hb) {
                Err(ErrorView::HeaderNotUtf8(utf8_error_text(hb)))
            } else {
                match split_once(decode_utf8(hb), ' ') {
                    None => Err(ErrorView::InvalidObjectHeader),
                    Some((kind, size_text)) => match parse_usize(size_text) {
                        None => Err(ErrorView::InvalidObjectSize(usize_error_text(size_text))),
                        Some(size) => {
                            let data = raw.skip(p + 1);
                            if data.len() != size {
                                Err(
                                    ErrorView::MalformedObject {
                                        expected: size as int,
                                        actual: data.len() as int,
                                    },
                                )
                            } else {
                                match type_named(kind) {
                                    Some(k) => Ok((k, data)),
                                    None => Err(ErrorView::UnknownObjectType(kind)),
                                }
                            }
                        },
                    },
                }
            }
        },
    }
}

/// A parse result in exec form against its model.
pub open spec fn parsed_as(
    res: Result<(ObjectType, Vec<u8>), GitError>,
    model: Result<(ObjectType, Seq<u8>), ErrorView>,
) -> bool {
    match model {
        Ok((k, d)) => res matches Ok((k2, d2)) && k2 == k && d2@ == d,
        Err(e) => res matches Err(e2) && e2@ == e,
    }
}

/// Frames an object's data for hashing and storage.
pub fn object_frame(kind: ObjectType, data: &[u8]) -> (res: Vec<u8>)
    ensures
        res@ == object_store(kind, data@),
{
    let mut header = kind.name_chars();
    header.push(' ');
    let digits = usize_decimal(data.len());
    let mut i: usize = 0;
    let ghost start = header@;
    while i < digits.len()
        invariant
            i <= digits@.len(),
            header@ == start + digits@.take(i as int),
        decreases digits@.len() - i,
    {
        header.push(digits[i]);
        i = i + 1;
        assert(digits@.take(i as int) == digits@.take(i - 1).push(digits@[i - 1]));
    }
    assert(digits@.take(digits@.len() as int) == digits@);
    assert(header@ == header_text(kind, data@.len()));
    let text = string_of(header.as_slice());
    let bytes = text.as_str().as_bytes();
    assert(bytes@ == encode_utf8(header@));
    let mut res: Vec<u8> = Vec::new();
    res.extend_from_slice(bytes);
    res.push(0u8);
    res.extend_from_slice(data);
    assert(res@ == encode_utf8(header@) + seq![0u8] + data@);
    res
}

/// The object id of framed bytes.
pub fn store_id(store: &[u8]) -> (res: String)
    ensures
        res@ == hex_lower(sha1_of(store@)),
        is_oid(res@),
{
    let digest = sha1_digest(store);
    proof {
        lemma_digest_oid(digest@);
    }
    hex_encode(digest.as_slice())
}

/// Frames an object and computes its id; the framed bytes are what gets compressed and
/// stored under that id.
pub fn object_write(kind: ObjectType, data: &[u8]) -> (res: (String, Vec<u8>))
    ensures
        res.0@ == object_id(kind, data@),
        is_oid(res.0@),
        res.1@ == object_store(kind, data@),
{
    let store = object_frame(kind, data);
    let oid = store_id(store.as_slice());
    (oid, store)
}

/// Compresses framed bytes for storage.
pub fn object_compress(store: &[u8]) -> (res: Result<Vec<u8>, GitError>)
    ensures
        match zlib_deflate(store@) {
            Some(c) => res matches Ok(v) && v@ == c,
            None => res matches Err(e) && e@ == ErrorView::CompressionFailed,
        },
        res matches Ok(c) ==> zlib_inflate(c@) == Some(store@),
{
    match zlib_compress(store) {
        Some(c) => Ok(c),
        None => Err(GitError::CompressionFailed),
    }
}

/// Reads framed bytes back into type and data.
pub fn object_parse(raw: &[u8]) -> (res: Result<(ObjectType, Vec<u8>), GitError>)
    ensures
        parsed_as(res, parse_object(raw@)),
{
    let n = raw.len();
    let mut p: usize = 0;
    while p < n && raw[p] != 0u8
        invariant
            p <= n,
            n == raw@.len(),
            forall|j: int| 0 <= j < p ==> raw@[j] != 0u8,
        decreases n - p,
    {
        p = p + 1;
    }
    if p == n {
        proof {
            lemma_no_index(raw@, 0u8);
        }
        return Err(GitError::InvalidObjectHeader);
    }
    proof {
        lemma_first_index(raw@, 0u8, p as int);
    }
    let header_bytes = &raw[0..p];
    assert(header_bytes@ == raw@.take(p as int));
    let header = match utf8_decode(header_bytes) {
        Some(h) => h,
        None => {
            return Err(GitError::HeaderNotUtf8(utf8_error_message(header_bytes)));
        },
    };
    let h = chars_of(header.as_str());
    match split_once_chars(h.as_slice(), ' ') {
        None => Err(GitError::InvalidObjectHeader),
        Some((kind, size_text)) => match parse_usize_chars(size_text.as_slice()) {
            None => {
                let text = string_of(size_text.as_slice());
                Err(GitError::InvalidObjectSize(usize_error_message(text.as_str())))
            },
            Some(size) => {
                let data = vstd::slice::slice_to_vec(&raw[p + 1..n]);
                assert(data@ == raw@.skip(p + 1));
                if data.len() != size {
                    Err(GitError::MalformedObject { expected: size, actual: data.len() })
                } else {
                    match type_from_chars(kind.as_slice()) {
                        Ok(k) => Ok((k, data)),
                        Err(e) => Err(e),
                    }
                }
            },
        },
    }
}

/// Reads a stored (compressed) object: a stream that does not decompress is a corrupt
/// object; otherwise the decompressed bytes are parsed.
pub fn object_read(stored: &[u8]) -> (res: Result<(ObjectType, Vec<u8>), GitError>)
    ensures
        match zlib_inflate(stored@) {
            None => res matches Err(e) && e@ == ErrorView::CorruptObject,
            Some(raw) => parsed_as(res, parse_object(raw)),
        },
{
    match zlib_decompress(stored) {
        None => Err(GitError::CorruptObject),
        Some(raw) => object_parse(raw.as_slice()),
    }
}


/// A character with a code from 1 to 127 is ASCII and not NUL.
proof fn lemma_ascii_char(c: char)
    requires
        1 <= (c as u32) <= 127,
    ensures
        '\0' <= c && c <= '\u{7f}' && c != '\0',
{
}

/// Type names are made of lower-case ASCII letters.
proof fn lemma_name_letters(kind: ObjectType)
    ensures
        kind.name().len() >= 3,
        forall|i: int| 0 <= i < kind.name().len() ==> 97 <= (#[trigger] kind.name()[i] as u32) <= 122,
{
    let n = kind.name();
    assert forall|i: int| 0 <= i < n.len() implies 97 <= (#[trigger] n[i] as u32) <= 122 by {
        if i == 0 {
        } else if i == 1 {
        } else if i == 2 {
        } else if i == 3 {
        } else if i == 4 {
        } else {
        }
    }
}

/// The header text is ASCII, and its first space follows the type name.
proof fn lemma_header_text(kind: ObjectType, size: nat)
    ensures
        is_ascii_chars(header_text(kind, size)),
        forall|i: int| 0 <= i < header_text(kind, size).len() ==> header_text(kind, size)[i] != '\0',
        is_first_index(header_text(kind, size), ' ', kind.name().len() as int),
        header_text(kind, size).take(kind.name().len() as int) == kind.name(),
        header_text(kind, size).skip(kind.name().len() as int + 1) == decimal(size),
{
    let h = header_text(kind, size);
    let n = kind.name();
    lemma_decimal(size);
    let d = decimal(size);
    lemma_name_letters(kind);
    assert(h.take(n.len() as int) == n);
    assert(h.skip(n.len() as int + 1) == d);
    assert forall|i: int| #![trigger h[i]] 0 <= i < h.len() implies '\0' <= h[i] && h[i] <= '\u{7f}'
        && h[i] != '\0' by {
        if i < n.len() {
            assert(h[i] == n[i]);
            assert(97 <= (n[i] as u32) <= 122);
        } else if i > n.len() {
            assert(h[i] == d[i - n.len() - 1]);
            assert(crate::number::is_digit(d[i - n.len() - 1]));
        } else {
            assert(h[i] == ' ');
        }
        assert(1 <= (h[i] as u32) <= 127);
        lemma_ascii_char(h[i]);
    }
}

/// Reading the framing of an object gives back its type and data: the framing is
/// unambiguous for every type and every data that fits in memory.
pub proof fn law_parse_after_frame(kind: ObjectType, data: Seq<u8>)
    requires
        data.len() <= usize::MAX,
    ensures
        parse_object(object_store(kind, data)) == Ok::<(ObjectType, Seq<u8>), ErrorView>((kind, data)),
{
    let h = header_text(kind, data.len());
    lemma_header_text(kind, data.len());
    lemma_encode_ascii(h);
    let e = encode_utf8(h);
    let raw = object_store(kind, data);
    assert(raw[h.len() as int] == 0u8);
    assert forall|j: int| 0 <= j < h.len() implies raw[j] != 0u8 by {
        assert(raw[j] == e[j]);
        assert(e[j] == h[j] as u8);
        vstd::utf8::char_u32_cast(h[j], h[j] as u32);
    }
    lemma_first_index(raw, 0u8, h.len() as int);
    assert(raw.take(h.len() as int) == e);
    vstd::utf8::encode_utf8_valid_utf8(h);
    vstd::utf8::encode_utf8_decode_utf8(h);
    lemma_first_index(h, ' ', kind.name().len() as int);
    lemma_decimal(data.len());
    assert(raw.skip(h.len() as int + 1) == data);
    assert(parse_usize(decimal(data.len())) == Some(data.len() as usize));
}


/// What reading a stored (compressed) object gives.
pub open spec fn read_stored(stored: Seq<u8>) -> Result<(ObjectType, Seq<u8>), ErrorView> {
    match zlib_inflate(stored) {
        None => Err(ErrorView::CorruptObject),
        Some(raw) => parse_object(raw),
    }
}

/// Reading back a stored object gives the type and data it was written with: whatever
/// bytes hold the compressed framing of `(kind, data)`.
pub proof fn law_read_after_write(kind: ObjectType, data: Seq<u8>, stored: Seq<u8>)
    requires
        data.len() <= usize::MAX,
        zlib_inflate(stored) == Some(object_store(kind, data)),
    ensures
        read_stored(stored) == Ok::<(ObjectType, Seq<u8>), ErrorView>((kind, data)),
{
    law_parse_after_frame(kind, data);
}

} // verus!
