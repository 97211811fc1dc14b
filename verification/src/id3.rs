//! ID3v1 tags: the fixed block at the end of an MP3 file.
//!
//! A tagged block starts with the bytes `TAG`, followed by the title (30 bytes),
//! the artist (30 bytes), the album (30 bytes) and the year (4 bytes).  Each field
//! is read as UTF-8 and stripped of the NUL characters that pad it on either side.
use vstd::prelude::*;
use vstd::slice::slice_subrange;
use vstd::std_specs::cmp::PartialEqSpec;
use vstd::std_specs::cmp::PartialEqSpecImpl;
use vstd::string::StringSliceAdditionalSpecFns;
use vstd::utf8::*;

verus! {

broadcast use vstd::seq::group_seq_axioms;

// ------------------------------------------------------------------ layout

/// First byte of the title field.
pub const TITLE_START: usize = 3;
/// First byte of the artist field (one past the title).
pub const ARTIST_START: usize = 33;
/// First byte of the album field (one past the artist).
pub const ALBUM_START: usize = 63;
/// First byte of the year field (one past the album).
pub const YEAR_START: usize = 93;
/// One past the last byte of the year field.
pub const YEAR_END: usize = 97;

/// The block starts with the marker `TAG`.
pub open spec fn has_tag_header(data: Seq<u8>) -> bool {
    &&& data.len() >= 3
    &&& data[0] == 84u8
    &&& data[1] == 65u8
    &&& data[2] == 71u8
}

// ------------------------------------------------------------------ NUL trimming

/// `s` with every leading `'\0'` removed.
pub open spec fn trim_start_nul(s: Seq<char>) -> Seq<char>
    decreases s.len(),
{
    if s.len() > 0 && s[0] == '\0' {
        trim_start_nul(s.drop_first())
    } else {
        s
    }
}

/// `s` with every trailing `'\0'` removed.
pub open spec fn trim_end_nul(s: Seq<char>) -> Seq<char>
    decreases s.len(),
{
    if s.len() > 0 && s.last() == '\0' {
        trim_end_nul(s.drop_last())
    } else {
        s
    }
}

/// `s` with every leading and every trailing `'\0'` removed.
pub open spec fn trim_nul(s: Seq<char>) -> Seq<char> {
    trim_end_nul(trim_start_nul(s))
}

/// The text a field holds: its bytes read as UTF-8, stripped of NUL padding.
pub open spec fn field_text(data: Seq<u8>, start: int, end: int) -> Seq<char> {
    trim_nul(decode_utf8(data.subrange(start, end)))
}

/// Every element of `s` is `'\0'`.
pub open spec fn all_nul(s: Seq<char>) -> bool {
    forall|i: int| 0 <= i < s.len() ==> s[i] == '\0'
}

/// Every element of `s` is the zero byte.
pub open spec fn all_zero(s: Seq<u8>) -> bool {
    forall|i: int| 0 <= i < s.len() ==> s[i] == 0u8
}

proof fn lemma_trim_start_all_nul(s: Seq<char>)
    requires
        all_nul(s),
    ensures
        trim_start_nul(s) == Seq::<char>::empty(),
    decreases s.len(),
{
    if s.len() > 0 {
        lemma_trim_start_all_nul(s.drop_first());
    }
}

proof fn lemma_trim_start_prefix(z: Seq<char>, rest: Seq<char>)
    requires
        all_nul(z),
        rest.len() > 0,
        rest[0] != '\0',
    ensures
        trim_start_nul(z + rest) == rest,
    decreases z.len(),
{
    if z.len() == 0 {
        assert(z + rest =~= rest);
    } else {
        assert((z + rest).drop_first() =~= z.drop_first() + rest);
        lemma_trim_start_prefix(z.drop_first(), rest);
    }
}

proof fn lemma_trim_end_suffix(m: Seq<char>, z: Seq<char>)
    requires
        all_nul(z),
        m.len() > 0,
        m.last() != '\0',
    ensures
        trim_end_nul(m + z) == m,
    decreases z.len(),
{
    if z.len() == 0 {
        assert(m + z =~= m);
    } else {
        assert((m + z).drop_last() =~= m + z.drop_last());
        lemma_trim_end_suffix(m, z.drop_last());
    }
}

/// Stripping the NULs around a text that neither starts nor ends with one gives that text.
proof fn lemma_trim_nul_frame(z1: Seq<char>, m: Seq<char>, z2: Seq<char>)
    requires
        all_nul(z1),
        all_nul(z2),
        m.len() > 0 ==> m[0] != '\0' && m.last() != '\0',
    ensures
        trim_nul(z1 + m + z2) == m,
{
    if m.len() == 0 {
        assert(all_nul(z1 + m + z2));
        lemma_trim_start_all_nul(z1 + m + z2);
    } else {
        assert(z1 + m + z2 =~= z1 + (m + z2));
        lemma_trim_start_prefix(z1, m + z2);
        lemma_trim_end_suffix(m, z2);
    }
}

proof fn lemma_trim_start_shape(s: Seq<char>)
    ensures
        trim_start_nul(s).len() > 0 ==> trim_start_nul(s)[0] != '\0',
        trim_start_nul(s).len() <= s.len(),
        trim_start_nul(s) == s.subrange(s.len() - trim_start_nul(s).len(), s.len() as int),
    decreases s.len(),
{
    if s.len() > 0 && s[0] == '\0' {
        lemma_trim_start_shape(s.drop_first());
        assert(s.drop_first().subrange(
            s.drop_first().len() - trim_start_nul(s).len(),
            s.drop_first().len() as int,
        ) =~= s.subrange(s.len() - trim_start_nul(s).len(), s.len() as int));
    } else {
        assert(s.subrange(0, s.len() as int) =~= s);
    }
}

proof fn lemma_trim_end_shape(s: Seq<char>)
    ensures
        trim_end_nul(s).len() > 0 ==> trim_end_nul(s).last() != '\0',
        trim_end_nul(s).len() <= s.len(),
        trim_end_nul(s) == s.subrange(0, trim_end_nul(s).len() as int),
    decreases s.len(),
{
    if s.len() > 0 && s.last() == '\0' {
        lemma_trim_end_shape(s.drop_last());
        assert(s.drop_last().subrange(0, trim_end_nul(s).len() as int) =~= s.subrange(
            0,
            trim_end_nul(s).len() as int,
        ));
    } else {
        assert(s.subrange(0, s.len() as int) =~= s);
    }
}

/// What stripping NULs leaves neither starts nor ends with a NUL, is a piece of
/// the text it was taken from, and is left alone by stripping again.
pub proof fn lemma_trim_nul_result(s: Seq<char>)
    ensures
        trim_nul(s).len() > 0 ==> trim_nul(s)[0] != '\0' && trim_nul(s).last() != '\0',
        exists|i: int|
            0 <= i <= i + trim_nul(s).len() <= s.len() && #[trigger] s.subrange(
                i,
                i + trim_nul(s).len(),
            ) == trim_nul(s),
        trim_nul(trim_nul(s)) == trim_nul(s),
{
    let t = trim_start_nul(s);
    lemma_trim_start_shape(s);
    lemma_trim_end_shape(t);
    let u = trim_end_nul(t);
    if u.len() > 0 {
        assert(u[0] == t[0]);
    }
    let i = s.len() - t.len();
    assert(s.subrange(i, i + u.len()) =~= u);
    // stripping again changes nothing
    assert(trim_start_nul(u) == u);
    assert(trim_end_nul(u) == u);
}

// ------------------------------------------------------------------ UTF-8 facts

pub(crate) proof fn lemma_encode_concat(a: Seq<char>, b: Seq<char>)
    ensures
        encode_utf8(a + b) == encode_utf8(a) + encode_utf8(b),
    decreases a.len(),
{
    if a.len() == 0 {
        assert(a + b =~= b);
        assert(encode_utf8(a) + encode_utf8(b) =~= encode_utf8(b));
    } else {
        assert((a + b).drop_first() =~= a.drop_first() + b);
        lemma_encode_concat(a.drop_first(), b);
        assert(encode_utf8(a + b) =~= encode_scalar(a[0] as u32) + encode_utf8(a.drop_first() + b));
        assert(encode_utf8(a + b) =~= encode_utf8(a) + encode_utf8(b));
    }
}

proof fn lemma_encode_single(c: char)
    ensures
        encode_utf8(seq![c]) == encode_scalar(c as u32),
{
    let s = seq![c];
    assert(s.drop_first() =~= Seq::<char>::empty());
    assert(s[0] == c);
    assert(encode_utf8(s.drop_first()) =~= Seq::<u8>::empty());
    assert(encode_utf8(s) =~= encode_scalar(c as u32));
}

proof fn lemma_encode_nul()
    ensures
        encode_scalar('\0' as u32) == seq![0u8],
{
    assert(((0u32 & 0x7F) as u8) == 0u8) by (bit_vector);
}

/// The encoding of a non-NUL character neither starts nor ends with a zero byte.
proof fn lemma_encode_scalar_nonzero_ends(c: char)
    requires
        c != '\0',
    ensures
        encode_scalar(c as u32).len() > 0,
        encode_scalar(c as u32)[0] != 0u8,
        encode_scalar(c as u32).last() != 0u8,
{
    let v = c as u32;
    assert(v != 0);
    if has_width_1_encoding(v) {
        assert(0 < v <= 0x7f ==> ((v & 0x7F) as u8) != 0u8) by (bit_vector);
    } else if has_width_2_encoding(v) {
        assert((0xC0u8 | ((v >> 6) & 0x1F) as u8) != 0u8) by (bit_vector);
        assert((0x80u8 | (v & 0x3F) as u8) != 0u8) by (bit_vector);
    } else if has_width_3_encoding(v) {
        assert((0xE0u8 | ((v >> 12) & 0x0F) as u8) != 0u8) by (bit_vector);
        assert((0x80u8 | (v & 0x3F) as u8) != 0u8) by (bit_vector);
    } else {
        assert((0xF0u8 | ((v >> 18) & 0x7) as u8) != 0u8) by (bit_vector);
        assert((0x80u8 | (v & 0x3F) as u8) != 0u8) by (bit_vector);
    }
}

/// Decoding well-formed bytes whose first and last bytes are not zero gives
/// characters whose first and last are not NUL.
proof fn lemma_decode_nonzero_ends(bytes: Seq<u8>)
    requires
        valid_utf8(bytes),
        bytes.len() > 0 ==> bytes[0] != 0u8 && bytes.last() != 0u8,
    ensures
        decode_utf8(bytes).len() > 0 ==> decode_utf8(bytes)[0] != '\0' && decode_utf8(
            bytes,
        ).last() != '\0',
{
    let m = decode_utf8(bytes);
    decode_utf8_encode_utf8(bytes);
    if m.len() > 0 {
        // the first character
        let rest = m.drop_first();
        assert(m =~= seq![m[0]] + rest);
        lemma_encode_concat(seq![m[0]], rest);
        lemma_encode_single(m[0]);
        if m[0] == '\0' {
            lemma_encode_nul();
            assert(bytes[0] == encode_scalar(m[0] as u32)[0]);
        }
        // the last character
        let init = m.drop_last();
        assert(m =~= init + seq![m.last()]);
        lemma_encode_concat(init, seq![m.last()]);
        lemma_encode_single(m.last());
        if m.last() == '\0' {
            lemma_encode_nul();
            assert(bytes.last() == encode_scalar(m.last() as u32).last());
        }
    }
}

/// A run of zero bytes is well-formed UTF-8 and decodes to as many NULs.
proof fn lemma_decode_zeros(z: Seq<u8>)
    requires
        all_zero(z),
    ensures
        valid_utf8(z),
        all_nul(decode_utf8(z)),
        decode_utf8(z).len() == z.len(),
    decreases z.len(),
{
    if z.len() > 0 {
        assert(((0u8 & 0x7F) as u32) == 0u32) by (bit_vector);
        assert(pop_first_scalar(z) =~= z.drop_first());
        lemma_decode_zeros(z.drop_first());
        assert(decode_first_scalar(z) == 0u32);
        char_u32_cast('\0', 0u32);
    }
}

/// In well-formed bytes, the position right after a zero byte starts a character.
proof fn lemma_boundary_after_zero(bytes: Seq<u8>, i: int)
    requires
        valid_utf8(bytes),
        0 < i <= bytes.len(),
        bytes[i - 1] == 0u8,
    ensures
        is_char_boundary(bytes, i),
{
    is_char_boundary_start_end_of_seq(bytes);
    if i < bytes.len() {
        is_char_boundary_iff_is_leading_byte(bytes, i - 1);
        valid_utf8_split(bytes, i - 1);
        let t = bytes.subrange(i - 1, bytes.len() as int);
        assert(t[0] == 0u8);
        assert(pop_first_scalar(t) =~= bytes.subrange(i, bytes.len() as int));
        let u = bytes.subrange(i, bytes.len() as int);
        assert(valid_utf8(u));
        assert(u[0] == bytes[i]);
        assert(valid_first_scalar(u));
        is_char_boundary_iff_not_is_continuation_byte(bytes, i);
    }
}

// ------------------------------------------------------------------ reading a field

/// Wraps `std::str::from_utf8`. Claimed: the call succeeds exactly when the bytes
/// are well-formed UTF-8, and the string it then gives back is made of those bytes.
#[verifier::external_body]
fn str_from_utf8(bytes: &[u8]) -> (res: Option<&str>)
    ensures
        res is Some <==> valid_utf8(bytes@),
        res matches Some(s) ==> s.spec_bytes() == bytes@,
{
    std::str::from_utf8(bytes).ok()
}

/// Whether the bytes `data[start..end]` are well-formed UTF-8.
fn field_is_utf8(data: &[u8], start: usize, end: usize) -> (ok: bool)
    requires
        start <= end <= data@.len(),
    ensures
        ok == valid_utf8(data@.subrange(start as int, end as int)),
{
    str_from_utf8(slice_subrange(data, start, end)).is_some()
}

/// The text of the field `data[start..end]`: read as UTF-8, then stripped of
/// leading and trailing NULs.
fn field_string(data: &[u8], start: usize, end: usize) -> (text: String)
    requires
        start <= end <= data@.len(),
        valid_utf8(data@.subrange(start as int, end as int)),
    ensures
        text@ == field_text(data@, start as int, end as int),
{
    let field = slice_subrange(data, start, end);
    let ghost fb = field@;
    let s = match str_from_utf8(field) {
        Some(s) => s,
        None => {
            proof {
                assert(false);
            }
            ""
        },
    };
    let bytes = s.as_bytes();
    assert(bytes@ == fb);
    let n = bytes.len();
    let mut lo: usize = 0;
    while lo < n && bytes[lo] == 0
        invariant
            lo <= n == fb.len(),
            bytes@ == fb,
            forall|k: int| 0 <= k < lo ==> fb[k] == 0u8,
        decreases n - lo,
    {
        lo = lo + 1;
    }
    let mut hi: usize = n;
    while hi > lo && bytes[hi - 1] == 0
        invariant
            lo <= hi <= n == fb.len(),
            bytes@ == fb,
            forall|k: int| hi <= k < n ==> fb[k] == 0u8,
        decreases hi - lo,
    {
        hi = hi - 1;
    }
    proof {
        is_char_boundary_start_end_of_seq(fb);
        if hi < n {
            assert(fb[hi as int] == 0u8);
            is_char_boundary_iff_is_leading_byte(fb, hi as int);
        }
    }
    let (head, _) = s.split_at(hi);
    let ghost hb = fb.subrange(0, hi as int);
    proof {
        valid_utf8_split(fb, hi as int);
        assert(head.spec_bytes() == hb);
        is_char_boundary_start_end_of_seq(hb);
        if 0 < lo && lo < hi {
            assert(hb[lo - 1] == 0u8);
            lemma_boundary_after_zero(hb, lo as int);
        }
        if lo == hi && hi > 0 {
            assert(hb.len() == hi);
        }
    }
    let (_, mid) = head.split_at(lo);
    let ghost mb = hb.subrange(lo as int, hi as int);
    proof {
        assert(mid.spec_bytes() =~= mb);
        valid_utf8_split(hb, lo as int);
        assert(hb.subrange(lo as int, hb.len() as int) =~= mb);
        encode_utf8_decode_utf8(mid@);
        assert(mid@ == decode_utf8(mb));
        // the field splits into zero padding, the text and zero padding
        let z1 = hb.subrange(0, lo as int);
        let z2 = fb.subrange(hi as int, n as int);
        assert(all_zero(z1));
        assert(all_zero(z2));
        decode_utf8_split(fb, hi as int);
        decode_utf8_split(hb, lo as int);
        lemma_decode_zeros(z1);
        lemma_decode_zeros(z2);
        if lo < hi {
            assert(mb[0] == fb[lo as int]);
            assert(mb.last() == fb[hi - 1]);
        }
        lemma_decode_nonzero_ends(mb);
        lemma_trim_nul_frame(decode_utf8(z1), decode_utf8(mb), decode_utf8(z2));
        assert(decode_utf8(fb) =~= decode_utf8(z1) + decode_utf8(mb) + decode_utf8(z2));
        assert(fb == data@.subrange(start as int, end as int));
    }
    mid.to_owned()
}

// ------------------------------------------------------------------ the tag

/// The title a tag reports when the file carries none.
pub open spec fn spec_default_title() -> Seq<char> {
    "Untitled"@
}

/// What the artist, year and album fields report when the file carries no tag.
pub open spec fn spec_unknown() -> Seq<char> {
    "Unknown"@
}

/// The textual fields of an ID3v1 tag.
#[derive(Debug)]
pub struct Id3V1 {
    pub title: String,
    pub artist: String,
    pub year: String,
    pub album: String,
}

/// One of the four text fields of a tag.
#[derive(Debug, Clone, Copy, PartialEq, Eq, Structural)]
pub enum TagField {
    Title,
    Artist,
    Album,
    Year,
}

/// Why a block of bytes cannot be read as a tag.
#[derive(Debug, Clone, Copy, PartialEq, Eq, Structural)]
pub enum TagError {
    /// Fewer than three bytes: not even the marker can be looked at.
    TooShort,
    /// The block starts with `TAG` but ends before the year field does.
    Truncated,
    /// The given field is not well-formed UTF-8.
    InvalidUtf8(TagField),
}

/// The error a block of bytes meets first when read as a tag, if any.
/// The fields are taken in the order title, artist, album, year; each one must
/// lie inside the block and then be well-formed UTF-8.
pub open spec fn tag_bytes_error(data: Seq<u8>) -> Option<TagError> {
    if data.len() < 3 {
        Some(TagError::TooShort)
    } else if !has_tag_header(data) {
        None
    } else if data.len() < ARTIST_START {
        Some(TagError::Truncated)
    } else if !valid_utf8(data.subrange(TITLE_START as int, ARTIST_START as int)) {
        Some(TagError::InvalidUtf8(TagField::Title))
    } else if data.len() < ALBUM_START {
        Some(TagError::Truncated)
    } else if !valid_utf8(data.subrange(ARTIST_START as int, ALBUM_START as int)) {
        Some(TagError::InvalidUtf8(TagField::Artist))
    } else if data.len() < YEAR_START {
        Some(TagError::Truncated)
    } else if !valid_utf8(data.subrange(ALBUM_START as int, YEAR_START as int)) {
        Some(TagError::InvalidUtf8(TagField::Album))
    } else if data.len() < YEAR_END {
        Some(TagError::Truncated)
    } else if !valid_utf8(data.subrange(YEAR_START as int, YEAR_END as int)) {
        Some(TagError::InvalidUtf8(TagField::Year))
    } else {
        None
    }
}

/// The bytes can be read as a tag: at least the marker is there, and a block
/// that starts with `TAG` holds all four fields, each well-formed UTF-8.
pub open spec fn tag_bytes_readable(data: Seq<u8>) -> bool {
    &&& data.len() >= 3
    &&& has_tag_header(data) ==> {
        &&& data.len() >= YEAR_END
        &&& valid_utf8(data.subrange(TITLE_START as int, ARTIST_START as int))
        &&& valid_utf8(data.subrange(ARTIST_START as int, ALBUM_START as int))
        &&& valid_utf8(data.subrange(ALBUM_START as int, YEAR_START as int))
        &&& valid_utf8(data.subrange(YEAR_START as int, YEAR_END as int))
    }
}

impl Id3V1 {
    /// The tag of a file without tag information.
    pub open spec fn is_untagged(&self) -> bool {
        &&& self.title@ == spec_default_title()
        &&& self.artist@ == spec_unknown()
        &&& self.year@ == spec_unknown()
        &&& self.album@ == spec_unknown()
    }

    /// The tag read from `data`: the four fields when it starts with `TAG`,
    /// the placeholder texts otherwise.
    pub open spec fn read_from(&self, data: Seq<u8>) -> bool {
        if has_tag_header(data) {
            &&& self.title@ == field_text(data, TITLE_START as int, ARTIST_START as int)
            &&& self.artist@ == field_text(data, ARTIST_START as int, ALBUM_START as int)
            &&& self.album@ == field_text(data, ALBUM_START as int, YEAR_START as int)
            &&& self.year@ == field_text(data, YEAR_START as int, YEAR_END as int)
        } else {
            self.is_untagged()
        }
    }

    /// A tag holding the placeholder texts.
    pub fn new() -> (tag: Id3V1)
        ensures
            tag.is_untagged(),
    {
        Id3V1 {
            title: "Untitled".to_owned(),
            artist: "Unknown".to_owned(),
            year: "Unknown".to_owned(),
            album: "Unknown".to_owned(),
        }
    }

    /// Reads the tag block `data` (the last 128 bytes of a file, or the whole file
    /// when it is shorter).
    pub fn from_bytes(data: &[u8]) -> (tag: Id3V1)
        requires
            tag_bytes_readable(data@),
        ensures
            tag.read_from(data@),
    {
        let mut tag = Id3V1::new();
        if data[0] == 84 && data[1] == 65 && data[2] == 71 {
            tag.title = field_string(data, TITLE_START, ARTIST_START);
            tag.artist = field_string(data, ARTIST_START, ALBUM_START);
            tag.album = field_string(data, ALBUM_START, YEAR_START);
            tag.year = field_string(data, YEAR_START, YEAR_END);
        }
        tag
    }

    /// Tells whether `data` can be read by [`Id3V1::from_bytes`], and if not, why.
    pub fn check_bytes(data: &[u8]) -> (res: Result<(), TagError>)
        ensures
            res is Ok <==> tag_bytes_readable(data@),
            res == match tag_bytes_error(data@) {
                Some(e) => Err(e),
                None => Ok(()),
            },
    {
        if data.len() < 3 {
            return Err(TagError::TooShort);
        }
        if !(data[0] == 84 && data[1] == 65 && data[2] == 71) {
            return Ok(());
        }
        if data.len() < ARTIST_START {
            return Err(TagError::Truncated);
        }
        if !field_is_utf8(data, TITLE_START, ARTIST_START) {
            return Err(TagError::InvalidUtf8(TagField::Title));
        }
        if data.len() < ALBUM_START {
            return Err(TagError::Truncated);
        }
        if !field_is_utf8(data, ARTIST_START, ALBUM_START) {
            return Err(TagError::InvalidUtf8(TagField::Artist));
        }
        if data.len() < YEAR_START {
            return Err(TagError::Truncated);
        }
        if !field_is_utf8(data, ALBUM_START, YEAR_START) {
            return Err(TagError::InvalidUtf8(TagField::Album));
        }
        if data.len() < YEAR_END {
            return Err(TagError::Truncated);
        }
        if !field_is_utf8(data, YEAR_START, YEAR_END) {
            return Err(TagError::InvalidUtf8(TagField::Year));
        }
        Ok(())
    }
}

impl Default for Id3V1 {
    fn default() -> (tag: Id3V1)
        ensures
            tag.is_untagged(),
    {
        Id3V1::new()
    }
}

/// Two tags hold the same four texts; this is what `==` on tags means.
pub open spec fn same_tag(a: Id3V1, b: Id3V1) -> bool {
    &&& a.title@ == b.title@
    &&& a.artist@ == b.artist@
    &&& a.album@ == b.album@
    &&& a.year@ == b.year@
}

impl PartialEq for Id3V1 {
    fn eq(&self, other: &Id3V1) -> (res: bool) {
        self.title == other.title && self.artist == other.artist && self.album == other.album
            && self.year == other.year
    }
}

impl PartialEqSpecImpl for Id3V1 {
    open spec fn obeys_eq_spec() -> bool {
        true
    }

    open spec fn eq_spec(&self, other: &Id3V1) -> bool {
        same_tag(*self, *other)
    }
}

impl Eq for Id3V1 {

}

/// `==` on tags holds exactly when all four texts agree: title, artist, album
/// and year each equal.  Tags that differ in any one field are unequal.
pub proof fn lemma_tag_eq_is_field_eq(a: Id3V1, b: Id3V1)
    ensures
        <Id3V1 as PartialEqSpec>::obeys_eq_spec(),
        PartialEqSpec::eq_spec(&a, &b) <==> {
            &&& a.title@ == b.title@
            &&& a.artist@ == b.artist@
            &&& a.album@ == b.album@
            &&& a.year@ == b.year@
        },
{
}

/// Two tags without tag information compare equal: a fresh tag and the default
/// one are the same.
pub proof fn lemma_untagged_equal(a: Id3V1, b: Id3V1)
    requires
        a.is_untagged(),
        b.is_untagged(),
    ensures
        same_tag(a, b),
{
}

/// Tag equality is an equivalence: reflexive, symmetric and transitive.
pub proof fn lemma_tag_eq_equivalence(a: Id3V1, b: Id3V1, c: Id3V1)
    ensures
        same_tag(a, a),
        same_tag(a, b) ==> same_tag(b, a),
        same_tag(a, b) && same_tag(b, c) ==> same_tag(a, c),
{
}

} // verus!
