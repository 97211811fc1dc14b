//! The playlist: entries kept in the order of their file names, one entry per name.
//!
//! Names are ordered as Rust orders `str`: lexicographically by their UTF-8 bytes.
use vstd::prelude::*;
use vstd::string::StringSliceAdditionalSpecFns;
use vstd::utf8::*;
use crate::id3::{lemma_encode_concat, Id3V1};

verus! {

broadcast use vstd::seq::group_seq_axioms;

// ------------------------------------------------------------------ byte order

/// Strict lexicographic order on byte strings.
pub open spec fn lex_lt(a: Seq<u8>, b: Seq<u8>) -> bool
    decreases a.len(),
{
    if a.len() == 0 {
        b.len() > 0
    } else if b.len() == 0 {
        false
    } else if a[0] != b[0] {
        a[0] < b[0]
    } else {
        lex_lt(a.drop_first(), b.drop_first())
    }
}

proof fn lemma_lex_irreflexive(a: Seq<u8>)
    ensures
        !lex_lt(a, a),
    decreases a.len(),
{
    if a.len() > 0 {
        lemma_lex_irreflexive(a.drop_first());
    }
}

proof fn lemma_lex_asymmetric(a: Seq<u8>, b: Seq<u8>)
    requires
        lex_lt(a, b),
    ensures
        !lex_lt(b, a),
    decreases a.len(),
{
    if a.len() > 0 && b.len() > 0 && a[0] == b[0] {
        lemma_lex_asymmetric(a.drop_first(), b.drop_first());
    }
}

proof fn lemma_lex_transitive(a: Seq<u8>, b: Seq<u8>, c: Seq<u8>)
    requires
        lex_lt(a, b),
        lex_lt(b, c),
    ensures
        lex_lt(a, c),
    decreases a.len(),
{
    if a.len() > 0 && a[0] == b[0] && b[0] == c[0] {
        lemma_lex_transitive(a.drop_first(), b.drop_first(), c.drop_first());
    }
}

proof fn lemma_lex_total(a: Seq<u8>, b: Seq<u8>)
    requires
        a != b,
    ensures
        lex_lt(a, b) || lex_lt(b, a),
    decreases a.len(),
{
    if a.len() > 0 && b.len() > 0 && a[0] == b[0] {
        if a.drop_first() == b.drop_first() {
            assert(a =~= seq![a[0]] + a.drop_first());
            assert(b =~= seq![b[0]] + b.drop_first());
        }
        lemma_lex_total(a.drop_first(), b.drop_first());
    } else if a.len() == 0 && b.len() == 0 {
        assert(a =~= b);
    }
}

/// Byte strings that agree before position `i` and differ at it are ordered
/// by their bytes at `i`, as unsigned values.
pub proof fn lemma_lex_first_difference(a: Seq<u8>, b: Seq<u8>, i: int)
    requires
        0 <= i < a.len(),
        i < b.len(),
        a.subrange(0, i) == b.subrange(0, i),
        a[i] != b[i],
    ensures
        lex_lt(a, b) == (a[i] < b[i]),
    decreases i,
{
    if i > 0 {
        assert(a[0] == a.subrange(0, i)[0]);
        assert(b[0] == b.subrange(0, i)[0]);
        assert(a.drop_first().subrange(0, i - 1) =~= a.subrange(0, i).drop_first());
        assert(b.drop_first().subrange(0, i - 1) =~= b.subrange(0, i).drop_first());
        lemma_lex_first_difference(a.drop_first(), b.drop_first(), i - 1);
    }
}

/// A byte string comes before every longer string that it begins, and not after it.
pub proof fn lemma_lex_proper_prefix(a: Seq<u8>, b: Seq<u8>)
    requires
        a.len() < b.len(),
        b.subrange(0, a.len() as int) == a,
    ensures
        lex_lt(a, b),
        !lex_lt(b, a),
    decreases a.len(),
{
    if a.len() > 0 {
        assert(a[0] == b.subrange(0, a.len() as int)[0]);
        assert(b.drop_first().subrange(0, a.drop_first().len() as int) =~= a.drop_first());
        lemma_lex_proper_prefix(a.drop_first(), b.drop_first());
    }
}

// ------------------------------------------------------------------ name order

/// File name `a` comes before file name `b`: the UTF-8 bytes of `a` are
/// lexicographically smaller than those of `b`.
pub open spec fn name_before(a: Seq<char>, b: Seq<char>) -> bool {
    lex_lt(encode_utf8(a), encode_utf8(b))
}

proof fn lemma_encode_injective(a: Seq<char>, b: Seq<char>)
    requires
        encode_utf8(a) == encode_utf8(b),
    ensures
        a == b,
{
    encode_utf8_decode_utf8(a);
    encode_utf8_decode_utf8(b);
}

/// Names are ordered by their UTF-8 bytes: where the encodings first differ,
/// the name with the smaller byte comes first; a name whose encoding begins a
/// longer one comes before it.
pub proof fn lemma_name_before_bytes(a: Seq<char>, b: Seq<char>, i: int)
    ensures
        0 <= i < encode_utf8(a).len() && i < encode_utf8(b).len()
            && encode_utf8(a).subrange(0, i) == encode_utf8(b).subrange(0, i)
            && encode_utf8(a)[i] != encode_utf8(b)[i]
            ==> (name_before(a, b) <==> encode_utf8(a)[i] < encode_utf8(b)[i]),
        encode_utf8(a).len() < encode_utf8(b).len()
            && encode_utf8(b).subrange(0, encode_utf8(a).len() as int) == encode_utf8(a)
            ==> name_before(a, b) && !name_before(b, a),
{
    let x = encode_utf8(a);
    let y = encode_utf8(b);
    if 0 <= i < x.len() && i < y.len() && x.subrange(0, i) == y.subrange(0, i) && x[i] != y[i] {
        lemma_lex_first_difference(x, y, i);
    }
    if x.len() < y.len() && y.subrange(0, x.len() as int) == x {
        lemma_lex_proper_prefix(x, y);
    }
}

/// No name comes before itself.
pub proof fn lemma_name_before_irreflexive(a: Seq<char>)
    ensures
        !name_before(a, a),
{
    lemma_lex_irreflexive(encode_utf8(a));
}

/// The name order is transitive.
pub proof fn lemma_name_before_transitive(a: Seq<char>, b: Seq<char>, c: Seq<char>)
    requires
        name_before(a, b),
        name_before(b, c),
    ensures
        name_before(a, c),
{
    lemma_lex_transitive(encode_utf8(a), encode_utf8(b), encode_utf8(c));
}

/// Of two different names, exactly one comes first.
pub proof fn lemma_name_before_total(a: Seq<char>, b: Seq<char>)
    ensures
        a != b ==> (name_before(a, b) || name_before(b, a)),
        name_before(a, b) ==> !name_before(b, a),
{
    if a != b {
        if encode_utf8(a) == encode_utf8(b) {
            lemma_encode_injective(a, b);
        }
        lemma_lex_total(encode_utf8(a), encode_utf8(b));
    }
    if name_before(a, b) {
        lemma_lex_asymmetric(encode_utf8(a), encode_utf8(b));
    }
}

/// How two file names compare.
#[derive(Debug, Clone, Copy, PartialEq, Eq, Structural)]
pub enum NameOrder {
    Before,
    Same,
    After,
}

/// Compares two file names byte by byte.
pub fn compare_names(a: &String, b: &String) -> (o: NameOrder)
    ensures
        o == NameOrder::Before <==> name_before(a@, b@),
        o == NameOrder::Same <==> a@ == b@,
        o == NameOrder::After <==> name_before(b@, a@),
{
    let x = a.as_str().as_bytes();
    let y = b.as_str().as_bytes();
    let ghost xs = x@;
    let ghost ys = y@;
    assert(xs == encode_utf8(a@));
    assert(ys == encode_utf8(b@));
    proof {
        lemma_name_before_total(a@, b@);
        lemma_name_before_irreflexive(a@);
        assert(xs.skip(0) =~= xs);
        assert(ys.skip(0) =~= ys);
    }
    let n = x.len();
    let m = y.len();
    let mut i: usize = 0;
    while i < n && i < m
        invariant
            n == xs.len(),
            m == ys.len(),
            x@ == xs,
            y@ == ys,
            i <= n,
            i <= m,
            forall|j: int| 0 <= j < i ==> xs[j] == ys[j],
            lex_lt(xs, ys) == lex_lt(xs.skip(i as int), ys.skip(i as int)),
            lex_lt(ys, xs) == lex_lt(ys.skip(i as int), xs.skip(i as int)),
            xs == encode_utf8(a@),
            ys == encode_utf8(b@),
            a@ != b@ ==> (name_before(a@, b@) || name_before(b@, a@)),
            name_before(a@, b@) ==> !name_before(b@, a@),
            !name_before(a@, a@),
        decreases n - i,
    {
        let p = x[i];
        let q = y[i];
        assert(xs.skip(i as int)[0] == p);
        assert(ys.skip(i as int)[0] == q);
        if p < q {
            assert(lex_lt(xs.skip(i as int), ys.skip(i as int)));
            assert(xs != ys);
            return NameOrder::Before;
        }
        if p > q {
            assert(lex_lt(ys.skip(i as int), xs.skip(i as int)));
            assert(xs[i as int] != ys[i as int]);
            assert(xs != ys);
            return NameOrder::After;
        }
        assert(xs.skip(i as int).drop_first() =~= xs.skip(i + 1));
        assert(ys.skip(i as int).drop_first() =~= ys.skip(i + 1));
        i = i + 1;
    }
    if n == m {
        assert(xs =~= ys);
        proof {
            lemma_encode_injective(a@, b@);
        }
        NameOrder::Same
    } else if n < m {
        assert(xs.skip(i as int).len() == 0);
        NameOrder::Before
    } else {
        assert(ys.skip(i as int).len() == 0);
        NameOrder::After
    }
}

// ------------------------------------------------------------------ entries

/// One file of the playlist.
pub struct PlayListItem {
    /// The file's name, by which the playlist is ordered and de-duplicated.
    pub file_name: String,
    /// The file's full path.
    pub file_path: String,
    /// Whether this entry has been started.
    pub playing: bool,
    /// The entry's tag information.
    pub id3v1: Id3V1,
}

impl PlayListItem {
    /// A fresh entry for a file: not playing, with a placeholder tag.
    pub fn new(file_name: String, file_path: String) -> (item: PlayListItem)
        ensures
            item.file_name == file_name,
            item.file_path == file_path,
            !item.playing,
            item.id3v1.is_untagged(),
    {
        PlayListItem { file_name, file_path, playing: false, id3v1: Id3V1::new() }
    }
}

impl PlayListItem {
    /// The text an entry shows when printed for debugging: always `Test`.
    pub fn debug_text(&self) -> (text: String)
        ensures
            text@ == "Test"@,
    {
        "Test".to_owned()
    }
}

impl Default for PlayListItem {
    /// An entry with empty name and path, not playing, with a placeholder tag.
    fn default() -> (item: PlayListItem)
        ensures
            item.file_name@ == Seq::<char>::empty(),
            item.file_path@ == Seq::<char>::empty(),
            !item.playing,
            item.id3v1.is_untagged(),
    {
        PlayListItem {
            file_name: String::new(),
            file_path: String::new(),
            playing: false,
            id3v1: Id3V1::new(),
        }
    }
}

// ------------------------------------------------------------------ playlists

/// The entries of `r` are in strictly increasing name order (so no name occurs twice).
pub open spec fn sorted_by_name(r: Seq<PlayListItem>) -> bool {
    forall|i: int, j: int|
        0 <= i < j < r.len() ==> #[trigger] name_before(r[i].file_name@, r[j].file_name@)
}

/// `s[k]` is the first entry of `s` with its name.
pub open spec fn is_first_of_name(s: Seq<PlayListItem>, k: int) -> bool {
    &&& 0 <= k < s.len()
    &&& forall|j: int| 0 <= j < k ==> s[j].file_name@ != #[trigger] s[k].file_name@
}

/// `x` is the first entry of `s` with its name.
pub open spec fn is_first_entry_of(s: Seq<PlayListItem>, x: PlayListItem) -> bool {
    exists|k: int| #[trigger] is_first_of_name(s, k) && s[k] == x
}

/// Some entry of `r` carries the name `name`.
pub open spec fn has_name(r: Seq<PlayListItem>, name: Seq<char>) -> bool {
    exists|i: int| 0 <= i < r.len() && #[trigger] r[i].file_name@ == name
}

/// `r` is the playlist made of the entries `s`: for every name in `s`, the first
/// entry with that name, in name order.  This is what sorting `s` by name
/// (keeping entries of equal name in their order) and then dropping every entry
/// whose name equals that of the entry before it gives.
pub open spec fn is_playlist_of(s: Seq<PlayListItem>, r: Seq<PlayListItem>) -> bool {
    &&& sorted_by_name(r)
    &&& forall|i: int| 0 <= i < r.len() ==> is_first_entry_of(s, #[trigger] r[i])
    &&& forall|k: int| 0 <= k < s.len() ==> has_name(r, #[trigger] s[k].file_name@)
}

/// Where an entry named `name` belongs in the sorted `r`: the first position whose
/// name does not come before `name`, and whether the name is already there.
fn find_slot(r: &Vec<PlayListItem>, name: &String) -> (res: (usize, bool))
    requires
        sorted_by_name(r@),
    ensures
        res.0 <= r@.len(),
        forall|j: int| 0 <= j < res.0 ==> name_before(#[trigger] r@[j].file_name@, name@),
        res.1 ==> res.0 < r@.len() && r@[res.0 as int].file_name@ == name@,
        !res.1 ==> res.0 == r@.len() || name_before(name@, r@[res.0 as int].file_name@),
{
    let mut pos: usize = 0;
    while pos < r.len()
        invariant
            pos <= r@.len(),
            forall|j: int| 0 <= j < pos ==> name_before(#[trigger] r@[j].file_name@, name@),
        decreases r@.len() - pos,
    {
        match compare_names(&r[pos].file_name, name) {
            NameOrder::Before => {
                pos = pos + 1;
            },
            NameOrder::Same => {
                return (pos, true);
            },
            NameOrder::After => {
                return (pos, false);
            },
        }
    }
    (pos, false)
}

/// Adds `files` to the playlist `list`, then puts it in name order and keeps
/// only the first entry of each name: entries already in the list keep their
/// place over newly added files of the same name.
pub fn add_files(list: &mut Vec<PlayListItem>, files: Vec<PlayListItem>)
    ensures
        is_playlist_of(old(list)@ + files@, final(list)@),
{
    let ghost start = old(list)@ + files@;
    let mut pending: Vec<PlayListItem> = Vec::new();
    std::mem::swap(&mut pending, list);
    let mut added = files;
    pending.append(&mut added);
    let ghost s = pending@;
    assert(s == start);
    let mut result: Vec<PlayListItem> = Vec::new();
    let ghost mut origin: Seq<int> = Seq::empty();
    let ghost mut k: int = 0;
    while pending.len() > 0
        invariant
            0 <= k <= s.len(),
            pending@ == s.skip(k),
            origin.len() == result@.len(),
            sorted_by_name(result@),
            forall|i: int|
                0 <= i < result@.len() ==> 0 <= #[trigger] origin[i] < k && is_first_of_name(
                    s,
                    origin[i],
                ) && result@[i] == s[origin[i]],
            forall|j: int| 0 <= j < k ==> has_name(result@, #[trigger] s[j].file_name@),
        decreases pending@.len(),
    {
        let item = pending.remove(0);
        assert(item == s[k]);
        assert(pending@ =~= s.skip(k + 1));
        let (pos, found) = find_slot(&result, &item.file_name);
        let ghost before = result@;
        let ghost before_origin = origin;
        if found {
            assert(result@[pos as int].file_name@ == s[k].file_name@);
        } else {
            proof {
                // no earlier entry carries this name
                assert forall|j: int| 0 <= j < k implies s[j].file_name@ != #[trigger] s[k].file_name@ by {
                    if s[j].file_name@ == s[k].file_name@ {
                        assert(has_name(before, s[j].file_name@));
                        let i = choose|i: int|
                            0 <= i < before.len() && #[trigger] before[i].file_name@
                                == s[j].file_name@;
                        lemma_name_before_irreflexive(s[k].file_name@);
                        if i < pos {
                            assert(name_before(before[i].file_name@, s[k].file_name@));
                        } else {
                            assert(name_before(s[k].file_name@, before[pos as int].file_name@));
                            if i > pos {
                                assert(name_before(before[pos as int].file_name@, before[i].file_name@));
                                lemma_name_before_transitive(
                                    s[k].file_name@,
                                    before[pos as int].file_name@,
                                    before[i].file_name@,
                                );
                            }
                        }
                    }
                }
            }
            result.insert(pos, item);
            proof {
                origin = before_origin.insert(pos as int, k);
                let r = result@;
                assert(r == before.insert(pos as int, s[k]));
                assert forall|i: int, j: int| 0 <= i < j < r.len() implies #[trigger] name_before(
                    r[i].file_name@,
                    r[j].file_name@,
                ) by {
                    if j < pos {
                        assert(r[i] == before[i] && r[j] == before[j]);
                    } else if j == pos {
                        assert(r[i] == before[i]);
                    } else if i == pos {
                        assert(r[j] == before[j - 1]);
                        if j - 1 > pos {
                            assert(name_before(before[pos as int].file_name@, before[j - 1].file_name@));
                            lemma_name_before_transitive(
                                s[k].file_name@,
                                before[pos as int].file_name@,
                                before[j - 1].file_name@,
                            );
                        }
                    } else if i < pos {
                        assert(r[i] == before[i] && r[j] == before[j - 1]);
                        assert(name_before(before[i].file_name@, s[k].file_name@));
                        if j - 1 > pos {
                            assert(name_before(before[pos as int].file_name@, before[j - 1].file_name@));
                            lemma_name_before_transitive(
                                s[k].file_name@,
                                before[pos as int].file_name@,
                                before[j - 1].file_name@,
                            );
                        }
                        lemma_name_before_transitive(
                            before[i].file_name@,
                            s[k].file_name@,
                            before[j - 1].file_name@,
                        );
                    } else {
                        assert(r[i] == before[i - 1] && r[j] == before[j - 1]);
                    }
                }
                assert forall|i: int| 0 <= i < r.len() implies 0 <= #[trigger] origin[i] < k + 1
                    && is_first_of_name(s, origin[i]) && r[i] == s[origin[i]] by {
                    if i < pos {
                        assert(origin[i] == before_origin[i]);
                    } else if i > pos {
                        assert(origin[i] == before_origin[i - 1]);
                    }
                }
            }
        }
        proof {
            let r = result@;
            assert forall|j: int| 0 <= j < k + 1 implies has_name(r, #[trigger] s[j].file_name@) by {
                if j == k {
                    assert(r[pos as int].file_name@ == s[k].file_name@);
                } else {
                    assert(has_name(before, s[j].file_name@));
                    let i = choose|i: int|
                        0 <= i < before.len() && #[trigger] before[i].file_name@
                            == s[j].file_name@;
                    if found || i < pos {
                        assert(r[i].file_name@ == s[j].file_name@);
                    } else {
                        assert(r[i + 1].file_name@ == s[j].file_name@);
                    }
                }
            }
            k = k + 1;
        }
    }
    proof {
        assert(k == s.len());
        let r = result@;
        assert forall|i: int| 0 <= i < r.len() implies is_first_entry_of(s, #[trigger] r[i]) by {
            assert(is_first_of_name(s, origin[i]));
        }
        assert forall|j: int| 0 <= j < s.len() implies has_name(r, #[trigger] s[j].file_name@) by {
            assert(j < k);
        }
    }
    *list = result;
}

// ------------------------------------------------------------------ choosing files

/// `s` ends with `suffix`.
pub open spec fn seq_ends_with(s: Seq<u8>, suffix: Seq<u8>) -> bool {
    &&& suffix.len() <= s.len()
    &&& s.subrange(s.len() - suffix.len(), s.len() as int) == suffix
}

/// The path's UTF-8 bytes end with those of `.mp3`.
pub open spec fn ends_with_mp3(path: Seq<char>) -> bool {
    seq_ends_with(encode_utf8(path), encode_utf8(".mp3"@))
}

/// Whether the bytes `s` end with the bytes `suffix`.
fn bytes_end_with(s: &[u8], suffix: &[u8]) -> (res: bool)
    ensures
        res == seq_ends_with(s@, suffix@),
{
    let n = s.len();
    let m = suffix.len();
    if m > n {
        return false;
    }
    let off = n - m;
    let mut i: usize = 0;
    while i < m
        invariant
            n == s@.len(),
            m == suffix@.len(),
            off == n - m,
            i <= m,
            forall|j: int| 0 <= j < i ==> s@[off + j] == suffix@[j],
        decreases m - i,
    {
        if s[off + i] != suffix[i] {
            assert(s@.subrange(off as int, n as int)[i as int] != suffix@[i as int]);
            return false;
        }
        i = i + 1;
    }
    assert(s@.subrange(off as int, n as int) =~= suffix@);
    true
}

/// Whether the path names an MP3 file: it ends with `.mp3`.
pub fn is_mp3_path(path: &str) -> (res: bool)
    ensures
        res == ends_with_mp3(path@),
{
    bytes_end_with(path.as_bytes(), ".mp3".as_bytes())
}

/// A well-formed encoding whose bytes end with the encoding of `suffix` comes
/// from characters that end with `suffix`.
proof fn lemma_encoded_suffix(p: Seq<char>, suffix: Seq<char>)
    requires
        suffix.len() > 0,
        seq_ends_with(encode_utf8(p), encode_utf8(suffix)),
    ensures
        suffix.len() <= p.len(),
        p.subrange(p.len() - suffix.len(), p.len() as int) == suffix,
{
    let b = encode_utf8(p);
    let m = encode_utf8(suffix);
    let k = b.len() - m.len();
    encode_utf8_valid_utf8(p);
    encode_utf8_first_scalar(suffix);
    assert(m.len() > 0);
    assert(b[k] == m[0]);
    if k < b.len() {
        is_char_boundary_iff_not_is_continuation_byte(b, k);
    }
    assert(is_char_boundary(b, k));
    decode_utf8_split(b, k);
    encode_utf8_decode_utf8(p);
    encode_utf8_decode_utf8(suffix);
    assert(b.subrange(k, b.len() as int) == m);
    let q = decode_utf8(b.subrange(0, k));
    assert(p == q + suffix);
    assert(p.subrange(p.len() - suffix.len(), p.len() as int) =~= suffix);
}

/// A path ends with `.mp3` exactly when its last four characters are `.mp3`;
/// in particular every text followed by `.mp3` does.
pub proof fn lemma_ends_with_mp3_chars(p: Seq<char>, q: Seq<char>)
    ensures
        ends_with_mp3(p) <==> (4 <= p.len() && p.subrange(p.len() - 4, p.len() as int) == ".mp3"@),
        ends_with_mp3(q + ".mp3"@),
{
    reveal_strlit(".mp3");
    let m = ".mp3"@;
    // text followed by the suffix
    lemma_encode_concat(q, m);
    assert(encode_utf8(q + m).subrange(
        encode_utf8(q + m).len() - encode_utf8(m).len(),
        encode_utf8(q + m).len() as int,
    ) =~= encode_utf8(m));
    if ends_with_mp3(p) {
        lemma_encoded_suffix(p, m);
    }
    if 4 <= p.len() && p.subrange(p.len() - 4, p.len() as int) == m {
        let r = p.subrange(0, p.len() - 4);
        assert(p =~= r + m);
        lemma_encode_concat(r, m);
        assert(encode_utf8(p).subrange(
            encode_utf8(p).len() - encode_utf8(m).len(),
            encode_utf8(p).len() as int,
        ) =~= encode_utf8(m));
    }
}

/// The selected path can be added to the playlist: it names a file (not a
/// directory) and ends with `.mp3`.
pub open spec fn addable(path: Seq<char>, is_file: bool) -> bool {
    is_file && ends_with_mp3(path)
}

/// How many of the selected paths, from the first on, can be added: the
/// selection stops at the first path that is not an MP3 file.
pub fn addable_prefix_len(paths: &Vec<String>, is_file: &Vec<bool>) -> (n: usize)
    requires
        paths@.len() == is_file@.len(),
    ensures
        n <= paths@.len(),
        forall|i: int| 0 <= i < n ==> addable(#[trigger] paths@[i]@, is_file@[i]),
        n < paths@.len() ==> !addable(paths@[n as int]@, is_file@[n as int]),
{
    let mut n: usize = 0;
    while n < paths.len()
        invariant
            n <= paths@.len() == is_file@.len(),
            forall|i: int| 0 <= i < n ==> addable(#[trigger] paths@[i]@, is_file@[i]),
        decreases paths@.len() - n,
    {
        if !(is_file[n] && is_mp3_path(paths[n].as_str())) {
            return n;
        }
        n = n + 1;
    }
    n
}

// ------------------------------------------------------------------ laws

/// The names of the entries of `r`, in order.
pub open spec fn names(r: Seq<PlayListItem>) -> Seq<Seq<char>> {
    r.map_values(|x: PlayListItem| x.file_name@)
}

/// Name sequences in strictly increasing order with the same members are equal.
proof fn lemma_sorted_names_unique(a: Seq<Seq<char>>, b: Seq<Seq<char>>)
    requires
        forall|i: int, j: int| 0 <= i < j < a.len() ==> #[trigger] name_before(a[i], a[j]),
        forall|i: int, j: int| 0 <= i < j < b.len() ==> #[trigger] name_before(b[i], b[j]),
        forall|x: Seq<char>| a.contains(x) <==> b.contains(x),
    ensures
        a == b,
    decreases a.len(),
{
    if a.len() == 0 {
        if b.len() > 0 {
            assert(b.contains(b[0]));
        }
        assert(a =~= b);
    } else {
        assert(a.contains(a[0]));
        let j = choose|j: int| 0 <= j < b.len() && b[j] == a[0];
        assert(b.contains(b[0]));
        let i = choose|i: int| 0 <= i < a.len() && a[i] == b[0];
        if j > 0 && i > 0 {
            assert(name_before(b[0], b[j]));
            assert(name_before(a[0], a[i]));
            lemma_name_before_total(a[0], b[0]);
        } else if j > 0 {
            assert(name_before(b[0], b[j]));
            lemma_name_before_irreflexive(a[0]);
        } else if i > 0 {
            assert(name_before(a[0], a[i]));
            lemma_name_before_irreflexive(a[0]);
        }
        assert(a[0] == b[0]);
        let a1 = a.drop_first();
        let b1 = b.drop_first();
        assert forall|x: Seq<char>| a1.contains(x) <==> b1.contains(x) by {
            if a1.contains(x) {
                let p = choose|p: int| 0 <= p < a1.len() && a1[p] == x;
                assert(a.contains(x));
                assert(name_before(a[0], a[p + 1]));
                lemma_name_before_irreflexive(x);
                let q = choose|q: int| 0 <= q < b.len() && b[q] == x;
                assert(q != 0);
                assert(b1[q - 1] == x);
            }
            if b1.contains(x) {
                let p = choose|p: int| 0 <= p < b1.len() && b1[p] == x;
                assert(b.contains(x));
                assert(name_before(b[0], b[p + 1]));
                lemma_name_before_irreflexive(x);
                let q = choose|q: int| 0 <= q < a.len() && a[q] == x;
                assert(q != 0);
                assert(a1[q - 1] == x);
            }
        }
        assert forall|i: int, j: int| 0 <= i < j < a1.len() implies #[trigger] name_before(a1[i], a1[j]) by {
            assert(name_before(a[i + 1], a[j + 1]));
        }
        assert forall|i: int, j: int| 0 <= i < j < b1.len() implies #[trigger] name_before(b1[i], b1[j]) by {
            assert(name_before(b[i + 1], b[j + 1]));
        }
        lemma_sorted_names_unique(a1, b1);
        assert(a =~= seq![a[0]] + a1);
        assert(b =~= seq![b[0]] + b1);
    }
}

/// The playlist made of a sequence of entries is unique: whatever adds the
/// entries, the result is the same list.
pub proof fn lemma_playlist_unique(s: Seq<PlayListItem>, r1: Seq<PlayListItem>, r2: Seq<PlayListItem>)
    requires
        is_playlist_of(s, r1),
        is_playlist_of(s, r2),
    ensures
        r1 == r2,
{
    let n1 = names(r1);
    let n2 = names(r2);
    assert forall|i: int, j: int| 0 <= i < j < n1.len() implies #[trigger] name_before(n1[i], n1[j]) by {
        assert(name_before(r1[i].file_name@, r1[j].file_name@));
    }
    assert forall|i: int, j: int| 0 <= i < j < n2.len() implies #[trigger] name_before(n2[i], n2[j]) by {
        assert(name_before(r2[i].file_name@, r2[j].file_name@));
    }
    // every name of one list is a name of `s`, hence of the other list
    assert forall|x: Seq<char>| n1.contains(x) implies n2.contains(x) by {
        let i = choose|i: int| 0 <= i < n1.len() && n1[i] == x;
        assert(is_first_entry_of(s, r1[i]));
        let k = choose|k: int| #[trigger] is_first_of_name(s, k) && s[k] == r1[i];
        assert(has_name(r2, s[k].file_name@));
        let j = choose|j: int| 0 <= j < r2.len() && #[trigger] r2[j].file_name@ == s[k].file_name@;
        assert(n2[j] == x);
    }
    assert forall|x: Seq<char>| n2.contains(x) implies n1.contains(x) by {
        let i = choose|i: int| 0 <= i < n2.len() && n2[i] == x;
        assert(is_first_entry_of(s, r2[i]));
        let k = choose|k: int| #[trigger] is_first_of_name(s, k) && s[k] == r2[i];
        assert(has_name(r1, s[k].file_name@));
        let j = choose|j: int| 0 <= j < r1.len() && #[trigger] r1[j].file_name@ == s[k].file_name@;
        assert(n1[j] == x);
    }
    lemma_sorted_names_unique(n1, n2);
    assert(r1.len() == n1.len() && r2.len() == n2.len());
    // entries of equal name are the same first entry of `s`
    assert forall|i: int| 0 <= i < r1.len() implies r1[i] == r2[i] by {
        assert(n1[i] == n2[i]);
        assert(is_first_entry_of(s, r1[i]));
        assert(is_first_entry_of(s, r2[i]));
        let k1 = choose|k: int| #[trigger] is_first_of_name(s, k) && s[k] == r1[i];
        let k2 = choose|k: int| #[trigger] is_first_of_name(s, k) && s[k] == r2[i];
        if k1 < k2 {
            assert(s[k1].file_name@ != s[k2].file_name@);
        } else if k2 < k1 {
            assert(s[k2].file_name@ != s[k1].file_name@);
        }
    }
    assert(r1 =~= r2);
}

/// A list in name order is the playlist of itself followed by any files whose
/// names it already holds.
proof fn lemma_sorted_is_own_playlist(list: Seq<PlayListItem>, files: Seq<PlayListItem>)
    requires
        sorted_by_name(list),
        forall|j: int| 0 <= j < files.len() ==> has_name(list, #[trigger] files[j].file_name@),
    ensures
        is_playlist_of(list + files, list),
{
    let s = list + files;
    assert forall|i: int| 0 <= i < list.len() implies is_first_entry_of(s, #[trigger] list[i]) by {
        assert forall|j: int| 0 <= j < i implies s[j].file_name@ != #[trigger] s[i].file_name@ by {
            assert(name_before(list[j].file_name@, list[i].file_name@));
            lemma_name_before_irreflexive(list[i].file_name@);
        }
        assert(is_first_of_name(s, i));
    }
    assert forall|k: int| 0 <= k < s.len() implies has_name(list, #[trigger] s[k].file_name@) by {
        if k < list.len() {
            assert(list[k].file_name@ == s[k].file_name@);
        } else {
            assert(s[k] == files[k - list.len()]);
        }
    }
}

/// Adding files whose names the playlist already holds changes nothing: in
/// particular, adding the same files a second time leaves the playlist as the
/// first addition made it.
pub proof fn lemma_add_known_names_is_noop(
    list: Seq<PlayListItem>,
    files: Seq<PlayListItem>,
    result: Seq<PlayListItem>,
)
    requires
        sorted_by_name(list),
        forall|j: int| 0 <= j < files.len() ==> has_name(list, #[trigger] files[j].file_name@),
        is_playlist_of(list + files, result),
    ensures
        result == list,
{
    lemma_sorted_is_own_playlist(list, files);
    lemma_playlist_unique(list + files, result, list);
}

/// Adding files to a playlist in name order keeps every entry it had, as it was
/// (for instance whether it is playing): a new file never replaces an entry of
/// the same name.
pub proof fn lemma_add_keeps_entries(
    list: Seq<PlayListItem>,
    files: Seq<PlayListItem>,
    result: Seq<PlayListItem>,
    i: int,
)
    requires
        sorted_by_name(list),
        is_playlist_of(list + files, result),
        0 <= i < list.len(),
    ensures
        result.contains(list[i]),
{
    let s = list + files;
    assert(s[i] == list[i]);
    assert(has_name(result, s[i].file_name@));
    let j = choose|j: int| 0 <= j < result.len() && #[trigger] result[j].file_name@ == s[i].file_name@;
    assert(is_first_entry_of(s, result[j]));
    let k = choose|k: int| #[trigger] is_first_of_name(s, k) && s[k] == result[j];
    if k < i {
        assert(name_before(list[k].file_name@, list[i].file_name@));
        lemma_name_before_irreflexive(list[i].file_name@);
    } else if k > i {
        assert(s[i].file_name@ != s[k].file_name@);
    }
    assert(result[j] == list[i]);
}

} // verus!
