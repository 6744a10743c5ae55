//! The label fonts loaded at startup, addressed by id.

use vstd::prelude::*;
use crate::text::{chars_of, joined};
use ab_glyph::FontVec;
use std::path::PathBuf;

verus! {

/// A parsed font, carried through unread.
#[verifier::external_type_specification]
#[verifier::external_body]
pub struct ExFontVec(FontVec);

/// Whether `ab_glyph` accepts `data` as a font (face 0 of a collection).
pub uninterp spec fn font_data_parses(data: Seq<u8>) -> bool;

/// A path on disk, carried through unread.
#[verifier::external_type_specification]
#[verifier::external_body]
pub struct ExPathBuf(PathBuf);

/// A font together with the bytes it was parsed from.
struct ParsedFont {
    font: FontVec,
    bytes: Ghost<Seq<u8>>,
}

/// `ab_glyph::FontVec::try_from_vec_and_index(data, 0)`: the font in `data`
/// (face 0 of a collection). Trusted: it succeeds exactly when
/// `font_data_parses` holds of the bytes, and the font it gives is the one
/// parsed from those bytes; nothing else is claimed of the font.
#[verifier::external_body]
fn parse_font(data: Vec<u8>) -> (r: Option<ParsedFont>)
    ensures
        r is Some <==> font_data_parses(data@),
        r matches Some(parsed) ==> parsed.bytes@ == data@,
{
    let bytes = Ghost(data@);
    match FontVec::try_from_vec_and_index(data, 0) {
        Ok(font) => Some(ParsedFont { font, bytes }),
        Err(_) => None,
    }
}

/// The embedded font's id.
pub const EMBEDDED_FONT_ID: &'static str = "BIZUDPGothic-Regular";

/// One font source as read at startup: how to name it in messages, the id
/// it would have, and its bytes (`None` when they could not be read).
pub struct FontCandidate {
    pub name: String,
    pub id: String,
    pub data: Option<Vec<u8>>,
}

/// Where a catalog font comes from.
#[derive(Debug)]
pub enum FontSource {
    /// A TTF/OTF/TTC on disk (face 0 of a collection); skipped when unreadable.
    Path(PathBuf),
    /// Bytes compiled into the binary.
    Embedded { id: &'static str, bytes: &'static [u8] },
}

/// The sources tried at startup, in order: the `LABEL_FONT` file when one is
/// named (so it becomes the default), then the embedded font, then the
/// system fonts.
pub fn font_source_order(
    label_font: Option<PathBuf>,
    embedded: &'static [u8],
    system: Vec<PathBuf>,
) -> (r: Vec<FontSource>)
    ensures
        r@ == (match label_font {
            Some(path) => seq![FontSource::Path(path)],
            None => Seq::<FontSource>::empty(),
        }) + seq![FontSource::Embedded { id: EMBEDDED_FONT_ID, bytes: embedded }]
            + system@.map_values(|path: PathBuf| FontSource::Path(path)),
{
    let mut r: Vec<FontSource> = Vec::new();
    match label_font {
        Some(path) => r.push(FontSource::Path(path)),
        None => {},
    }
    r.push(FontSource::Embedded { id: EMBEDDED_FONT_ID, bytes: embedded });
    let ghost head = r@;
    let ghost all = system@;
    let mut rest = system;
    assert(all.len() == rest.len());
    let mut k: usize = 0;
    while rest.len() > 0
        invariant
            k + rest@.len() == all.len(),
            all.len() <= usize::MAX,
            rest@ == all.skip(k as int),
            r@ == head + all.take(k as int).map_values(|path: PathBuf| FontSource::Path(path)),
        decreases rest@.len(),
    {
        let path = rest.remove(0);
        r.push(FontSource::Path(path));
        proof {
            assert(all.take(k + 1) =~= all.take(k as int).push(path));
            assert(all.skip(k + 1) =~= all.skip(k as int).remove(0));
        }
        k = k + 1;
    }
    assert(all.take(k as int) =~= all);
    r
}

/// Index of the last `'.'` in `name`, or -1 when it has none.
pub open spec fn last_dot(name: Seq<char>) -> int
    decreases name.len(),
{
    if name.len() == 0 {
        -1
    } else if name.last() == '.' {
        name.len() - 1
    } else {
        last_dot(name.drop_last())
    }
}

/// The stem of a file name, as `Path::file_stem` takes it: the part before
/// the last `'.'`, or the whole name when it has no `'.'` or only a leading one.
pub open spec fn file_stem(name: Seq<char>) -> Seq<char> {
    if last_dot(name) > 0 {
        name.take(last_dot(name))
    } else {
        name
    }
}

/// The stem of a file name (see `file_stem`).
pub fn file_stem_id(name: &str) -> (r: String)
    ensures
        r@ == file_stem(name@),
{
    let chars = chars_of(name);
    let mut found = false;
    let mut dot: usize = 0;
    let mut i: usize = 0;
    while i < chars.len()
        invariant
            chars@ == name@,
            i <= chars@.len(),
            last_dot(chars@.take(i as int)) == if found {
                dot as int
            } else {
                -1
            },
            found ==> dot < i,
        decreases chars@.len() - i,
    {
        assert(chars@.take(i + 1).drop_last() =~= chars@.take(i as int));
        assert(chars@.take(i + 1).last() == chars@[i as int]);
        if chars[i] == '.' {
            found = true;
            dot = i;
        }
        i = i + 1;
    }
    assert(chars@.take(i as int) =~= chars@);
    if found && dot > 0 {
        String::from_str(name.substring_char(0, dot))
    } else {
        String::from_str(name)
    }
}

/// The candidate for a font file: named as its path displays, with the stem
/// of its file name as id (empty when the path has no file name) and the
/// bytes read from it, if they could be read.
pub fn file_candidate(display: String, file_name: Option<&str>, data: Option<Vec<u8>>) -> (r:
    FontCandidate)
    ensures
        r.name@ == display@,
        r.id@ == match file_name {
            Some(name) => file_stem(name@),
            None => Seq::<char>::empty(),
        },
        r.data == data,
{
    let id = match file_name {
        Some(name) => file_stem_id(name),
        None => String::new(),
    };
    FontCandidate { name: display, id, data }
}

/// The candidate for bytes compiled into the binary: named `embedded <id>`.
pub fn embedded_candidate(id: &str, bytes: &[u8]) -> (r: FontCandidate)
    ensures
        r.name@ == "embedded "@ + id@,
        r.id@ == id@,
        r.data matches Some(data) && data@ == bytes@,
{
    let mut name = String::from_str("embedded ");
    name.append(id);
    FontCandidate { name, id: String::from_str(id), data: Some(vstd::slice::slice_to_vec(bytes)) }
}

/// A candidate whose bytes were read and parse as a font.
pub open spec fn loadable(candidate: FontCandidate) -> bool {
    candidate.data matches Some(data) && font_data_parses(data@)
}

/// The bytes read for a candidate (empty when none were read).
pub open spec fn candidate_bytes(candidate: FontCandidate) -> Seq<u8> {
    match candidate.data {
        Some(data) => data@,
        None => Seq::empty(),
    }
}

/// Code point order of characters.
pub open spec fn char_below(x: char, y: char) -> bool {
    (x as u32) < (y as u32)
}

proof fn lemma_char_order(x: char, y: char)
    ensures
        x == y || char_below(x, y) || char_below(y, x),
        !(char_below(x, y) && char_below(y, x)),
        !char_below(x, x),
{
}

/// Lexicographic order of character sequences (the order of `str`).
pub open spec fn chars_lt(a: Seq<char>, b: Seq<char>) -> bool {
    exists|i: int|
        #![trigger a.take(i), b.take(i)]
        0 <= i <= a.len() && i <= b.len() && a.take(i) == b.take(i) && ((i == a.len() && i
            < b.len()) || (i < a.len() && i < b.len() && char_below(a[i], b[i])))
}

proof fn lemma_chars_lt_transitive(a: Seq<char>, b: Seq<char>, c: Seq<char>)
    requires
        chars_lt(a, b),
        chars_lt(b, c),
    ensures
        chars_lt(a, c),
{
    let i = choose|i: int|
        #![trigger a.take(i), b.take(i)]
        0 <= i <= a.len() && i <= b.len() && a.take(i) == b.take(i) && ((i == a.len() && i
            < b.len()) || (i < a.len() && i < b.len() && char_below(a[i], b[i])));
    let j = choose|j: int|
        #![trigger b.take(j), c.take(j)]
        0 <= j <= b.len() && j <= c.len() && b.take(j) == c.take(j) && ((j == b.len() && j
            < c.len()) || (j < b.len() && j < c.len() && char_below(b[j], c[j])));
    if i < j {
        assert(a.take(i) =~= c.take(i)) by {
            assert forall|k: int| 0 <= k < i implies a.take(i)[k] == c.take(i)[k] by {
                assert(a.take(i)[k] == b.take(i)[k]);
                assert(b.take(j)[k] == c.take(j)[k]);
            }
        }
        if i < a.len() {
            assert(b.take(j)[i] == c.take(j)[i]);
        }
        assert(a.take(i) == c.take(i));
    } else if j < i {
        assert(a.take(j) =~= c.take(j)) by {
            assert forall|k: int| 0 <= k < j implies a.take(j)[k] == c.take(j)[k] by {
                assert(a.take(i)[k] == b.take(i)[k]);
                assert(b.take(j)[k] == c.take(j)[k]);
            }
        }
        assert(a.take(i)[j] == b.take(i)[j]);
        assert(a.take(j) == c.take(j));
    } else {
        assert(a.take(i) =~= c.take(i));
    }
}

/// How two strings compare.
pub enum Order {
    Less,
    Equal,
    Greater,
}

/// Compares two strings as `str` does (by characters, lexicographically).
pub fn compare_strs(a: &str, b: &str) -> (r: Order)
    ensures
        r is Less <==> chars_lt(a@, b@),
        r is Equal <==> a@ == b@,
        r is Greater <==> chars_lt(b@, a@),
{
    let x = crate::text::chars_of(a);
    let y = crate::text::chars_of(b);
    let mut i: usize = 0;
    while i < x.len() && i < y.len() && x[i] == y[i]
        invariant
            x@ == a@,
            y@ == b@,
            i <= x@.len(),
            i <= y@.len(),
            x@.take(i as int) == y@.take(i as int),
        decreases x@.len() - i,
    {
        assert(x@.take(i + 1) =~= x@.take(i as int).push(x@[i as int]));
        assert(y@.take(i + 1) =~= y@.take(i as int).push(y@[i as int]));
        i = i + 1;
    }
    let ghost ii = i as int;
    assert(x@.take(ii) == y@.take(ii));
    if i == x.len() && i == y.len() {
        assert(x@ =~= x@.take(ii));
        assert(y@ =~= y@.take(ii));
        proof {
            lemma_not_lt_equal(a@, b@);
        }
        Order::Equal
    } else if i == x.len() || (i < y.len() && (x[i] as u32) < (y[i] as u32)) {
        proof {
            if i < x.len() {
                assert(char_below(x@[ii], y@[ii]));
            }
        }
        assert(chars_lt(a@, b@));
        proof {
            lemma_lt_irreflexive_pair(a@, b@, ii);
        }
        Order::Less
    } else {
        proof {
            if i < y.len() {
                lemma_char_order(x@[ii], y@[ii]);
                assert(char_below(y@[ii], x@[ii]));
            }
            assert(y@.take(ii) == x@.take(ii));
            assert(chars_lt(b@, a@));
        }
        proof {
            lemma_lt_irreflexive_pair(b@, a@, ii);
        }
        Order::Greater
    }
}

proof fn lemma_not_lt_equal(a: Seq<char>, b: Seq<char>)
    requires
        a == b,
    ensures
        !chars_lt(a, b),
{
    if chars_lt(a, b) {
        let i = choose|i: int|
            #![trigger a.take(i), b.take(i)]
            0 <= i <= a.len() && i <= b.len() && a.take(i) == b.take(i) && ((i == a.len() && i
                < b.len()) || (i < a.len() && i < b.len() && char_below(a[i], b[i])));
    }
}

/// `a` precedes `b` at position `i` (where they first differ), so `b` does
/// not precede `a` and they are not equal.
proof fn lemma_lt_irreflexive_pair(a: Seq<char>, b: Seq<char>, i: int)
    requires
        0 <= i <= a.len(),
        i <= b.len(),
        a.take(i) == b.take(i),
        (i == a.len() && i < b.len()) || (i < a.len() && i < b.len() && char_below(a[i], b[i])),
    ensures
        !chars_lt(b, a),
        a != b,
{
    if chars_lt(b, a) {
        let j = choose|j: int|
            #![trigger b.take(j), a.take(j)]
            0 <= j <= b.len() && j <= a.len() && b.take(j) == a.take(j) && ((j == b.len() && j
                < a.len()) || (j < b.len() && j < a.len() && char_below(b[j], a[j])));
        if j < i {
            assert(0 <= j < i);
            assert(a.take(i)[j] == a[j]);
            assert(b.take(i)[j] == b[j]);
            assert(a.take(i)[j] == b.take(i)[j]);
            assert(a[j] == b[j]);
            lemma_char_order(a[j], b[j]);
            assert(false);
        } else if i < j {
            assert(a.take(j)[i] == b.take(j)[i]);
            assert(a[i] == b[i]);
            lemma_char_order(a[i], b[i]);
            assert(false);
        } else {
            if i < a.len() && i < b.len() {
                lemma_char_order(a[i], b[i]);
            }
            assert(false);
        }
    }
    if a == b {
        assert(a.len() == b.len());
        if i < a.len() {
            lemma_char_order(a[i], b[i]);
        }
    }
}

/// Every id precedes the next in `str` order (so none occurs twice).
pub open spec fn strictly_sorted(ids: Seq<Seq<char>>) -> bool {
    forall|i: int, j: int| 0 <= i < j < ids.len() ==> chars_lt(#[trigger] ids[i], #[trigger] ids[j])
}

/// The names of the candidates, in order.
pub open spec fn candidate_names(candidates: Seq<FontCandidate>) -> Seq<Seq<char>> {
    candidates.map_values(|c: FontCandidate| c.name@)
}

/// Candidate `i` is the first loadable one.
pub open spec fn first_loadable(candidates: Seq<FontCandidate>, i: int) -> bool {
    &&& 0 <= i < candidates.len()
    &&& loadable(candidates[i])
    &&& forall|j: int| 0 <= j < i ==> !loadable(#[trigger] candidates[j])
}

/// Candidate `i` is the first loadable one with its id.
pub open spec fn first_with_id(candidates: Seq<FontCandidate>, i: int) -> bool {
    &&& 0 <= i < candidates.len()
    &&& loadable(candidates[i])
    &&& forall|j: int|
        0 <= j < i && loadable(#[trigger] candidates[j]) ==> candidates[j].id@ != candidates[i].id@
}

/// The ids of catalog entries.
spec fn entry_ids(entries: Seq<(String, ParsedFont)>) -> Seq<Seq<char>> {
    entries.map_values(|e: (String, ParsedFont)| e.0@)
}

/// Fonts loaded at startup, addressed by id. The first loadable source is
/// the default.
pub struct FontCatalog {
    fonts: Vec<(String, ParsedFont)>,
    /// For each font, the candidate it was loaded from.
    sources: Ghost<Seq<int>>,
    default: String,
}

impl FontCatalog {
    /// The ids, in `str` order.
    pub closed spec fn ids_spec(&self) -> Seq<Seq<char>> {
        entry_ids(self.fonts@)
    }

    /// The default font's id.
    pub closed spec fn default_spec(&self) -> Seq<char> {
        self.default@
    }

    /// The candidate (by position in `load`'s argument) that font `k` came from.
    pub closed spec fn source_of(&self, k: int) -> int {
        self.sources@[k]
    }

    /// The font stored at position `k` (the position of its id in `ids_spec`).
    pub closed spec fn font_at(&self, k: int) -> FontVec {
        self.fonts@[k].1.font
    }

    /// The bytes that the font at position `k` was parsed from.
    pub closed spec fn bytes_at(&self, k: int) -> Seq<u8> {
        self.fonts@[k].1.bytes@
    }

    #[verifier::type_invariant]
    closed spec fn inv(&self) -> bool {
        &&& self.sources@.len() == self.fonts@.len()
        &&& strictly_sorted(self.ids_spec())
        &&& self.ids_spec().contains(self.default@)
    }

    /// Builds the catalog from candidates in order: every loadable one joins
    /// under its id, the first becomes the default, and a repeated id keeps
    /// its first font. Fails, naming every candidate tried, when none loads.
    pub fn load(candidates: Vec<FontCandidate>) -> (r: Result<Self, String>)
        ensures
            r is Err <==> forall|i: int|
                0 <= i < candidates@.len() ==> !loadable(#[trigger] candidates@[i]),
            r matches Err(message) ==> message@ == "no label font could be loaded (tried "@
                + joined(candidate_names(candidates@), ", "@) + ")"@,
            r matches Ok(catalog) ==> {
                &&& strictly_sorted(catalog.ids_spec())
                &&& forall|id: Seq<char>|
                    #[trigger] catalog.ids_spec().contains(id) <==> exists|i: int|
                        0 <= i < candidates@.len() && loadable(#[trigger] candidates@[i])
                            && candidates@[i].id@ == id
                &&& forall|k: int|
                    0 <= k < catalog.ids_spec().len() ==> first_with_id(
                        candidates@,
                        #[trigger] catalog.source_of(k),
                    ) && candidates@[catalog.source_of(k)].id@ == catalog.ids_spec()[k]
                        && catalog.bytes_at(k) == candidate_bytes(candidates@[catalog.source_of(k)])
                &&& exists|i: int|
                    first_loadable(candidates@, i) && catalog.default_spec()
                        == candidates@[i].id@
            },
    {
        let n = candidates.len();
        let ghost cs = candidates@;
        let mut fonts: Vec<(String, ParsedFont)> = Vec::new();
        let ghost mut sources: Seq<int> = Seq::empty();
        let mut default: Option<String> = None;
        let mut tried = String::new();
        let mut i: usize = 0;
        while i < n
            invariant
                n == cs.len(),
                cs == candidates@,
                i <= n,
                sources.len() == fonts@.len(),
                strictly_sorted(entry_ids(fonts@)),
                tried@ == joined(candidate_names(cs.take(i as int)), ", "@),
                forall|id: Seq<char>|
                    #[trigger] entry_ids(fonts@).contains(id) <==> exists|j: int|
                        0 <= j < i && loadable(#[trigger] cs[j]) && cs[j].id@ == id,
                forall|k: int|
                    0 <= k < fonts@.len() ==> {
                        &&& 0 <= #[trigger] sources[k] < i
                        &&& first_with_id(cs, sources[k])
                        &&& cs[sources[k]].id@ == fonts@[k].0@
                        &&& fonts@[k].1.bytes@ == candidate_bytes(cs[sources[k]])
                    },
                default is None <==> forall|j: int| 0 <= j < i ==> !loadable(#[trigger] cs[j]),
                default matches Some(d) ==> {
                    &&& exists|j: int| first_loadable(cs, j) && j < i && d@ == cs[j].id@
                    &&& entry_ids(fonts@).contains(d@)
                },
            decreases n - i,
        {
            let ghost ids = entry_ids(fonts@);
            let candidate = &candidates[i];
            proof {
                assert(cs.take(i + 1).drop_last() =~= cs.take(i as int));
                assert(candidate_names(cs.take(i + 1)) =~= candidate_names(cs.take(i as int)).push(
                    candidate.name@,
                ));
                assert(candidate_names(cs.take(i + 1)).drop_last() =~= candidate_names(
                    cs.take(i as int),
                ));
            }
            if i > 0 {
                tried.append(", ");
            }
            tried.append(candidate.name.as_str());
            proof {
                if i == 0 {
                    assert(candidate_names(cs.take(1)) =~= seq![candidate.name@]);
                }
            }
            let parsed = match &candidate.data {
                Some(data) => parse_font(data.clone()),
                None => None,
            };
            match parsed {
                None => {
                    assert(!loadable(cs[i as int]));
                    assert(entry_ids(fonts@) == ids);
                },
                Some(font) => {
                    assert(loadable(cs[i as int]));
                    // Find where the id belongs in the sorted ids.
                    let mut pos: usize = 0;
                    let mut duplicate = false;
                    let mut searching = true;
                    while searching && pos < fonts.len()
                        invariant
                            ids == entry_ids(fonts@),
                            pos <= fonts@.len(),
                            strictly_sorted(ids),
                            forall|k: int| 0 <= k < pos ==> chars_lt(#[trigger] ids[k], candidate.id@),
                            !searching ==> pos < fonts@.len(),
                            !searching && duplicate ==> ids[pos as int] == candidate.id@,
                            !searching && !duplicate ==> chars_lt(candidate.id@, ids[pos as int]),
                            searching ==> !duplicate,
                        decreases fonts@.len() - pos + if searching { 1int } else { 0int },
                    {
                        match compare_strs(fonts[pos].0.as_str(), candidate.id.as_str()) {
                            Order::Less => {
                                pos = pos + 1;
                            },
                            Order::Equal => {
                                duplicate = true;
                                searching = false;
                            },
                            Order::Greater => {
                                searching = false;
                            },
                        }
                    }
                    if duplicate {
                        proof {
                            assert(ids[pos as int] == candidate.id@);
                        }
                        assert(ids.contains(candidate.id@));
                        assert(entry_ids(fonts@) == ids);
                    } else {
                        proof {
                            assert(!ids.contains(candidate.id@)) by {
                                if ids.contains(candidate.id@) {
                                    let k = choose|k: int| 0 <= k < ids.len() && ids[k] == candidate.id@;
                                    if k < pos {
                                        lemma_not_lt_equal(ids[k], candidate.id@);
                                    } else if k == pos {
                                        lemma_not_lt_equal(candidate.id@, ids[k]);
                                    } else {
                                        lemma_chars_lt_transitive(candidate.id@, ids[pos as int], ids[k]);
                                        lemma_not_lt_equal(candidate.id@, ids[k]);
                                    }
                                }
                            }
                        }
                        let ghost old_fonts = fonts@;
                        let ghost old_sources = sources;
                        fonts.insert(pos, (candidate.id.clone(), font));
                        proof {
                            sources = sources.insert(pos as int, i as int);
                            let new_ids = entry_ids(fonts@);
                            assert(new_ids =~= ids.insert(pos as int, candidate.id@));
                            assert forall|x: Seq<char>| #[trigger] new_ids.contains(x) <==> (ids.contains(x)
                                || x == candidate.id@) by {
                                if new_ids.contains(x) {
                                    let k = choose|k: int| 0 <= k < new_ids.len() && new_ids[k] == x;
                                    if k < pos {
                                        assert(ids[k] == x);
                                    } else if k > pos {
                                        assert(ids[k - 1] == x);
                                    }
                                }
                                if ids.contains(x) {
                                    let k = choose|k: int| 0 <= k < ids.len() && ids[k] == x;
                                    if k < pos {
                                        assert(new_ids[k] == x);
                                    } else {
                                        assert(new_ids[k + 1] == x);
                                    }
                                }
                                if x == candidate.id@ {
                                    assert(new_ids[pos as int] == x);
                                }
                            }
                            assert forall|a: int, b: int| 0 <= a < b < new_ids.len() implies chars_lt(
                                #[trigger] new_ids[a],
                                #[trigger] new_ids[b],
                            ) by {
                                if b < pos {
                                    assert(chars_lt(ids[a], ids[b]));
                                } else if b == pos {
                                    assert(chars_lt(ids[a], candidate.id@));
                                } else if a < pos {
                                    assert(new_ids[b] == ids[b - 1]);
                                    assert(chars_lt(ids[a], candidate.id@));
                                    if b - 1 == pos {
                                    } else {
                                        lemma_chars_lt_transitive(candidate.id@, ids[pos as int], ids[b - 1]);
                                    }
                                    lemma_chars_lt_transitive(ids[a], candidate.id@, ids[b - 1]);
                                } else if a == pos {
                                    assert(new_ids[b] == ids[b - 1]);
                                    if b - 1 > pos {
                                        lemma_chars_lt_transitive(candidate.id@, ids[pos as int], ids[b - 1]);
                                    }
                                } else {
                                    assert(chars_lt(ids[a - 1], ids[b - 1]));
                                }
                            }
                            assert forall|k: int| 0 <= k < fonts@.len() implies {
                                &&& 0 <= #[trigger] sources[k] < i + 1
                                &&& first_with_id(cs, sources[k])
                                &&& cs[sources[k]].id@ == fonts@[k].0@
                                &&& fonts@[k].1.bytes@ == candidate_bytes(cs[sources[k]])
                            } by {
                                if k < pos {
                                    assert(fonts@[k] == old_fonts[k]);
                                    assert(sources[k] == old_sources[k]);
                                } else if k > pos {
                                    assert(fonts@[k] == old_fonts[k - 1]);
                                    assert(sources[k] == old_sources[k - 1]);
                                } else {
                                    assert forall|j: int|
                                        0 <= j < i && loadable(#[trigger] cs[j]) implies cs[j].id@
                                        != cs[i as int].id@ by {
                                        if cs[j].id@ == cs[i as int].id@ {
                                            assert(ids.contains(cs[j].id@));
                                        }
                                    }
                                }
                            }
                        }
                    }
                    if default.is_none() {
                        default = Some(candidate.id.clone());
                        assert(first_loadable(cs, i as int));
                    }
                },
            }
            proof {
                let new_ids = entry_ids(fonts@);
                assert forall|id: Seq<char>|
                    #[trigger] new_ids.contains(id) <==> exists|j: int|
                        0 <= j < i + 1 && loadable(#[trigger] cs[j]) && cs[j].id@ == id by {
                    assert(new_ids.contains(id) <==> (ids.contains(id) || (loadable(cs[i as int])
                        && id == cs[i as int].id@)));
                    if exists|j: int| 0 <= j < i + 1 && loadable(#[trigger] cs[j]) && cs[j].id@ == id {
                        let j = choose|j: int| 0 <= j < i + 1 && loadable(#[trigger] cs[j]) && cs[j].id@ == id;
                        if j < i {
                            assert(ids.contains(id));
                        }
                    }
                    if ids.contains(id) {
                        let j = choose|j: int| 0 <= j < i && loadable(#[trigger] cs[j]) && cs[j].id@ == id;
                        assert(0 <= j < i + 1 && loadable(cs[j]) && cs[j].id@ == id);
                    }
                }
            }
            i = i + 1;
        }
        assert(cs.take(n as int) =~= cs);
        match default {
            None => {
                let mut message = String::from_str("no label font could be loaded (tried ");
                message.append(tried.as_str());
                message.append(")");
                Err(message)
            },
            Some(default) => {
                let catalog = FontCatalog { fonts, sources: Ghost(sources), default };
                Ok(catalog)
            },
        }
    }
}

impl FontCatalog {
    /// The font ids, in `str` order.
    pub fn ids(&self) -> (r: Vec<&str>)
        ensures
            r@.map_values(|s: &str| s@) == self.ids_spec(),
    {
        let mut r: Vec<&str> = Vec::new();
        let mut k: usize = 0;
        while k < self.fonts.len()
            invariant
                k <= self.fonts@.len(),
                r@.map_values(|s: &str| s@) =~= self.ids_spec().take(k as int),
            decreases self.fonts@.len() - k,
        {
            r.push(self.fonts[k].0.as_str());
            k = k + 1;
            assert(self.ids_spec().take(k as int) =~= self.ids_spec().take(k - 1).push(
                self.fonts@[k - 1].0@,
            ));
        }
        assert(self.ids_spec().take(k as int) =~= self.ids_spec());
        r
    }

    /// The default font's id.
    pub fn default_id(&self) -> (r: &str)
        ensures
            r@ == self.default_spec(),
            self.ids_spec().contains(r@),
    {
        proof {
            use_type_invariant(self);
        }
        self.default.as_str()
    }

    /// The font for a job (`None` asks for the default), or the id that is
    /// not in the catalog. The default always resolves.
    pub fn resolve<'a>(&'a self, id: Option<&'a str>) -> (r: Result<&'a FontVec, &'a str>)
        ensures
            ({
                let key = match id {
                    Some(s) => s@,
                    None => self.default_spec(),
                };
                &&& r is Ok <==> self.ids_spec().contains(key)
                &&& r matches Ok(font) ==> exists|k: int|
                    0 <= k < self.ids_spec().len() && self.ids_spec()[k] == key && *font
                        == #[trigger] self.font_at(k)
                &&& r matches Err(missing) ==> missing@ == key
            }),
            id is None ==> r is Ok,
    {
        proof {
            use_type_invariant(self);
        }
        let key: &str = match id {
            Some(s) => s,
            None => self.default.as_str(),
        };
        let mut k: usize = 0;
        while k < self.fonts.len()
            invariant
                k <= self.fonts@.len(),
                strictly_sorted(self.ids_spec()),
                key@ == match id {
                    Some(s) => s@,
                    None => self.default_spec(),
                },
                forall|j: int| 0 <= j < k ==> #[trigger] self.fonts@[j].0@ != key@,
            decreases self.fonts@.len() - k,
        {
            match compare_strs(self.fonts[k].0.as_str(), key) {
                Order::Equal => {
                    assert(self.ids_spec()[k as int] == key@);
                    assert(self.font_at(k as int) == self.fonts@[k as int].1.font);
                    return Ok(&self.fonts[k].1.font);
                },
                _ => {
                    k = k + 1;
                },
            }
        }
        proof {
            if self.ids_spec().contains(key@) {
                let j = choose|j: int| 0 <= j < self.ids_spec().len() && self.ids_spec()[j] == key@;
                assert(self.fonts@[j].0@ == key@);
            }
        }
        Err(key)
    }
}

/// The message for a font id the catalog does not hold.
pub fn unknown_font(id: &str) -> (r: String)
    ensures
        r@ == "unknown font: "@ + id@,
{
    let mut r = String::from_str("unknown font: ");
    r.append(id);
    r
}

} // verus!
