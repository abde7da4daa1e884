//! The catalog parser: reads the token stream of a catalog file into a
//! `SceneDatabase`, or reports the first error.
//!
//! The grammar and its meaning are written down as spec functions over the
//! token stream (`spec_object`, `spec_header`, `spec_entries`, `spec_db`),
//! composed into `spec_parse_at`; the executable parser is proved to return
//! exactly what they say.
use vstd::prelude::*;
use vstd::assert_seqs_equal;
use vstd::string::StringSliceAdditionalSpecFns;
use crate::text::{
    all_digits, bytes_eq, copy_range, digits_value, spec_split, spec_trim, lemma_sep_pos_at,
    trim_range, parse_num, parse_num_u32, str_vec,
};
use crate::tokenizer::{
    ExpectedTokenError, ExpectedTokenView, PrintableToken, Token, TokenView, Tokenizer,
    lemma_scan_bounds, preview, spec_render, spec_scan, spec_tokens,
};

verus! {

// ===== the produced data model =====

pub struct SceneDatabase {
    pub base_dir: Vec<u8>,
    pub film: Vec<Scene>,
    pub def_search: Option<Vec<u8>>,
    /// May be empty, since the tags header is optional.
    pub tags: Vec<(Vec<u8>, Vec<u8>)>,
}

pub struct Scene {
    pub id: i32,
    pub file_name: Vec<u8>,
    pub name: Option<Vec<u8>>,
    pub directory: Vec<u8>,
    pub thumb_file_name: Option<Vec<u8>>,
    pub website: Option<Vec<u8>>,
    pub actors: Option<Vec<u8>>,
    pub cmd_parm: Option<Vec<u8>>,
    /// The trimmed tag set; holds each tag once.
    pub tags: Vec<Vec<u8>>,
    pub begin: Option<i32>,
    pub end: Option<i32>,
    pub year: Option<i32>,
    pub length: Option<i32>,
    pub num_girls: i32,
    pub num_boys: i32,
    pub score: i32,
    pub notes: Option<Vec<u8>>,
}

/// The mathematical shape of a `Scene`: byte strings as sequences, the tag
/// collection as a set.
pub struct SceneView {
    pub id: i32,
    pub file_name: Seq<u8>,
    pub name: Option<Seq<u8>>,
    pub directory: Seq<u8>,
    pub thumb_file_name: Option<Seq<u8>>,
    pub website: Option<Seq<u8>>,
    pub actors: Option<Seq<u8>>,
    pub cmd_parm: Option<Seq<u8>>,
    pub tags: Set<Seq<u8>>,
    pub begin: Option<i32>,
    pub end: Option<i32>,
    pub year: Option<i32>,
    pub length: Option<i32>,
    pub num_girls: i32,
    pub num_boys: i32,
    pub score: i32,
    pub notes: Option<Seq<u8>>,
}

pub struct DatabaseView {
    pub base_dir: Seq<u8>,
    pub film: Seq<SceneView>,
    pub def_search: Option<Seq<u8>>,
    pub tags: Seq<(Seq<u8>, Seq<u8>)>,
}

pub open spec fn ov(o: Option<Vec<u8>>) -> Option<Seq<u8>> {
    match o {
        Some(v) => Some(v@),
        None => None,
    }
}

pub open spec fn strs_view(ps: Seq<(Vec<u8>, Vec<u8>)>) -> Seq<(Seq<u8>, Seq<u8>)> {
    ps.map_values(|p: (Vec<u8>, Vec<u8>)| (p.0@, p.1@))
}

pub open spec fn nums_view(ps: Seq<(Vec<u8>, i32)>) -> Seq<(Seq<u8>, i32)> {
    ps.map_values(|p: (Vec<u8>, i32)| (p.0@, p.1))
}

pub open spec fn tag_seq_view(ts: Seq<Vec<u8>>) -> Seq<Seq<u8>> {
    ts.map_values(|t: Vec<u8>| t@)
}

impl View for Scene {
    type V = SceneView;

    open spec fn view(&self) -> SceneView {
        SceneView {
            id: self.id,
            file_name: self.file_name@,
            name: ov(self.name),
            directory: self.directory@,
            thumb_file_name: ov(self.thumb_file_name),
            website: ov(self.website),
            actors: ov(self.actors),
            cmd_parm: ov(self.cmd_parm),
            tags: tag_seq_view(self.tags@).to_set(),
            begin: self.begin,
            end: self.end,
            year: self.year,
            length: self.length,
            num_girls: self.num_girls,
            num_boys: self.num_boys,
            score: self.score,
            notes: ov(self.notes),
        }
    }
}

impl Scene {
    /// The tag list holds each tag once.
    pub open spec fn wf(&self) -> bool {
        forall|i: int, j: int|
            0 <= i < j < self.tags@.len() ==> #[trigger] self.tags@[i]@ != #[trigger] self.tags@[j]@
    }
}

impl View for SceneDatabase {
    type V = DatabaseView;

    open spec fn view(&self) -> DatabaseView {
        DatabaseView {
            base_dir: self.base_dir@,
            film: self.film@.map_values(|s: Scene| s@),
            def_search: ov(self.def_search),
            tags: strs_view(self.tags@),
        }
    }
}

impl SceneDatabase {
    pub open spec fn wf(&self) -> bool {
        forall|i: int| 0 <= i < self.film@.len() ==> (#[trigger] self.film@[i]).wf()
    }
}

// ===== errors =====

pub enum ParserError {
    UnexpectedEnd,
    ExpectedToken(ExpectedTokenError),
    ExpectedString,
    KeyNotFound(Vec<u8>),
    UnknownKey(Vec<u8>),
    UnknownFileFormat,
    NoBaseDir,
}

pub enum ParserErrorView {
    UnexpectedEnd,
    ExpectedToken(ExpectedTokenView),
    ExpectedString,
    KeyNotFound(Seq<u8>),
    UnknownKey(Seq<u8>),
    UnknownFileFormat,
    NoBaseDir,
}

impl View for ParserError {
    type V = ParserErrorView;

    open spec fn view(&self) -> ParserErrorView {
        match self {
            ParserError::UnexpectedEnd => ParserErrorView::UnexpectedEnd,
            ParserError::ExpectedToken(e) => ParserErrorView::ExpectedToken(e@),
            ParserError::ExpectedString => ParserErrorView::ExpectedString,
            ParserError::KeyNotFound(k) => ParserErrorView::KeyNotFound(k@),
            ParserError::UnknownKey(k) => ParserErrorView::UnknownKey(k@),
            ParserError::UnknownFileFormat => ParserErrorView::UnknownFileFormat,
            ParserError::NoBaseDir => ParserErrorView::NoBaseDir,
        }
    }
}

/// How an `ExpectedTokenError` is absorbed: one whose found side is the end
/// of the input counts as an unexpected end.
pub open spec fn from_expected(e: ExpectedTokenView) -> ParserErrorView {
    if e.found == TokenView::EOF {
        ParserErrorView::UnexpectedEnd
    } else {
        ParserErrorView::ExpectedToken(e)
    }
}

/// The error of a failed `eat`.
pub open spec fn eat_err(expected: TokenView, found: TokenView) -> ParserErrorView {
    from_expected(ExpectedTokenView { expected: preview(expected), found: preview(found) })
}

/// The error for a position that needed a string-like token, labelled with a
/// pseudo-token such as "<key>".
pub open spec fn expect_str_err(label: Seq<u8>, found: TokenView) -> ParserErrorView {
    ParserErrorView::ExpectedToken(
        ExpectedTokenView { expected: TokenView::STRING(label), found: preview(found) },
    )
}

// ===== the token stream, seen by the parser =====

/// The current token of a stream.
pub open spec fn cur(toks: Seq<TokenView>) -> TokenView {
    if toks.len() == 0 {
        TokenView::EOF
    } else {
        toks[0]
    }
}

/// The stream after the current token.
pub open spec fn adv(toks: Seq<TokenView>) -> Seq<TokenView> {
    if toks.len() == 0 {
        toks
    } else {
        toks.drop_first()
    }
}

// ===== key and format names =====

pub open spec fn k_type() -> Seq<u8> {
    ("type").spec_bytes()
}

pub open spec fn k_base_dir() -> Seq<u8> {
    ("baseDir").spec_bytes()
}

pub open spec fn k_def_search() -> Seq<u8> {
    ("defSearch").spec_bytes()
}

pub open spec fn k_tags() -> Seq<u8> {
    ("tags").spec_bytes()
}

pub open spec fn k_fmt3() -> Seq<u8> {
    ("pr0wser3").spec_bytes()
}

pub open spec fn k_fmt4() -> Seq<u8> {
    ("pr0wser4").spec_bytes()
}

pub open spec fn k_tags_object() -> Seq<u8> {
    ("tags object").spec_bytes()
}

pub open spec fn lab_key() -> Seq<u8> {
    ("<key>").spec_bytes()
}

pub open spec fn lab_value() -> Seq<u8> {
    ("<value>").spec_bytes()
}

pub open spec fn k_file_name() -> Seq<u8> {
    ("fileName").spec_bytes()
}

pub open spec fn k_name() -> Seq<u8> {
    ("name").spec_bytes()
}

pub open spec fn k_directory() -> Seq<u8> {
    ("directory").spec_bytes()
}

pub open spec fn k_thumb_file_name() -> Seq<u8> {
    ("thumbFileName").spec_bytes()
}

pub open spec fn k_web_site() -> Seq<u8> {
    ("webSite").spec_bytes()
}

pub open spec fn k_actors() -> Seq<u8> {
    ("actors").spec_bytes()
}

pub open spec fn k_cmd_parm() -> Seq<u8> {
    ("cmdParm").spec_bytes()
}

pub open spec fn k_notes() -> Seq<u8> {
    ("notes").spec_bytes()
}

pub open spec fn k_basic() -> Seq<u8> {
    ("basic").spec_bytes()
}

pub open spec fn k_year() -> Seq<u8> {
    ("year").spec_bytes()
}

pub open spec fn k_num_girls() -> Seq<u8> {
    ("numGirls").spec_bytes()
}

pub open spec fn k_num_boys() -> Seq<u8> {
    ("numBoys").spec_bytes()
}

pub open spec fn k_score() -> Seq<u8> {
    ("score").spec_bytes()
}

pub open spec fn k_begin() -> Seq<u8> {
    ("begin").spec_bytes()
}

pub open spec fn k_end() -> Seq<u8> {
    ("end").spec_bytes()
}

pub open spec fn k_length() -> Seq<u8> {
    ("length").spec_bytes()
}

// ===== the object grammar =====

/// The ordered pairs of one brace-delimited object: string-valued and
/// number-valued, each in source order.
pub struct ObjPairsView {
    pub strs: Seq<(Seq<u8>, Seq<u8>)>,
    pub nums: Seq<(Seq<u8>, i32)>,
}

/// Reads `key : value` pairs until the closing brace, which stays the
/// current token. `c` is the current token, `toks` the stream after it.
pub open spec fn spec_object(c: TokenView, toks: Seq<TokenView>) -> Result<
    (ObjPairsView, TokenView, Seq<TokenView>),
    ParserErrorView,
>
    decreases toks.len(),
{
    match c {
        TokenView::STRING(key) => {
            let c1 = cur(toks);
            let toks1 = adv(toks);
            if c1 == TokenView::LEXERR {
                Err(ParserErrorView::UnexpectedEnd)
            } else if c1 != TokenView::CHAR(0x3a) {
                Err(eat_err(TokenView::CHAR(0x3a), c1))
            } else {
                let c2 = cur(toks1);
                let toks2 = adv(toks1);
                if c2 == TokenView::LEXERR {
                    Err(ParserErrorView::UnexpectedEnd)
                } else {
                    match c2 {
                        TokenView::STRING(v) => {
                            let c3 = cur(toks2);
                            let toks3 = adv(toks2);
                            if c3 == TokenView::LEXERR {
                                Err(ParserErrorView::UnexpectedEnd)
                            } else {
                                match spec_object(c3, toks3) {
                                    Err(e) => Err(e),
                                    Ok((pairs, cf, toksf)) => Ok(
                                        (
                                            ObjPairsView {
                                                strs: seq![(key, v)] + pairs.strs,
                                                nums: pairs.nums,
                                            },
                                            cf,
                                            toksf,
                                        ),
                                    ),
                                }
                            }
                        },
                        TokenView::NUMBER(n) => {
                            let c3 = cur(toks2);
                            let toks3 = adv(toks2);
                            if c3 == TokenView::LEXERR {
                                Err(ParserErrorView::UnexpectedEnd)
                            } else {
                                match spec_object(c3, toks3) {
                                    Err(e) => Err(e),
                                    Ok((pairs, cf, toksf)) => Ok(
                                        (
                                            ObjPairsView {
                                                strs: pairs.strs,
                                                nums: seq![(key, n)] + pairs.nums,
                                            },
                                            cf,
                                            toksf,
                                        ),
                                    ),
                                }
                            }
                        },
                        _ => Err(expect_str_err(lab_value(), c2)),
                    }
                }
            }
        },
        TokenView::CHAR(ch) => {
            if ch == 0x7d {
                Ok((ObjPairsView { strs: Seq::empty(), nums: Seq::empty() }, c, toks))
            } else {
                Err(expect_str_err(lab_key(), c))
            }
        },
        _ => Err(expect_str_err(lab_key(), c)),
    }
}

/// A parsed object never lengthens the stream, and ends on the closing
/// brace.
pub proof fn lemma_object_monotone(c: TokenView, toks: Seq<TokenView>)
    ensures
        spec_object(c, toks) matches Ok((p, cf, toksf)) ==> toksf.len() <= toks.len() && cf
            == TokenView::CHAR(0x7d),
    decreases toks.len(),
{
    match c {
        TokenView::STRING(key) => {
            let c1 = cur(toks);
            let toks1 = adv(toks);
            if c1 == TokenView::CHAR(0x3a) {
                let c2 = cur(toks1);
                let toks2 = adv(toks1);
                match c2 {
                    TokenView::STRING(v) => {
                        lemma_object_monotone(cur(toks2), adv(toks2));
                    },
                    TokenView::NUMBER(n) => {
                        lemma_object_monotone(cur(toks2), adv(toks2));
                    },
                    _ => {},
                }
            }
        },
        _ => {},
    }
}

// ===== field semantics =====

/// The value of a key among the string pairs; the last occurrence wins.
pub open spec fn lookup_str(ps: Seq<(Seq<u8>, Seq<u8>)>, k: Seq<u8>) -> Option<Seq<u8>>
    decreases ps.len(),
{
    if ps.len() == 0 {
        None
    } else if ps.last().0 == k {
        Some(ps.last().1)
    } else {
        lookup_str(ps.drop_last(), k)
    }
}

/// The value of a key among the number pairs; the last occurrence wins.
pub open spec fn lookup_num(ps: Seq<(Seq<u8>, i32)>, k: Seq<u8>) -> Option<i32>
    decreases ps.len(),
{
    if ps.len() == 0 {
        None
    } else if ps.last().0 == k {
        Some(ps.last().1)
    } else {
        lookup_num(ps.drop_last(), k)
    }
}

/// The value of one duration component: an optional sign followed by a
/// digit run, read as an `i32`; `None` when it is not such a numeral or
/// leaves the `i32` range.
pub open spec fn piece_value(p: Seq<u8>) -> Option<int> {
    if p.len() > 0 && (p[0] == 0x2d || p[0] == 0x2b) {
        let d = p.drop_first();
        if d.len() == 0 || !all_digits(d) {
            None
        } else if p[0] == 0x2d && digits_value(d) <= 0x80000000 {
            Some(-digits_value(d))
        } else if p[0] == 0x2b && digits_value(d) <= i32::MAX as int {
            Some(digits_value(d))
        } else {
            None
        }
    } else if p.len() > 0 && all_digits(p) && digits_value(p) <= i32::MAX as int {
        Some(digits_value(p))
    } else {
        None
    }
}

/// Folds colon-separated duration components left to right as
/// `acc * 60 + component`. `None` when a component is no `i32` numeral, or
/// a step of the fold leaves the `i32` range.
pub open spec fn fold_time(pieces: Seq<Seq<u8>>, acc: int) -> Option<int>
    decreases pieces.len(),
{
    if pieces.len() == 0 {
        Some(acc)
    } else {
        match piece_value(pieces[0]) {
            None => None,
            Some(v) => {
                if acc * 60 > i32::MAX as int || acc * 60 < i32::MIN as int {
                    None
                } else if acc * 60 + v > i32::MAX as int || acc * 60 + v < i32::MIN as int {
                    None
                } else {
                    fold_time(pieces.drop_first(), acc * 60 + v)
                }
            },
        }
    }
}

/// A duration field: a plain number as it stands; a string read as
/// colon-separated components; absence is no value. A string that is not a
/// well-formed duration is rejected.
pub open spec fn spec_time(
    strs: Seq<(Seq<u8>, Seq<u8>)>,
    nums: Seq<(Seq<u8>, i32)>,
    k: Seq<u8>,
) -> Result<Option<i32>, ParserErrorView> {
    match lookup_num(nums, k) {
        Some(n) => Ok(Some(n)),
        None => match lookup_str(strs, k) {
            None => Ok(None),
            Some(s) => match fold_time(spec_split(s, 0x3a), 0) {
                Some(v) => Ok(Some(v as i32)),
                None => Err(ParserErrorView::ExpectedString),
            },
        },
    }
}

/// Each piece trimmed.
pub open spec fn trim_all(ps: Seq<Seq<u8>>) -> Seq<Seq<u8>> {
    ps.map_values(|p: Seq<u8>| spec_trim(p))
}

/// The tag set of a tags field value: split on commas, trim each piece,
/// collect into a set.
pub open spec fn spec_tag_set(s: Seq<u8>) -> Set<Seq<u8>> {
    trim_all(spec_split(s, 0x2c)).to_set()
}

/// Builds one scene from the pairs of its object. The `basic` shortcut, when
/// present, sets `year` to its value and both counts to 1, overriding
/// explicit fields of those three names.
pub open spec fn spec_scene_fields(o: ObjPairsView) -> Result<SceneView, ParserErrorView> {
    match lookup_str(o.strs, k_tags()) {
        None => Err(ParserErrorView::KeyNotFound(k_tags())),
        Some(ts) => match lookup_str(o.strs, k_file_name()) {
            None => Err(ParserErrorView::KeyNotFound(k_file_name())),
            Some(fname) => match lookup_str(o.strs, k_directory()) {
                None => Err(ParserErrorView::KeyNotFound(k_directory())),
                Some(dir) => match spec_time(o.strs, o.nums, k_begin()) {
                    Err(e) => Err(e),
                    Ok(beg) => match spec_time(o.strs, o.nums, k_end()) {
                        Err(e) => Err(e),
                        Ok(endv) => match spec_time(o.strs, o.nums, k_length()) {
                            Err(e) => Err(e),
                            Ok(lenv) => {
                                let basic = lookup_num(o.nums, k_basic());
                                let girls = if basic is Some {
                                    Some(1i32)
                                } else {
                                    lookup_num(o.nums, k_num_girls())
                                };
                                let boys = if basic is Some {
                                    Some(1i32)
                                } else {
                                    lookup_num(o.nums, k_num_boys())
                                };
                                let year = if basic is Some {
                                    basic
                                } else {
                                    lookup_num(o.nums, k_year())
                                };
                                match girls {
                                    None => Err(ParserErrorView::KeyNotFound(k_num_girls())),
                                    Some(g) => match boys {
                                        None => Err(ParserErrorView::KeyNotFound(k_num_boys())),
                                        Some(b) => Ok(
                                            SceneView {
                                                id: -1i32,
                                                file_name: fname,
                                                name: lookup_str(o.strs, k_name()),
                                                directory: dir,
                                                thumb_file_name: lookup_str(
                                                    o.strs,
                                                    k_thumb_file_name(),
                                                ),
                                                website: lookup_str(o.strs, k_web_site()),
                                                actors: lookup_str(o.strs, k_actors()),
                                                cmd_parm: lookup_str(o.strs, k_cmd_parm()),
                                                tags: spec_tag_set(ts),
                                                begin: beg,
                                                end: endv,
                                                year,
                                                length: lenv,
                                                num_girls: g,
                                                num_boys: b,
                                                score: match lookup_num(o.nums, k_score()) {
                                                    Some(sc) => sc,
                                                    None => 0,
                                                },
                                                notes: lookup_str(o.strs, k_notes()),
                                            },
                                        ),
                                    },
                                }
                            },
                        },
                    },
                },
            },
        },
    }
}

/// One entry: its object, then the field semantics. The closing brace stays
/// the current token.
pub open spec fn spec_scene(c: TokenView, toks: Seq<TokenView>) -> Result<
    (SceneView, TokenView, Seq<TokenView>),
    ParserErrorView,
> {
    match spec_object(c, toks) {
        Err(e) => Err(e),
        Ok((pairs, cf, toksf)) => match spec_scene_fields(pairs) {
            Err(e) => Err(e),
            Ok(sv) => Ok((sv, cf, toksf)),
        },
    }
}

// ===== the header grammar =====

/// What the header has gathered so far.
pub struct HeaderView {
    pub known: bool,
    pub base: Seq<u8>,
    pub defs: Option<Seq<u8>>,
    pub tags: Seq<(Seq<u8>, Seq<u8>)>,
}

/// Reads `key : value` header lines while the current token is a string.
/// The `tags` key takes a brace-delimited object; every value that is such
/// an object is recorded as the tag dictionary, and stands in for the
/// literal value "tags object" in the key dispatch.
pub open spec fn spec_header(c: TokenView, toks: Seq<TokenView>, h: HeaderView) -> Result<
    (HeaderView, TokenView, Seq<TokenView>),
    ParserErrorView,
>
    decreases toks.len(),
{
    match c {
        TokenView::STRING(key) => {
            let c1 = cur(toks);
            let toks1 = adv(toks);
            if c1 == TokenView::LEXERR {
                Err(ParserErrorView::UnexpectedEnd)
            } else if c1 != TokenView::CHAR(0x3a) {
                Err(eat_err(TokenView::CHAR(0x3a), c1))
            } else {
                let c2 = cur(toks1);
                let toks2 = adv(toks1);
                if c2 == TokenView::LEXERR {
                    Err(ParserErrorView::UnexpectedEnd)
                } else {
                    match c2 {
                        TokenView::STRING(v) => {
                            let c3 = cur(toks2);
                            let toks3 = adv(toks2);
                            if c3 == TokenView::LEXERR {
                                Err(ParserErrorView::UnexpectedEnd)
                            } else {
                                match header_update(h, key, v, h.tags) {
                                    Err(e) => Err(e),
                                    Ok(h2) => spec_header(c3, toks3, h2),
                                }
                            }
                        },
                        TokenView::CHAR(ch) => {
                            if ch != 0x7b {
                                Err(ParserErrorView::ExpectedString)
                            } else {
                                let cb = cur(toks2);
                                let toksb = adv(toks2);
                                if cb == TokenView::LEXERR {
                                    Err(ParserErrorView::UnexpectedEnd)
                                } else {
                                    match spec_object(cb, toksb) {
                                        Err(e) => Err(e),
                                        Ok((pairs, cc, toksc)) => {
                                            let c3 = cur(toksc);
                                            let toks3 = adv(toksc);
                                            if c3 == TokenView::LEXERR {
                                                Err(ParserErrorView::UnexpectedEnd)
                                            } else {
                                                proof {
                                                    lemma_object_monotone(cb, toksb);
                                                }
                                                match header_update(
                                                    h,
                                                    key,
                                                    k_tags_object(),
                                                    pairs.strs,
                                                ) {
                                                    Err(e) => Err(e),
                                                    Ok(h2) => spec_header(c3, toks3, h2),
                                                }
                                            }
                                        },
                                    }
                                }
                            }
                        },
                        _ => Err(ParserErrorView::ExpectedString),
                    }
                }
            }
        },
        _ => Ok((h, c, toks)),
    }
}

/// The key dispatch of one header line.
pub open spec fn header_update(
    h: HeaderView,
    key: Seq<u8>,
    v: Seq<u8>,
    newtags: Seq<(Seq<u8>, Seq<u8>)>,
) -> Result<HeaderView, ParserErrorView> {
    if key == k_type() {
        if v != k_fmt3() && v != k_fmt4() {
            Err(ParserErrorView::UnknownFileFormat)
        } else {
            Ok(HeaderView { known: true, base: h.base, defs: h.defs, tags: newtags })
        }
    } else if key == k_base_dir() {
        Ok(HeaderView { known: h.known, base: v, defs: h.defs, tags: newtags })
    } else if key == k_def_search() {
        Ok(HeaderView { known: h.known, base: h.base, defs: Some(v), tags: newtags })
    } else if key == k_tags() {
        Ok(HeaderView { known: h.known, base: h.base, defs: h.defs, tags: newtags })
    } else {
        Err(ParserErrorView::UnknownKey(key))
    }
}

// ===== the entry list =====

/// Zero or more `{ <object> }` blocks until the end of the input. Scenes
/// come out with the sentinel id.
pub open spec fn spec_entries(c: TokenView, toks: Seq<TokenView>) -> Result<
    Seq<SceneView>,
    ParserErrorView,
>
    decreases toks.len(),
{
    if c == TokenView::EOF {
        Ok(Seq::empty())
    } else if c != TokenView::CHAR(0x7b) {
        Err(eat_err(TokenView::CHAR(0x7b), c))
    } else {
        let c1 = cur(toks);
        let toks1 = adv(toks);
        if c1 == TokenView::LEXERR {
            Err(ParserErrorView::UnexpectedEnd)
        } else {
            match spec_scene(c1, toks1) {
                Err(e) => Err(e),
                Ok((sv, c2, toks2)) => {
                    if c2 != TokenView::CHAR(0x7d) {
                        Err(eat_err(TokenView::CHAR(0x7d), c2))
                    } else {
                        let c3 = cur(toks2);
                        let toks3 = adv(toks2);
                        if c3 == TokenView::LEXERR {
                            Err(ParserErrorView::UnexpectedEnd)
                        } else {
                            proof {
                                lemma_object_monotone(c1, toks1);
                            }
                            match spec_entries(c3, toks3) {
                                Err(e) => Err(e),
                                Ok(rest) => Ok(seq![sv] + rest),
                            }
                        }
                    }
                },
            }
        }
    }
}

/// Ids assigned after the whole list is read: the last entry gets 1, the
/// first gets the count.
pub open spec fn with_ids(films: Seq<SceneView>) -> Seq<SceneView> {
    Seq::new(
        films.len(),
        |i: int|
            SceneView {
                id: (films.len() - i) as i32,
                file_name: films[i].file_name,
                name: films[i].name,
                directory: films[i].directory,
                thumb_file_name: films[i].thumb_file_name,
                website: films[i].website,
                actors: films[i].actors,
                cmd_parm: films[i].cmd_parm,
                tags: films[i].tags,
                begin: films[i].begin,
                end: films[i].end,
                year: films[i].year,
                length: films[i].length,
                num_girls: films[i].num_girls,
                num_boys: films[i].num_boys,
                score: films[i].score,
                notes: films[i].notes,
            },
    )
}

/// The whole database: header, the mandatory checks, the entries, the id
/// pass. An entry count beyond the id range is a terminal condition.
pub open spec fn spec_db(c: TokenView, toks: Seq<TokenView>) -> Result<
    DatabaseView,
    ParserErrorView,
> {
    match spec_header(c, toks, HeaderView { known: false, base: Seq::empty(), defs: None, tags: Seq::empty() }) {
        Err(e) => Err(e),
        Ok((h, c1, toks1)) => {
            if !h.known {
                Err(ParserErrorView::UnknownFileFormat)
            } else if h.base.len() == 0 {
                Err(ParserErrorView::NoBaseDir)
            } else {
                match spec_entries(c1, toks1) {
                    Err(e) => Err(e),
                    Ok(films) => {
                        if films.len() > i32::MAX as int {
                            Err(ParserErrorView::UnexpectedEnd)
                        } else {
                            Ok(
                                DatabaseView {
                                    base_dir: h.base,
                                    film: with_ids(films),
                                    def_search: h.defs,
                                    tags: h.tags,
                                },
                            )
                        }
                    },
                }
            }
        },
    }
}

/// What parsing the bytes from `pos` on returns: the token stream is formed,
/// the first token read, and the grammar applied.
pub open spec fn spec_parse_at(input: Seq<u8>, pos: nat) -> Result<DatabaseView, ParserErrorView> {
    let toks = spec_tokens(input, pos);
    if cur(toks) == TokenView::LEXERR {
        Err(ParserErrorView::UnexpectedEnd)
    } else {
        spec_db(cur(toks), adv(toks))
    }
}

// ===== bridging the stream to the scanner =====

/// One advance of the tokenizer, seen on the stream: the head of
/// `spec_tokens` is what the scan yields, and for a real token the rest of
/// the stream is the stream after it.
pub proof fn lemma_stream_step(input: Seq<u8>, pos: nat)
    ensures
        match spec_scan(input, pos) {
            None => cur(spec_tokens(input, pos)) == TokenView::LEXERR,
            Some((tok, p)) => cur(spec_tokens(input, pos)) == tok && tok != TokenView::LEXERR && (
            tok != TokenView::EOF ==> adv(spec_tokens(input, pos)) == spec_tokens(input, p)),
        },
{
    lemma_scan_bounds(input, pos);
    match spec_scan(input, pos) {
        None => {},
        Some((tok, p)) => {
            if tok != TokenView::EOF {
                assert(spec_tokens(input, pos) == seq![tok] + spec_tokens(input, p));
                assert((seq![tok] + spec_tokens(input, p)).drop_first() =~= spec_tokens(input, p));
            }
        },
    }
}

// ===== executable helpers =====

fn vec_copy(v: &Vec<u8>) -> (r: Vec<u8>)
    ensures
        r@ == v@,
{
    let r = copy_range(v.as_slice(), 0, v.len());
    proof {
        assert(r@ =~= v@);
    }
    r
}

/// The last value stored under `k` among the string pairs.
fn lookup_str_pairs(ps: &Vec<(Vec<u8>, Vec<u8>)>, k: &[u8]) -> (r: Option<Vec<u8>>)
    ensures
        ov(r) == lookup_str(strs_view(ps@), k@),
{
    let mut best: Option<Vec<u8>> = None;
    let mut j: usize = 0;
    while j < ps.len()
        invariant
            0 <= j <= ps@.len(),
            ov(best) == lookup_str(strs_view(ps@.take(j as int)), k@),
        decreases ps@.len() - j,
    {
        proof {
            assert(strs_view(ps@.take(j + 1)).drop_last() =~= strs_view(ps@.take(j as int)));
            assert(strs_view(ps@.take(j + 1)).last() == (ps@[j as int].0@, ps@[j as int].1@));
        }
        if bytes_eq(ps[j].0.as_slice(), k) {
            best = Some(vec_copy(&ps[j].1));
        }
        j = j + 1;
    }
    proof {
        assert(ps@.take(ps@.len() as int) =~= ps@);
    }
    best
}

/// The last value stored under `k` among the number pairs.
fn lookup_num_pairs(ps: &Vec<(Vec<u8>, i32)>, k: &[u8]) -> (r: Option<i32>)
    ensures
        r == lookup_num(nums_view(ps@), k@),
{
    let mut best: Option<i32> = None;
    let mut j: usize = 0;
    while j < ps.len()
        invariant
            0 <= j <= ps@.len(),
            best == lookup_num(nums_view(ps@.take(j as int)), k@),
        decreases ps@.len() - j,
    {
        proof {
            assert(nums_view(ps@.take(j + 1)).drop_last() =~= nums_view(ps@.take(j as int)));
            assert(nums_view(ps@.take(j + 1)).last() == (ps@[j as int].0@, ps@[j as int].1));
        }
        if bytes_eq(ps[j].0.as_slice(), k) {
            best = Some(ps[j].1);
        }
        j = j + 1;
    }
    proof {
        assert(ps@.take(ps@.len() as int) =~= ps@);
    }
    best
}

/// The value of one duration component, exactly as `piece_value` says.
fn parse_piece(piece: &Vec<u8>) -> (r: Option<i32>)
    ensures
        match piece_value(piece@) {
            Some(v) => r matches Some(x) && x as int == v,
            None => r is None,
        },
{
    if piece.len() > 0 && (piece[0] == 0x2d || piece[0] == 0x2b) {
        let neg = piece[0] == 0x2d;
        let d = copy_range(piece.as_slice(), 1, piece.len());
        proof {
            assert(d@ =~= piece@.drop_first());
        }
        match parse_num_u32(d.as_slice()) {
            None => None,
            Some(m) => {
                if neg {
                    if m <= 0x80000000 {
                        let v: i32 = (-(m as i64)) as i32;
                        proof {
                            assert(v as int == -(m as int));
                        }
                        Some(v)
                    } else {
                        None
                    }
                } else {
                    if m <= 0x7fffffff {
                        Some(m as i32)
                    } else {
                        None
                    }
                }
            },
        }
    } else {
        parse_num(piece.as_slice())
    }
}

/// Folds the colon-separated components of `s[from..]`, continuing from
/// `acc`, exactly as `fold_time` does on the split.
fn fold_time_exec(s: &Vec<u8>, from: usize, acc: i32) -> (r: Option<i32>)
    requires
        from <= s@.len(),
    ensures
        match fold_time(spec_split(s@.skip(from as int), 0x3a), acc as int) {
            Some(v) => r matches Some(x) && x as int == v,
            None => r is None,
        },
    decreases s@.len() - from,
{
    let ghost rest = s@.skip(from as int);
    let mut i: usize = from;
    while i < s.len() && s[i] != 0x3a
        invariant
            from <= i <= s@.len(),
            forall|j: int| from <= j < i ==> s@[j] != 0x3a,
        decreases s@.len() - i,
    {
        i = i + 1;
    }
    proof {
        assert forall|j: int| 0 <= j < i - from implies rest[j] != 0x3a by {
            assert(rest[j] == s@[from + j]);
        }
        if i < s@.len() {
            assert(rest[i - from] == s@[i as int]);
        }
        lemma_sep_pos_at(rest, 0x3a, i - from);
        if i >= s@.len() {
            assert(rest.take(i - from) =~= rest);
            assert(spec_split(rest, 0x3a) == seq![rest]);
        } else {
            assert(spec_split(rest, 0x3a)[0] == rest.take(i - from));
        }
    }
    let piece = copy_range(s.as_slice(), from, i);
    proof {
        assert(piece@ =~= rest.take(i - from));
    }
    let v = match parse_piece(&piece) {
        Some(v) => v,
        None => {
            return None;
        },
    };
    // each step of the fold must stay within the i32 range, as the widened
    // arithmetic shows
    let wide: i64 = (acc as i64) * 60;
    if wide > i32::MAX as i64 || wide < i32::MIN as i64 {
        return None;
    }
    let tot: i64 = wide + (v as i64);
    if tot > i32::MAX as i64 || tot < i32::MIN as i64 {
        return None;
    }
    let acc2: i32 = tot as i32;
    let ghost pieces = spec_split(rest, 0x3a);
    if i >= s.len() {
        proof {
            assert(pieces.len() == 1 && pieces[0] == rest);
            assert(piece@ == rest);
            assert(pieces.drop_first() =~= Seq::<Seq<u8>>::empty());
            assert(fold_time(Seq::<Seq<u8>>::empty(), acc2 as int) == Some(acc2 as int));
            assert(fold_time(pieces, acc as int) == Some(acc2 as int));
        }
        Some(acc2)
    } else {
        let r = fold_time_exec(s, i + 1, acc2);
        proof {
            assert(pieces == seq![rest.take(i - from)] + spec_split(
                rest.skip(i - from + 1),
                0x3a,
            ));
            assert(pieces.len() >= 1 && pieces[0] == piece@);
            assert(rest.skip(i - from + 1) =~= s@.skip(i + 1));
            assert(pieces.drop_first() =~= spec_split(s@.skip(i + 1), 0x3a));
            assert(fold_time(pieces, acc as int) == fold_time(
                spec_split(s@.skip(i + 1), 0x3a),
                acc2 as int,
            ));
        }
        r
    }
}

/// A duration field out of the two pair lists, exactly as `spec_time` says.
fn get_time(
    strs: &Vec<(Vec<u8>, Vec<u8>)>,
    nums: &Vec<(Vec<u8>, i32)>,
    k: &str,
) -> (r: Result<Option<i32>, ParserError>)
    ensures
        match spec_time(strs_view(strs@), nums_view(nums@), k.spec_bytes()) {
            Ok(v) => r matches Ok(x) && x == v,
            Err(e) => r matches Err(pe) && pe@ == e,
        },
{
    // a plain number is taken as it stands
    match lookup_num_pairs(nums, k.as_bytes()) {
        Some(n) => Ok(Some(n)),
        None => match lookup_str_pairs(strs, k.as_bytes()) {
            None => Ok(None),
            Some(s) => {
                proof {
                    assert(s@.skip(0) =~= s@);
                }
                match fold_time_exec(&s, 0, 0) {
                    Some(v) => Ok(Some(v)),
                    None => Err(ParserError::ExpectedString),
                }
            },
        },
    }
}

/// Splits `s[from..]` on commas and trims each piece, in order.
fn split_trim_all(s: &Vec<u8>, from: usize) -> (r: Vec<Vec<u8>>)
    requires
        from <= s@.len(),
    ensures
        tag_seq_view(r@) == trim_all(spec_split(s@.skip(from as int), 0x2c)),
    decreases s@.len() - from,
{
    let ghost rest = s@.skip(from as int);
    let ghost target = trim_all(spec_split(rest, 0x2c));
    let mut i: usize = from;
    while i < s.len() && s[i] != 0x2c
        invariant
            from <= i <= s@.len(),
            forall|j: int| from <= j < i ==> s@[j] != 0x2c,
        decreases s@.len() - i,
    {
        i = i + 1;
    }
    proof {
        assert forall|j: int| 0 <= j < i - from implies rest[j] != 0x2c by {
            assert(rest[j] == s@[from + j]);
        }
        if i < s@.len() {
            assert(rest[i - from] == s@[i as int]);
        }
        lemma_sep_pos_at(rest, 0x2c, i - from);
    }
    let piece = trim_range(s.as_slice(), from, i);
    proof {
        assert(rest.take(i - from) =~= s@.subrange(from as int, i as int));
    }
    if i >= s.len() {
        let mut r: Vec<Vec<u8>> = Vec::new();
        r.push(piece);
        proof {
            assert(rest.take(i - from) =~= rest);
            assert(spec_split(rest, 0x2c) == seq![rest]);
            assert(tag_seq_view(r@) =~= target);
        }
        r
    } else {
        let mut rec = split_trim_all(s, i + 1);
        let ghost pre = rec@;
        rec.insert(0, piece);
        proof {
            let split_rest = spec_split(rest.skip(i - from + 1), 0x2c);
            assert(spec_split(rest, 0x2c) == seq![rest.take(i - from)] + split_rest);
            assert(rest.skip(i - from + 1) =~= s@.skip(i + 1));
            assert(target.len() == 1 + split_rest.len());
            assert(rec@.len() == 1 + pre.len());
            assert(split_rest == spec_split(s@.skip(i + 1), 0x2c));
            assert(tag_seq_view(pre) == trim_all(split_rest));
            assert(tag_seq_view(pre).len() == pre.len());
            assert(trim_all(split_rest).len() == split_rest.len());
            assert(split_rest.len() == pre.len());
            assert(tag_seq_view(rec@).len() == rec@.len());
            assert_seqs_equal!(tag_seq_view(rec@) == target, k => {
                if k == 0 {
                    assert(rec@[0] == piece);
                    assert(spec_split(rest, 0x2c)[0] == rest.take(i - from));
                    assert(target[0] == spec_trim(rest.take(i - from)));
                } else {
                    assert(rec@[k] == pre[k - 1]);
                    assert(tag_seq_view(pre)[k - 1] == pre[k - 1]@);
                    assert((seq![rest.take(i - from)] + split_rest)[k] == split_rest[k - 1]);
                    assert(spec_split(rest, 0x2c)[k] == split_rest[k - 1]);
                    assert(target[k] == spec_trim(spec_split(rest, 0x2c)[k]));
                    assert(target[k] == spec_trim(split_rest[k - 1]));
                    assert(tag_seq_view(pre)[k - 1] == trim_all(split_rest)[k - 1]);
                }
            });
        }
        rec
    }
}

/// Whether the list already holds a tag with these bytes.
fn tags_contain(v: &Vec<Vec<u8>>, x: &Vec<u8>) -> (b: bool)
    ensures
        b == tag_seq_view(v@).contains(x@),
{
    let mut i: usize = 0;
    while i < v.len()
        invariant
            0 <= i <= v@.len(),
            forall|j: int| 0 <= j < i ==> #[trigger] v@[j]@ != x@,
        decreases v@.len() - i,
    {
        if bytes_eq(v[i].as_slice(), x.as_slice()) {
            proof {
                assert(tag_seq_view(v@)[i as int] == x@);
            }
            return true;
        }
        i = i + 1;
    }
    proof {
        assert forall|k: int| 0 <= k < tag_seq_view(v@).len() implies tag_seq_view(v@)[k]
            != x@ by {
            assert(v@[k]@ != x@);
        }
    }
    false
}

/// Collapses a piece list into a duplicate-free tag list with the same set.
fn dedupe_tags(pieces: &Vec<Vec<u8>>) -> (r: Vec<Vec<u8>>)
    ensures
        tag_seq_view(r@).to_set() == tag_seq_view(pieces@).to_set(),
        forall|i: int, j: int|
            0 <= i < j < r@.len() ==> #[trigger] r@[i]@ != #[trigger] r@[j]@,
{
    let mut out: Vec<Vec<u8>> = Vec::new();
    let mut i: usize = 0;
    while i < pieces.len()
        invariant
            0 <= i <= pieces@.len(),
            tag_seq_view(out@).to_set() == tag_seq_view(pieces@.take(i as int)).to_set(),
            forall|a: int, b: int|
                0 <= a < b < out@.len() ==> #[trigger] out@[a]@ != #[trigger] out@[b]@,
        decreases pieces@.len() - i,
    {
        let ghost old_out = out@;
        if !tags_contain(&out, &pieces[i]) {
            out.push(vec_copy(&pieces[i]));
            proof {
                assert forall|a: int, b: int|
                    0 <= a < b < out@.len() implies #[trigger] out@[a]@ != #[trigger] out@[b]@ by {
                    if b == out@.len() - 1 {
                        assert(out@[a] == old_out[a]);
                        assert(tag_seq_view(old_out)[a] == old_out[a]@);
                    }
                }
            }
        }
        proof {
            let pv = tag_seq_view(pieces@.take(i + 1));
            let pv0 = tag_seq_view(pieces@.take(i as int));
            let x = pieces@[i as int]@;
            assert(pv =~= pv0 + seq![x]);
            assert forall|y: Seq<u8>| pv.contains(y) implies (pv0.contains(y) || y == x) by {
                let k = choose|k: int| 0 <= k < pv.len() && pv[k] == y;
                if k < pv0.len() {
                    assert(pv0[k] == y);
                }
            }
            assert forall|y: Seq<u8>| pv0.contains(y) implies pv.contains(y) by {
                let k = choose|k: int| 0 <= k < pv0.len() && pv0[k] == y;
                assert(pv[k] == y);
            }
            assert(pv.contains(x)) by {
                assert(pv[pv.len() - 1] == x);
            }
            let ov2 = tag_seq_view(out@);
            assert forall|y: Seq<u8>| ov2.contains(y) implies pv.contains(y) by {
                let k = choose|k: int| 0 <= k < ov2.len() && ov2[k] == y;
                if k < old_out.len() {
                    assert(tag_seq_view(old_out)[k] == y);
                    assert(tag_seq_view(old_out).to_set().contains(y));
                } else {
                    assert(y == x);
                }
            }
            assert forall|y: Seq<u8>| pv.contains(y) implies ov2.contains(y) by {
                if pv0.contains(y) {
                    assert(tag_seq_view(old_out).to_set().contains(y));
                    let k = choose|k: int|
                        0 <= k < tag_seq_view(old_out).len() && tag_seq_view(old_out)[k] == y;
                    assert(ov2[k] == y);
                } else {
                    assert(y == x);
                    if tag_seq_view(old_out).contains(x) {
                        let k = choose|k: int|
                            0 <= k < tag_seq_view(old_out).len() && tag_seq_view(old_out)[k] == x;
                        assert(ov2[k] == x);
                    } else {
                        assert(ov2[ov2.len() - 1] == x);
                    }
                }
            }
            assert(tag_seq_view(out@).to_set() =~= tag_seq_view(pieces@.take(i + 1)).to_set());
        }
        i = i + 1;
    }
    proof {
        assert(pieces@.take(pieces@.len() as int) =~= pieces@);
    }
    out
}

/// The tag list of a tags field value: split, trim, dedupe.
fn build_tags(s: &Vec<u8>) -> (r: Vec<Vec<u8>>)
    ensures
        tag_seq_view(r@).to_set() == spec_tag_set(s@),
        forall|i: int, j: int|
            0 <= i < j < r@.len() ==> #[trigger] r@[i]@ != #[trigger] r@[j]@,
{
    proof {
        assert(s@.skip(0) =~= s@);
    }
    let pieces = split_trim_all(s, 0);
    dedupe_tags(&pieces)
}

/// Shortcut for a `ParserError::ExpectedToken` when a string-like token was
/// needed; `s` labels the position, such as "<key>".
fn expected_string_error(s: &str, t: &Token) -> (r: ParserError)
    ensures
        r@ == expect_str_err(s.spec_bytes(), t@),
{
    ParserError::ExpectedToken(
        ExpectedTokenError {
            expected: PrintableToken::STRING(str_vec(s)),
            found: PrintableToken::of_token(t),
        },
    )
}

/// Absorbs a failed `eat`: a mismatch against the end of the input is an
/// unexpected end.
fn absorb_expected(e: ExpectedTokenError) -> (r: ParserError)
    ensures
        r@ == from_expected(e@),
{
    match &e.found {
        PrintableToken::EOF => ParserError::UnexpectedEnd,
        _ => ParserError::ExpectedToken(e),
    }
}

/// Builds one scene from the pair lists of its object, as
/// `spec_scene_fields` says.
fn scene_from_pairs(strs: &Vec<(Vec<u8>, Vec<u8>)>, nums: &Vec<(Vec<u8>, i32)>) -> (r: Result<
    Scene,
    ParserError,
>)
    ensures
        match spec_scene_fields(
            ObjPairsView { strs: strs_view(strs@), nums: nums_view(nums@) },
        ) {
            Ok(sv) => r matches Ok(sc) && sc@ == sv && sc.wf(),
            Err(e) => r matches Err(pe) && pe@ == e,
        },
{
    // the tag set is the one mandatory string set
    let ts = match lookup_str_pairs(strs, "tags".as_bytes()) {
        Some(ts) => ts,
        None => {
            return Err(ParserError::KeyNotFound(str_vec("tags")));
        },
    };
    let tags = build_tags(&ts);
    let fname = match lookup_str_pairs(strs, "fileName".as_bytes()) {
        Some(v) => v,
        None => {
            return Err(ParserError::KeyNotFound(str_vec("fileName")));
        },
    };
    let dir = match lookup_str_pairs(strs, "directory".as_bytes()) {
        Some(v) => v,
        None => {
            return Err(ParserError::KeyNotFound(str_vec("directory")));
        },
    };
    let beg = match get_time(strs, nums, "begin") {
        Ok(v) => v,
        Err(e) => {
            return Err(e);
        },
    };
    let endv = match get_time(strs, nums, "end") {
        Ok(v) => v,
        Err(e) => {
            return Err(e);
        },
    };
    let lenv = match get_time(strs, nums, "length") {
        Ok(v) => v,
        Err(e) => {
            return Err(e);
        },
    };
    // the "basic" shortcut fills year and both counts, overriding the
    // explicit fields of those names
    let basic = lookup_num_pairs(nums, "basic".as_bytes());
    let girls: Option<i32>;
    let boys: Option<i32>;
    let year: Option<i32>;
    match basic {
        Some(n) => {
            girls = Some(1);
            boys = Some(1);
            year = Some(n);
        },
        None => {
            girls = lookup_num_pairs(nums, "numGirls".as_bytes());
            boys = lookup_num_pairs(nums, "numBoys".as_bytes());
            year = lookup_num_pairs(nums, "year".as_bytes());
        },
    }
    let g = match girls {
        Some(g) => g,
        None => {
            return Err(ParserError::KeyNotFound(str_vec("numGirls")));
        },
    };
    let b = match boys {
        Some(b) => b,
        None => {
            return Err(ParserError::KeyNotFound(str_vec("numBoys")));
        },
    };
    let sc = Scene {
        id: -1,
        file_name: fname,
        name: lookup_str_pairs(strs, "name".as_bytes()),
        directory: dir,
        thumb_file_name: lookup_str_pairs(strs, "thumbFileName".as_bytes()),
        website: lookup_str_pairs(strs, "webSite".as_bytes()),
        actors: lookup_str_pairs(strs, "actors".as_bytes()),
        cmd_parm: lookup_str_pairs(strs, "cmdParm".as_bytes()),
        tags,
        begin: beg,
        end: endv,
        year,
        length: lenv,
        num_girls: g,
        num_boys: b,
        score: match lookup_num_pairs(nums, "score".as_bytes()) {
            Some(n) => n,
            None => 0,
        },
        notes: lookup_str_pairs(strs, "notes".as_bytes()),
    };
    Ok(sc)
}

/// Reads `key : value` pairs until the closing brace, which stays the
/// current token; exactly what `spec_object` says of the incoming stream.
fn get_object(t: &mut Tokenizer) -> (r: Result<
    (Vec<(Vec<u8>, Vec<u8>)>, Vec<(Vec<u8>, i32)>),
    ParserError,
>)
    requires
        old(t).wf(),
    ensures
        final(t).wf(),
        final(t).input@ == old(t).input@,
        final(t).index >= old(t).index,
        match spec_object(old(t).t@, spec_tokens(old(t).input@, old(t).index as nat)) {
            Ok((pairs, cf, toksf)) => r matches Ok(p) && strs_view(p.0@) == pairs.strs
                && nums_view(p.1@) == pairs.nums && final(t).t@ == cf && spec_tokens(
                final(t).input@,
                final(t).index as nat,
            ) == toksf,
            Err(e) => r matches Err(pe) && pe@ == e,
        },
    decreases t.input@.len() - t.index,
{
    let ghost inp = t.input@;
    let ghost c0 = t.t@;
    let ghost i0 = t.index as nat;
    let ghost toks0 = spec_tokens(inp, i0);
    let key: Vec<u8>;
    match &t.t {
        Token::CHAR(0x7d) => {
            proof {
                assert(strs_view(Seq::<(Vec<u8>, Vec<u8>)>::empty()) =~= Seq::<(
                    Seq<u8>,
                    Seq<u8>,
                )>::empty());
                assert(nums_view(Seq::<(Vec<u8>, i32)>::empty()) =~= Seq::<(
                    Seq<u8>,
                    i32,
                )>::empty());
            }
            return Ok((Vec::new(), Vec::new()));
        },
        Token::STRING(s) => {
            key = vec_copy(s);
        },
        _ => {
            return Err(expected_string_error("<key>", &t.t));
        },
    }
    proof {
        assert(c0 == TokenView::STRING(key@));
        lemma_stream_step(inp, i0);
    }
    match t.next() {
        Err(_) => {
            return Err(ParserError::UnexpectedEnd);
        },
        Ok(()) => {},
    }
    let ghost p1 = t.index as nat;
    proof {
        lemma_stream_step(inp, p1);
    }
    match t.eat(&Token::CHAR(0x3a)) {
        Err(e) => {
            return Err(absorb_expected(e));
        },
        Ok(()) => {},
    }
    let ghost p2 = t.index as nat;
    let ghost tok2 = t.t@;
    proof {
        lemma_stream_step(inp, p2);
    }
    let sval: Option<Vec<u8>>;
    let nval: i32;
    match &t.t {
        Token::STRING(s) => {
            sval = Some(vec_copy(s));
            nval = 0;
        },
        Token::NUMBER(n) => {
            sval = None;
            nval = *n;
        },
        _ => {
            return Err(expected_string_error("<value>", &t.t));
        },
    }
    match t.next() {
        Err(_) => {
            return Err(ParserError::UnexpectedEnd);
        },
        Ok(()) => {},
    }
    let ghost p3 = t.index as nat;
    let ghost tok3 = t.t@;
    proof {
        lemma_scan_bounds(inp, p2);
        if tok3 == TokenView::EOF {
            // the grammar rejects an end of input in key position whatever
            // the stream after it holds
            assert(spec_object(tok3, adv(spec_tokens(inp, p2))) == spec_object(
                tok3,
                spec_tokens(inp, p3),
            ));
        }
    }
    let rec = match get_object(t) {
        Err(e) => {
            return Err(e);
        },
        Ok(p) => p,
    };
    let (mut strs, mut nums) = rec;
    let ghost pre_s = strs@;
    let ghost pre_n = nums@;
    match sval {
        Some(v) => {
            strs.insert(0, (key, v));
            proof {
                assert_seqs_equal!(strs_view(strs@) == seq![(c0->STRING_0, tok2->STRING_0)] + strs_view(pre_s), k => {
                    if k > 0 {
                        assert(strs@[k] == pre_s[k - 1]);
                        assert(strs_view(pre_s)[k - 1] == (pre_s[k - 1].0@, pre_s[k - 1].1@));
                    }
                });
            }
        },
        None => {
            nums.insert(0, (key, nval));
            proof {
                assert(tok2 == TokenView::NUMBER(nval));
                assert_seqs_equal!(nums_view(nums@) == seq![(c0->STRING_0, nval)] + nums_view(pre_n), k => {
                    if k > 0 {
                        assert(nums@[k] == pre_n[k - 1]);
                        assert(nums_view(pre_n)[k - 1] == (pre_n[k - 1].0@, pre_n[k - 1].1));
                    }
                });
            }
        },
    }
    Ok((strs, nums))
}

impl Scene {
    /// One entry from the tokenizer: its object, then the field semantics.
    fn from_tokenizer(t: &mut Tokenizer) -> (r: Result<Scene, ParserError>)
        requires
            old(t).wf(),
        ensures
            final(t).wf(),
            final(t).input@ == old(t).input@,
            final(t).index >= old(t).index,
            match spec_scene(old(t).t@, spec_tokens(old(t).input@, old(t).index as nat)) {
                Ok((sv, cf, toksf)) => r matches Ok(sc) && sc@ == sv && sc.wf() && final(t).t@
                    == cf && spec_tokens(final(t).input@, final(t).index as nat) == toksf,
                Err(e) => r matches Err(pe) && pe@ == e,
            },
    {
        let (strs, nums) = match get_object(t) {
            Err(e) => {
                return Err(e);
            },
            Ok(p) => p,
        };
        scene_from_pairs(&strs, &nums)
    }
}

/// What the header has gathered so far, as the parser runs.
struct HeaderAcc {
    known: bool,
    base: Vec<u8>,
    defs: Option<Vec<u8>>,
    tags: Vec<(Vec<u8>, Vec<u8>)>,
}

impl HeaderAcc {
    spec fn hview(&self) -> HeaderView {
        HeaderView {
            known: self.known,
            base: self.base@,
            defs: ov(self.defs),
            tags: strs_view(self.tags@),
        }
    }
}

/// Reads header lines while the current token is a string, exactly as
/// `spec_header` says.
fn parse_header(t: &mut Tokenizer, acc: HeaderAcc) -> (r: Result<HeaderAcc, ParserError>)
    requires
        old(t).wf(),
    ensures
        final(t).wf(),
        final(t).input@ == old(t).input@,
        match spec_header(
            old(t).t@,
            spec_tokens(old(t).input@, old(t).index as nat),
            acc.hview(),
        ) {
            Ok((h, cf, toksf)) => r matches Ok(a2) && a2.hview() == h && final(t).t@ == cf && (cf
                != TokenView::EOF ==> spec_tokens(final(t).input@, final(t).index as nat)
                == toksf),
            Err(e) => r matches Err(pe) && pe@ == e,
        },
    decreases t.input@.len() - t.index,
{
    let ghost inp = t.input@;
    let ghost c0 = t.t@;
    let ghost i0 = t.index as nat;
    let ghost toks0 = spec_tokens(inp, i0);
    let key: Vec<u8>;
    match &t.t {
        Token::STRING(s) => {
            key = vec_copy(s);
        },
        _ => {
            // the header ends at the first token that is no string
            return Ok(acc);
        },
    }
    proof {
        assert(c0 == TokenView::STRING(key@));
        lemma_stream_step(inp, i0);
    }
    match t.next() {
        Err(_) => {
            return Err(ParserError::UnexpectedEnd);
        },
        Ok(()) => {},
    }
    let ghost p1 = t.index as nat;
    proof {
        lemma_stream_step(inp, p1);
    }
    match t.eat(&Token::CHAR(0x3a)) {
        Err(e) => {
            return Err(absorb_expected(e));
        },
        Ok(()) => {},
    }
    let ghost p2 = t.index as nat;
    let ghost tok2 = t.t@;
    proof {
        lemma_stream_step(inp, p2);
    }
    let value: Vec<u8>;
    let obj_tags: Option<Vec<(Vec<u8>, Vec<u8>)>>;
    match &t.t {
        Token::STRING(s) => {
            value = vec_copy(s);
            obj_tags = None;
        },
        Token::CHAR(0x7b) => {
            match t.next() {
                Err(_) => {
                    return Err(ParserError::UnexpectedEnd);
                },
                Ok(()) => {},
            }
            let ghost pb = t.index as nat;
            proof {
                if t.t@ == TokenView::EOF {
                    assert(spec_object(t.t@, adv(spec_tokens(inp, p2))) == spec_object(
                        t.t@,
                        spec_tokens(inp, pb),
                    ));
                }
            }
            let o = match get_object(t) {
                Err(e) => {
                    return Err(e);
                },
                Ok(o) => o,
            };
            value = str_vec("tags object");
            obj_tags = Some(o.0);
        },
        _ => {
            return Err(ParserError::ExpectedString);
        },
    }
    let ghost pv = t.index as nat;
    proof {
        lemma_stream_step(inp, pv);
    }
    match t.next() {
        Err(_) => {
            return Err(ParserError::UnexpectedEnd);
        },
        Ok(()) => {},
    }
    // key dispatch, on the accumulated header
    let newtags: Vec<(Vec<u8>, Vec<u8>)> = match obj_tags {
        Some(v) => v,
        None => acc.tags,
    };
    let acc2: HeaderAcc;
    if bytes_eq(key.as_slice(), "type".as_bytes()) {
        if !(bytes_eq(value.as_slice(), "pr0wser3".as_bytes()) || bytes_eq(
            value.as_slice(),
            "pr0wser4".as_bytes(),
        )) {
            return Err(ParserError::UnknownFileFormat);
        }
        acc2 = HeaderAcc { known: true, base: acc.base, defs: acc.defs, tags: newtags };
    } else if bytes_eq(key.as_slice(), "baseDir".as_bytes()) {
        acc2 = HeaderAcc { known: acc.known, base: value, defs: acc.defs, tags: newtags };
    } else if bytes_eq(key.as_slice(), "defSearch".as_bytes()) {
        acc2 = HeaderAcc { known: acc.known, base: acc.base, defs: Some(value), tags: newtags };
    } else if bytes_eq(key.as_slice(), "tags".as_bytes()) {
        acc2 = HeaderAcc { known: acc.known, base: acc.base, defs: acc.defs, tags: newtags };
    } else {
        return Err(ParserError::UnknownKey(key));
    }
    proof {
        if t.t@ == TokenView::EOF {
            // both applications exit at once, with the same header and token
            assert(spec_header(t.t@, adv(spec_tokens(inp, pv)), acc2.hview()) matches Ok((
                h,
                cf,
                tf,
            )) && h == acc2.hview() && cf == TokenView::EOF);
            assert(spec_header(t.t@, spec_tokens(inp, t.index as nat), acc2.hview()) matches Ok(
                (h, cf, tf),
            ) && h == acc2.hview() && cf == TokenView::EOF);
        }
        assert(t.index > i0);
    }
    parse_header(t, acc2)
}

/// Reads `{ <object> }` blocks until the end of the input and assigns the
/// descending ids, exactly as `spec_entries` and `with_ids` say together.
#[verifier::rlimit(60)]
fn parse_entries(t: &mut Tokenizer) -> (r: Result<Vec<Scene>, ParserError>)
    requires
        old(t).wf(),
    ensures
        final(t).wf(),
        final(t).input@ == old(t).input@,
        match spec_entries(old(t).t@, spec_tokens(old(t).input@, old(t).index as nat)) {
            Ok(films) => if films.len() > i32::MAX as int {
                r matches Err(pe) && pe@ == ParserErrorView::UnexpectedEnd
            } else {
                r matches Ok(v) && v@.map_values(|s: Scene| s@) == with_ids(films) && (forall|
                    i: int,
                |
                    0 <= i < v@.len() ==> (#[trigger] v@[i]).wf())
            },
            Err(e) => r matches Err(pe) && pe@ == e,
        },
    decreases t.input@.len() - t.index,
{
    let ghost inp = t.input@;
    let ghost c0 = t.t@;
    let ghost i0 = t.index as nat;
    let ghost toks0 = spec_tokens(inp, i0);
    match &t.t {
        Token::EOF => {
            let empty: Vec<Scene> = Vec::new();
            proof {
                assert(with_ids(Seq::<SceneView>::empty()) =~= Seq::<SceneView>::empty());
                assert(empty@.map_values(|s: Scene| s@) =~= Seq::<SceneView>::empty());
            }
            return Ok(empty);
        },
        _ => {},
    }
    proof {
        lemma_stream_step(inp, i0);
    }
    match t.eat(&Token::CHAR(0x7b)) {
        Err(e) => {
            return Err(absorb_expected(e));
        },
        Ok(()) => {},
    }
    let ghost p1 = t.index as nat;
    proof {
        if t.t@ == TokenView::EOF {
            // an end of input in key position is rejected whatever follows
            assert(spec_object(t.t@, adv(toks0)) == spec_object(t.t@, spec_tokens(inp, p1)));
            assert(spec_scene(t.t@, adv(toks0)) == spec_scene(t.t@, spec_tokens(inp, p1)));
        }
    }
    let sc = match Scene::from_tokenizer(t) {
        Err(e) => {
            return Err(e);
        },
        Ok(s) => s,
    };
    let ghost p2 = t.index as nat;
    proof {
        lemma_stream_step(inp, p2);
    }
    match t.eat(&Token::CHAR(0x7d)) {
        Err(e) => {
            return Err(absorb_expected(e));
        },
        Ok(()) => {},
    }
    let ghost p3 = t.index as nat;
    proof {
        if t.t@ == TokenView::EOF {
            assert(spec_entries(t.t@, adv(spec_tokens(inp, p2))) == spec_entries(
                t.t@,
                spec_tokens(inp, p3),
            ));
        }
    }
    let ghost c3tok = t.t@;
    let ghost sv = sc@;
    let mut rest = match parse_entries(t) {
        Err(e) => {
            return Err(e);
        },
        Ok(v) => v,
    };
    let ghost films = match spec_entries(c0, toks0) {
        Ok(films) => films,
        Err(e) => Seq::empty(),
    };
    let ghost restf = match spec_entries(c3tok, spec_tokens(inp, p3)) {
        Ok(f) => f,
        Err(e) => Seq::empty(),
    };
    proof {
        assert(films == seq![sv] + restf);
        assert(films.len() == 1 + restf.len());
        assert(rest@.map_values(|s: Scene| s@) == with_ids(restf));
        assert(rest@.map_values(|s: Scene| s@).len() == rest@.len());
        assert(with_ids(restf).len() == restf.len());
        assert(rest@.len() == restf.len());
    }
    if rest.len() >= 0x7fffffff {
        // the id of this entry would leave the i32 range
        return Err(ParserError::UnexpectedEnd);
    }
    let n: usize = rest.len() + 1;
    let mut sc2 = sc;
    sc2.id = n as i32;
    let ghost pre = rest@;
    rest.insert(0, sc2);
    proof {
        assert(pre.map_values(|s: Scene| s@) == with_ids(restf));
        assert_seqs_equal!(rest@.map_values(|s: Scene| s@) == with_ids(films), k => {
            if k == 0 {
                assert(rest@[0] == sc2);
                assert(films[0] == sv);
            } else {
                assert(rest@[k] == pre[k - 1]);
                assert(pre.map_values(|s: Scene| s@)[k - 1] == pre[k - 1]@);
                assert(with_ids(restf)[k - 1] == pre[k - 1]@);
                assert(films[k] == restf[k - 1]);
            }
        });
        assert forall|i: int| 0 <= i < rest@.len() implies (#[trigger] rest@[i]).wf() by {
            if i > 0 {
                assert(rest@[i] == pre[i - 1]);
            }
        }
    }
    Ok(rest)
}

/// Parses the whole catalog out of the tokenizer: the header, the mandatory
/// checks, the entries, the id pass. Returns exactly what `spec_parse_at`
/// says of the bytes from the tokenizer's cursor on.
pub fn parse_database(t: &mut Tokenizer) -> (r: Result<SceneDatabase, ParserError>)
    requires
        old(t).wf(),
    ensures
        final(t).wf(),
        match spec_parse_at(old(t).input@, old(t).index as nat) {
            Ok(db) => r matches Ok(d) && d@ == db && d.wf(),
            Err(e) => r matches Err(pe) && pe@ == e,
        },
{
    let ghost inp = t.input@;
    let ghost i0 = t.index as nat;
    let ghost toks = spec_tokens(inp, i0);
    proof {
        lemma_stream_step(inp, i0);
    }
    match t.next() {
        Err(_) => {
            return Err(ParserError::UnexpectedEnd);
        },
        Ok(()) => {},
    }
    let ghost p1 = t.index as nat;
    let acc = HeaderAcc { known: false, base: Vec::new(), defs: None, tags: Vec::new() };
    proof {
        assert(strs_view(Seq::<(Vec<u8>, Vec<u8>)>::empty()) =~= Seq::<(
            Seq<u8>,
            Seq<u8>,
        )>::empty());
        assert(acc.hview() == (HeaderView {
            known: false,
            base: Seq::empty(),
            defs: None,
            tags: Seq::empty(),
        }));
        if t.t@ == TokenView::EOF {
            assert(spec_header(t.t@, adv(toks), acc.hview()) matches Ok((h, cf, tf)) && h
                == acc.hview() && cf == TokenView::EOF);
            assert(spec_header(t.t@, spec_tokens(inp, p1), acc.hview()) matches Ok((h, cf, tf))
                && h == acc.hview() && cf == TokenView::EOF);
        }
    }
    let h = match parse_header(t, acc) {
        Err(e) => {
            return Err(e);
        },
        Ok(h) => h,
    };
    if !h.known {
        return Err(ParserError::UnknownFileFormat);
    }
    if h.base.len() == 0 {
        return Err(ParserError::NoBaseDir);
    }
    proof {
        if t.t@ == TokenView::EOF {
            let ghost anytoks = spec_tokens(inp, t.index as nat);
            assert(spec_entries(t.t@, anytoks) == Ok::<Seq<SceneView>, ParserErrorView>(
                Seq::empty(),
            ));
        }
    }
    let films = match parse_entries(t) {
        Err(e) => {
            return Err(e);
        },
        Ok(v) => v,
    };
    let db = SceneDatabase { base_dir: h.base, film: films, def_search: h.defs, tags: h.tags };
    proof {
        if t.t@ == TokenView::EOF {
            // the spec entry list, whatever stream the spec side carried
            assert(spec_entries(TokenView::EOF, adv(toks)) == Ok::<Seq<SceneView>, ParserErrorView>(
                Seq::empty(),
            ));
        }
    }
    Ok(db)
}

/// The single entry point: parses a whole catalog buffer.
pub fn parse(input: &[u8]) -> (r: Result<SceneDatabase, ParserError>)
    ensures
        match spec_parse_at(input@, 0) {
            Ok(db) => r matches Ok(d) && d@ == db && d.wf(),
            Err(e) => r matches Err(pe) && pe@ == e,
        },
{
    let mut t = Tokenizer::new(input);
    parse_database(&mut t)
}

/// The message of an error, as the loader shows it to the user.
pub open spec fn spec_message(e: ParserErrorView) -> Seq<u8> {
    match e {
        ParserErrorView::UnexpectedEnd => ("Unexpected end of file").spec_bytes(),
        ParserErrorView::ExpectedToken(ete) => ("Expected ").spec_bytes() + spec_render(
            ete.expected,
        ) + (", found ").spec_bytes() + spec_render(ete.found),
        ParserErrorView::ExpectedString => ("String value expected").spec_bytes(),
        ParserErrorView::KeyNotFound(k) => ("No value was set for ").spec_bytes() + k,
        ParserErrorView::UnknownKey(k) => ("Unknown assignment ").spec_bytes() + k,
        ParserErrorView::UnknownFileFormat => ("Unknown file format").spec_bytes(),
        ParserErrorView::NoBaseDir => ("No baseDir given").spec_bytes(),
    }
}

impl ParserError {
    /// Renders this error for the user.
    pub fn message(&self) -> (v: Vec<u8>)
        ensures
            v@ == spec_message(self@),
    {
        match self {
            ParserError::UnexpectedEnd => str_vec("Unexpected end of file"),
            ParserError::ExpectedToken(ete) => {
                let mut v = str_vec("Expected ");
                let mut a = ete.expected.render();
                v.append(&mut a);
                let mut m = str_vec(", found ");
                v.append(&mut m);
                let mut b = ete.found.render();
                v.append(&mut b);
                proof {
                    assert(v@ =~= ("Expected ").spec_bytes() + spec_render(ete.expected@) + (
                    ", found ").spec_bytes() + spec_render(ete.found@));
                }
                v
            },
            ParserError::ExpectedString => str_vec("String value expected"),
            ParserError::KeyNotFound(k) => {
                let mut v = str_vec("No value was set for ");
                let mut m = vec_copy(k);
                v.append(&mut m);
                proof {
                    assert(v@ =~= ("No value was set for ").spec_bytes() + k@);
                }
                v
            },
            ParserError::UnknownKey(k) => {
                let mut v = str_vec("Unknown assignment ");
                let mut m = vec_copy(k);
                v.append(&mut m);
                proof {
                    assert(v@ =~= ("Unknown assignment ").spec_bytes() + k@);
                }
                v
            },
            ParserError::UnknownFileFormat => str_vec("Unknown file format"),
            ParserError::NoBaseDir => str_vec("No baseDir given"),
        }
    }
}

// ===== laws =====

/// Entry ids are always the contiguous descending sequence n, n-1, ..., 1,
/// matching reverse file order, for any number of entries a parse returns.
pub proof fn lemma_ids_descending(input: Seq<u8>, pos: nat)
    ensures
        spec_parse_at(input, pos) matches Ok(db) ==> forall|i: int|
            0 <= i < db.film.len() ==> (#[trigger] db.film[i]).id as int == db.film.len() - i,
{
    let toks = spec_tokens(input, pos);
    if cur(toks) != TokenView::LEXERR {
        let init = HeaderView { known: false, base: Seq::empty(), defs: None, tags: Seq::empty() };
        match spec_header(cur(toks), adv(toks), init) {
            Ok((h, c1, toks1)) => {
                if h.known && h.base.len() > 0 {
                    match spec_entries(c1, toks1) {
                        Ok(films) => {
                            if films.len() <= i32::MAX as int {
                                assert forall|i: int|
                                    0 <= i < with_ids(films).len() implies (#[trigger] with_ids(
                                    films,
                                )[i]).id as int == with_ids(films).len() - i by {
                                    assert(with_ids(films)[i].id == (films.len() - i) as i32);
                                }
                            }
                        },
                        Err(_) => {},
                    }
                }
            },
            Err(_) => {},
        }
    }
}

/// A parse that succeeds produced a nonempty base directory: a missing or
/// empty one ends in `NoBaseDir` instead.
pub proof fn lemma_base_dir_nonempty(input: Seq<u8>, pos: nat)
    ensures
        spec_parse_at(input, pos) matches Ok(db) ==> db.base_dir.len() > 0,
{
}

/// When a numeric `basic` field is present, its expansion wins: the scene's
/// year is basic's value and both counts are 1, whatever explicit `year`,
/// `numGirls` or `numBoys` fields the same object also holds.
pub proof fn lemma_basic_overrides(o: ObjPairsView, n: i32)
    requires
        lookup_num(o.nums, k_basic()) == Some(n),
    ensures
        spec_scene_fields(o) matches Ok(sv) ==> sv.year == Some(n) && sv.num_girls == 1
            && sv.num_boys == 1,
{
}

/// An object with a tags field but no fileName field never yields a scene:
/// it fails with `KeyNotFound` naming fileName.
pub proof fn lemma_missing_file_name(o: ObjPairsView)
    requires
        lookup_str(o.strs, k_tags()) is Some,
        lookup_str(o.strs, k_file_name()) is None,
    ensures
        spec_scene_fields(o) == Err::<SceneView, ParserErrorView>(
            ParserErrorView::KeyNotFound(k_file_name()),
        ),
{
}

/// A header line under a key that is none of the recognized four fails with
/// `UnknownKey` naming it, whatever string value it carries.
pub proof fn lemma_unknown_header_key(h: HeaderView, key: Seq<u8>, v: Seq<u8>, toks: Seq<TokenView>)
    requires
        key != k_type(),
        key != k_base_dir(),
        key != k_def_search(),
        key != k_tags(),
        toks.len() >= 3,
        toks[0] == TokenView::CHAR(0x3a),
        toks[1] == TokenView::STRING(v),
        toks[2] != TokenView::LEXERR,
    ensures
        spec_header(TokenView::STRING(key), toks, h) == Err::<
            (HeaderView, TokenView, Seq<TokenView>),
            ParserErrorView,
        >(ParserErrorView::UnknownKey(key)),
{
    assert(cur(toks) == TokenView::CHAR(0x3a));
    assert(cur(adv(toks)) == TokenView::STRING(v));
    assert(cur(adv(adv(toks))) == toks[2]);
}

/// The bytes of the two header keys a minimal catalog uses: they are plain
/// ASCII, so their byte strings follow their characters.
proof fn lemma_min_keys()
    ensures
        k_type().len() == 4,
        k_base_dir().len() == 7,
        k_type() != k_base_dir(),
{
    reveal_strlit("type");
    reveal_strlit("baseDir");
    assert(("type")@.len() == 4);
    assert(("baseDir")@.len() == 7);
    assert(vstd::utf8::is_ascii_chars(("type")@));
    assert(vstd::utf8::is_ascii_chars(("baseDir")@));
    vstd::utf8::is_ascii_chars_encode_utf8(("type")@);
    vstd::utf8::is_ascii_chars_encode_utf8(("baseDir")@);
}

/// Every well-formed minimal catalog parses: a type line carrying one of the
/// two accepted format tags, a nonempty base directory line, and no entries
/// give a database with that base directory, an empty film list, no default
/// search and no tag dictionary.
pub proof fn lemma_minimal_input(input: Seq<u8>, pos: nat, fmt: Seq<u8>, base: Seq<u8>)
    requires
        spec_tokens(input, pos) == seq![
            TokenView::STRING(k_type()),
            TokenView::CHAR(0x3a),
            TokenView::STRING(fmt),
            TokenView::STRING(k_base_dir()),
            TokenView::CHAR(0x3a),
            TokenView::STRING(base),
            TokenView::EOF,
        ],
        fmt == k_fmt3() || fmt == k_fmt4(),
        base.len() > 0,
    ensures
        spec_parse_at(input, pos) matches Ok(db) && db.film == Seq::<SceneView>::empty()
            && db.base_dir == base && db.def_search is None && db.tags == Seq::<(
            Seq<u8>,
            Seq<u8>,
        )>::empty(),
{
    lemma_min_keys();
    let toks = spec_tokens(input, pos);
    let t1 = adv(toks);
    let t2 = adv(t1);
    let t3 = adv(t2);
    let t4 = adv(t3);
    let t5 = adv(t4);
    let t6 = adv(t5);
    assert(t1 =~= toks.drop_first());
    assert(cur(toks) == TokenView::STRING(k_type()));
    assert(cur(t1) == TokenView::CHAR(0x3a));
    assert(cur(t2) == TokenView::STRING(fmt));
    assert(cur(t3) == TokenView::STRING(k_base_dir()));
    assert(cur(t4) == TokenView::CHAR(0x3a));
    assert(cur(t5) == TokenView::STRING(base));
    assert(cur(t6) == TokenView::EOF);
    let init = HeaderView { known: false, base: Seq::empty(), defs: None, tags: Seq::empty() };
    let h1 = HeaderView { known: true, base: Seq::empty(), defs: None, tags: Seq::empty() };
    let h2 = HeaderView { known: true, base: base, defs: None, tags: Seq::empty() };
    assert(header_update(init, k_type(), fmt, init.tags) == Ok::<HeaderView, ParserErrorView>(h1));
    assert(header_update(h1, k_base_dir(), base, h1.tags) == Ok::<HeaderView, ParserErrorView>(h2));
    let t7 = adv(t6);
    assert(spec_header(TokenView::EOF, t7, h2) == Ok::<
        (HeaderView, TokenView, Seq<TokenView>),
        ParserErrorView,
    >((h2, TokenView::EOF, t7)));
    assert(spec_header(cur(t3), t4, h1) == Ok::<
        (HeaderView, TokenView, Seq<TokenView>),
        ParserErrorView,
    >((h2, TokenView::EOF, t7)));
    assert(spec_header(cur(toks), t1, init) == Ok::<
        (HeaderView, TokenView, Seq<TokenView>),
        ParserErrorView,
    >((h2, TokenView::EOF, t7)));
    assert(spec_entries(TokenView::EOF, t7) == Ok::<Seq<SceneView>, ParserErrorView>(Seq::empty()));
    assert(with_ids(Seq::<SceneView>::empty()) =~= Seq::<SceneView>::empty());
}

} // verus!
