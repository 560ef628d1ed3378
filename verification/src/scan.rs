//! Finding path candidates in text with the `regex` crate, and turning the
//! candidates that name files into `PathMatch`es.
use vstd::prelude::*;
use vstd::string::StringSliceAdditionalSpecFns;
use vstd::utf8::*;
use crate::decimal::{parse_u32, spec_parse_u32};
use crate::paths::{
    candidate_lengths, lemma_candidates_trim_only_punctuation, lemma_validation_fits_candidate,
    opt_str_view, trim_candidates, validate_path, validation_fits,
};
use crate::utf8_text::{byte_slice, lemma_ascii_byte_is_boundary, lemma_str_view_decodes};

verus! {

/// The candidate pattern. Group 1 (`path`) is either a run of non-space,
/// non-colon characters holding a `/`, or dotted words such as `Cargo.toml`;
/// group 2 (`line_num`) and group 3 (`col_num`) are the digits of an optional
/// `:line` and `:line:col` suffix.
pub const PATH_PATTERN: &'static str = r"(?P<path>[^\s:/]*/[^\s:]*|(?:[A-Za-z0-9_+~-]+\.)+[A-Za-z0-9_+~-]+)(?::(?P<line_num>[0-9]+)(?::(?P<col_num>[0-9]+))?)?";

/// The byte spans of the capture groups of one match, group 0 being the whole
/// match; `None` for a group that did not take part in it.
pub type GroupSpans = Vec<Option<(usize, usize)>>;

/// Whether `regex::Regex::new` accepts this pattern.
pub uninterp spec fn regex_compiles(pattern: Seq<char>) -> bool;

/// The group spans of each match that `regex::Regex::captures_iter` yields for
/// this pattern on this haystack, in the order it yields them.
pub uninterp spec fn regex_capture_spans(pattern: Seq<char>, haystack: Seq<char>) -> Seq<Seq<Option<(usize, usize)>>>;

pub open spec fn spans_view(caps: Seq<GroupSpans>) -> Seq<Seq<Option<(usize, usize)>>> {
    caps.map_values(|c: GroupSpans| c@)
}

/// A span that can be cut out of the haystack: in order, inside it, and on
/// character boundaries.
pub open spec fn span_in(hay: Seq<u8>, span: (usize, usize)) -> bool {
    &&& span.0 <= span.1 <= hay.len()
    &&& is_char_boundary(hay, span.0 as int)
    &&& is_char_boundary(hay, span.1 as int)
}

/// What `regex` documents of every match: the whole match (group 0) is always
/// present, and every span lies in the haystack on character boundaries.
pub open spec fn spans_in_haystack(hay: Seq<u8>, caps: Seq<Seq<Option<(usize, usize)>>>) -> bool {
    forall|i: int| 0 <= i < caps.len() ==> {
        &&& #[trigger] caps[i].len() >= 1
        &&& caps[i][0] is Some
        &&& forall|g: int| 0 <= g < caps[i].len() && caps[i][g] is Some ==> span_in(hay, #[trigger] caps[i][g].unwrap())
    }
}

/// What `regex` documents of the matches that `captures_iter` yields: each
/// capture group is a part of its match (group 0), and the matches come one
/// after another without overlapping.
pub open spec fn matches_in_sequence(caps: Seq<Seq<Option<(usize, usize)>>>) -> bool {
    &&& forall|i: int, g: int| 0 <= i < caps.len() && 0 <= g < caps[i].len() && #[trigger] caps[i][g] is Some && caps[i][0] is Some
        ==> caps[i][0].unwrap().0 <= caps[i][g].unwrap().0 && caps[i][g].unwrap().1 <= caps[i][0].unwrap().1
    &&& forall|i: int, j: int| #![trigger caps[i], caps[j]] 0 <= i < j < caps.len() && caps[i][0] is Some && caps[j][0] is Some
        ==> caps[i][0].unwrap().1 <= caps[j][0].unwrap().0
}

/// Runs `regex::Regex::new` on `pattern` and, when it compiles,
/// `Regex::captures_iter` on `haystack`, handing back the span of every group of
/// every match (`Captures::len`, `Captures::get`, `Match::start`, `Match::end`).
/// Claimed: the result is `Some` exactly when the pattern compiles, it is the
/// named result of the search, every match has its group 0 and only spans
/// that lie in the haystack on character boundaries, each group is a part of
/// its match, and the matches are successive and do not overlap, as the crate
/// documents.
#[verifier::external_body]
fn capture_spans(pattern: &str, haystack: &str) -> (res: Option<Vec<GroupSpans>>)
    ensures
        res is Some <==> regex_compiles(pattern@),
        res matches Some(caps) ==> spans_view(caps@) == regex_capture_spans(pattern@, haystack@),
        res matches Some(caps) ==> spans_in_haystack(haystack.spec_bytes(), spans_view(caps@)),
        res matches Some(caps) ==> matches_in_sequence(spans_view(caps@)),
{
    match regex::Regex::new(pattern) {
        Ok(re) => Some(
            re.captures_iter(haystack).map(
                |c| (0..c.len()).map(|i| c.get(i).map(|m| (m.start(), m.end()))).collect(),
            ).collect(),
        ),
        Err(_) => None,
    }
}

/// The number written in a group, as `str::parse::<u32>` reads it.
pub open spec fn group_number(hay: Seq<u8>, g: Option<(usize, usize)>) -> Option<u32> {
    match g {
        Some(span) => spec_parse_u32(hay.subrange(span.0 as int, span.1 as int)),
        None => None,
    }
}

/// A group whose number can be read without overflow (or that is absent).
pub open spec fn number_readable(hay: Seq<u8>, g: Option<(usize, usize)>) -> bool {
    g is Some ==> group_number(hay, g) is Some
}

/// Every match has the path group (and the line and column groups' slots).
pub open spec fn captures_shaped(caps: Seq<Seq<Option<(usize, usize)>>>) -> bool {
    forall|i: int| 0 <= i < caps.len() ==> {
        &&& #[trigger] caps[i].len() >= 4
        &&& caps[i][1] is Some
    }
}

/// The input side of what `extract_path_matches` needs, as far as it can be
/// told without the disk: every match is shaped, and every match whose path
/// could be kept (it is not all slashes) has line and column groups that,
/// where present, hold numbers that fit in a `u32`.
pub open spec fn captures_usable(hay: Seq<u8>, caps: Seq<Seq<Option<(usize, usize)>>>) -> bool {
    &&& captures_shaped(caps)
    &&& forall|i: int| #![trigger caps[i]] 0 <= i < caps.len() && candidate_lengths(raw_path(hay, caps[i])).len() > 0
        ==> number_readable(hay, caps[i][2]) && number_readable(hay, caps[i][3])
}

/// The length of a match's path group.
pub open spec fn path_group_len(cap: Seq<Option<(usize, usize)>>) -> usize {
    (cap[1].unwrap().1 - cap[1].unwrap().0) as usize
}

/// Every match whose path group was kept whole (the only ones whose numbers
/// are read) has line and column groups that, where present, hold numbers
/// that fit in a `u32`.
pub open spec fn kept_numbers_readable(hay: Seq<u8>, caps: Seq<Seq<Option<(usize, usize)>>>, lens: Seq<Option<usize>>) -> bool {
    forall|i: int| 0 <= i < caps.len() && #[trigger] lens[i] == Some(path_group_len(caps[i]))
        ==> number_readable(hay, caps[i][2]) && number_readable(hay, caps[i][3])
}

/// The text of a match's path group.
pub open spec fn raw_path(hay: Seq<u8>, cap: Seq<Option<(usize, usize)>>) -> Seq<u8> {
    hay.subrange(cap[1].unwrap().0 as int, cap[1].unwrap().1 as int)
}

/// What `validate_path` may have answered for the path group of each match.
pub open spec fn lengths_possible(hay: Seq<u8>, caps: Seq<Seq<Option<(usize, usize)>>>, lens: Seq<Option<usize>>) -> bool {
    &&& lens.len() == caps.len()
    &&& forall|i: int| 0 <= i < caps.len() ==> {
        &&& (#[trigger] lens[i] matches Some(l) ==> candidate_lengths(raw_path(hay, caps[i])).contains(l))
        &&& (candidate_lengths(raw_path(hay, caps[i])).len() == 0 ==> lens[i] is None)
    }
}

/// Where every match whose path could be kept has readable numbers, every
/// kept-whole match has them, whatever the probe answered.
proof fn lemma_usable_numbers_readable(hay: Seq<u8>, caps: Seq<Seq<Option<(usize, usize)>>>, lens: Seq<Option<usize>>)
    requires
        captures_usable(hay, caps),
        lengths_possible(hay, caps, lens),
    ensures
        kept_numbers_readable(hay, caps, lens),
{
    assert forall|i: int| 0 <= i < caps.len() && #[trigger] lens[i] == Some(path_group_len(caps[i]))
        implies number_readable(hay, caps[i][2]) && number_readable(hay, caps[i][3]) by {
        let c = candidate_lengths(raw_path(hay, caps[i]));
        assert(c.contains(path_group_len(caps[i])));
        assert(c.len() > 0);
    }
}

/// A path found in the text: `path` is the text at byte offsets
/// `start..start + path.len()`, and `start..end` covers it together with the
/// `:line[:col]` suffix that was read, if any.
#[derive(Debug, PartialEq, Eq)]
pub struct PathMatch {
    pub path: String,
    pub line_num: Option<u32>,
    pub col_num: Option<u32>,
    pub start: usize,
    pub end: usize,
}

pub struct PathMatchView {
    pub path: Seq<char>,
    pub line_num: Option<u32>,
    pub col_num: Option<u32>,
    pub start: usize,
    pub end: usize,
}

impl View for PathMatch {
    type V = PathMatchView;

    open spec fn view(&self) -> PathMatchView {
        PathMatchView {
            path: self.path@,
            line_num: self.line_num,
            col_num: self.col_num,
            start: self.start,
            end: self.end,
        }
    }
}

pub open spec fn matches_view(ms: Seq<PathMatch>) -> Seq<PathMatchView> {
    ms.map_values(|m: PathMatch| m@)
}

/// The match made of one regex match whose path group kept `len` bytes. The
/// `:line:col` suffix is only read when the whole path group was kept; after
/// trimmed punctuation it is not trusted, and the match ends with the path.
pub open spec fn match_for(hay: Seq<u8>, cap: Seq<Option<(usize, usize)>>, len: usize) -> PathMatchView {
    let ps = cap[1].unwrap().0;
    let pe = cap[1].unwrap().1;
    let path = decode_utf8(hay.subrange(ps as int, ps + len));
    if len == pe - ps {
        PathMatchView {
            path,
            line_num: group_number(hay, cap[2]),
            col_num: group_number(hay, cap[3]),
            start: ps,
            end: cap[0].unwrap().1,
        }
    } else {
        PathMatchView { path, line_num: None, col_num: None, start: ps, end: (ps + len) as usize }
    }
}

/// The matches made of the regex matches whose path group was validated, in
/// the order of the regex matches.
pub open spec fn assemble(hay: Seq<u8>, caps: Seq<Seq<Option<(usize, usize)>>>, lens: Seq<Option<usize>>) -> Seq<PathMatchView>
    decreases caps.len(),
{
    if caps.len() == 0 || lens.len() == 0 {
        seq![]
    } else {
        let prev = assemble(hay, caps.drop_last(), lens.drop_last());
        match lens.last() {
            Some(l) => prev.push(match_for(hay, caps.last(), l)),
            None => prev,
        }
    }
}

/// Each path group was validated with `home`: its answer fits what the
/// file-system probe may have said of the `~/`-expanded candidate prefixes.
pub open spec fn lengths_validated(hay: Seq<u8>, caps: Seq<Seq<Option<(usize, usize)>>>, home: Option<Seq<char>>, lens: Seq<Option<usize>>) -> bool {
    &&& lens.len() == caps.len()
    &&& forall|i: int| 0 <= i < caps.len() ==> validation_fits(raw_path(hay, caps[i]), home, #[trigger] lens[i])
}

/// How many of the answers are `Some`.
pub open spec fn count_kept(lens: Seq<Option<usize>>) -> nat
    decreases lens.len(),
{
    if lens.len() == 0 {
        0
    } else {
        count_kept(lens.drop_last()) + if lens.last() is Some { 1nat } else { 0nat }
    }
}

/// Nothing validated is lost: there is one match for each regex match whose
/// path group was given a length, and no other; the match of the `i`-th such
/// regex match comes after those of the earlier ones, starts where its path
/// group starts and holds that many bytes of the input from there as its path.
pub proof fn lemma_assemble_complete(hay: Seq<u8>, caps: Seq<Seq<Option<(usize, usize)>>>, lens: Seq<Option<usize>>)
    requires
        lens.len() == caps.len(),
    ensures
        assemble(hay, caps, lens).len() == count_kept(lens),
        forall|i: int| 0 <= i < caps.len() && (#[trigger] lens[i]) is Some ==> {
            let l = lens[i].unwrap();
            let k = count_kept(lens.take(i)) as int;
            let ps = caps[i][1].unwrap().0;
            &&& k < assemble(hay, caps, lens).len()
            &&& assemble(hay, caps, lens)[k].start == ps
            &&& assemble(hay, caps, lens)[k].path == decode_utf8(hay.subrange(ps as int, ps + l))
        },
    decreases caps.len(),
{
    if caps.len() > 0 {
        let n = caps.len() as int;
        let pc = caps.drop_last();
        let pl = lens.drop_last();
        lemma_assemble_complete(hay, pc, pl);
        let prev = assemble(hay, pc, pl);
        let res = assemble(hay, caps, lens);
        assert(lens.take(n - 1) =~= pl);
        assert forall|i: int| 0 <= i < caps.len() && (#[trigger] lens[i]) is Some implies {
            let l = lens[i].unwrap();
            let k = count_kept(lens.take(i)) as int;
            let ps = caps[i][1].unwrap().0;
            &&& k < res.len()
            &&& res[k].start == ps
            &&& res[k].path == decode_utf8(hay.subrange(ps as int, ps + l))
        } by {
            let l = lens[i].unwrap();
            if i < n - 1 {
                assert(lens.take(i) =~= pl.take(i));
                assert(pl[i] == Some(l));
                assert(pc[i] == caps[i]);
            } else {
                assert(lens.last() == Some(l));
                assert(res == prev.push(match_for(hay, caps.last(), l)));
            }
        }
    }
}

/// Nothing the probe confirmed is lost from a scan: for the answers that the
/// scan was made with, there is one match for each regex match whose path
/// group was found on disk (at some candidate length), and no other; the match
/// of the `i`-th such regex match follows those of the earlier ones, starts
/// where its path group starts and holds the prefix that was found as its path.
pub proof fn lemma_scan_result_complete(hay: Seq<u8>, caps: Seq<Seq<Option<(usize, usize)>>>, home: Option<Seq<char>>, res: Seq<PathMatchView>)
    requires
        is_scan_result(hay, caps, home, res),
    ensures
        exists|lens: Seq<Option<usize>>| #[trigger] lengths_validated(hay, caps, home, lens) && {
            &&& res.len() == count_kept(lens)
            &&& forall|i: int| 0 <= i < caps.len() && (#[trigger] lens[i]) is Some ==> {
                let l = lens[i].unwrap();
                let k = count_kept(lens.take(i)) as int;
                let ps = caps[i][1].unwrap().0;
                &&& k < res.len()
                &&& res[k].start == ps
                &&& res[k].path == decode_utf8(hay.subrange(ps as int, ps + l))
            }
        },
{
    let lens = choose|lens: Seq<Option<usize>>| #[trigger] lengths_validated(hay, caps, home, lens) && res == assemble(hay, caps, lens);
    lemma_assemble_complete(hay, caps, lens);
}

/// Validated answers are possible answers.
proof fn lemma_validated_possible(hay: Seq<u8>, caps: Seq<Seq<Option<(usize, usize)>>>, home: Option<Seq<char>>, lens: Seq<Option<usize>>)
    requires
        lengths_validated(hay, caps, home, lens),
    ensures
        lengths_possible(hay, caps, lens),
{
    assert forall|i: int| 0 <= i < caps.len() implies {
        &&& (#[trigger] lens[i] matches Some(l) ==> candidate_lengths(raw_path(hay, caps[i])).contains(l))
        &&& (candidate_lengths(raw_path(hay, caps[i])).len() == 0 ==> lens[i] is None)
    } by {
        lemma_validation_fits_candidate(raw_path(hay, caps[i]), home, lens[i]);
    }
}

/// `res` is what `extract_path_matches` makes of these regex matches with
/// `home`, for answers of the file-system probe to the paths it asked about.
pub open spec fn is_scan_result(hay: Seq<u8>, caps: Seq<Seq<Option<(usize, usize)>>>, home: Option<Seq<char>>, res: Seq<PathMatchView>) -> bool {
    exists|lens: Seq<Option<usize>>|
        #[trigger] lengths_validated(hay, caps, home, lens) && res == assemble(hay, caps, lens)
}

/// Every match `assemble` makes comes from one regex match whose path group was
/// kept to one of its candidate lengths.
proof fn lemma_assemble_members(hay: Seq<u8>, caps: Seq<Seq<Option<(usize, usize)>>>, lens: Seq<Option<usize>>, k: int)
    requires
        lengths_possible(hay, caps, lens),
        0 <= k < assemble(hay, caps, lens).len(),
    ensures
        exists|i: int, l: usize|
            0 <= i < caps.len() && lens[i] == Some(l)
            && candidate_lengths(raw_path(hay, caps[i])).contains(l)
            && #[trigger] assemble(hay, caps, lens)[k] == match_for(hay, caps[i], l),
    decreases caps.len(),
{
    let n = caps.len() as int;
    let pc = caps.drop_last();
    let pl = lens.drop_last();
    assert(lengths_possible(hay, pc, pl)) by {
        assert forall|i: int| 0 <= i < pc.len() implies {
            &&& (#[trigger] pl[i] matches Some(l) ==> candidate_lengths(raw_path(hay, pc[i])).contains(l))
            &&& (candidate_lengths(raw_path(hay, pc[i])).len() == 0 ==> pl[i] is None)
        } by {
            assert(pl[i] == lens[i] && pc[i] == caps[i]);
        }
    }
    let prev = assemble(hay, pc, pl);
    if k < prev.len() {
        lemma_assemble_members(hay, pc, pl, k);
        let (i, l) = choose|i: int, l: usize|
            0 <= i < pc.len() && pl[i] == Some(l)
            && candidate_lengths(raw_path(hay, pc[i])).contains(l)
            && #[trigger] assemble(hay, pc, pl)[k] == match_for(hay, pc[i], l);
        assert(lens[i] == Some(l) && caps[i] == pc[i]);
        assert(assemble(hay, caps, lens)[k] == match_for(hay, caps[i], l));
    } else {
        let l = lens.last().unwrap();
        assert(lens[n - 1] == Some(l));
        assert(assemble(hay, caps, lens)[k] == match_for(hay, caps[n - 1], l));
    }
}

/// Each match holds a non-empty path that is exactly the text of the input at
/// `start..start + (byte length of the path)`, and `end` lies within the
/// input; a match with a line or column number, or that ends past its path,
/// kept the whole path group of its regex match (so a path that lost trailing
/// punctuation has no numbers and ends right after itself).
pub open spec fn match_offsets_hold(hay: Seq<u8>, caps: Seq<Seq<Option<(usize, usize)>>>, res: Seq<PathMatchView>) -> bool {
    forall|k: int| 0 <= k < res.len() ==> {
        let m = #[trigger] res[k];
        let n = encode_utf8(m.path).len();
        &&& n >= 1
        &&& m.start + n <= hay.len()
        &&& encode_utf8(m.path) == hay.subrange(m.start as int, m.start + n)
        &&& m.end <= hay.len()
        &&& (m.line_num is Some || m.col_num is Some || m.end != m.start + n) ==> exists|i: int|
            0 <= i < caps.len() && caps[i][1] == Some((m.start, (m.start + n) as usize))
    }
}

/// Each match found holds a non-empty path that is exactly the text of the
/// input at `start..start + (byte length of the path)`, and `end` lies within
/// the input; a match whose path lost trailing punctuation has no line or
/// column number and ends right after its path.
pub proof fn lemma_scan_result_offsets(hay: Seq<u8>, caps: Seq<Seq<Option<(usize, usize)>>>, home: Option<Seq<char>>, res: Seq<PathMatchView>)
    requires
        valid_utf8(hay),
        spans_in_haystack(hay, caps),
        captures_shaped(caps),
        is_scan_result(hay, caps, home, res),
    ensures
        match_offsets_hold(hay, caps, res),
{
    let lens = choose|lens: Seq<Option<usize>>| #[trigger] lengths_validated(hay, caps, home, lens) && res == assemble(hay, caps, lens);
    lemma_validated_possible(hay, caps, home, lens);
    assert forall|k: int| 0 <= k < res.len() implies {
        let m = #[trigger] res[k];
        let n = encode_utf8(m.path).len();
        &&& n >= 1
        &&& m.start + n <= hay.len()
        &&& encode_utf8(m.path) == hay.subrange(m.start as int, m.start + n)
        &&& m.end <= hay.len()
        &&& (m.line_num is Some || m.col_num is Some || m.end != m.start + n) ==> exists|i: int|
            0 <= i < caps.len() && caps[i][1] == Some((m.start, (m.start + n) as usize))
    } by {
        lemma_assemble_members(hay, caps, lens, k);
        let (i, l) = choose|i: int, l: usize|
            0 <= i < caps.len() && lens[i] == Some(l)
            && candidate_lengths(raw_path(hay, caps[i])).contains(l)
            && #[trigger] assemble(hay, caps, lens)[k] == match_for(hay, caps[i], l);
        let c = caps[i];
        assert(c.len() >= 1 && c.len() >= 4 && c[0] is Some && c[1] is Some);
        assert(span_in(hay, c[1].unwrap()));
        assert(span_in(hay, c[0].unwrap()));
        let ps = c[1].unwrap().0;
        let pe = c[1].unwrap().1;
        let raw = raw_path(hay, c);
        let j = choose|j: int| 0 <= j < candidate_lengths(raw).len() && candidate_lengths(raw)[j] == l;
        lemma_candidates_trim_only_punctuation(raw, j);
        if l < pe - ps {
            assert(raw[l as int] == hay[ps + l]);
            lemma_ascii_byte_is_boundary(hay, ps + l);
        }
        let sub = hay.subrange(ps as int, ps + l);
        crate::utf8_text::lemma_suffix_boundary(hay, ps as int, (ps + l) as int);
        valid_utf8_split(hay.subrange(ps as int, hay.len() as int), l as int);
        assert(hay.subrange(ps as int, hay.len() as int).subrange(0, l as int) =~= sub);
        decode_utf8_encode_utf8(sub);
        let m = res[k];
        assert(m == match_for(hay, c, l));
        assert(encode_utf8(m.path) == sub);
    }
}

/// Each match covers at least its path, and the matches come left to right:
/// each one ends at or before the start of the next.
pub open spec fn matches_in_order(res: Seq<PathMatchView>) -> bool {
    &&& forall|k: int| 0 <= k < res.len() ==> #[trigger] res[k].start < res[k].end
    &&& forall|k1: int, k2: int| 0 <= k1 < k2 < res.len() ==> #[trigger] res[k1].end <= #[trigger] res[k2].start
}

/// The matches `assemble` makes come from the regex matches in their order.
proof fn lemma_assemble_order(hay: Seq<u8>, caps: Seq<Seq<Option<(usize, usize)>>>, lens: Seq<Option<usize>>, k1: int, k2: int)
    requires
        lengths_possible(hay, caps, lens),
        0 <= k1 < k2 < assemble(hay, caps, lens).len(),
    ensures
        exists|i1: int, l1: usize, i2: int, l2: usize|
            0 <= i1 < i2 < caps.len() && lens[i1] == Some(l1) && lens[i2] == Some(l2)
            && candidate_lengths(raw_path(hay, caps[i1])).contains(l1)
            && candidate_lengths(raw_path(hay, caps[i2])).contains(l2)
            && #[trigger] assemble(hay, caps, lens)[k1] == match_for(hay, caps[i1], l1)
            && #[trigger] assemble(hay, caps, lens)[k2] == match_for(hay, caps[i2], l2),
    decreases caps.len(),
{
    let n = caps.len() as int;
    let pc = caps.drop_last();
    let pl = lens.drop_last();
    assert(lengths_possible(hay, pc, pl)) by {
        assert forall|i: int| 0 <= i < pc.len() implies {
            &&& (#[trigger] pl[i] matches Some(l) ==> candidate_lengths(raw_path(hay, pc[i])).contains(l))
            &&& (candidate_lengths(raw_path(hay, pc[i])).len() == 0 ==> pl[i] is None)
        } by {
            assert(pl[i] == lens[i] && pc[i] == caps[i]);
        }
    }
    let prev = assemble(hay, pc, pl);
    if k2 < prev.len() {
        lemma_assemble_order(hay, pc, pl, k1, k2);
        let (i1, l1, i2, l2) = choose|i1: int, l1: usize, i2: int, l2: usize|
            0 <= i1 < i2 < pc.len() && pl[i1] == Some(l1) && pl[i2] == Some(l2)
            && candidate_lengths(raw_path(hay, pc[i1])).contains(l1)
            && candidate_lengths(raw_path(hay, pc[i2])).contains(l2)
            && #[trigger] assemble(hay, pc, pl)[k1] == match_for(hay, pc[i1], l1)
            && #[trigger] assemble(hay, pc, pl)[k2] == match_for(hay, pc[i2], l2);
        assert(lens[i1] == Some(l1) && caps[i1] == pc[i1]);
        assert(lens[i2] == Some(l2) && caps[i2] == pc[i2]);
        assert(assemble(hay, caps, lens)[k1] == prev[k1]);
        assert(assemble(hay, caps, lens)[k2] == prev[k2]);
    } else {
        lemma_assemble_members(hay, pc, pl, k1);
        let (i1, l1) = choose|i: int, l: usize|
            0 <= i < pc.len() && pl[i] == Some(l)
            && candidate_lengths(raw_path(hay, pc[i])).contains(l)
            && #[trigger] assemble(hay, pc, pl)[k1] == match_for(hay, pc[i], l);
        assert(lens[i1] == Some(l1) && caps[i1] == pc[i1]);
        assert(assemble(hay, caps, lens)[k1] == prev[k1]);
        let l2 = lens.last().unwrap();
        assert(lens[n - 1] == Some(l2));
        assert(assemble(hay, caps, lens)[k2] == match_for(hay, caps[n - 1], l2));
    }
}

/// A match made of a regex match lies inside it and covers at least its path.
proof fn lemma_member_span(hay: Seq<u8>, c: Seq<Option<(usize, usize)>>, l: usize)
    requires
        c.len() >= 4,
        c[0] is Some,
        c[1] is Some,
        span_in(hay, c[1].unwrap()),
        c[0].unwrap().0 <= c[1].unwrap().0,
        c[1].unwrap().1 <= c[0].unwrap().1,
        candidate_lengths(raw_path(hay, c)).contains(l),
    ensures
        c[0].unwrap().0 <= match_for(hay, c, l).start < match_for(hay, c, l).end <= c[0].unwrap().1,
{
    let raw = raw_path(hay, c);
    let j = choose|j: int| 0 <= j < candidate_lengths(raw).len() && candidate_lengths(raw)[j] == l;
    lemma_candidates_trim_only_punctuation(raw, j);
}

/// The matches found come left to right, each covering at least its path and
/// ending at or before the start of the next.
pub proof fn lemma_scan_result_order(hay: Seq<u8>, caps: Seq<Seq<Option<(usize, usize)>>>, home: Option<Seq<char>>, res: Seq<PathMatchView>)
    requires
        spans_in_haystack(hay, caps),
        captures_shaped(caps),
        matches_in_sequence(caps),
        is_scan_result(hay, caps, home, res),
    ensures
        matches_in_order(res),
{
    let lens = choose|lens: Seq<Option<usize>>| #[trigger] lengths_validated(hay, caps, home, lens) && res == assemble(hay, caps, lens);
    lemma_validated_possible(hay, caps, home, lens);
    assert forall|i: int, l: usize| 0 <= i < caps.len() && candidate_lengths(raw_path(hay, caps[i])).contains(l) implies
        caps[i][0].unwrap().0 <= #[trigger] match_for(hay, caps[i], l).start < match_for(hay, caps[i], l).end <= caps[i][0].unwrap().1 by {
        let c = caps[i];
        assert(c.len() >= 1 && c.len() >= 4);
        assert(span_in(hay, c[1].unwrap()));
        assert(c[1] is Some && c[0] is Some);
        lemma_member_span(hay, c, l);
    }
    assert forall|k: int| 0 <= k < res.len() implies #[trigger] res[k].start < res[k].end by {
        lemma_assemble_members(hay, caps, lens, k);
    }
    assert forall|k1: int, k2: int| 0 <= k1 < k2 < res.len() implies #[trigger] res[k1].end <= #[trigger] res[k2].start by {
        lemma_assemble_order(hay, caps, lens, k1, k2);
        let (i1, l1, i2, l2) = choose|i1: int, l1: usize, i2: int, l2: usize|
            0 <= i1 < i2 < caps.len() && lens[i1] == Some(l1) && lens[i2] == Some(l2)
            && candidate_lengths(raw_path(hay, caps[i1])).contains(l1)
            && candidate_lengths(raw_path(hay, caps[i2])).contains(l2)
            && #[trigger] assemble(hay, caps, lens)[k1] == match_for(hay, caps[i1], l1)
            && #[trigger] assemble(hay, caps, lens)[k2] == match_for(hay, caps[i2], l2);
        assert(caps[i1].len() >= 1 && caps[i2].len() >= 1);
        assert(caps[i1][0].unwrap().1 <= caps[i2][0].unwrap().0);
        assert(match_for(hay, caps[i1], l1).start >= 0);
        assert(match_for(hay, caps[i2], l2).start >= 0);
    }
}

/// Reads the number in a line or column group.
fn read_group(b: &[u8], g: Option<(usize, usize)>) -> (res: Option<u32>)
    requires
        g matches Some(span) ==> span.0 <= span.1 <= b@.len(),
    ensures
        res == group_number(b@, g),
{
    match g {
        Some((s, e)) => parse_u32(&b[s..e]),
        None => None,
    }
}

/// The match made of one regex match whose path group kept `len` bytes.
fn build_match(input: &str, cap: &GroupSpans, len: usize) -> (res: PathMatch)
    requires
        cap@.len() >= 4,
        cap@[0] is Some,
        cap@[1] is Some,
        forall|g: int| 0 <= g < cap@.len() && cap@[g] is Some ==> span_in(input.spec_bytes(), #[trigger] cap@[g].unwrap()),
        candidate_lengths(raw_path(input.spec_bytes(), cap@)).contains(len),
    ensures
        res@ == match_for(input.spec_bytes(), cap@, len),
{
    let ghost hay = input.spec_bytes();
    let bytes = input.as_bytes();
    let (ps, pe) = cap[1].unwrap();
    assert(span_in(hay, cap@[1].unwrap()));
    let ghost raw = raw_path(hay, cap@);
    proof {
        lemma_str_view_decodes(input);
        let k = choose|k: int| 0 <= k < candidate_lengths(raw).len() && candidate_lengths(raw)[k] == len;
        lemma_candidates_trim_only_punctuation(raw, k);
        if len < pe - ps {
            assert(raw[len as int] == hay[ps + len]);
            lemma_ascii_byte_is_boundary(hay, ps + len);
        }
    }
    let path = byte_slice(input, ps, ps + len).to_owned();
    if len == pe - ps {
        assert(cap@[2] matches Some(span) ==> span_in(hay, span));
        assert(cap@[3] matches Some(span) ==> span_in(hay, span));
        let line_num = read_group(bytes, cap[2]);
        let col_num = read_group(bytes, cap[3]);
        let end = cap[0].unwrap().1;
        PathMatch { path, line_num, col_num, start: ps, end }
    } else {
        PathMatch { path, line_num: None, col_num: None, start: ps, end: ps + len }
    }
}

/// Builds the matches from the regex matches over `input` and the answer of
/// `validate_path` for the path group of each (`None`: no prefix names a file).
/// A match is kept only where the answer is `Some`, in the order of the regex
/// matches; see `match_for` for what each kept match holds.
pub fn path_matches_from_spans(input: &str, caps: &Vec<GroupSpans>, lens: &Vec<Option<usize>>) -> (res: Vec<PathMatch>)
    requires
        spans_in_haystack(input.spec_bytes(), spans_view(caps@)),
        captures_shaped(spans_view(caps@)),
        lengths_possible(input.spec_bytes(), spans_view(caps@), lens@),
        kept_numbers_readable(input.spec_bytes(), spans_view(caps@), lens@),
    ensures
        matches_view(res@) == assemble(input.spec_bytes(), spans_view(caps@), lens@),
{
    let ghost hay = input.spec_bytes();
    let ghost all = spans_view(caps@);
    let mut res: Vec<PathMatch> = Vec::new();
    let mut i: usize = 0;
    while i < caps.len()
        invariant
            i <= caps@.len(),
            hay == input.spec_bytes(),
            all == spans_view(caps@),
            spans_in_haystack(hay, all),
            captures_shaped(all),
            lengths_possible(hay, all, lens@),
            matches_view(res@) == assemble(hay, all.take(i as int), lens@.take(i as int)),
        decreases caps@.len() - i,
    {
        assert(all.take(i + 1).drop_last() =~= all.take(i as int));
        assert(lens@.take(i + 1).drop_last() =~= lens@.take(i as int));
        assert(all[i as int] == caps@[i as int]@);
        let ghost c = all[i as int];
        assert(c.len() >= 1 && c.len() >= 4);
        assert(forall|g: int| 0 <= g < c.len() && c[g] is Some ==> span_in(hay, #[trigger] c[g].unwrap()));
        match lens[i] {
            Some(l) => {
                let m = build_match(input, &caps[i], l);
                res.push(m);
                assert(matches_view(res@) =~= matches_view(res@.drop_last()).push(m@));
            },
            None => {},
        }
        i = i + 1;
    }
    assert(all.take(i as int) =~= all);
    assert(lens@.take(i as int) =~= lens@);
    res
}

/// Runs `validate_path` on the path group of every regex match.
fn validate_candidates(input: &str, caps: &Vec<GroupSpans>, home: Option<&str>) -> (lens: Vec<Option<usize>>)
    requires
        spans_in_haystack(input.spec_bytes(), spans_view(caps@)),
        captures_shaped(spans_view(caps@)),
    ensures
        lengths_validated(input.spec_bytes(), spans_view(caps@), opt_str_view(home), lens@),
{
    let ghost hay = input.spec_bytes();
    let ghost all = spans_view(caps@);
    let mut lens: Vec<Option<usize>> = Vec::new();
    let mut i: usize = 0;
    while i < caps.len()
        invariant
            i <= caps@.len(),
            hay == input.spec_bytes(),
            all == spans_view(caps@),
            spans_in_haystack(hay, all),
            captures_shaped(all),
            lens@.len() == i,
            forall|j: int| 0 <= j < i ==> validation_fits(raw_path(hay, all[j]), opt_str_view(home), #[trigger] lens@[j]),
        decreases caps@.len() - i,
    {
        assert(all[i as int] == caps@[i as int]@);
        let ghost c = all[i as int];
        assert(c.len() >= 4);
        let (ps, pe) = caps[i][1].unwrap();
        assert(span_in(hay, c[1].unwrap()));
        let raw = byte_slice(input, ps, pe);
        let v = validate_path(raw, home);
        lens.push(v);
        i = i + 1;
    }
    lens
}

/// Whether every regex match has the path group.
fn spans_shaped(caps: &Vec<GroupSpans>) -> (ok: bool)
    ensures
        ok == captures_shaped(spans_view(caps@)),
{
    let ghost all = spans_view(caps@);
    let mut i: usize = 0;
    while i < caps.len()
        invariant
            i <= caps@.len(),
            all == spans_view(caps@),
            forall|j: int| 0 <= j < i ==> #[trigger] all[j].len() >= 4 && all[j][1] is Some,
        decreases caps@.len() - i,
    {
        assert(all[i as int] == caps@[i as int]@);
        if caps[i].len() < 4 || caps[i][1].is_none() {
            return false;
        }
        i = i + 1;
    }
    true
}

/// Whether the line and column groups of a match, where present, hold
/// numbers that fit in a `u32`.
fn numbers_readable(bytes: &[u8], cap: &GroupSpans) -> (ok: bool)
    requires
        cap@.len() >= 4,
        forall|g: int| 0 <= g < cap@.len() && cap@[g] is Some ==> span_in(bytes@, #[trigger] cap@[g].unwrap()),
    ensures
        ok == (number_readable(bytes@, cap@[2]) && number_readable(bytes@, cap@[3])),
{
    assert(cap@[2] matches Some(span) ==> span_in(bytes@, span));
    assert(cap@[3] matches Some(span) ==> span_in(bytes@, span));
    let line = read_group(bytes, cap[2]);
    let col = read_group(bytes, cap[3]);
    !((cap[2].is_some() && line.is_none()) || (cap[3].is_some() && col.is_none()))
}

/// Whether every match that could keep its path has readable numbers.
fn spans_usable(input: &str, caps: &Vec<GroupSpans>) -> (ok: bool)
    requires
        spans_in_haystack(input.spec_bytes(), spans_view(caps@)),
        captures_shaped(spans_view(caps@)),
    ensures
        ok == captures_usable(input.spec_bytes(), spans_view(caps@)),
{
    let ghost hay = input.spec_bytes();
    let ghost all = spans_view(caps@);
    let bytes = input.as_bytes();
    let mut i: usize = 0;
    while i < caps.len()
        invariant
            i <= caps@.len(),
            hay == input.spec_bytes(),
            bytes@ == hay,
            all == spans_view(caps@),
            spans_in_haystack(hay, all),
            captures_shaped(all),
            forall|j: int| #![trigger all[j]] 0 <= j < i && candidate_lengths(raw_path(hay, all[j])).len() > 0
                ==> number_readable(hay, all[j][2]) && number_readable(hay, all[j][3]),
        decreases caps@.len() - i,
    {
        assert(all[i as int] == caps@[i as int]@);
        let ghost c = all[i as int];
        assert(c.len() >= 4 && c[1] is Some);
        assert(forall|g: int| 0 <= g < c.len() && c[g] is Some ==> span_in(hay, #[trigger] c[g].unwrap()));
        let (ps, pe) = caps[i][1].unwrap();
        assert(span_in(hay, c[1].unwrap()));
        let raw = byte_slice(input, ps, pe);
        if trim_candidates(raw).len() > 0 && !numbers_readable(bytes, &caps[i]) {
            return false;
        }
        i = i + 1;
    }
    true
}

/// Whether every match whose path group was kept whole has readable numbers.
fn kept_readable(input: &str, caps: &Vec<GroupSpans>, lens: &Vec<Option<usize>>) -> (ok: bool)
    requires
        spans_in_haystack(input.spec_bytes(), spans_view(caps@)),
        captures_shaped(spans_view(caps@)),
        lens@.len() == caps@.len(),
    ensures
        ok == kept_numbers_readable(input.spec_bytes(), spans_view(caps@), lens@),
{
    let ghost hay = input.spec_bytes();
    let ghost all = spans_view(caps@);
    let bytes = input.as_bytes();
    let mut i: usize = 0;
    while i < caps.len()
        invariant
            i <= caps@.len(),
            lens@.len() == caps@.len(),
            hay == input.spec_bytes(),
            bytes@ == hay,
            all == spans_view(caps@),
            spans_in_haystack(hay, all),
            captures_shaped(all),
            forall|j: int| 0 <= j < i && #[trigger] lens@[j] == Some(path_group_len(all[j]))
                ==> number_readable(hay, all[j][2]) && number_readable(hay, all[j][3]),
        decreases caps@.len() - i,
    {
        assert(all[i as int] == caps@[i as int]@);
        let ghost c = all[i as int];
        assert(c.len() >= 4 && c[1] is Some);
        assert(forall|g: int| 0 <= g < c.len() && c[g] is Some ==> span_in(hay, #[trigger] c[g].unwrap()));
        let (ps, pe) = caps[i][1].unwrap();
        assert(span_in(hay, c[1].unwrap()));
        if lens[i] == Some(pe - ps) && !numbers_readable(bytes, &caps[i]) {
            return false;
        }
        i = i + 1;
    }
    true
}

/// Finds the paths in `input` that name files on disk, each with the
/// `:line[:col]` numbers that follow it, in the order they appear.
///
/// Candidates are the matches of `PATH_PATTERN`; each one's path is checked
/// with `validate_path`, which may trim trailing punctuation. `home` stands for
/// `~` in paths that start with `~/`.
pub fn extract_path_matches(input: &str, home: Option<&str>) -> (res: Vec<PathMatch>)
    requires
        regex_compiles(PATH_PATTERN@),
        captures_usable(input.spec_bytes(), regex_capture_spans(PATH_PATTERN@, input@)),
    ensures
        is_scan_result(input.spec_bytes(), regex_capture_spans(PATH_PATTERN@, input@), opt_str_view(home), matches_view(res@)),
        match_offsets_hold(input.spec_bytes(), regex_capture_spans(PATH_PATTERN@, input@), matches_view(res@)),
        matches_in_order(matches_view(res@)),
{
    let caps = capture_spans(PATH_PATTERN, input).unwrap();
    let lens = validate_candidates(input, &caps, home);
    proof {
        lemma_validated_possible(input.spec_bytes(), spans_view(caps@), opt_str_view(home), lens@);
        lemma_usable_numbers_readable(input.spec_bytes(), spans_view(caps@), lens@);
    }
    let res = path_matches_from_spans(input, &caps, &lens);
    assert(lengths_validated(input.spec_bytes(), regex_capture_spans(PATH_PATTERN@, input@), opt_str_view(home), lens@));
    proof {
        lemma_str_view_decodes(input);
        lemma_scan_result_offsets(input.spec_bytes(), regex_capture_spans(PATH_PATTERN@, input@), opt_str_view(home), matches_view(res@));
        lemma_scan_result_order(input.spec_bytes(), regex_capture_spans(PATH_PATTERN@, input@), opt_str_view(home), matches_view(res@));
    }
    res
}

/// Whether `extract_path_matches` can read every match in `input` whatever
/// the disk says: the pattern compiles, every match has its path group, and
/// every match whose path could be kept (it is not all slashes) has line and
/// column numbers that fit in a `u32`.
pub fn path_scan_possible(input: &str) -> (ok: bool)
    ensures
        ok == (regex_compiles(PATH_PATTERN@) && captures_usable(input.spec_bytes(), regex_capture_spans(PATH_PATTERN@, input@))),
{
    match capture_spans(PATH_PATTERN, input) {
        Some(caps) => spans_shaped(&caps) && spans_usable(input, &caps),
        None => false,
    }
}

/// `res` is what `try_extract_path_matches` makes of these regex matches with
/// `home`, for answers of the file-system probe to the paths it asked about:
/// `None` exactly when a path kept whole is followed by a line or column number
/// that does not fit in a `u32` (reading it fails), the matches otherwise.
pub open spec fn is_try_scan_result(hay: Seq<u8>, caps: Seq<Seq<Option<(usize, usize)>>>, home: Option<Seq<char>>, res: Option<Seq<PathMatchView>>) -> bool {
    exists|lens: Seq<Option<usize>>|
        #[trigger] lengths_validated(hay, caps, home, lens)
        && (res is Some <==> kept_numbers_readable(hay, caps, lens))
        && (res matches Some(v) ==> v == assemble(hay, caps, lens))
}

pub open spec fn opt_matches_view(res: Option<Vec<PathMatch>>) -> Option<Seq<PathMatchView>> {
    match res {
        Some(v) => Some(matches_view(v@)),
        None => None,
    }
}

/// Where every match that could keep its path has readable numbers, a scan
/// result is also what the fallible scan gives.
pub proof fn lemma_scan_result_is_try_result(hay: Seq<u8>, caps: Seq<Seq<Option<(usize, usize)>>>, home: Option<Seq<char>>, res: Seq<PathMatchView>)
    requires
        captures_usable(hay, caps),
        is_scan_result(hay, caps, home, res),
    ensures
        is_try_scan_result(hay, caps, home, Some(res)),
{
    let lens = choose|lens: Seq<Option<usize>>| #[trigger] lengths_validated(hay, caps, home, lens) && res == assemble(hay, caps, lens);
    lemma_validated_possible(hay, caps, home, lens);
    lemma_usable_numbers_readable(hay, caps, lens);
}

/// `extract_path_matches` for any input: `None` when the pattern does not
/// compile, a match lacks its path group, or a path kept whole is followed by
/// a line or column number that does not fit in a `u32` (where reading the
/// number fails); the matches otherwise.
pub fn try_extract_path_matches(input: &str, home: Option<&str>) -> (res: Option<Vec<PathMatch>>)
    ensures
        res is Some ==> regex_compiles(PATH_PATTERN@) && captures_shaped(regex_capture_spans(PATH_PATTERN@, input@)),
        regex_compiles(PATH_PATTERN@) && captures_shaped(regex_capture_spans(PATH_PATTERN@, input@))
            ==> is_try_scan_result(input.spec_bytes(), regex_capture_spans(PATH_PATTERN@, input@), opt_str_view(home), opt_matches_view(res)),
        res matches Some(v) ==> match_offsets_hold(input.spec_bytes(), regex_capture_spans(PATH_PATTERN@, input@), matches_view(v@)),
        res matches Some(v) ==> matches_in_order(matches_view(v@)),
{
    let caps = match capture_spans(PATH_PATTERN, input) {
        Some(caps) => caps,
        None => {
            return None;
        },
    };
    let ghost hay = input.spec_bytes();
    let ghost all = regex_capture_spans(PATH_PATTERN@, input@);
    let ghost h = opt_str_view(home);
    if !spans_shaped(&caps) {
        return None;
    }
    let lens = validate_candidates(input, &caps, home);
    assert(lengths_validated(hay, all, h, lens@));
    if !kept_readable(input, &caps, &lens) {
        assert(is_try_scan_result(hay, all, h, None));
        return None;
    }
    proof {
        lemma_validated_possible(hay, all, h, lens@);
    }
    let res = path_matches_from_spans(input, &caps, &lens);
    proof {
        assert(is_try_scan_result(hay, all, h, opt_matches_view(Some(res))));
        assert(is_scan_result(hay, all, h, matches_view(res@)));
        lemma_str_view_decodes(input);
        lemma_scan_result_offsets(hay, all, h, matches_view(res@));
        lemma_scan_result_order(hay, all, h, matches_view(res@));
    }
    Some(res)
}

} // verus!
