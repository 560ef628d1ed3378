//! The text of one stream together with the paths found in it, the three
//! streams of a run, and how matches are written out.
use vstd::prelude::*;
use vstd::utf8::encode_utf8;
use crate::decimal::{decimal_chars, lemma_parse_reads_decimal, push_decimal, spec_parse_u32};
use crate::utf8_text::bytes_of;
use crate::scan::{
    captures_shaped, captures_usable, is_scan_result, is_try_scan_result, lemma_scan_result_is_try_result,
    match_offsets_hold, matches_in_order, matches_view, regex_capture_spans, regex_compiles,
    try_extract_path_matches,
    extract_path_matches, path_scan_possible, PathMatch, PathMatchView, PATH_PATTERN,
};
use crate::tabs::TabKind;
use crate::paths::opt_str_view;

verus! {

/// A number in decimal, or `-` when there is none.
pub open spec fn number_or_dash(n: Option<u32>) -> Seq<char> {
    match n {
        Some(v) => decimal_chars(v as nat),
        None => seq!['-'],
    }
}

/// `path:line:col`, with `-` for a missing number.
pub open spec fn match_display(m: PathMatchView) -> Seq<char> {
    m.path + seq![':'] + number_or_dash(m.line_num) + seq![':'] + number_or_dash(m.col_num)
}

/// `Path: <path>, Line: <line>, Col: <col>`, with `-` for a missing number.
pub open spec fn match_label(m: PathMatchView) -> Seq<char> {
    "Path: "@ + m.path + ", Line: "@ + number_or_dash(m.line_num) + ", Col: "@ + number_or_dash(m.col_num)
}

/// The list label and the `path:line:col` display of a match say the same
/// thing: after `Line: ` and after the first `:` following the path stands the
/// decimal form of the match's own line number, after `Col: ` and after the
/// second `:` that of its own column number, each `-` where the number is
/// missing; and each decimal form reads back as the number it stands for.
pub proof fn lemma_label_states_own_numbers(m: PathMatchView)
    ensures
        ({
            let x = match m.line_num {
                Some(v) => decimal_chars(v as nat),
                None => seq!['-'],
            };
            let y = match m.col_num {
                Some(v) => decimal_chars(v as nat),
                None => seq!['-'],
            };
            &&& match_label(m) == "Path: "@ + m.path + ", Line: "@ + x + ", Col: "@ + y
            &&& match_display(m) == m.path + seq![':'] + x + seq![':'] + y
            &&& (m.line_num matches Some(v) ==> spec_parse_u32(bytes_of(x)) == Some(v))
            &&& (m.col_num matches Some(v) ==> spec_parse_u32(bytes_of(y)) == Some(v))
        }),
{
    match m.line_num {
        Some(v) => lemma_parse_reads_decimal(v),
        None => {},
    }
    match m.col_num {
        Some(v) => lemma_parse_reads_decimal(v),
        None => {},
    }
}

/// One indented line per match.
pub open spec fn match_lines(ms: Seq<PathMatchView>) -> Seq<char>
    decreases ms.len(),
{
    if ms.len() == 0 {
        seq![]
    } else {
        match_lines(ms.drop_last()) + "  "@ + match_display(ms.last()) + "\n"@
    }
}

/// The listing of a stream's matches: a `Matches:` header, then each match on
/// a line of its own.
pub open spec fn packed_display(ms: Seq<PathMatchView>) -> Seq<char> {
    "Matches:\n"@ + match_lines(ms)
}

fn push_number_or_dash(out: &mut String, n: Option<u32>)
    ensures
        final(out)@ == old(out)@ + number_or_dash(n),
{
    match n {
        Some(v) => push_decimal(out, v),
        None => {
            proof {
                reveal_strlit("-");
            }
            out.append("-");
        },
    }
}

impl PathMatch {
    /// The match as `path:line:col`, with `-` for a missing number.
    pub fn to_display_string(&self) -> (res: String)
        ensures
            res@ == match_display(self@),
    {
        let mut out = self.path.clone();
        proof {
            reveal_strlit(":");
        }
        out.append(":");
        push_number_or_dash(&mut out, self.line_num);
        out.append(":");
        push_number_or_dash(&mut out, self.col_num);
        assert(out@ =~= match_display(self@));
        out
    }

    /// The text of the match's entry in the list view:
    /// `Path: <path>, Line: <line>, Col: <col>`.
    pub fn list_label(&self) -> (res: String)
        ensures
            res@ == match_label(self@),
    {
        let mut out = String::new();
        out.append("Path: ");
        out.append(self.path.as_str());
        out.append(", Line: ");
        push_number_or_dash(&mut out, self.line_num);
        out.append(", Col: ");
        push_number_or_dash(&mut out, self.col_num);
        assert(out@ =~= match_label(self@));
        out
    }
}

/// The matches of a stream, if there is one.
pub open spec fn packed_matches_view(p: Option<Packed>) -> Option<Seq<PathMatchView>> {
    match p {
        Some(p) => Some(matches_view(p.matches@)),
        None => None,
    }
}

/// The text of one stream and the paths found in it.
pub struct Packed {
    pub content: String,
    pub matches: Vec<PathMatch>,
}

impl Packed {
    /// Keeps `content` and the paths that `extract_path_matches` finds in it.
    pub fn new(content: String, home: Option<&str>) -> (res: Packed)
        requires
            regex_compiles(PATH_PATTERN@),
            captures_usable(encode_utf8(content@), regex_capture_spans(PATH_PATTERN@, content@)),
        ensures
            res.content == content,
            is_scan_result(encode_utf8(content@), regex_capture_spans(PATH_PATTERN@, content@), opt_str_view(home), matches_view(res.matches@)),
            match_offsets_hold(encode_utf8(content@), regex_capture_spans(PATH_PATTERN@, content@), matches_view(res.matches@)),
            matches_in_order(matches_view(res.matches@)),
    {
        let matches = extract_path_matches(content.as_str(), home);
        Packed { content, matches }
    }

    /// `Packed::new` for any content: the content with its matches, or `None`
    /// where `try_extract_path_matches` gives `None` (a path kept whole is
    /// followed by a line or column number that does not fit in a `u32`).
    pub fn try_new(content: String, home: Option<&str>) -> (res: Option<Packed>)
        ensures
            res is Some ==> regex_compiles(PATH_PATTERN@) && captures_shaped(regex_capture_spans(PATH_PATTERN@, content@)),
            regex_compiles(PATH_PATTERN@) && captures_shaped(regex_capture_spans(PATH_PATTERN@, content@))
                ==> is_try_scan_result(encode_utf8(content@), regex_capture_spans(PATH_PATTERN@, content@), opt_str_view(home), packed_matches_view(res)),
            res matches Some(p) ==> p.content == content,
            res matches Some(p) ==> match_offsets_hold(encode_utf8(content@), regex_capture_spans(PATH_PATTERN@, content@), matches_view(p.matches@)),
            res matches Some(p) ==> matches_in_order(matches_view(p.matches@)),
    {
        if path_scan_possible(content.as_str()) {
            let p = Packed::new(content, home);
            proof {
                lemma_scan_result_is_try_result(encode_utf8(content@), regex_capture_spans(PATH_PATTERN@, content@), opt_str_view(home), matches_view(p.matches@));
            }
            Some(p)
        } else {
            match try_extract_path_matches(content.as_str(), home) {
                Some(matches) => Some(Packed { content, matches }),
                None => None,
            }
        }
    }

    /// The match to select when moving on from match `selected` to the next
    /// path on the same line of the content: the first later match that starts
    /// on that line, else, going round, the first match on that line.
    pub fn next_on_same_line(&self, selected: usize) -> (res: usize)
        requires
            selected < self.matches@.len(),
        ensures
            res == next_on_line(encode_utf8(self.content@), matches_view(self.matches@), selected as int),
            res < self.matches@.len(),
    {
        let b = self.content.as_str().as_bytes();
        // Reading the length tells that `selected + 1` fits in a `usize`.
        let _count = self.matches.len();
        let line = line_at(b, self.matches[selected].start);
        match find_on_line(b, &self.matches, line, selected + 1) {
            Some(j) => j,
            None => match find_on_line(b, &self.matches, line, 0) {
                Some(j) => j,
                None => selected,
            },
        }
    }

    /// The listing of the matches: `Matches:`, then `  path:line:col` for each.
    pub fn to_display_string(&self) -> (res: String)
        ensures
            res@ == packed_display(matches_view(self.matches@)),
    {
        let mut out = String::new();
        out.append("Matches:\n");
        let ghost ms = matches_view(self.matches@);
        let mut i: usize = 0;
        while i < self.matches.len()
            invariant
                i <= self.matches@.len(),
                ms == matches_view(self.matches@),
                out@ == "Matches:\n"@ + match_lines(ms.take(i as int)),
            decreases self.matches@.len() - i,
        {
            assert(ms.take(i + 1).drop_last() =~= ms.take(i as int));
            out.append("  ");
            let line = self.matches[i].to_display_string();
            out.append(line.as_str());
            out.append("\n");
            assert(out@ =~= "Matches:\n"@ + match_lines(ms.take(i + 1)));
            i = i + 1;
        }
        assert(ms.take(i as int) =~= ms);
        out
    }
}

impl Default for Packed {
    fn default() -> (res: Packed)
        ensures
            res.content@ == Seq::<char>::empty(),
            res.matches@.len() == 0,
    {
        Packed { content: String::new(), matches: Vec::new() }
    }
}

/// The line, counted from 0, that byte offset `pos` of `b` lies on: the number of
/// `\n` bytes before it (an offset past the end counts all of them).
pub open spec fn line_index(b: Seq<u8>, pos: int) -> nat
    decreases pos,
{
    if pos <= 0 {
        0
    } else if pos > b.len() {
        line_index(b, b.len() as int)
    } else {
        line_index(b, pos - 1) + if b[pos - 1] == 10u8 { 1nat } else { 0nat }
    }
}

/// The first index from `j` on whose match starts on line `line`.
pub open spec fn first_on_line(b: Seq<u8>, ms: Seq<PathMatchView>, line: nat, j: int) -> Option<int>
    decreases ms.len() - j,
{
    if j < 0 || j >= ms.len() {
        None
    } else if line_index(b, ms[j].start as int) == line {
        Some(j)
    } else {
        first_on_line(b, ms, line, j + 1)
    }
}

/// The next path on the line of match `sel`: the first later match that starts
/// on the same line, else, going round, the first match on that line.
pub open spec fn next_on_line(b: Seq<u8>, ms: Seq<PathMatchView>, sel: int) -> int {
    let line = line_index(b, ms[sel].start as int);
    match first_on_line(b, ms, line, sel + 1) {
        Some(j) => j,
        None => match first_on_line(b, ms, line, 0) {
            Some(j) => j,
            None => sel,
        },
    }
}

/// No `\n` lies between byte offsets `p` and `q` of `b`, in either order.
pub open spec fn no_newline_between(b: Seq<u8>, p: int, q: int) -> bool {
    forall|k: int| (p <= k < q || q <= k < p) ==> #[trigger] b[k] != 10u8
}

/// Moving forward never goes back a line, and stays on the same line exactly
/// when no `\n` is passed.
proof fn lemma_line_index_forward(b: Seq<u8>, p1: int, p2: int)
    requires
        0 <= p1 <= p2 <= b.len(),
    ensures
        line_index(b, p1) <= line_index(b, p2),
        line_index(b, p1) == line_index(b, p2) <==> no_newline_between(b, p1, p2),
    decreases p2,
{
    if p1 < p2 {
        lemma_line_index_forward(b, p1, p2 - 1);
        if b[p2 - 1] == 10u8 {
            assert(!no_newline_between(b, p1, p2));
        } else {
            if no_newline_between(b, p1, p2 - 1) {
                assert forall|k: int| (p1 <= k < p2 || p2 <= k < p1) implies #[trigger] b[k] != 10u8 by {
                    if k < p2 - 1 {
                        assert(p1 <= k < p2 - 1);
                    }
                }
            } else {
                let k = choose|k: int| (p1 <= k < p2 - 1 || p2 - 1 <= k < p1) && #[trigger] b[k] == 10u8;
                assert(!no_newline_between(b, p1, p2) && b[k] == 10u8);
            }
        }
    }
}

/// Two offsets within `b` lie on the same line exactly when no `\n` lies
/// between them.
pub proof fn lemma_same_line_iff_no_newline(b: Seq<u8>, p: int, q: int)
    requires
        0 <= p <= b.len(),
        0 <= q <= b.len(),
    ensures
        line_index(b, p) == line_index(b, q) <==> no_newline_between(b, p, q),
{
    if p <= q {
        lemma_line_index_forward(b, p, q);
    } else {
        lemma_line_index_forward(b, q, p);
    }
}

/// What the search from `j` finds: the first match from `j` on that starts on
/// `line`, or none when no match from `j` on does.
proof fn lemma_first_on_line(b: Seq<u8>, ms: Seq<PathMatchView>, line: nat, j: int)
    requires
        0 <= j,
    ensures
        match first_on_line(b, ms, line, j) {
            Some(r) => j <= r < ms.len() && line_index(b, ms[r].start as int) == line
                && forall|i: int| j <= i < r ==> line_index(b, #[trigger] ms[i].start as int) != line,
            None => forall|i: int| j <= i < ms.len() ==> line_index(b, #[trigger] ms[i].start as int) != line,
        },
    decreases ms.len() - j,
{
    if j < ms.len() && line_index(b, ms[j].start as int) != line {
        lemma_first_on_line(b, ms, line, j + 1);
    }
}

/// `Tab` stays on the line of the selected match: the match it selects starts
/// on that line (no `\n` lies between the two starts). It moves to another
/// match whenever one starts on that line: the next such match after the
/// selected one, or, going round, the first such match from the top.
pub proof fn lemma_next_on_line_same_line(b: Seq<u8>, ms: Seq<PathMatchView>, sel: int)
    requires
        0 <= sel < ms.len(),
        forall|i: int| 0 <= i < ms.len() ==> (#[trigger] ms[i].start) <= b.len(),
    ensures
        ({
            let r = next_on_line(b, ms, sel);
            let p = ms[sel].start as int;
            &&& 0 <= r < ms.len()
            &&& no_newline_between(b, p, ms[r].start as int)
            &&& (exists|j: int| 0 <= j < ms.len() && j != sel && no_newline_between(b, p, #[trigger] ms[j].start as int))
                ==> r != sel
            &&& (exists|j: int| sel < j < ms.len() && no_newline_between(b, p, #[trigger] ms[j].start as int))
                ==> sel < r && forall|j: int| sel < j < r ==> !no_newline_between(b, p, #[trigger] ms[j].start as int)
            &&& (forall|j: int| sel < j < ms.len() ==> !no_newline_between(b, p, #[trigger] ms[j].start as int))
                ==> r <= sel && forall|j: int| 0 <= j < r ==> !no_newline_between(b, p, #[trigger] ms[j].start as int)
        }),
{
    let p = ms[sel].start as int;
    let line = line_index(b, p);
    let r = next_on_line(b, ms, sel);
    assert forall|j: int| 0 <= j < ms.len() implies
        (line_index(b, #[trigger] ms[j].start as int) == line <==> no_newline_between(b, p, ms[j].start as int)) by {
        lemma_same_line_iff_no_newline(b, p, ms[j].start as int);
    }
    lemma_first_on_line(b, ms, line, sel + 1);
    lemma_first_on_line(b, ms, line, 0);
    match first_on_line(b, ms, line, sel + 1) {
        Some(j) => {},
        None => {
            assert(line_index(b, ms[sel].start as int) == line);
            assert(first_on_line(b, ms, line, 0) is Some);
            let r0 = first_on_line(b, ms, line, 0).unwrap();
            assert(r0 <= sel);
            if exists|j: int| 0 <= j < ms.len() && j != sel && no_newline_between(b, p, #[trigger] ms[j].start as int) {
                let j = choose|j: int| 0 <= j < ms.len() && j != sel && no_newline_between(b, p, #[trigger] ms[j].start as int);
                assert(line_index(b, ms[j].start as int) == line);
                assert(j < sel);
                assert(r0 <= j);
            }
        },
    }
}

/// The line that byte offset `pos` lies on.
fn line_at(b: &[u8], pos: usize) -> (res: usize)
    ensures
        res == line_index(b@, pos as int),
{
    let end = if pos < b.len() { pos } else { b.len() };
    let mut count: usize = 0;
    let mut i: usize = 0;
    while i < end
        invariant
            i <= end <= b@.len(),
            count <= i,
            count == line_index(b@, i as int),
        decreases end - i,
    {
        if b[i] == 10u8 {
            count = count + 1;
        }
        i = i + 1;
    }
    count
}

/// The first index from `from` on whose match starts on line `line`.
fn find_on_line(b: &[u8], ms: &Vec<PathMatch>, line: usize, from: usize) -> (res: Option<usize>)
    ensures
        match res {
            Some(j) => first_on_line(b@, matches_view(ms@), line as nat, from as int) == Some(j as int) && j < ms@.len(),
            None => first_on_line(b@, matches_view(ms@), line as nat, from as int) is None,
        },
{
    let ghost v = matches_view(ms@);
    let mut j = from;
    while j < ms.len()
        invariant
            from <= j,
            v == matches_view(ms@),
            first_on_line(b@, v, line as nat, from as int) == first_on_line(b@, v, line as nat, j as int),
        decreases ms@.len() - j,
    {
        if line_at(b, ms[j].start) == line {
            return Some(j);
        }
        j = j + 1;
    }
    None
}

/// The three streams of a run: what was piped in, and what the command wrote
/// to its standard output and standard error.
pub struct Output {
    pub o_stdin: Packed,
    pub o_stdout: Packed,
    pub o_stderr: Packed,
}

impl Output {
    /// The stream that a tab shows.
    pub fn packed(&self, tab: TabKind) -> (res: &Packed)
        ensures
            res == (match tab {
                TabKind::Stdin => &self.o_stdin,
                TabKind::Stdout => &self.o_stdout,
                TabKind::Stderr => &self.o_stderr,
            }),
    {
        match tab {
            TabKind::Stdin => &self.o_stdin,
            TabKind::Stdout => &self.o_stdout,
            TabKind::Stderr => &self.o_stderr,
        }
    }
}

impl Default for Output {
    fn default() -> (res: Output)
        ensures
            res.o_stdin.content@ == Seq::<char>::empty() && res.o_stdin.matches@.len() == 0,
            res.o_stdout.content@ == Seq::<char>::empty() && res.o_stdout.matches@.len() == 0,
            res.o_stderr.content@ == Seq::<char>::empty() && res.o_stderr.matches@.len() == 0,
    {
        Output { o_stdin: Packed::default(), o_stdout: Packed::default(), o_stderr: Packed::default() }
    }
}

} // verus!
