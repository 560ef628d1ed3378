//! Reading `path:line:contents` lines, as `grep -n` and `rg -n` print them.
use vstd::prelude::*;
use vstd::string::StringSliceAdditionalSpecFns;
use vstd::utf8::*;
use crate::decimal::{decimal_chars, is_digit_byte, lemma_parse_reads_decimal, parse_u32, push_decimal, spec_parse_u32};
use crate::utf8_text::{
    byte_slice, bytes_of, lemma_after_ascii_is_boundary, lemma_ascii_byte_is_boundary,
    lemma_bytes_of_ascii_char, lemma_bytes_of_concat, lemma_str_view_decodes,
};

verus! {

/// The first index at or after `i` that holds byte `c`, or the length when
/// there is none.
pub open spec fn next_index_of(b: Seq<u8>, i: int, c: u8) -> int
    decreases b.len() - i,
{
    if i >= b.len() {
        b.len() as int
    } else if b[i] == c {
        i
    } else {
        next_index_of(b, i + 1, c)
    }
}

/// The lines of `b[i..]`, as `str::lines` splits them: at each `\n`, with a
/// `\r` right before the `\n` dropped, and no empty line after a final `\n`.
pub open spec fn lines_from(b: Seq<u8>, i: int) -> Seq<Seq<u8>>
    decreases b.len() - i,
{
    if i < 0 || i >= b.len() {
        seq![]
    } else {
        let j = next_index_of(b, i, 10u8);
        proof {
            lemma_next_index_of_bounds(b, i, 10u8);
        }
        let piece = b.subrange(i, j);
        let line = if j < b.len() && piece.len() > 0 && piece.last() == 13u8 {
            piece.drop_last()
        } else {
            piece
        };
        if j >= b.len() {
            seq![line]
        } else {
            seq![line] + lines_from(b, j + 1)
        }
    }
}

/// The index found lies between `i` and the length, holds `c` unless it is the
/// length, and no byte before it from `i` on is `c`.
pub proof fn lemma_next_index_of_bounds(b: Seq<u8>, i: int, c: u8)
    requires
        0 <= i <= b.len(),
    ensures
        i <= next_index_of(b, i, c) <= b.len(),
        next_index_of(b, i, c) < b.len() ==> b[next_index_of(b, i, c)] == c,
        forall|k: int| i <= k < next_index_of(b, i, c) ==> b[k] != c,
    decreases b.len() - i,
{
    if i < b.len() && b[i] != c {
        lemma_next_index_of_bounds(b, i + 1, c);
    }
}

/// No line holds a `\n`.
pub proof fn lemma_lines_have_no_newline(b: Seq<u8>, i: int)
    ensures
        forall|k: int, j: int|
            0 <= k < lines_from(b, i).len() && 0 <= j < lines_from(b, i)[k].len()
                ==> #[trigger] lines_from(b, i)[k][j] != 10u8,
    decreases b.len() - i,
{
    if 0 <= i < b.len() {
        lemma_next_index_of_bounds(b, i, 10u8);
        let j0 = next_index_of(b, i, 10u8);
        if j0 < b.len() {
            lemma_lines_have_no_newline(b, j0 + 1);
        }
        let ls = lines_from(b, i);
        assert forall|k: int, j: int| 0 <= k < ls.len() && 0 <= j < ls[k].len() implies #[trigger] ls[k][j] != 10u8 by {
            if k == 0 {
                assert(ls[0][j] == b[i + j]);
            } else {
                assert(ls[k] == lines_from(b, j0 + 1)[k - 1]);
            }
        }
    }
}

/// Lines put back together with a `\n` between each two.
pub open spec fn join_lines(ls: Seq<Seq<u8>>) -> Seq<u8>
    decreases ls.len(),
{
    if ls.len() == 0 {
        seq![]
    } else if ls.len() == 1 {
        ls[0]
    } else {
        ls[0] + seq![10u8] + join_lines(ls.drop_first())
    }
}

proof fn lemma_join_lines_from(b: Seq<u8>, i: int)
    requires
        0 <= i <= b.len(),
        forall|k: int| 0 <= k < b.len() ==> b[k] != 13u8,
    ensures
        join_lines(lines_from(b, i)) + (if i < b.len() && b.last() == 10u8 { seq![10u8] } else { seq![] })
            == b.subrange(i, b.len() as int),
    decreases b.len() - i,
{
    if i < b.len() {
        lemma_next_index_of_bounds(b, i, 10u8);
        let j = next_index_of(b, i, 10u8);
        let piece = b.subrange(i, j);
        if j < b.len() && piece.len() > 0 {
            assert(piece.last() == b[j - 1]);
        }
        let ls = lines_from(b, i);
        if j >= b.len() {
            assert(ls =~= seq![piece]);
            assert(b.last() == b[b.len() - 1]);
            assert(piece =~= b.subrange(i, b.len() as int));
        } else {
            lemma_join_lines_from(b, j + 1);
            let rest = lines_from(b, j + 1);
            assert(ls =~= seq![piece] + rest);
            if j + 1 == b.len() {
                assert(rest =~= Seq::<Seq<u8>>::empty());
                assert(join_lines(ls) == piece);
                assert(b.last() == b[j]);
                assert(piece + seq![10u8] =~= b.subrange(i, b.len() as int));
            } else {
                assert(rest.len() > 0);
                assert(ls.drop_first() =~= rest);
                assert(join_lines(ls) == piece + seq![10u8] + join_lines(rest));
                assert(piece + seq![10u8] + b.subrange(j + 1, b.len() as int) =~= b.subrange(i, b.len() as int));
            }
        }
    }
}

/// Joining the lines back with `\n` (and a final `\n` if the text ended with
/// one) gives the text back, when it holds no `\r`.
pub proof fn lemma_lines_join_back(b: Seq<u8>)
    requires
        forall|k: int| 0 <= k < b.len() ==> b[k] != 13u8,
    ensures
        join_lines(lines_from(b, 0)) + (if b.len() > 0 && b.last() == 10u8 { seq![10u8] } else { seq![] }) == b,
{
    lemma_join_lines_from(b, 0);
    assert(b.subrange(0, b.len() as int) =~= b);
}

/// The first index at or after `from` that holds byte `c`, or the length.
fn index_of(b: &[u8], from: usize, c: u8) -> (res: usize)
    requires
        from <= b@.len(),
    ensures
        res == next_index_of(b@, from as int, c),
{
    let mut i = from;
    while i < b.len() && b[i] != c
        invariant
            from <= i <= b@.len(),
            next_index_of(b@, from as int, c) == next_index_of(b@, i as int, c),
        decreases b@.len() - i,
    {
        i = i + 1;
    }
    i
}

/// The lines of `output`, as `str::lines` gives them.
pub fn split_result<'a>(output: &'a str) -> (res: Vec<&'a str>)
    ensures
        res@.map_values(|s: &str| s.spec_bytes()) == lines_from(output.spec_bytes(), 0),
{
    let b = output.as_bytes();
    let n = b.len();
    let ghost bytes = output.spec_bytes();
    proof {
        lemma_str_view_decodes(output);
        is_char_boundary_start_end_of_seq(bytes);
    }
    let mut res: Vec<&'a str> = Vec::new();
    let mut i: usize = 0;
    while i < n
        invariant
            i <= n,
            n == bytes.len(),
            b@ == bytes,
            bytes == output.spec_bytes(),
            valid_utf8(bytes),
            is_char_boundary(bytes, i as int),
            res@.map_values(|s: &str| s.spec_bytes()) + lines_from(bytes, i as int) == lines_from(bytes, 0),
        decreases n - i,
    {
        let j = index_of(b, i, 10u8);
        proof {
            lemma_next_index_of_bounds(bytes, i as int, 10u8);
            if j < n {
                lemma_ascii_byte_is_boundary(bytes, j as int);
            } else {
                is_char_boundary_start_end_of_seq(bytes);
            }
        }
        let end = if j < n && j > i && b[j - 1] == 13u8 { j - 1 } else { j };
        proof {
            if end < j {
                lemma_ascii_byte_is_boundary(bytes, end as int);
            }
        }
        let line = byte_slice(output, i, end);
        let ghost before = res@;
        res.push(line);
        proof {
            let piece = bytes.subrange(i as int, j as int);
            if end < j {
                assert(piece.drop_last() =~= bytes.subrange(i as int, end as int));
            } else {
                assert(piece =~= bytes.subrange(i as int, end as int));
            }
            assert(res@.map_values(|s: &str| s.spec_bytes()) =~= before.map_values(|s: &str| s.spec_bytes()).push(line.spec_bytes()));
            assert(lines_from(bytes, i as int) == seq![line.spec_bytes()] + lines_from(bytes, j + 1));
            assert(res@.map_values(|s: &str| s.spec_bytes()) + lines_from(bytes, j + 1) =~= before.map_values(|s: &str| s.spec_bytes()) + lines_from(bytes, i as int));
            if j < n {
                lemma_after_ascii_is_boundary(bytes, j as int);
            }
        }
        if j >= n {
            assert(lines_from(bytes, j + 1) =~= Seq::<Seq<u8>>::empty());
            assert(res@.map_values(|s: &str| s.spec_bytes()) =~= lines_from(bytes, 0));
            return res;
        }
        i = j + 1;
    }
    assert(lines_from(bytes, i as int) =~= Seq::<Seq<u8>>::empty());
    assert(res@.map_values(|s: &str| s.spec_bytes()) =~= lines_from(bytes, 0));
    res
}

/// One `path:line:contents` line.
pub struct SearchResult<'a> {
    pub file_path: Option<&'a str>,
    pub line_num: Option<u32>,
    pub contents: &'a str,
}

pub struct SearchResultView {
    pub file_path: Option<Seq<char>>,
    pub line_num: Option<u32>,
    pub contents: Seq<char>,
}

impl<'a> View for SearchResult<'a> {
    type V = SearchResultView;

    open spec fn view(&self) -> SearchResultView {
        SearchResultView {
            file_path: match self.file_path {
                Some(f) => Some(f@),
                None => None,
            },
            line_num: self.line_num,
            contents: self.contents@,
        }
    }
}

/// A line read as `path:line:contents`: the path runs up to the first `:`, the
/// line number up to the next `:` and must read as a `u32`, and the contents
/// are the rest. `None` when the line does not have that shape.
pub open spec fn parse_line(l: Seq<u8>) -> Option<SearchResultView> {
    let k = next_index_of(l, 0, 58u8);
    let k2 = next_index_of(l, k + 1, 58u8);
    if k >= l.len() || k2 >= l.len() {
        None
    } else {
        match spec_parse_u32(l.subrange(k + 1, k2)) {
            Some(n) => Some(SearchResultView {
                file_path: Some(decode_utf8(l.subrange(0, k))),
                line_num: Some(n),
                contents: decode_utf8(l.subrange(k2 + 1, l.len() as int)),
            }),
            None => None,
        }
    }
}

/// The search finds `c` at the first place it occurs from `i` on.
pub proof fn lemma_next_index_of_first(b: Seq<u8>, i: int, k: int, c: u8)
    requires
        0 <= i <= k < b.len(),
        b[k] == c,
        forall|j: int| i <= j < k ==> b[j] != c,
    ensures
        next_index_of(b, i, c) == k,
    decreases k - i,
{
    if i < k {
        lemma_next_index_of_first(b, i + 1, k, c);
    }
}

/// Every line with a `:` at `k`, the next `:` at `k2` and a `u32` written
/// between them is read: the path is what comes before the first `:`, the line
/// number is that `u32`, and the contents are all that follows the second `:`,
/// whatever they hold (spaces, more colons, nothing at all).
pub proof fn lemma_parse_line_complete(l: Seq<u8>, k: int, k2: int, n: u32)
    requires
        0 <= k < k2 < l.len(),
        l[k] == 58u8,
        l[k2] == 58u8,
        forall|j: int| 0 <= j < k ==> l[j] != 58u8,
        forall|j: int| k < j < k2 ==> l[j] != 58u8,
        spec_parse_u32(l.subrange(k + 1, k2)) == Some(n),
    ensures
        parse_line(l) == Some(SearchResultView {
            file_path: Some(decode_utf8(l.subrange(0, k))),
            line_num: Some(n),
            contents: decode_utf8(l.subrange(k2 + 1, l.len() as int)),
        }),
{
    lemma_next_index_of_first(l, 0, k, 58u8);
    lemma_next_index_of_first(l, k + 1, k2, 58u8);
}

/// A line written as `path:number:contents`, with a path that holds no `:` and
/// the number in decimal, is read back as that path, that number and those
/// contents, whatever the contents are.
pub proof fn lemma_parse_line_reads_written(path: Seq<u8>, n: u32, contents: Seq<u8>)
    requires
        forall|j: int| 0 <= j < path.len() ==> path[j] != 58u8,
    ensures
        parse_line(path + seq![58u8] + bytes_of(decimal_chars(n as nat)) + seq![58u8] + contents)
            == Some(SearchResultView {
                file_path: Some(decode_utf8(path)),
                line_num: Some(n),
                contents: decode_utf8(contents),
            }),
{
    let d = bytes_of(decimal_chars(n as nat));
    lemma_parse_reads_decimal(n);
    let l = path + seq![58u8] + d + seq![58u8] + contents;
    let k = path.len() as int;
    let k2 = k + 1 + d.len();
    assert(l.subrange(0, k) =~= path);
    assert(l.subrange(k + 1, k2) =~= d);
    assert(l.subrange(k2 + 1, l.len() as int) =~= contents);
    assert(l[k] == 58u8);
    assert(l[k2] == 58u8);
    assert forall|j: int| 0 <= j < k implies l[j] != 58u8 by {
        assert(l[j] == path[j]);
    }
    assert forall|j: int| k < j < k2 implies l[j] != 58u8 by {
        assert(l[j] == d[j - k - 1]);
        assert(is_digit_byte(d[j - k - 1]));
    }
    lemma_parse_line_complete(l, k, k2, n);
}

/// The results of the lines that have the `path:line:contents` shape, in order.
pub open spec fn parse_lines(ls: Seq<Seq<u8>>) -> Seq<SearchResultView>
    decreases ls.len(),
{
    if ls.len() == 0 {
        seq![]
    } else {
        let prev = parse_lines(ls.drop_last());
        match parse_line(ls.last()) {
            Some(r) => prev.push(r),
            None => prev,
        }
    }
}

fn parse_one<'a>(so: &'a str) -> (res: Option<SearchResult<'a>>)
    ensures
        match res {
            Some(r) => parse_line(so.spec_bytes()) == Some(r@),
            None => parse_line(so.spec_bytes()) is None,
        },
{
    let b = so.as_bytes();
    let n = b.len();
    let ghost l = so.spec_bytes();
    proof {
        lemma_str_view_decodes(so);
        is_char_boundary_start_end_of_seq(l);
    }
    let k = index_of(b, 0, 58u8);
    proof {
        lemma_next_index_of_bounds(l, 0, 58u8);
    }
    if k >= n {
        return None;
    }
    let k2 = index_of(b, k + 1, 58u8);
    proof {
        lemma_next_index_of_bounds(l, k + 1, 58u8);
    }
    if k2 >= n {
        return None;
    }
    let num = parse_u32(&b[k + 1..k2]);
    match num {
        Some(line_num) => {
            proof {
                lemma_ascii_byte_is_boundary(l, k as int);
                lemma_ascii_byte_is_boundary(l, k2 as int);
                lemma_after_ascii_is_boundary(l, k2 as int);
            }
            let file_path = byte_slice(so, 0, k);
            let contents = byte_slice(so, k2 + 1, n);
            Some(SearchResult { file_path: Some(file_path), line_num: Some(line_num), contents })
        },
        None => None,
    }
}

/// Reads every line that has the `path:line:contents` shape; the others are
/// skipped.
pub fn parse_result<'a>(split_output: &[&'a str]) -> (res: Vec<SearchResult<'a>>)
    ensures
        res@.map_values(|r: SearchResult<'a>| r@) == parse_lines(split_output@.map_values(|s: &str| s.spec_bytes())),
{
    let ghost ls = split_output@.map_values(|s: &str| s.spec_bytes());
    let mut res: Vec<SearchResult<'a>> = Vec::new();
    let mut i: usize = 0;
    while i < split_output.len()
        invariant
            i <= split_output@.len(),
            ls == split_output@.map_values(|s: &str| s.spec_bytes()),
            res@.map_values(|r: SearchResult<'a>| r@) == parse_lines(ls.take(i as int)),
        decreases split_output@.len() - i,
    {
        assert(ls.take(i + 1).drop_last() =~= ls.take(i as int));
        assert(ls.take(i + 1).last() == split_output@[i as int].spec_bytes());
        let ghost before = res@;
        match parse_one(split_output[i]) {
            Some(r) => {
                res.push(r);
                assert(res@.map_values(|r: SearchResult<'a>| r@) =~= before.map_values(|r: SearchResult<'a>| r@).push(r@));
            },
            None => {},
        }
        i = i + 1;
    }
    assert(ls.take(i as int) =~= ls);
    res
}

/// `path:line:contents` followed by an empty line.
pub open spec fn search_display(r: SearchResultView) -> Seq<char> {
    r.file_path.unwrap() + seq![':'] + decimal_chars(r.line_num.unwrap() as nat) + seq![':'] + r.contents + seq!['\n', '\n']
}

/// The bytes of the line-number field of a `path:line:contents` line.
pub open spec fn number_field(l: Seq<u8>) -> Seq<u8> {
    let k = next_index_of(l, 0, 58u8);
    l.subrange(k + 1, next_index_of(l, k + 1, 58u8))
}

/// Writing out a line that was read as `path:line:contents` gives the line
/// back (and an empty line after it), as long as its number was written the
/// way `u32::to_string` writes it (no `+`, no leading zeros).
pub proof fn lemma_display_gives_line_back(l: Seq<u8>)
    requires
        valid_utf8(l),
        parse_line(l) is Some,
        number_field(l) == bytes_of(decimal_chars(parse_line(l).unwrap().line_num.unwrap() as nat)),
    ensures
        bytes_of(search_display(parse_line(l).unwrap())) == l + seq![10u8, 10u8],
{
    let r = parse_line(l).unwrap();
    let k = next_index_of(l, 0, 58u8);
    let k2 = next_index_of(l, k + 1, 58u8);
    lemma_next_index_of_bounds(l, 0, 58u8);
    lemma_next_index_of_bounds(l, k + 1, 58u8);
    is_char_boundary_start_end_of_seq(l);
    lemma_ascii_byte_is_boundary(l, k);
    lemma_ascii_byte_is_boundary(l, k2);
    lemma_after_ascii_is_boundary(l, k2);
    let file = l.subrange(0, k);
    let rest = l.subrange(k2 + 1, l.len() as int);
    valid_utf8_split(l, k);
    valid_utf8_split(l, k2 + 1);
    decode_utf8_encode_utf8(file);
    decode_utf8_encode_utf8(rest);
    let f = r.file_path.unwrap();
    let d = decimal_chars(r.line_num.unwrap() as nat);
    lemma_bytes_of_ascii_char(':');
    lemma_bytes_of_ascii_char('\n');
    lemma_bytes_of_concat(seq!['\n'], seq!['\n']);
    assert(seq!['\n'] + seq!['\n'] =~= seq!['\n', '\n']);
    lemma_bytes_of_concat(f, seq![':']);
    lemma_bytes_of_concat(f + seq![':'], d);
    lemma_bytes_of_concat(f + seq![':'] + d, seq![':']);
    lemma_bytes_of_concat(f + seq![':'] + d + seq![':'], r.contents);
    lemma_bytes_of_concat(f + seq![':'] + d + seq![':'] + r.contents, seq!['\n', '\n']);
    assert(bytes_of(f) == file);
    assert(bytes_of(r.contents) == rest);
    assert(l =~= file + seq![58u8] + l.subrange(k + 1, k2) + seq![58u8] + rest);
    assert(bytes_of(search_display(r)) =~= l + seq![10u8, 10u8]);
}

impl<'a> SearchResult<'a> {
    /// `path:line:contents` followed by an empty line.
    pub fn to_display_string(&self) -> (res: String)
        requires
            self.file_path is Some,
            self.line_num is Some,
        ensures
            res@ == search_display(self@),
    {
        let mut out = String::new();
        match self.file_path {
            Some(f) => out.append(f),
            None => {},
        }
        proof {
            reveal_strlit(":");
            reveal_strlit("\n\n");
        }
        out.append(":");
        match self.line_num {
            Some(n) => push_decimal(&mut out, n),
            None => {},
        }
        out.append(":");
        out.append(self.contents);
        out.append("\n\n");
        out
    }
}

} // verus!
