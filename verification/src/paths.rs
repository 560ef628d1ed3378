//! Deciding which prefix of a candidate string names a file: `~/` expansion,
//! trimming of trailing sentence punctuation, and the file-system probe.
use vstd::prelude::*;
use vstd::string::StringSliceAdditionalSpecFns;
use vstd::utf8::*;
use crate::utf8_text::{lemma_ascii_byte_is_boundary, lemma_str_view_decodes};

verus! {

/// Sentence punctuation that may trail a path in prose and is trimmed before
/// giving up on it: `. , ; : ) ] } > " ' !`. All of them are ASCII, so a byte
/// with one of these values is always a whole character.
pub open spec fn is_trailing_punct_byte(b: u8) -> bool {
    ||| b == 46u8
    ||| b == 44u8
    ||| b == 59u8
    ||| b == 58u8
    ||| b == 41u8
    ||| b == 93u8
    ||| b == 125u8
    ||| b == 62u8
    ||| b == 34u8
    ||| b == 39u8
    ||| b == 33u8
}

/// Whether `b` is one of the trailing punctuation characters.
pub fn is_trailing_punct(b: u8) -> (res: bool)
    ensures
        res == is_trailing_punct_byte(b),
{
    b == 46u8 || b == 44u8 || b == 59u8 || b == 58u8 || b == 41u8 || b == 93u8 || b == 125u8
        || b == 62u8 || b == 34u8 || b == 39u8 || b == 33u8
}

/// Every byte is `/` (the empty string included): nothing is left once slashes
/// are trimmed from both ends.
pub open spec fn all_slashes(b: Seq<u8>) -> bool {
    forall|i: int| 0 <= i < b.len() ==> #[trigger] b[i] == 47u8
}

/// The length left of the first `len` bytes once trailing punctuation is taken
/// off one byte at a time, never going below one byte.
pub open spec fn trimmed_len(b: Seq<u8>, len: int) -> int
    decreases len,
{
    if len > 1 && is_trailing_punct_byte(b[len - 1]) {
        trimmed_len(b, len - 1)
    } else {
        len
    }
}

/// The prefix lengths that are tried, longest first: the whole string, then one
/// byte shorter for each trailing punctuation character, down to one byte.
/// A string made only of slashes has none.
pub open spec fn candidate_lengths(b: Seq<u8>) -> Seq<usize> {
    if all_slashes(b) {
        seq![]
    } else {
        let n = b.len();
        Seq::new((n - trimmed_len(b, n as int) + 1) as nat, |i: int| (n - i) as usize)
    }
}

/// What trimming leaves behind: at least one byte, and only trailing
/// punctuation is cut off.
pub proof fn lemma_trimmed_len_bounds(b: Seq<u8>, len: int)
    requires
        1 <= len <= b.len(),
    ensures
        1 <= trimmed_len(b, len) <= len,
        forall|k: int| trimmed_len(b, len) <= k < len ==> is_trailing_punct_byte(#[trigger] b[k]),
    decreases len,
{
    if len > 1 && is_trailing_punct_byte(b[len - 1]) {
        lemma_trimmed_len_bounds(b, len - 1);
    }
}

/// Each length that `validate_path` may return is a prefix of the string that
/// is at least one byte long, and only trailing punctuation lies after it.
pub proof fn lemma_candidates_trim_only_punctuation(b: Seq<u8>, i: int)
    requires
        0 <= i < candidate_lengths(b).len(),
        b.len() <= usize::MAX,
    ensures
        ({
            let l = candidate_lengths(b)[i] as int;
            &&& 1 <= l <= b.len()
            &&& forall|k: int| l <= k < b.len() ==> is_trailing_punct_byte(#[trigger] b[k])
        }),
{
    if b.len() == 0 {
        assert(all_slashes(b));
    }
    let n = b.len() as int;
    lemma_trimmed_len_bounds(b, n);
    let m = trimmed_len(b, n);
    let l = candidate_lengths(b)[i] as int;
    assert(l == n - i);
    assert forall|k: int| l <= k < n implies is_trailing_punct_byte(#[trigger] b[k]) by {
        assert(m <= k < n);
    }
}

/// Trimming looks only at the bytes it trims: two byte strings that agree on
/// their first `len` bytes trim those bytes to the same length.
proof fn lemma_trimmed_len_prefix(b1: Seq<u8>, b2: Seq<u8>, len: int)
    requires
        0 <= len <= b1.len(),
        len <= b2.len(),
        forall|k: int| 0 <= k < len ==> b1[k] == b2[k],
    ensures
        trimmed_len(b1, len) == trimmed_len(b2, len),
    decreases len,
{
    if len > 1 {
        lemma_trimmed_len_prefix(b1, b2, len - 1);
    }
}

/// A path followed by one of `. , ; : ) ] } > " ' !` is tried first as it
/// stands and then exactly as the path alone would be: the candidates are the
/// full length followed by the path's own candidates, and the probe for the
/// path's length asks about the same path as the path alone does.
pub proof fn lemma_trailing_punctuation_trimmed(s: Seq<u8>, p: u8, home: Option<Seq<char>>)
    requires
        p == 46u8 || p == 44u8 || p == 59u8 || p == 58u8 || p == 41u8 || p == 93u8
            || p == 125u8 || p == 62u8 || p == 34u8 || p == 39u8 || p == 33u8,
        !all_slashes(s),
        s.len() + 1 <= usize::MAX,
    ensures
        candidate_lengths(s.push(p)) == seq![(s.len() + 1) as usize] + candidate_lengths(s),
        candidate_lengths(s)[0] == s.len(),
        probe_target(s.push(p), s.len() as int, home) == probe_target(s, s.len() as int, home),
{
    let n = s.len() as int;
    let t = s.push(p);
    assert(t[n] == p);
    assert(!all_slashes(t)) by {
        let i = choose|i: int| 0 <= i < s.len() && s[i] != 47u8;
        assert(t[i] == s[i]);
    }
    lemma_trimmed_len_prefix(t, s, n);
    assert(trimmed_len(t, n + 1) == trimmed_len(t, n));
    lemma_trimmed_len_bounds(s, n);
    assert(candidate_lengths(t) =~= seq![(s.len() + 1) as usize] + candidate_lengths(s));
    assert(t.subrange(0, n) =~= s.subrange(0, n));
}

/// A path followed by any other byte (a letter, a digit, `/`, a non-ASCII
/// byte, ...) is tried as it stands only: nothing is trimmed.
pub proof fn lemma_other_endings_not_trimmed(s: Seq<u8>, p: u8)
    requires
        !(p == 46u8 || p == 44u8 || p == 59u8 || p == 58u8 || p == 41u8 || p == 93u8
            || p == 125u8 || p == 62u8 || p == 34u8 || p == 39u8 || p == 33u8),
        !all_slashes(s.push(p)),
        s.len() + 1 <= usize::MAX,
    ensures
        candidate_lengths(s.push(p)) == seq![(s.len() + 1) as usize],
{
    let t = s.push(p);
    assert(t[s.len() as int] == p);
    assert(trimmed_len(t, s.len() + 1int) == s.len() + 1);
    assert(candidate_lengths(t) =~= seq![(s.len() + 1) as usize]);
}

/// `path` with a leading `~/` replaced by the home directory and a slash;
/// unchanged when it does not start with `~/` or no home directory is known.
pub open spec fn expand_tilde_spec(path: Seq<char>, home: Option<Seq<char>>) -> Seq<char> {
    if path.len() >= 2 && path[0] == '~' && path[1] == '/' && home is Some {
        home.unwrap() + seq!['/'] + path.skip(2)
    } else {
        path
    }
}

pub open spec fn opt_str_view(s: Option<&str>) -> Option<Seq<char>> {
    match s {
        Some(h) => Some(h@),
        None => None,
    }
}

/// Expands a leading `~/` to `home` followed by `/`. `home` is the value of the
/// `HOME` variable, if it is set.
pub fn expand_tilde(path: &str, home: Option<&str>) -> (res: String)
    ensures
        res@ == expand_tilde_spec(path@, opt_str_view(home)),
{
    match home {
        Some(h) => {
            let n = path.unicode_len();
            if n >= 2 && path.get_char(0) == '~' && path.get_char(1) == '/' {
                let rest = path.substring_char(2, n);
                let mut out = h.to_owned();
                proof {
                    reveal_strlit("/");
                }
                out.append("/");
                out.append(rest);
                assert(out@ =~= expand_tilde_spec(path@, opt_str_view(home)));
                out
            } else {
                path.to_owned()
            }
        },
        None => path.to_owned(),
    }
}

/// Asks the file system whether `path` names an existing file or directory,
/// through `std::path::Path::exists`. The answer depends on the disk at the
/// moment of the call, so nothing is promised about it.
#[verifier::external_body]
fn path_exists(path: &str) -> bool {
    std::path::Path::new(path).exists()
}

/// The prefix lengths that `validate_path` tries, in the order it tries them.
pub fn trim_candidates(raw: &str) -> (res: Vec<usize>)
    ensures
        res@ == candidate_lengths(raw.spec_bytes()),
{
    let b = raw.as_bytes();
    let n = b.len();
    let mut i: usize = 0;
    while i < n && b[i] == 47u8
        invariant
            i <= n,
            n == b@.len(),
            forall|k: int| 0 <= k < i ==> #[trigger] b@[k] == 47u8,
        decreases n - i,
    {
        i = i + 1;
    }
    let mut res: Vec<usize> = Vec::new();
    if i == n {
        assert(all_slashes(b@));
        assert(res@ =~= candidate_lengths(b@));
        return res;
    }
    assert(b@[i as int] != 47u8);
    assert(!all_slashes(b@));
    let mut len: usize = n;
    loop
        invariant
            1 <= len <= n,
            n == b@.len(),
            b@ == raw.spec_bytes(),
            !all_slashes(b@),
            trimmed_len(b@, len as int) == trimmed_len(b@, n as int),
            res@ =~= Seq::new((n - len) as nat, |j: int| (n - j) as usize),
        decreases len,
    {
        res.push(len);
        if len > 1 && is_trailing_punct(b[len - 1]) {
            len = len - 1;
        } else {
            assert(trimmed_len(b@, len as int) == len);
            let ghost c = candidate_lengths(b@);
            assert(c.len() == n - len + 1);
            assert forall|j: int| 0 <= j < c.len() implies c[j] == res@[j] by {}
            assert(res@ =~= c);
            return res;
        }
    }
}

/// What probing a candidate prefix leads to.
#[derive(Clone, Copy, Debug, PartialEq, Eq, Structural)]
pub enum Probe {
    /// The prefix of this length names a file: it is the answer.
    Found(usize),
    /// It does not; the next prefix to probe has this length.
    Next(usize),
    /// It does not, and no shorter prefix is tried: there is no answer.
    GiveUp,
}

/// The step after probing the first `len` bytes of `b`: the answer if the
/// prefix exists, otherwise one byte less when the prefix ends in trailing
/// punctuation and is longer than one byte, otherwise no answer.
pub open spec fn probe_outcome(b: Seq<u8>, len: int, exists: bool) -> Probe {
    if exists {
        Probe::Found(len as usize)
    } else if len > 1 && is_trailing_punct_byte(b[len - 1]) {
        Probe::Next((len - 1) as usize)
    } else {
        Probe::GiveUp
    }
}

/// Decides what follows the probe of the first `len` bytes of `raw`, given
/// whether that prefix was found on disk.
pub fn after_probe(raw: &str, len: usize, exists: bool) -> (res: Probe)
    requires
        1 <= len <= raw.spec_bytes().len(),
    ensures
        res == probe_outcome(raw.spec_bytes(), len as int, exists),
{
    let b = raw.as_bytes();
    if exists {
        Probe::Found(len)
    } else if len > 1 && is_trailing_punct(b[len - 1]) {
        Probe::Next(len - 1)
    } else {
        Probe::GiveUp
    }
}

/// The path that is probed for the first `len` bytes of `b`: that prefix after
/// `~/` expansion with `home`.
pub open spec fn probe_target(b: Seq<u8>, len: int, home: Option<Seq<char>>) -> Seq<char> {
    expand_tilde_spec(decode_utf8(b.subrange(0, len)), home)
}

/// `probe` may answer `ans` when handed a string with the characters `target`.
pub open spec fn may_answer<F: Fn(&str) -> bool>(probe: F, target: Seq<char>, ans: bool) -> bool {
    exists|q: &str| q@ == target && #[trigger] call_ensures(probe, (q,), ans)
}

/// The answer that probing the candidates of `b` in order gives: `Some(l)` when
/// the probe said yes to the path of candidate `l` and no to the path of every
/// longer candidate; `None` when it said no to every candidate's path (a string
/// of slashes only has none).
pub open spec fn probed_answer<F: Fn(&str) -> bool>(probe: F, b: Seq<u8>, home: Option<Seq<char>>, res: Option<usize>) -> bool {
    let c = candidate_lengths(b);
    match res {
        Some(l) => {
            &&& c.contains(l)
            &&& may_answer(probe, probe_target(b, l as int, home), true)
            &&& forall|k: int| 0 <= k < c.len() && c[k] > l ==> may_answer(probe, probe_target(b, #[trigger] c[k] as int, home), false)
        },
        None => forall|k: int| 0 <= k < c.len() ==> may_answer(probe, probe_target(b, #[trigger] c[k] as int, home), false),
    }
}

/// The answer fits what `std::path::Path::exists` may say of the probed paths:
/// `probed_answer` with the file-system probe of this crate.
pub closed spec fn validation_fits(b: Seq<u8>, home: Option<Seq<char>>, res: Option<usize>) -> bool {
    probed_answer(path_exists, b, home, res)
}

/// What `validation_fits` gives away: an answer is a candidate length, and a
/// string without candidates has no answer.
pub proof fn lemma_validation_fits_candidate(b: Seq<u8>, home: Option<Seq<char>>, res: Option<usize>)
    requires
        validation_fits(b, home, res),
    ensures
        res matches Some(l) ==> candidate_lengths(b).contains(l),
{
}

/// A path followed by one of `. , ; : ) ] } > " ' !` is found as the path
/// alone: where the probe says no to the whole string and yes to the path
/// without the punctuation, the only answer that fits is the path's length.
pub proof fn lemma_punctuated_path_found<F: Fn(&str) -> bool>(
    probe: F,
    s: Seq<u8>,
    p: u8,
    home: Option<Seq<char>>,
    res: Option<usize>,
)
    requires
        p == 46u8 || p == 44u8 || p == 59u8 || p == 58u8 || p == 41u8 || p == 93u8
            || p == 125u8 || p == 62u8 || p == 34u8 || p == 39u8 || p == 33u8,
        !all_slashes(s),
        s.len() + 1 <= usize::MAX,
        !may_answer(probe, probe_target(s.push(p), s.len() + 1int, home), true),
        !may_answer(probe, probe_target(s, s.len() as int, home), false),
        probed_answer(probe, s.push(p), home, res),
    ensures
        res == Some(s.len() as usize),
{
    let t = s.push(p);
    let n = s.len() as int;
    lemma_trailing_punctuation_trimmed(s, p, home);
    lemma_trimmed_len_bounds(s, n);
    let c = candidate_lengths(t);
    let cs = candidate_lengths(s);
    assert(cs.len() >= 1);
    assert(c[0] == n + 1);
    assert(c[1] == cs[0]);
    assert(c[1] == n);
    match res {
        Some(l) => {
            let k = choose|k: int| 0 <= k < c.len() && c[k] == l;
            if k == 0 {
                assert(false);
            } else if k > 1 {
                assert(c[k] == cs[k - 1]);
                assert(c[k] < n);
                assert(c[1] > l);
                assert(false);
            }
        },
        None => {
            assert(may_answer(probe, probe_target(t, c[1] as int, home), false));
            assert(false);
        },
    }
}

/// `validate_path` with the probe given: the longest candidate prefix of `raw`
/// whose path (after `~/` expansion with `home`) the probe says yes to, probing
/// longest first and stopping at the first yes. Returns its length in bytes.
pub fn validate_path_with<F: Fn(&str) -> bool>(raw: &str, home: Option<&str>, probe: &F) -> (res: Option<usize>)
    requires
        forall|q: &str| #[trigger] probe.requires((q,)),
    ensures
        probed_answer(*probe, raw.spec_bytes(), opt_str_view(home), res),
{
    let cands = trim_candidates(raw);
    let ghost b = raw.spec_bytes();
    let ghost h = opt_str_view(home);
    let ghost c = candidate_lengths(b);
    if cands.len() == 0 {
        return None;
    }
    let n = raw.as_bytes().len();
    let ghost m = trimmed_len(b, n as int);
    proof {
        lemma_str_view_decodes(raw);
        lemma_trimmed_len_bounds(b, n as int);
        assert(!all_slashes(b));
    }
    let mut len: usize = n;
    loop
        invariant
            b == raw.spec_bytes(),
            b.len() == n,
            h == opt_str_view(home),
            c == candidate_lengths(b),
            forall|q: &str| #[trigger] probe.requires((q,)),
            valid_utf8(b),
            !all_slashes(b),
            m == trimmed_len(b, n as int),
            c.len() == n - m + 1,
            1 <= m <= len <= n,
            trimmed_len(b, len as int) == m,
            forall|k: int| m <= k < n ==> is_trailing_punct_byte(#[trigger] b[k]),
            forall|k: int| 0 <= k < c.len() && c[k] > len ==> may_answer(*probe, probe_target(b, #[trigger] c[k] as int, h), false),
        decreases len,
    {
        proof {
            if len < n {
                lemma_ascii_byte_is_boundary(b, len as int);
            } else {
                is_char_boundary_start_end_of_seq(b);
            }
        }
        let (candidate, _) = raw.split_at(len);
        let target = expand_tilde(candidate, home);
        let q = target.as_str();
        let exists = probe(q);
        proof {
            lemma_str_view_decodes(candidate);
            assert(candidate.spec_bytes() =~= b.subrange(0, len as int));
            assert(q@ == probe_target(b, len as int, h));
            assert(may_answer(*probe, probe_target(b, len as int, h), exists));
            assert(c[n - len] == len);
        }
        match after_probe(raw, len, exists) {
            Probe::Found(l) => {
                return Some(l);
            },
            Probe::Next(l) => {
                proof {
                    lemma_trimmed_len_bounds(b, l as int);
                    assert forall|k: int| 0 <= k < c.len() && c[k] > l implies may_answer(*probe, probe_target(b, #[trigger] c[k] as int, h), false) by {
                        if c[k] == len {
                            assert(k == n - len);
                        }
                    }
                }
                len = l;
            },
            Probe::GiveUp => {
                proof {
                    assert(trimmed_len(b, len as int) == len);
                    assert forall|k: int| 0 <= k < c.len() implies may_answer(*probe, probe_target(b, #[trigger] c[k] as int, h), false) by {
                        if c[k] == len {
                            assert(k == n - len);
                        }
                    }
                }
                return None;
            },
        }
    }
}

/// The longest prefix of `raw` that names an existing file, after trimming
/// trailing sentence punctuation that cannot be told apart from the path.
/// Returns the prefix's length in bytes.
///
/// The prefixes are probed longest first with `std::path::Path::exists`, each
/// after `~/` expansion with `home`; `after_probe` decides from each answer
/// whether that prefix is the result, which prefix is probed next, or that
/// there is none.
pub fn validate_path(raw: &str, home: Option<&str>) -> (res: Option<usize>)
    ensures
        validation_fits(raw.spec_bytes(), opt_str_view(home), res),
        res matches Some(l) ==> candidate_lengths(raw.spec_bytes()).contains(l),
        candidate_lengths(raw.spec_bytes()).len() == 0 ==> res is None,
{
    validate_path_with(raw, home, &path_exists)
}

} // verus!
