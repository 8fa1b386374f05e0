//! Fuzzy matching of known library-function bodies in decompiled text: a
//! longest-common-subsequence alignment finds the closest occurrence of a
//! pattern's prefix and suffix, a locality-sensitive fingerprint comparison
//! decides whether the match is close enough, and the matched span is then
//! replaced by a readable name. The pattern file itself is read outside the
//! library; this module works on the loaded patterns.

use vstd::prelude::*;

verus! {

/// One known library-function pattern: fingerprint, textual prefix and
/// suffix, and the replacement text.
#[derive(Debug, PartialEq, Eq)]
pub struct Pattern {
    pub name: String,
    pub hash: String,
    pub prefix_pattern: String,
    pub suffix_pattern: String,
    pub body_replace: String,
}

/// Why a fingerprint could not be computed.
#[derive(Debug, Clone, Copy, PartialEq, Eq, Structural)]
pub enum LinkerError {
    /// The input is shorter than the fingerprint's minimum of 50 characters.
    MinSizeNotReached,
    /// The fingerprint library rejected the input.
    BuildFailed,
}

/// The fingerprint library accepts at most 4,224,281,216 input bytes; a
/// character is at most four bytes, so inputs up to this many characters
/// stay safely below that limit.
pub const TLSH_MAX_CHARS: usize = 0x3EF0_0000;

/// The longest common subsequence the alignment library returns for two
/// character sequences; a pure function of the two inputs.
pub uninterp spec fn lcs_of(a: Seq<char>, b: Seq<char>) -> Seq<char>;

/// `s` is a subsequence of `t`.
pub open spec fn is_subseq_of(s: Seq<char>, t: Seq<char>) -> bool
    decreases s.len() + t.len(),
{
    if s.len() == 0 {
        true
    } else if t.len() == 0 {
        false
    } else if s[0] == t[0] {
        is_subseq_of(s.drop_first(), t.drop_first())
    } else {
        is_subseq_of(s, t.drop_first())
    }
}

/// The edit distance the distance library returns for two character
/// sequences; a pure function of the two inputs.
pub uninterp spec fn lev_of(a: Seq<char>, b: Seq<char>) -> nat;

/// Whether the fingerprint library builds a fingerprint for a text: its
/// quartile computation depends on the input's bytes alone, so this is a
/// pure function of the text.
pub uninterp spec fn tlsh_builds(s: Seq<char>) -> bool;

#[verifier::external_type_specification]
#[verifier::external_body]
pub struct ExTlsh(tlsh::Tlsh);

#[verifier::external_type_specification]
#[verifier::external_body]
pub struct ExTlshError(tlsh::TlshError);

/// Relies on lcs::LcsTable::longest_common_subsequence: per its
/// documentation it returns a longest common subsequence of the two inputs
/// (pairs of equal elements, one from each, taken at increasing positions),
/// and its dynamic-programming table makes the result a function of the two
/// inputs alone.
#[verifier::external_body]
fn lcs_common(a: &str, b: &str) -> (r: String)
    ensures
        r@ == lcs_of(a@, b@),
        is_subseq_of(r@, a@),
        is_subseq_of(r@, b@),
        forall|s: Seq<char>|
            is_subseq_of(s, a@) && is_subseq_of(s, b@) ==> s.len() <= r@.len(),
{
    let av: Vec<char> = a.chars().collect();
    let bv: Vec<char> = b.chars().collect();
    let table = lcs::LcsTable::new(av.as_slice(), bv.as_slice());
    let common = table.longest_common_subsequence();
    common.iter().map(|&(c1, _)| c1).collect::<String>()
}

/// Relies on levenshtein::levenshtein: the edit distance of the two inputs,
/// a function of their characters alone; equal inputs give zero, against an
/// empty input it is the other input's character count, and it never exceeds
/// the longer input's character count (the distance grid it fills is bounded
/// by substitutions plus the length difference).
#[verifier::external_body]
fn lev_distance(a: &str, b: &str) -> (r: usize)
    ensures
        r == lev_of(a@, b@),
        a@ == b@ ==> r == 0,
        a@.len() == 0 ==> r == b@.len(),
        b@.len() == 0 ==> r == a@.len(),
        a@.len() <= b@.len() ==> r <= b@.len(),
        b@.len() <= a@.len() ==> r <= a@.len(),
{
    levenshtein::levenshtein(a, b)
}

/// Relies on tlsh::TlshBuilder (new, update, build): computes the
/// locality-sensitive fingerprint of the input's bytes, or reports why none
/// exists. Whether a build succeeds depends on the input's bytes alone
/// (`tlsh_builds` names that outcome); per its source, an input under 50
/// bytes is always rejected, and an input beyond the library's 4 GB limit
/// would make `build` panic on an internal unwrap — the `requires` keeps the
/// byte length under that limit.
#[verifier::external_body]
fn tlsh_build(code: &str) -> (r: Result<tlsh::Tlsh, tlsh::TlshError>)
    requires
        code@.len() <= TLSH_MAX_CHARS,
    ensures
        r is Ok <==> tlsh_builds(code@),
{
    let mut builder = tlsh::TlshBuilder::new(
        tlsh::BucketKind::Bucket128,
        tlsh::ChecksumKind::OneByte,
        tlsh::Version::Version4,
    );
    builder.update(code.as_bytes());
    builder.build()
}

/// A fingerprint this module built. `tlsh::Tlsh::diff` walks the other
/// fingerprint by its own checksum and code lengths, so it may only compare
/// fingerprints built with the same parameters; the field is private and the
/// module's one constructor (`get_sequence_tlsh`, through `tlsh_build`)
/// fixes those parameters, so any two values of this type compare safely.
#[derive(Debug)]
pub struct Fingerprint {
    fp: tlsh::Tlsh,
}

/// Relies on tlsh::Tlsh::diff: the distance between two fingerprints, a
/// function of the two fingerprints alone. Both arguments carry the one
/// parameter set `tlsh_build` fixes (see `Fingerprint`), which keeps the
/// walk over the other fingerprint in bounds.
#[verifier::external_body]
fn tlsh_diff(a: &Fingerprint, b: &Fingerprint, with_len: bool) -> (r: usize)
{
    a.fp.diff(&b.fp, with_len)
}

/// Computes the fingerprint of a text. Fails with `MinSizeNotReached`
/// exactly when the text has fewer than 50 characters, and succeeds exactly
/// when it is long enough and the fingerprint library accepts it; any
/// rejection by the library is reported as `BuildFailed`. The length cap is
/// the fingerprint library's input limit.
pub fn get_sequence_tlsh(code: &String) -> (r: Result<Fingerprint, LinkerError>)
    requires
        code@.len() <= TLSH_MAX_CHARS,
    ensures
        (r matches Err(e) && e == LinkerError::MinSizeNotReached) <==> code@.len() < 50,
        r is Ok <==> (code@.len() >= 50 && tlsh_builds(code@)),
        (r matches Err(e) && e == LinkerError::BuildFailed) <==> (code@.len() >= 50
            && !tlsh_builds(code@)),
{
    if code.as_str().unicode_len() < 50 {
        return Err(LinkerError::MinSizeNotReached);
    }
    match tlsh_build(code.as_str()) {
        Ok(t) => Ok(Fingerprint { fp: t }),
        Err(_) => Err(LinkerError::BuildFailed),
    }
}

/// The longest common subsequence of a function body and a pattern: a
/// subsequence of both, and no common subsequence is longer.
pub fn get_lcs_pattern(function_body: &str, pattern: &str) -> (r: Result<String, LinkerError>)
    ensures
        r matches Ok(s) && s@ == lcs_of(function_body@, pattern@),
        r matches Ok(s) && is_subseq_of(s@, function_body@),
        r matches Ok(s) && is_subseq_of(s@, pattern@),
        forall|q: Seq<char>|
            is_subseq_of(q, function_body@) && is_subseq_of(q, pattern@) ==> q.len()
                <= lcs_of(function_body@, pattern@).len(),
{
    Ok(lcs_common(function_body, pattern))
}

/// The longest common subsequence of a function body and a pattern, as a
/// plain string: a subsequence of both, and no common subsequence is longer.
pub fn check_lcs_patterns(function_body: &str, pattern: &str) -> (r: String)
    ensures
        r@ == lcs_of(function_body@, pattern@),
        is_subseq_of(r@, function_body@),
        is_subseq_of(r@, pattern@),
        forall|q: Seq<char>|
            is_subseq_of(q, function_body@) && is_subseq_of(q, pattern@) ==> q.len() <= r@.len(),
{
    lcs_common(function_body, pattern)
}

/// The (saturated) combined edit distance of the window at `i` against the
/// prefix and suffix patterns.
pub open spec fn window_dist(body: Seq<char>, pre: Seq<char>, suf: Seq<char>, i: int) -> nat {
    let w1 = body.subrange(i, i + pre.len() + suf.len());
    let w2 = body.subrange(i + pre.len(), i + pre.len() + suf.len());
    let d = lev_of(w1, pre) + lev_of(w2, suf);
    if d > usize::MAX {
        usize::MAX as nat
    } else {
        d
    }
}

/// Slides a window of the patterns' combined width over the body and
/// returns the position where the combined edit distance against prefix and
/// suffix is smallest (the earliest such position), together with where the
/// suffix part starts. A match is found exactly when at least one window
/// fits, i.e. when the body is strictly longer than the combined width.
pub fn find_best_match(body: &str, prefix_pattern: &str, suffix_pattern: &str) -> (r: (
    Option<usize>,
    Option<usize>,
))
    requires
        body@.len() >= prefix_pattern@.len() + suffix_pattern@.len(),
        2 * body@.len() < usize::MAX,
    ensures
        r.0 is Some <==> r.1 is Some,
        r.0 is Some <==> body@.len() > prefix_pattern@.len() + suffix_pattern@.len(),
        r.0 matches Some(i) ==> {
            &&& (i as int) < body@.len() - (prefix_pattern@.len() + suffix_pattern@.len())
            &&& r.1 == Some((i + prefix_pattern@.len()) as usize)
            &&& window_dist(body@, prefix_pattern@, suffix_pattern@, i as int) < usize::MAX
            &&& forall|j: int|
                0 <= j < body@.len() - (prefix_pattern@.len() + suffix_pattern@.len())
                    ==> #[trigger] window_dist(body@, prefix_pattern@, suffix_pattern@, j)
                    >= window_dist(body@, prefix_pattern@, suffix_pattern@, i as int)
            &&& forall|j: int|
                0 <= j < i ==> #[trigger] window_dist(body@, prefix_pattern@, suffix_pattern@, j)
                    > window_dist(body@, prefix_pattern@, suffix_pattern@, i as int)
        },
{
    let pl = prefix_pattern.unicode_len();
    let sl = suffix_pattern.unicode_len();
    let bl = body.unicode_len();
    let width = pl + sl;
    let mut min_distance: usize = usize::MAX;
    let mut found_index_prefix: Option<usize> = None;
    let mut found_index_suffix: Option<usize> = None;
    let mut i: usize = 0;
    let bound = bl - width;
    while i < bound
        invariant
            pl == prefix_pattern@.len(),
            sl == suffix_pattern@.len(),
            bl == body@.len(),
            width == pl + sl,
            bl >= width,
            2 * bl < usize::MAX,
            bound == bl - width,
            i <= bound,
            i > 0 ==> min_distance < usize::MAX,
            found_index_prefix is Some <==> found_index_suffix is Some,
            found_index_prefix is Some <==> min_distance < usize::MAX,
            found_index_prefix matches Some(fi) ==> {
                &&& (fi as int) < bound
                &&& found_index_suffix == Some((fi + pl) as usize)
                &&& window_dist(body@, prefix_pattern@, suffix_pattern@, fi as int)
                    == min_distance
                &&& forall|j: int|
                    0 <= j < i ==> #[trigger] window_dist(
                        body@,
                        prefix_pattern@,
                        suffix_pattern@,
                        j,
                    ) >= min_distance
                &&& forall|j: int|
                    0 <= j < fi ==> #[trigger] window_dist(
                        body@,
                        prefix_pattern@,
                        suffix_pattern@,
                        j,
                    ) > min_distance
            },
            found_index_prefix is None ==> forall|j: int|
                0 <= j < i ==> #[trigger] window_dist(body@, prefix_pattern@, suffix_pattern@, j)
                    == usize::MAX,
        decreases bound - i,
    {
        let w1 = body.substring_char(i, i + width);
        let w2 = body.substring_char(i + pl, i + width);
        let d1 = lev_distance(w1, prefix_pattern);
        let d2 = lev_distance(w2, suffix_pattern);
        proof {
            assert(w1@.len() == width);
            assert(w2@.len() == sl);
            assert(d1 <= width);
            assert(d2 <= sl);
        }
        let distance = d1 + d2;
        proof {
            assert(distance < usize::MAX);
            assert(distance == window_dist(body@, prefix_pattern@, suffix_pattern@, i as int));
        }
        if distance < min_distance {
            min_distance = distance;
            found_index_prefix = Some(i);
            found_index_suffix = Some(i + pl);
        }
        i = i + 1;
    }
    (found_index_prefix, found_index_suffix)
}

/// Replaces the best fuzzy occurrence of a pattern's span in `body` by the
/// pattern's replacement text: everything before the matched prefix is kept,
/// the span up to the end of the matched suffix is replaced, and the rest is
/// kept. Succeeds exactly when at least one window fits; the splice happens
/// at the earliest window whose combined edit distance is smallest.
pub fn replace_sequence(pattern: &Pattern, body: &str) -> (r: Option<String>)
    requires
        body@.len() >= pattern.prefix_pattern@.len() + pattern.suffix_pattern@.len(),
        2 * body@.len() < usize::MAX,
    ensures
        r is Some <==> body@.len() > pattern.prefix_pattern@.len()
            + pattern.suffix_pattern@.len(),
        r matches Some(s) ==> exists|i: int|
            #![trigger window_dist(body@, pattern.prefix_pattern@, pattern.suffix_pattern@, i)]
            {
                let pl = pattern.prefix_pattern@.len();
                let sl = pattern.suffix_pattern@.len();
                &&& 0 <= i < body@.len() - (pl + sl)
                &&& (forall|j: int|
                    0 <= j < body@.len() - (pl + sl) ==> #[trigger] window_dist(
                        body@,
                        pattern.prefix_pattern@,
                        pattern.suffix_pattern@,
                        j,
                    ) >= window_dist(
                        body@,
                        pattern.prefix_pattern@,
                        pattern.suffix_pattern@,
                        i,
                    ))
                &&& (forall|j: int|
                    0 <= j < i ==> #[trigger] window_dist(
                        body@,
                        pattern.prefix_pattern@,
                        pattern.suffix_pattern@,
                        j,
                    ) > window_dist(body@, pattern.prefix_pattern@, pattern.suffix_pattern@, i))
                &&& s@ == body@.subrange(0, i) + pattern.body_replace@ + body@.subrange(
                    i + pl + sl,
                    body@.len() as int,
                )
            },
{
    let m = find_best_match(body, pattern.prefix_pattern.as_str(), pattern.suffix_pattern.as_str());
    match (m.0, m.1) {
        (Some(prefix_found_index), Some(suffix_found_index)) => {
            let sl = pattern.suffix_pattern.unicode_len();
            let bl = body.unicode_len();
            let prefix = body.substring_char(0, prefix_found_index);
            let suffix = body.substring_char(suffix_found_index + sl, bl);
            let replaced = String::from_str(prefix).concat(pattern.body_replace.as_str());
            let out = replaced.concat(suffix);
            proof {
                let i = prefix_found_index as int;
                assert(out@ == body@.subrange(0, i) + pattern.body_replace@ + body@.subrange(
                    i + pattern.prefix_pattern@.len() + pattern.suffix_pattern@.len(),
                    body@.len() as int,
                ));
            }
            Some(out)
        },
        _ => None,
    }
}

/// Every condition that must hold of the current body before a pattern can
/// change it: the pattern's prefix and suffix and their aligned subsequences
/// in the body are long enough (and small enough) to fingerprint, all four
/// fingerprints actually build, and the body is long enough to carry a
/// window of the pattern's width. The fingerprint distances must also
/// agree, so this is an over-approximation: a pattern that fails any
/// condition here certainly changes nothing.
pub open spec fn pattern_applicable(body: Seq<char>, p: Pattern) -> bool {
    &&& 50 <= p.prefix_pattern@.len() <= TLSH_MAX_CHARS
    &&& 50 <= p.suffix_pattern@.len() <= TLSH_MAX_CHARS
    &&& 50 <= lcs_of(body, p.prefix_pattern@).len() <= TLSH_MAX_CHARS
    &&& 50 <= lcs_of(body, p.suffix_pattern@).len() <= TLSH_MAX_CHARS
    &&& tlsh_builds(p.prefix_pattern@)
    &&& tlsh_builds(p.suffix_pattern@)
    &&& tlsh_builds(lcs_of(body, p.prefix_pattern@))
    &&& tlsh_builds(lcs_of(body, p.suffix_pattern@))
    &&& p.prefix_pattern@.len() + p.suffix_pattern@.len() <= body.len()
    &&& 2 * body.len() < usize::MAX
}

/// Walks the known patterns over a decompiled function body: for each
/// pattern whose prefix and suffix fingerprints sit close enough to the
/// body's aligned subsequences, the matched span is replaced by the
/// pattern's readable name. The result is the body with every accepted
/// replacement applied in pattern order; when no pattern is even applicable
/// to the body, the body comes back unchanged.
pub fn search_for_patterns(function_body: &str, patterns: &Vec<Pattern>) -> (r: Option<String>)
    ensures
        r is Some,
        (forall|k: int|
            0 <= k < patterns@.len() ==> !pattern_applicable(
                function_body@,
                #[trigger] patterns@[k],
            )) ==> (r matches Some(s) && s@ == function_body@),
{
    let mut replaced = String::from_str(function_body);
    let mut p: usize = 0;
    while p < patterns.len()
        invariant
            p <= patterns@.len(),
            (forall|k: int|
                0 <= k < patterns@.len() ==> !pattern_applicable(
                    function_body@,
                    #[trigger] patterns@[k],
                )) ==> replaced@ == function_body@,
        decreases patterns@.len() - p,
    {
        let pl = patterns[p].prefix_pattern.as_str().unicode_len();
        let sl = patterns[p].suffix_pattern.as_str().unicode_len();
        let rl = replaced.as_str().unicode_len();
        let caps_ok = pl <= TLSH_MAX_CHARS && sl <= TLSH_MAX_CHARS && pl <= usize::MAX - sl
            && rl >= pl + sl && rl <= (usize::MAX - 1) / 2;
        if caps_ok {
            let prefix_seq = check_lcs_patterns(
                replaced.as_str(),
                patterns[p].prefix_pattern.as_str(),
            );
            let suffix_seq = check_lcs_patterns(
                replaced.as_str(),
                patterns[p].suffix_pattern.as_str(),
            );
            let pql = prefix_seq.as_str().unicode_len();
            let sql = suffix_seq.as_str().unicode_len();
            if pql <= TLSH_MAX_CHARS && sql <= TLSH_MAX_CHARS {
                let prefix_tlsh = get_sequence_tlsh(&prefix_seq);
                let suffix_tlsh = get_sequence_tlsh(&suffix_seq);
                let pattern_prefix_tlsh = get_sequence_tlsh(&patterns[p].prefix_pattern);
                let pattern_suffix_tlsh = get_sequence_tlsh(&patterns[p].suffix_pattern);
                match (prefix_tlsh, suffix_tlsh, pattern_prefix_tlsh, pattern_suffix_tlsh) {
                    (Ok(pt), Ok(st), Ok(ppt), Ok(pst)) => {
                        let prefix_diff = tlsh_diff(&ppt, &pt, false);
                        let suffix_diff = tlsh_diff(&pst, &st, false);
                        if prefix_diff < 30 && suffix_diff < 30 {
                            proof {
                                assert(pattern_applicable(replaced@, patterns@[p as int]));
                            }
                            match replace_sequence(&patterns[p], replaced.as_str()) {
                                Some(next) => {
                                    replaced = next;
                                },
                                None => {},
                            }
                        }
                    },
                    _ => {},
                }
            }
        }
        p = p + 1;
    }
    Some(replaced)
}

} // verus!
