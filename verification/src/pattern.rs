//! Selector patterns, as the lines of the `.lst` files write them.

use crate::text::{
    chars_of, find_from, lemma_some_piece, occurs_at, pieces, split, starts_with, texts,
};
use vstd::prelude::*;

verus! {

/// The character that stands for any text in a pattern.
pub const WILDCARD: char = '*';

/// Path to default CTS test list.
pub const CTS_DEFAULT_TEST_LIST: &'static str = "cts_runner/test.lst";

/// The `.lst` files a selector may be listed in.
#[derive(Clone, Copy, PartialEq, Eq, Debug, Structural)]
pub enum LstFile {
    Test,
    Fail,
    Skip,
}

impl LstFile {
    /// Every list, in the order in which they are read.
    pub const ALL: [LstFile; 3] = [LstFile::Test, LstFile::Fail, LstFile::Skip];

    /// Where the list stands in the repository.
    pub open spec fn location(self) -> Seq<char> {
        match self {
            LstFile::Test => "cts_runner/test.lst"@,
            LstFile::Fail => "cts_runner/fail.lst"@,
            LstFile::Skip => "cts_runner/skip.lst"@,
        }
    }

    /// Where the list stands in the repository.
    pub fn path(self) -> (path: &'static str)
        ensures
            path@ == self.location(),
    {
        match self {
            LstFile::Test => CTS_DEFAULT_TEST_LIST,
            LstFile::Fail => "cts_runner/fail.lst",
            LstFile::Skip => "cts_runner/skip.lst",
        }
    }
}

/// One line of a `.lst` file: a selector pattern, and the backends on which
/// the tests it names fail.
#[derive(Clone, Debug)]
pub struct LstLine {
    pub selector: String,
    pub fails_if: Vec<String>,
}

/// Whether `s` is the segments in their order, with any text between each and
/// the next, and nothing before the first or after the last.
pub open spec fn glob(segments: Seq<Seq<char>>, s: Seq<char>) -> bool
    decreases segments.len(), 0int,
{
    if segments.len() <= 1 {
        segments.len() == 1 && s == segments[0]
    } else {
        &&& segments[0].is_prefix_of(s)
        &&& floats(segments.drop_first(), s.skip(segments[0].len() as int))
    }
}

/// Whether the segments match what is left of `s` after some beginning of it.
pub open spec fn floats(segments: Seq<Seq<char>>, s: Seq<char>) -> bool
    decreases segments.len(), 1int,
{
    exists|k: int| 0 <= k <= s.len() && glob(segments, #[trigger] s.skip(k))
}

/// The segments with the `,` of a trailing `,*` rewritten as `:`, if there is
/// one.
pub open spec fn descending(segments: Seq<Seq<char>>) -> Option<Seq<Seq<char>>> {
    let n = segments.len() as int;
    if n >= 2 && segments[n - 1].len() == 0 && segments[n - 2].len() > 0 && segments[n - 2].last()
        == ',' {
        Some(segments.update(n - 2, segments[n - 2].drop_last().push(':')))
    } else {
        None
    }
}

/// Whether a pattern with these segments matches `s`: as it is written, or
/// with a trailing `,*` read as `:*`.
pub open spec fn pattern_matches(segments: Seq<Seq<char>>, s: Seq<char>) -> bool {
    ||| glob(segments, s)
    ||| descending(segments) matches Some(variant) && glob(variant, s)
}

/// What [`descending`] has before its first wildcard, where that differs from
/// the pattern's own prefix.
pub open spec fn lower_prefix(segments: Seq<Seq<char>>) -> Option<Seq<char>> {
    match descending(segments) {
        Some(variant) => if variant[0] != segments[0] {
            Some(variant[0])
        } else {
            None
        },
        None => None,
    }
}

/// Whether the second pattern starts within what the first matches literally
/// before its first wildcard, and goes on from there.
pub open spec fn broader(wide: Seq<Seq<char>>, narrow: Seq<Seq<char>>) -> bool {
    ||| wide[0].is_prefix_of(narrow[0]) && narrow[0].len() > wide[0].len()
    ||| lower_prefix(wide) matches Some(lower) && lower.is_prefix_of(narrow[0])
}

/// What a [`Pattern`] says: its text, cut at the wildcards, and where it comes
/// from.
pub struct PatternModel {
    pub segments: Seq<Seq<char>>,
    pub source: LstFile,
    pub has_fails_if: bool,
}

/// A selector pattern from a `.lst` file, precompiled for matching.
pub struct Pattern {
    /// The literal segments between `*` wildcards. `a*b` gives `["a", "b"]`,
    /// and a pattern with no wildcard gives a single segment.
    segments: Vec<String>,
    /// [`segments`] rewritten as described on [`descending_variant`], or `None`
    /// if the pattern has no trailing path-level wildcard.
    ///
    /// [`segments`]: Pattern::segments
    descending: Option<Vec<String>>,
    source: LstFile,
    has_fails_if: bool,
}

impl View for Pattern {
    type V = PatternModel;

    closed spec fn view(&self) -> PatternModel {
        PatternModel {
            segments: texts(self.segments@),
            source: self.source,
            has_fails_if: self.has_fails_if,
        }
    }
}

impl Pattern {
    #[verifier::type_invariant]
    closed spec fn compiled(&self) -> bool {
        &&& self.segments@.len() > 0
        &&& match self.descending {
            Some(variant) => descending(texts(self.segments@)) == Some(texts(variant@)),
            None => descending(texts(self.segments@)) is None,
        }
    }

    /// Compiles a line of the list `source`.
    pub fn new(line: LstLine, source: LstFile) -> (pattern: Self)
        ensures
            pattern@ == (PatternModel {
                segments: pieces(line.selector@, WILDCARD),
                source,
                has_fails_if: line.fails_if@.len() > 0,
            }),
    {
        let segments = split(&line.selector, WILDCARD);
        proof {
            lemma_some_piece(line.selector@, WILDCARD);
        }
        let descending = descending_variant(&segments);
        Pattern { segments, descending, source, has_fails_if: line.fails_if.len() > 0 }
    }

    /// The literal segments between the wildcards.
    pub fn segments(&self) -> (segments: &[String])
        ensures
            texts(segments@) == self@.segments,
            segments@.len() > 0,
    {
        proof {
            use_type_invariant(self);
        }
        &self.segments
    }

    /// Whether this pattern matches `selector` in its entirety.
    pub fn matches(&self, selector: &str) -> (matched: bool)
        ensures
            matched == pattern_matches(self@.segments, selector@),
    {
        proof {
            use_type_invariant(self);
        }
        if matches_segments(&self.segments, selector) {
            return true;
        }
        match &self.descending {
            Some(variant) => {
                assert(texts(variant@).len() == variant@.len());
                matches_segments(variant, selector)
            },
            None => false,
        }
    }

    /// The part of the pattern before its first wildcard.
    pub fn prefix(&self) -> (prefix: &str)
        ensures
            prefix@ == self@.segments[0],
    {
        proof {
            use_type_invariant(self);
        }
        &self.segments[0]
    }

    /// The prefix that a trailing path-level wildcard descends to, if the
    /// pattern has one and it differs from [`Pattern::prefix`].
    pub fn descending_prefix(&self) -> (prefix: Option<&str>)
        ensures
            match prefix {
                Some(lower) => lower_prefix(self@.segments) == Some(lower@),
                None => lower_prefix(self@.segments) is None,
            },
    {
        proof {
            use_type_invariant(self);
        }
        match &self.descending {
            Some(variant) => {
                assert(texts(variant@).len() == variant@.len());
                assert(texts(variant@)[0] == variant@[0]@);
                if variant[0] != self.segments[0] {
                    Some(&variant[0])
                } else {
                    None
                }
            },
            None => None,
        }
    }

    /// Whether `self` covers strictly more selectors than `narrower`, judged by
    /// whether `narrower` starts within the part `self` matches literally.
    pub fn is_broader_than(&self, narrower: &Pattern) -> (is_broader: bool)
        ensures
            is_broader == broader(self@.segments, narrower@.segments),
    {
        let wide = chars_of(self.prefix());
        let narrow = chars_of(narrower.prefix());
        assert(narrow@.skip(0) == narrow@);
        if narrow.len() > wide.len() && occurs_at(&narrow, 0, &wide) {
            return true;
        }
        // `a,*` covers everything below `a`, so it is broader than `a:*` even
        // though the two have prefixes of the same length.
        match self.descending_prefix() {
            Some(lower) => starts_with(narrower.prefix(), lower),
            None => false,
        }
    }

    /// The list that the pattern comes from.
    pub fn source(&self) -> (source: LstFile)
        ensures
            source == self@.source,
    {
        self.source
    }

    /// Whether its line says that the tests it names fail on some backend.
    pub fn has_fails_if(&self) -> (has_fails_if: bool)
        ensures
            has_fails_if == self@.has_fails_if,
    {
        self.has_fails_if
    }
}

/// The variant of `segments` that descends past a level boundary.
///
/// A CTS query is `suite:file,path:test,path:case=params`, so a trailing `,*`
/// is a wildcard over a `,`-separated path, and covers not just longer paths at
/// that level but everything below the path it names, which continues after a
/// `:`. So `suite:file:test,*` must match `suite:file:test:case=1` as well as
/// `suite:file:test,subtest:case=1`. The returned segments are `segments` with
/// that `,` rewritten as `:`, matching the former; `None` if the pattern has no
/// trailing path-level wildcard.
pub fn descending_variant(segments: &[String]) -> (variant: Option<Vec<String>>)
    ensures
        match variant {
            Some(variant) => descending(texts(segments@)) == Some(texts(variant@)),
            None => descending(texts(segments@)) is None,
        },
{
    let count = segments.len();
    if count < 2 || !segments[count - 1].as_str().is_empty() {
        return None;
    }
    let penultimate = chars_of(&segments[count - 2]);
    let len = penultimate.len();
    if len == 0 || penultimate[len - 1] != ',' {
        return None;
    }
    let mut variant: Vec<String> = Vec::new();
    let mut i: usize = 0;
    while i < count
        invariant
            2 <= count == segments@.len(),
            penultimate@ == segments@[count - 2]@,
            1 <= len == penultimate@.len(),
            i <= count,
            variant@.len() == i,
            forall|j: int|
                0 <= j < i ==> (#[trigger] variant@[j])@ == if j == count - 2 {
                    penultimate@.drop_last().push(':')
                } else {
                    segments@[j]@
                },
        decreases count - i,
    {
        if i == count - 2 {
            let stem = segments[i].as_str().substring_char(0, len - 1);
            proof {
                reveal_strlit(":");
            }
            let lower = stem.to_owned().concat(":");
            assert(lower@ == penultimate@.drop_last().push(':'));
            variant.push(lower);
        } else {
            variant.push(segments[i].clone());
        }
        i = i + 1;
    }
    assert(texts(variant@) == descending(texts(segments@))->0);
    Some(variant)
}

/// Whether the segments of a pattern match `selector` in its entirety.
pub fn matches_segments(segments: &[String], selector: &str) -> (matched: bool)
    requires
        segments@.len() > 0,
    ensures
        matched == glob(texts(segments@), selector@),
{
    let text = chars_of(selector);
    let first = chars_of(&segments[0]);
    let ghost all = texts(segments@);
    let count = segments.len();
    assert(text@.skip(0) == text@);
    if !occurs_at(&text, 0, &first) {
        assert(!all[0].is_prefix_of(text@));
        return false;
    }
    if count == 1 {
        // No wildcards, so the pattern had to match exactly.
        assert(first.len() == text.len() ==> first@ == text@);
        return first.len() == text.len();
    }
    // Matching each middle segment as early as possible leaves the most
    // room for the ones after it, so this never needs to backtrack.
    let mut at: usize = first.len();
    let mut i: usize = 1;
    assert(all.drop_first() == all.skip(1));
    while i < count - 1
        invariant
            text@ == selector@,
            all == texts(segments@),
            count == segments@.len(),
            1 <= i <= count - 1,
            at <= text@.len(),
            glob(all, selector@) == floats(all.skip(i as int), text@.skip(at as int)),
        decreases count - i,
    {
        let middle = chars_of(&segments[i]);
        let found = find_from(&text, at, &middle);
        let ghost rest = all.skip(i as int);
        assert(rest[0] == middle@);
        assert(rest.drop_first() == all.skip(i + 1));
        match found {
            Some(start) => {
                proof {
                    lemma_earliest(rest, text@, at as int, start as int);
                }
                assert(start + middle.len() <= text.len());
                at = start + middle.len();
            },
            None => {
                proof {
                    lemma_absent(rest, text@, at as int);
                }
                return false;
            },
        }
        i = i + 1;
    }
    let last = chars_of(&segments[count - 1]);
    let ghost rest = all.skip(i as int);
    assert(rest.len() == 1 && rest[0] == last@);
    proof {
        lemma_last_floats(rest, text@.skip(at as int));
    }
    text.len() - at >= last.len() && occurs_at(&text, text.len() - last.len(), &last)
}

/// A segment may be placed at its first occurrence: what can follow a later
/// one can follow the first.
proof fn lemma_earliest(segments: Seq<Seq<char>>, text: Seq<char>, at: int, start: int)
    requires
        segments.len() >= 2,
        0 <= at <= start <= text.len(),
        segments[0].is_prefix_of(text.skip(start)),
        forall|i: int|
            at <= i < start ==> !segments[0].is_prefix_of(#[trigger] text.skip(i)),
    ensures
        floats(segments, text.skip(at)) == floats(
            segments.drop_first(),
            text.skip(start + segments[0].len()),
        ),
{
    let first = segments[0];
    let rest = segments.drop_first();
    let tail = text.skip(at);
    let after = text.skip(start + first.len());
    if floats(segments, tail) {
        let k = choose|k: int| 0 <= k <= tail.len() && glob(segments, #[trigger] tail.skip(k));
        assert(tail.skip(k) == text.skip(at + k));
        assert(at + k >= start);
        let left = tail.skip(k).skip(first.len() as int);
        let j = choose|j: int| 0 <= j <= left.len() && glob(rest, #[trigger] left.skip(j));
        let moved = at + k - start + j;
        assert(left.skip(j) == after.skip(moved));
    }
    if floats(rest, after) {
        assert(tail.skip(start - at) == text.skip(start));
        assert(text.skip(start).skip(first.len() as int) == after);
        assert(glob(segments, tail.skip(start - at)));
    }
}

/// A segment that occurs nowhere leaves the rest unmatched.
proof fn lemma_absent(segments: Seq<Seq<char>>, text: Seq<char>, at: int)
    requires
        segments.len() >= 2,
        0 <= at <= text.len(),
        forall|i: int|
            at <= i <= text.len() ==> !segments[0].is_prefix_of(#[trigger] text.skip(i)),
    ensures
        !floats(segments, text.skip(at)),
{
    let tail = text.skip(at);
    assert forall|k: int| 0 <= k <= tail.len() implies !glob(segments, #[trigger] tail.skip(k)) by {
        assert(tail.skip(k) == text.skip(at + k));
    }
}

/// The last segment has to end the text.
proof fn lemma_last_floats(segments: Seq<Seq<char>>, tail: Seq<char>)
    requires
        segments.len() == 1,
    ensures
        floats(segments, tail) == segments[0].is_suffix_of(tail),
{
    let last = segments[0];
    if last.is_suffix_of(tail) {
        assert(tail.skip(tail.len() - last.len()) == last);
    }
    if floats(segments, tail) {
        let k = choose|k: int| 0 <= k <= tail.len() && glob(segments, #[trigger] tail.skip(k));
        assert(last == tail.subrange(tail.len() - last.len(), tail.len() as int));
    }
}

} // verus!
