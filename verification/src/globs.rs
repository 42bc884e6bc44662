//! Glob patterns, compiled and matched by the `globset` crate.

use crate::text;
use globset::{Glob, GlobSet, GlobSetBuilder};
use vstd::prelude::*;

verus! {

/// A set of compiled glob patterns of the `globset` crate.
#[verifier::external_type_specification]
#[verifier::external_body]
pub struct ExGlobSet(globset::GlobSet);

/// A collection of parsed glob patterns of the `globset` crate, not yet compiled.
#[verifier::external_type_specification]
#[verifier::external_body]
pub struct ExGlobSetBuilder(globset::GlobSetBuilder);

/// The reason `Glob::new` gives for refusing a pattern, `None` where it accepts it.
pub uninterp spec fn glob_fault(pattern: Seq<char>) -> Option<Seq<char>>;

/// Whether `Glob::new` accepts a pattern.
pub open spec fn glob_parses(pattern: Seq<char>) -> bool {
    glob_fault(pattern) is None
}

/// The patterns a builder holds, in the order they were added.
pub uninterp spec fn builder_globs(builder: GlobSetBuilder) -> Seq<Seq<char>>;

/// The patterns a set was compiled from.
pub uninterp spec fn set_globs(set: GlobSet) -> Seq<Seq<char>>;

/// Whether `GlobSetBuilder::build` compiles these patterns.
pub uninterp spec fn globs_compile(patterns: Seq<Seq<char>>) -> bool;

/// Whether a set of these patterns matches a path: what `GlobSet::is_match` answers.
pub uninterp spec fn globs_match(patterns: Seq<Seq<char>>, path: Seq<char>) -> bool;

/// The number of characters in a list of texts.
pub open spec fn text_size(patterns: Seq<Seq<char>>) -> nat
    decreases patterns.len(),
{
    if patterns.len() == 0 {
        0
    } else {
        text_size(patterns.drop_last()) + patterns.last().len()
    }
}

/// How deep the groups of a pattern may nest: the parser recurses once for each level, and this many
/// levels fit into the stack of a thread.
pub const MAX_NESTING: usize = 1000;

/// Where a reader of a pattern stands.
#[derive(Clone, Copy, PartialEq, Eq, Structural)]
pub enum Place {
    Plain,
    /// Behind a backslash that escapes.
    Escaped,
    /// Behind the `[` of a class.
    ClassBegun,
    /// Behind the negation of a class.
    ClassNegated,
    /// Within a class, behind its first character.
    Class,
}

/// What a reader of a pattern knows: where it stands, and how high the closed groups nest in the text
/// outside all groups and in each open group.
pub struct Reading {
    pub place: Place,
    pub heights: Seq<nat>,
}

/// The heights after the innermost open group was closed. Without an open group nothing closes.
pub open spec fn close(heights: Seq<nat>) -> Seq<nat> {
    let n = heights.len();
    if n < 2 {
        heights
    } else if heights[n - 2] < heights[n - 1] + 1 {
        heights.drop_last().update(n - 2, heights[n - 1] + 1)
    } else {
        heights.drop_last()
    }
}

/// The reading after one more character. `escapes` tells whether a backslash escapes.
pub open spec fn read(r: Reading, c: char, escapes: bool) -> Reading {
    match r.place {
        Place::Plain => if c == '{' {
            Reading { place: Place::Plain, heights: r.heights.push(0) }
        } else if c == '}' {
            Reading { place: Place::Plain, heights: close(r.heights) }
        } else if c == '[' {
            Reading { place: Place::ClassBegun, heights: r.heights }
        } else if c == '\\' && escapes {
            Reading { place: Place::Escaped, heights: r.heights }
        } else {
            r
        },
        Place::Escaped => Reading { place: Place::Plain, heights: r.heights },
        Place::ClassBegun => if c == '!' || c == '^' {
            Reading { place: Place::ClassNegated, heights: r.heights }
        } else {
            Reading { place: Place::Class, heights: r.heights }
        },
        Place::ClassNegated => Reading { place: Place::Class, heights: r.heights },
        Place::Class => if c == ']' {
            Reading { place: Place::Plain, heights: r.heights }
        } else {
            r
        },
    }
}

/// The reading of a text.
pub open spec fn reading(text: Seq<char>, escapes: bool) -> Reading
    decreases text.len(),
{
    if text.len() == 0 {
        Reading { place: Place::Plain, heights: seq![0nat] }
    } else {
        read(reading(text.drop_last(), escapes), text.last(), escapes)
    }
}

/// The greatest of some heights.
pub open spec fn greatest(heights: Seq<nat>) -> nat
    decreases heights.len(),
{
    if heights.len() == 0 {
        0
    } else if greatest(heights.drop_last()) < heights.last() {
        heights.last()
    } else {
        greatest(heights.drop_last())
    }
}

/// How deep the groups of a pattern nest, whether a backslash escapes on the target or separates.
pub open spec fn nesting(pattern: Seq<char>) -> nat {
    let a = greatest(reading(pattern, true).heights);
    let b = greatest(reading(pattern, false).heights);
    if a < b {
        b
    } else {
        a
    }
}

/// Whether the matcher's tables can index literals of `size` characters in `count` patterns, of which
/// a state of the tables may list each.
pub open spec fn tables_fit(size: nat, count: nat) -> bool {
    4 * (size + 1) * (count + 1) < 0x7fff_0000
}

/// Whether the patterns nest no deeper than the matcher recurses, and are within the size its tables
/// can index.
pub open spec fn indexable(patterns: Seq<Seq<char>>) -> bool {
    &&& tables_fit(text_size(patterns), patterns.len())
    &&& forall|i: int| 0 <= i < patterns.len() ==> nesting(#[trigger] patterns[i]) <= MAX_NESTING
}

/// `GlobSetBuilder::new` makes a builder without patterns.
#[verifier::external_body]
fn new_builder() -> (r: GlobSetBuilder)
    ensures
        builder_globs(r) == Seq::<Seq<char>>::empty(),
{
    GlobSetBuilder::new()
}

/// `Glob::new` parses a pattern with default options, and `GlobSetBuilder::add` puts it behind the
/// patterns already there. Whether it parses depends on the pattern alone, and so does the text of the
/// error; a pattern that does not parse leaves the builder as it was. Patterns whose groups nest deeper
/// than `MAX_NESTING` are left out: the parser sets no limit, and makes a regular expression of the
/// groups by calling itself, once for each level, until the stack is used up.
#[verifier::external_body]
fn add_glob(builder: &mut GlobSetBuilder, pattern: &str) -> (r: Result<(), String>)
    requires
        nesting(pattern@) <= MAX_NESTING,
    ensures
        match r {
            Ok(_) => glob_fault(pattern@) is None && builder_globs(*final(builder)) == builder_globs(
                *old(builder),
            ).push(pattern@),
            Err(reason) => glob_fault(pattern@) == Some(reason@) && builder_globs(*final(builder))
                == builder_globs(*old(builder)),
        },
{
    builder.add(Glob::new(pattern).map_err(|e| e.to_string())?);
    Ok(())
}

/// `GlobSetBuilder::build` compiles the patterns of a builder, or fails where the compiled form
/// would be too large or nest too deeply. No patterns at all always compile. Nothing is said of the
/// text of the error: which of several bad patterns it names depends on how a hash map is walked.
/// Patterns beyond `indexable` are left out: the tables for literal prefixes and suffixes index with
/// 31 bits both the bytes of the literals and the literals that each state lists, and building them
/// panics beyond.
#[verifier::external_body]
fn compile(builder: &GlobSetBuilder) -> (r: Result<GlobSet, String>)
    requires
        indexable(builder_globs(*builder)),
    ensures
        r is Ok <==> globs_compile(builder_globs(*builder)),
        builder_globs(*builder).len() == 0 ==> r is Ok,
        r matches Ok(set) ==> set_globs(set) == builder_globs(*builder),
{
    builder.build().map_err(|e| e.to_string())
}

/// `GlobSet::is_match` tells whether any pattern of the set matches the path. A set without
/// patterns matches nothing.
#[verifier::external_body]
pub(crate) fn matches_any(set: &GlobSet, path: &str) -> (r: bool)
    ensures
        r == globs_match(set_globs(*set), path@),
        set_globs(*set).len() == 0 ==> !r,
{
    set.is_match(path)
}

/// Why a list of patterns was refused.
#[derive(Debug)]
pub enum GlobFault {
    /// The pattern at this place does not parse, and all before it do.
    Pattern { at: usize, reason: String },
    /// The patterns parse, but do not compile together.
    Together { reason: String },
}

/// Whether all patterns parse.
pub open spec fn all_parse(patterns: Seq<Seq<char>>) -> bool {
    forall|i: int| 0 <= i < patterns.len() ==> glob_parses(#[trigger] patterns[i])
}

/// Whether the pattern at `i` is the first that does not parse.
pub open spec fn first_unparsed(patterns: Seq<Seq<char>>, i: int) -> bool {
    &&& 0 <= i < patterns.len()
    &&& !glob_parses(patterns[i])
    &&& forall|j: int| 0 <= j < i ==> glob_parses(#[trigger] patterns[j])
}

/// Compiles a list of patterns into one set.
pub fn compile_globs(patterns: &Vec<String>) -> (r: Result<GlobSet, GlobFault>)
    requires
        indexable(text::views(patterns@)),
    ensures
        r matches Ok(set) ==> set_globs(set) == text::views(patterns@),
        r is Ok <==> all_parse(text::views(patterns@)) && globs_compile(text::views(patterns@)),
        r matches Err(GlobFault::Pattern { at, reason }) ==> {
            &&& first_unparsed(text::views(patterns@), at as int)
            &&& glob_fault(patterns@[at as int]@) == Some(reason@)
        },
        r is Err && r->Err_0 is Together ==> all_parse(text::views(patterns@)) && !globs_compile(
            text::views(patterns@),
        ),
        patterns@.len() == 0 ==> r is Ok,
{
    let ghost all = text::views(patterns@);
    let mut builder = new_builder();
    let mut i: usize = 0;
    while i < patterns.len()
        invariant
            i <= patterns@.len(),
            all == text::views(patterns@),
            indexable(all),
            builder_globs(builder) =~= all.take(i as int),
            forall|j: int| 0 <= j < i ==> glob_parses(#[trigger] all[j]),
        decreases patterns@.len() - i,
    {
        assert(all[i as int] == patterns@[i as int]@);
        match add_glob(&mut builder, patterns[i].as_str()) {
            Ok(_) => {},
            Err(reason) => {
                return Err(GlobFault::Pattern { at: i, reason });
            },
        }
        i += 1;
    }
    assert(all.take(i as int) =~= all);
    match compile(&builder) {
        Ok(set) => Ok(set),
        Err(reason) => Err(GlobFault::Together { reason }),
    }
}

spec fn counts(v: Seq<usize>) -> Seq<nat> {
    v.map_values(|h: usize| h as nat)
}

fn depth(chars: &Vec<char>, escapes: bool) -> (r: usize)
    ensures
        r == greatest(reading(chars@, escapes).heights),
{
    let mut place = Place::Plain;
    let mut heights: Vec<usize> = Vec::new();
    heights.push(0);
    let mut i: usize = 0;
    assert(chars@.take(0) =~= Seq::<char>::empty());
    assert(counts(heights@) =~= seq![0nat]);
    while i < chars.len()
        invariant
            i <= chars@.len(),
            heights@.len() >= 1,
            forall|k: int| 0 <= k < heights@.len() ==> #[trigger] heights@[k] <= i,
            reading(chars@.take(i as int), escapes) == (Reading { place, heights: counts(heights@) }),
        decreases chars@.len() - i,
    {
        let c: char = chars[i];
        let ghost before = heights@;
        let ghost next = chars@.take(i + 1);
        assert(next.drop_last() =~= chars@.take(i as int));
        match place {
            Place::Plain => {
                if c == '{' {
                    heights.push(0);
                    assert(counts(heights@) =~= counts(before).push(0));
                } else if c == '}' {
                    let n: usize = heights.len();
                    if n >= 2 {
                        let inner: usize = heights[n - 1];
                        heights.truncate(n - 1);
                        assert(heights@ =~= before.drop_last());
                        if heights[n - 2] < inner + 1 {
                            heights.set(n - 2, inner + 1);
                        }
                    }
                    assert(counts(heights@) =~= close(counts(before)));
                } else if c == '[' {
                    place = Place::ClassBegun;
                } else if c == '\\' && escapes {
                    place = Place::Escaped;
                }
            },
            Place::Escaped => {
                place = Place::Plain;
            },
            Place::ClassBegun => {
                place = if c == '!' || c == '^' {
                    Place::ClassNegated
                } else {
                    Place::Class
                };
            },
            Place::ClassNegated => {
                place = Place::Class;
            },
            Place::Class => {
                if c == ']' {
                    place = Place::Plain;
                }
            },
        }
        i += 1;
    }
    assert(chars@.take(i as int) =~= chars@);
    let mut most: usize = 0;
    let mut k: usize = 0;
    assert(counts(heights@).take(0) =~= Seq::<nat>::empty());
    while k < heights.len()
        invariant
            k <= heights@.len(),
            most == greatest(counts(heights@).take(k as int)),
        decreases heights@.len() - k,
    {
        assert(counts(heights@).take(k + 1).drop_last() =~= counts(heights@).take(k as int));
        if most < heights[k] {
            most = heights[k];
        }
        k += 1;
    }
    assert(counts(heights@).take(k as int) =~= counts(heights@));
    most
}

/// How deep the groups of a pattern nest.
pub fn nesting_of(pattern: &str) -> (r: usize)
    ensures
        r == nesting(pattern@),
{
    let chars = text::chars_of(pattern);
    let a: usize = depth(&chars, true);
    let b: usize = depth(&chars, false);
    if a < b {
        b
    } else {
        a
    }
}

/// Whether the matcher can take the patterns.
pub fn is_indexable(patterns: &Vec<String>) -> (r: bool)
    ensures
        r == indexable(text::views(patterns@)),
{
    let ghost all = text::views(patterns@);
    let mut size: u128 = 0;
    let mut i: usize = 0;
    assert(text_size(all.take(0)) == 0);
    while i < patterns.len()
        invariant
            i <= patterns@.len(),
            all == text::views(patterns@),
            size == text_size(all.take(i as int)),
            size <= i * usize::MAX,
            forall|j: int| 0 <= j < i ==> nesting(#[trigger] all[j]) <= MAX_NESTING,
        decreases patterns@.len() - i,
    {
        let n: usize = text::chars_of(patterns[i].as_str()).len();
        proof {
            assert(all.take(i + 1).drop_last() =~= all.take(i as int));
            assert(all.take(i + 1).last() == patterns@[i as int]@);
            assert((i + 1) * usize::MAX == i * usize::MAX + usize::MAX) by (nonlinear_arith);
            assert((i + 1) * usize::MAX <= u128::MAX) by (nonlinear_arith)
                requires
                    i + 1 <= usize::MAX,
            ;
        }
        if nesting_of(patterns[i].as_str()) > MAX_NESTING {
            assert(nesting(all[i as int]) > MAX_NESTING);
            return false;
        }
        size = size + n as u128;
        i += 1;
    }
    assert(all.take(i as int) =~= all);
    if size >= 0x2000_0000 || i >= 0x2000_0000 {
        assert(!tables_fit(text_size(all), all.len())) by (nonlinear_arith)
            requires
                text_size(all) >= 0x2000_0000 || all.len() >= 0x2000_0000,
        ;
        return false;
    }
    assert(4 * (size + 1) * (i + 1) <= u128::MAX) by (nonlinear_arith)
        requires
            size < 0x2000_0000,
            i < 0x2000_0000,
    ;
    4 * (size + 1) * (i as u128 + 1) < 0x7fff_0000
}

/// Whether no character closes a group that was not opened.
pub open spec fn never_overcloses(text: Seq<char>, escapes: bool) -> bool {
    forall|k: int|
        0 <= k < text.len() && #[trigger] text[k] == '}' && reading(text.take(k), escapes).place is Plain
            ==> reading(text.take(k), escapes).heights.len() >= 2
}

/// Whether a pattern closes each group, class and escape that it opens, and no other.
pub open spec fn balanced(text: Seq<char>, escapes: bool) -> bool {
    &&& never_overcloses(text, escapes)
    &&& reading(text, escapes).place is Plain
    &&& reading(text, escapes).heights.len() == 1
}

/// The reading of a text within one more open group.
spec fn within(r: Reading) -> Reading {
    Reading { place: r.place, heights: seq![0nat] + r.heights }
}

proof fn lemma_read_within(r: Reading, c: char, escapes: bool)
    requires
        r.heights.len() >= 1,
        r.place is Plain && c == '}' ==> r.heights.len() >= 2,
    ensures
        read(r, c, escapes).heights.len() >= 1,
        read(within(r), c, escapes) == within(read(r, c, escapes)),
{
    let a = read(within(r), c, escapes).heights;
    let b = within(read(r, c, escapes)).heights;
    if r.place is Plain && c == '{' {
        assert((seq![0nat] + r.heights).push(0) =~= seq![0nat] + r.heights.push(0));
    } else if r.place is Plain && c == '}' {
        assert(close(seq![0nat] + r.heights) =~= seq![0nat] + close(r.heights));
    }
    assert(a =~= b);
}

proof fn lemma_reading_within(text: Seq<char>, escapes: bool)
    requires
        never_overcloses(text, escapes),
    ensures
        reading(text, escapes).heights.len() >= 1,
        reading(seq!['{'] + text, escapes) == within(reading(text, escapes)),
    decreases text.len(),
{
    let all = seq!['{'] + text;
    if text.len() == 0 {
        assert(all.drop_last() =~= Seq::<char>::empty());
        assert(all.last() == '{');
        assert(reading(all.drop_last(), escapes).heights == seq![0nat]);
        assert(seq![0nat].push(0) =~= seq![0nat] + seq![0nat]);
    } else {
        let front = text.drop_last();
        let n = front.len() as int;
        assert(never_overcloses(front, escapes)) by {
            assert forall|k: int|
                0 <= k < front.len() && #[trigger] front[k] == '}' && reading(front.take(k), escapes).place is Plain implies reading(
                front.take(k),
                escapes,
            ).heights.len() >= 2 by {
                assert(front.take(k) =~= text.take(k));
                assert(text[k] == '}');
            }
        }
        lemma_reading_within(front, escapes);
        assert(all.drop_last() =~= seq!['{'] + front);
        assert(all.last() == text.last());
        assert(text.take(n) =~= front);
        assert(text[n] == text.last());
        lemma_read_within(reading(front, escapes), text.last(), escapes);
    }
}

/// A group around a balanced pattern nests one deeper than the pattern.
pub proof fn law_nesting_of_group(text: Seq<char>)
    requires
        balanced(text, true),
        balanced(text, false),
    ensures
        nesting(seq!['{'] + text + seq!['}']) == nesting(text) + 1,
{
    lemma_grouped(text, true);
    lemma_grouped(text, false);
}

proof fn lemma_grouped(text: Seq<char>, escapes: bool)
    requires
        balanced(text, escapes),
    ensures
        greatest(reading(seq!['{'] + text + seq!['}'], escapes).heights) == greatest(reading(text, escapes).heights)
            + 1,
{
    let all = seq!['{'] + text + seq!['}'];
    lemma_reading_within(text, escapes);
    let h = reading(text, escapes).heights;
    assert(all.drop_last() =~= seq!['{'] + text);
    assert(all.last() == '}');
    assert(h =~= seq![h[0]]);
    let r = reading(all, escapes).heights;
    assert(r =~= seq![h[0] + 1]);
    assert(h.drop_last() =~= Seq::<nat>::empty());
    assert(r.drop_last() =~= Seq::<nat>::empty());
    assert(greatest(Seq::<nat>::empty()) == 0);
}

/// A pattern without braces nests nothing.
pub proof fn law_nesting_of_plain(text: Seq<char>)
    requires
        !text.contains('{'),
    ensures
        nesting(text) == 0,
{
    lemma_flat_reading(text, true);
    lemma_flat_reading(text, false);
}

proof fn lemma_flat_reading(text: Seq<char>, escapes: bool)
    requires
        !text.contains('{'),
    ensures
        reading(text, escapes).heights == seq![0nat],
        greatest(reading(text, escapes).heights) == 0,
    decreases text.len(),
{
    if text.len() > 0 {
        let front = text.drop_last();
        if front.contains('{') {
            let i = choose|i: int| 0 <= i < front.len() && front[i] == '{';
            assert(text[i] == '{');
        }
        lemma_flat_reading(front, escapes);
        assert(text[text.len() - 1] == text.last());
        assert(text.contains(text.last()));
    }
    assert(seq![0nat].drop_last() =~= Seq::<nat>::empty());
    assert(greatest(Seq::<nat>::empty()) == 0);
}

/// The size of two lists of patterns is the sum of their sizes, and that of one pattern its length.
pub proof fn law_text_size(a: Seq<Seq<char>>, b: Seq<Seq<char>>)
    ensures
        text_size(a + b) == text_size(a) + text_size(b),
        a.len() == 1 ==> text_size(a) == a[0].len(),
    decreases b.len(),
{
    if b.len() == 0 {
        assert(a + b =~= a);
    } else {
        law_text_size(a, b.drop_last());
        assert((a + b).drop_last() =~= a + b.drop_last());
    }
    if a.len() == 1 {
        assert(a.drop_last() =~= Seq::<Seq<char>>::empty());
        assert(text_size(a.drop_last()) == 0);
    }
}

} // verus!
