//! Cutting a source file into chunks of lines, and the markers that opt a file or a chunk out.

use crate::domain::Plan;
use crate::text;
use vstd::prelude::*;

verus! {

/// The most lines of a chunk.
pub const WINDOW: usize = 40;

/// How many lines of a file are searched for the mark of a generated file.
pub const GENERATED_HEAD: usize = 5;

/// The mark of a generated file.
pub const GENERATED_MARK: &'static str = "@generated";

/// The mark of a chunk that is never stored.
pub const NOINDEX_MARK: &'static str = "sai-noindexing";

/// The mark of a chunk that takes no part in clusters.
pub const NODUPLICATE_MARK: &'static str = "sai-noduplicate";

/// Whether a file says that it was generated, in one of its first lines.
pub open spec fn says_generated(raw: Seq<char>) -> bool {
    exists|i: int|
        0 <= i < text::lines(raw).len() && i < GENERATED_HEAD && text::has(
            #[trigger] text::lines(raw)[i],
            GENERATED_MARK@,
        )
}

/// Whether a file says that it was generated.
pub fn is_generated(raw: &str) -> (r: bool)
    ensures
        r == says_generated(raw@),
{
    let lines = text::lines_of(raw);
    let mut i: usize = 0;
    while i < lines.len() && i < GENERATED_HEAD
        invariant
            i <= lines@.len(),
            i <= GENERATED_HEAD,
            text::views(lines@) == text::lines(raw@),
            forall|k: int| 0 <= k < i ==> !text::has(#[trigger] text::lines(raw@)[k], GENERATED_MARK@),
        decreases lines@.len() - i,
    {
        assert(text::lines(raw@)[i as int] == lines@[i as int]@);
        if text::contains(lines[i].as_str(), GENERATED_MARK) {
            return true;
        }
        i += 1;
    }
    false
}

/// Whether a file is to be cut into chunks: one of the plan's extensions, admitted by the globs, and
/// not left out as generated.
pub open spec fn wanted(plan: Plan, ext: Option<Seq<char>>, key: Seq<char>, generated: bool) -> bool {
    &&& ext matches Some(e) && text::views(plan.ext@).contains(e)
    &&& plan.admits(key)
    &&& !(plan.skip_generated && generated)
}

/// Whether a file is to be cut into chunks. `ext` is its extension, `key` the path it is stored under,
/// and `generated` whether it says that it was generated.
pub fn is_wanted(plan: &Plan, ext: Option<&str>, key: &str, generated: bool) -> (r: bool)
    ensures
        r == wanted(
            *plan,
            match ext {
                Some(e) => Some(e@),
                None => None,
            },
            key@,
            generated,
        ),
{
    let known = match ext {
        Some(e) => text::one_of(e, &plan.ext),
        None => false,
    };
    known && plan.passes_globs(key) && !(plan.skip_generated && generated)
}

/// What the markers of a chunk decide: `None` where it is not to be stored, else whether it takes no
/// part in clusters.
pub fn marks(chunk: &str, honor_noindex: bool, honor_noduplicate: bool) -> (r: Option<bool>)
    ensures
        r is None <==> honor_noindex && text::has(chunk@, NOINDEX_MARK@),
        r matches Some(f) ==> f == (honor_noduplicate && text::has(chunk@, NODUPLICATE_MARK@)),
{
    if honor_noindex && text::contains(chunk, NOINDEX_MARK) {
        None
    } else {
        Some(honor_noduplicate && text::contains(chunk, NODUPLICATE_MARK))
    }
}

/// A chunk of a file, before it is stamped and stored.
#[derive(Debug, Clone, PartialEq, Eq)]
pub struct Piece {
    pub start_line: usize,
    pub end_line: usize,
    pub text: String,
    pub no_duplicate: bool,
}

/// A chunk of a file, with its text as a sequence.
pub struct PieceView {
    pub start_line: int,
    pub end_line: int,
    pub text: Seq<char>,
    pub no_duplicate: bool,
}

impl View for Piece {
    type V = PieceView;

    open spec fn view(&self) -> PieceView {
        PieceView {
            start_line: self.start_line as int,
            end_line: self.end_line as int,
            text: self.text@,
            no_duplicate: self.no_duplicate,
        }
    }
}

/// Where the chunk that begins behind line `from` of `n` ends.
pub open spec fn window_end(from: int, n: int) -> int {
    if n - from < WINDOW {
        n
    } else {
        from + WINDOW
    }
}

/// The first `cap` characters of a text.
pub open spec fn capped(s: Seq<char>, cap: int) -> Seq<char> {
    if s.len() <= cap {
        s
    } else {
        s.take(cap)
    }
}

/// The text of the chunk that begins behind line `from`.
pub open spec fn window_text(lines: Seq<Seq<char>>, from: int, cap: int) -> Seq<char> {
    capped(text::joined(lines.subrange(from, window_end(from, lines.len() as int)), "\n"@), cap)
}

/// Whether a chunk of this text is stored: it holds more than white space, and does not opt out.
pub open spec fn stored(s: Seq<char>, honor_noindex: bool) -> bool {
    text::trimmed(s).len() > 0 && !(honor_noindex && text::has(s, NOINDEX_MARK@))
}

/// The chunks of the lines behind `from`: windows one after the other, without those that are not
/// stored.
pub open spec fn pieces(
    lines: Seq<Seq<char>>,
    from: int,
    cap: int,
    honor_noindex: bool,
    honor_noduplicate: bool,
) -> Seq<PieceView>
    decreases lines.len() - from,
{
    if from >= lines.len() {
        Seq::empty()
    } else {
        let end = window_end(from, lines.len() as int);
        let s = window_text(lines, from, cap);
        let rest = pieces(lines, end, cap, honor_noindex, honor_noduplicate);
        if stored(s, honor_noindex) {
            seq![
                PieceView {
                    start_line: from + 1,
                    end_line: end,
                    text: s,
                    no_duplicate: honor_noduplicate && text::has(s, NODUPLICATE_MARK@),
                },
            ] + rest
        } else {
            rest
        }
    }
}

fn cap_text(s: String, cap: usize) -> (r: String)
    ensures
        r@ == capped(s@, cap as int),
{
    let chars = text::chars_of(s.as_str());
    if chars.len() <= cap {
        s
    } else {
        let r = text::text_range(&chars, 0, cap);
        assert(r@ =~= s@.take(cap as int));
        r
    }
}

spec fn shown(v: Seq<Piece>) -> Seq<PieceView> {
    v.map_values(|p: Piece| p@)
}

/// Cuts a file into chunks of lines, of at most `cap` characters each.
pub fn cut(raw: &str, cap: usize, honor_noindex: bool, honor_noduplicate: bool) -> (r: Vec<Piece>)
    ensures
        r@.map_values(|p: Piece| p@) == pieces(
            text::lines(raw@),
            0,
            cap as int,
            honor_noindex,
            honor_noduplicate,
        ),
{
    let lines = text::lines_of(raw);
    let ghost all = text::lines(raw@);
    let mut out: Vec<Piece> = Vec::new();
    let mut from: usize = 0;
    let n: usize = lines.len();
    assert(shown(out@) + pieces(all, 0, cap as int, honor_noindex, honor_noduplicate) =~= pieces(
        all,
        0,
        cap as int,
        honor_noindex,
        honor_noduplicate,
    ));
    while from < n
        invariant
            from <= n == lines@.len(),
            all == text::lines(raw@),
            text::views(lines@) == all,
            shown(out@) + pieces(all, from as int, cap as int, honor_noindex, honor_noduplicate) == pieces(
                all,
                0,
                cap as int,
                honor_noindex,
                honor_noduplicate,
            ),
        decreases n - from,
    {
        let end: usize = if n - from < WINDOW {
            n
        } else {
            from + WINDOW
        };
        let mut window: Vec<String> = Vec::new();
        let mut k: usize = from;
        while k < end
            invariant
                from <= k <= end <= n == lines@.len(),
                text::views(lines@) == all,
                text::views(window@) =~= all.subrange(from as int, k as int),
            decreases end - k,
        {
            let ghost before = text::views(window@);
            window.push(lines[k].clone());
            assert(text::views(window@) =~= before.push(lines@[k as int]@));
            assert(all[k as int] == lines@[k as int]@);
            k += 1;
        }
        let text = cap_text(text::join(&window, "\n"), cap);
        let ghost before = out@;
        let ghost rest = pieces(all, end as int, cap as int, honor_noindex, honor_noduplicate);
        let blank = text::chars_of(text::trim(text.as_str()).as_str()).len() == 0;
        if !blank {
            match marks(text.as_str(), honor_noindex, honor_noduplicate) {
                Some(no_duplicate) => {
                    let piece = Piece { start_line: from + 1, end_line: end, text, no_duplicate };
                    let ghost view = piece@;
                    out.push(piece);
                    assert(shown(out@) =~= shown(before).push(view));
                    assert(shown(out@) + rest =~= shown(before) + (seq![view] + rest));
                },
                None => {},
            }
        }
        from = end;
    }
    assert(shown(out@) + Seq::<PieceView>::empty() =~= shown(out@));
    out
}

/// Whether a chunk lies behind line `from` of `n`, within the limits, with what its text decides.
pub open spec fn is_sound(
    p: PieceView,
    from: int,
    n: int,
    cap: int,
    honor_noindex: bool,
    honor_noduplicate: bool,
) -> bool {
    &&& from < p.start_line <= p.end_line <= n
    &&& p.end_line - p.start_line < WINDOW
    &&& p.text.len() <= cap
    &&& stored(p.text, honor_noindex)
    &&& p.no_duplicate == (honor_noduplicate && text::has(p.text, NODUPLICATE_MARK@))
}

/// Whether each chunk ends before the next begins.
pub open spec fn in_order(ps: Seq<PieceView>) -> bool {
    forall|j: int, k: int| 0 <= j < k < ps.len() ==> (#[trigger] ps[j]).end_line < (#[trigger] ps[k]).start_line
}

proof fn lemma_pieces_in_order(
    lines: Seq<Seq<char>>,
    from: int,
    cap: int,
    honor_noindex: bool,
    honor_noduplicate: bool,
)
    requires
        0 <= from,
        0 <= cap,
    ensures
        in_order(pieces(lines, from, cap, honor_noindex, honor_noduplicate)),
        forall|k: int|
            0 <= k < pieces(lines, from, cap, honor_noindex, honor_noduplicate).len() ==> is_sound(
                #[trigger] pieces(lines, from, cap, honor_noindex, honor_noduplicate)[k],
                from,
                lines.len() as int,
                cap,
                honor_noindex,
                honor_noduplicate,
            ),
    decreases lines.len() - from,
{
    if from < lines.len() {
        let n = lines.len() as int;
        let end = window_end(from, n);
        let all = pieces(lines, from, cap, honor_noindex, honor_noduplicate);
        let rest = pieces(lines, end, cap, honor_noindex, honor_noduplicate);
        lemma_pieces_in_order(lines, end, cap, honor_noindex, honor_noduplicate);
        let skipped = all.len() - rest.len();
        assert forall|k: int| 0 <= k < all.len() implies is_sound(
            #[trigger] all[k],
            from,
            n,
            cap,
            honor_noindex,
            honor_noduplicate,
        ) && (k >= skipped ==> all[k] == rest[k - skipped] && end < all[k].start_line) by {
            if k >= skipped {
                assert(is_sound(rest[k - skipped], end, n, cap, honor_noindex, honor_noduplicate));
            }
        }
        assert forall|j: int, k: int| 0 <= j < k < all.len() implies (#[trigger] all[j]).end_line < (
        #[trigger] all[k]).start_line by {
            if j >= skipped {
                assert(rest[j - skipped].end_line < rest[k - skipped].start_line);
            }
        }
    }
}

/// The chunks of a file come in the order of its lines and share none. Each is within the line and
/// character limits and holds more than white space. Where the markers are honoured, none holds the
/// one that keeps it out, and those that hold the other are flagged.
pub proof fn law_chunks_in_order(raw: Seq<char>, cap: int, honor_noindex: bool, honor_noduplicate: bool)
    requires
        0 <= cap,
    ensures
        in_order(pieces(text::lines(raw), 0, cap, honor_noindex, honor_noduplicate)),
        forall|k: int|
            0 <= k < pieces(text::lines(raw), 0, cap, honor_noindex, honor_noduplicate).len() ==> is_sound(
                #[trigger] pieces(text::lines(raw), 0, cap, honor_noindex, honor_noduplicate)[k],
                0,
                text::lines(raw).len() as int,
                cap,
                honor_noindex,
                honor_noduplicate,
            ),
{
    lemma_pieces_in_order(text::lines(raw), 0, cap, honor_noindex, honor_noduplicate);
}

/// Whether a chunk is a slice of the file: up to forty lines from one after a multiple of forty on,
/// joined by newlines, or the beginning of that where it is longer than `cap`.
pub open spec fn is_slice(lines: Seq<Seq<char>>, p: PieceView, cap: int) -> bool {
    let whole = text::joined(lines.subrange(p.start_line - 1, p.end_line), "\n"@);
    &&& 1 <= p.start_line <= p.end_line <= lines.len()
    &&& (p.start_line - 1) % 40 == 0
    &&& p.end_line == lines.len() || p.end_line == p.start_line + 39
    &&& p.end_line <= p.start_line + 39
    &&& whole.len() <= cap ==> p.text == whole
    &&& whole.len() > cap ==> p.text == whole.take(cap)
}

/// Whether some chunk spans the line at `i`, counted from zero.
pub open spec fn spanned(ps: Seq<PieceView>, i: int) -> bool {
    exists|k: int| 0 <= k < ps.len() && (#[trigger] ps[k]).start_line <= i + 1 <= ps[k].end_line
}

/// The text of the forty lines that the line at `i` stands in, or of as many as there are.
pub open spec fn surrounding(lines: Seq<Seq<char>>, i: int) -> Seq<char> {
    let from = i - i % 40;
    text::joined(
        lines.subrange(
            from,
            if from + 40 < lines.len() {
                from + 40
            } else {
                lines.len() as int
            },
        ),
        "\n"@,
    )
}

proof fn lemma_slices(lines: Seq<Seq<char>>, from: int, cap: int, honor_noindex: bool, honor_noduplicate: bool)
    requires
        0 <= from,
        0 <= cap,
        from % 40 == 0 || from == lines.len(),
    ensures
        forall|k: int|
            0 <= k < pieces(lines, from, cap, honor_noindex, honor_noduplicate).len() ==> is_slice(
                lines,
                #[trigger] pieces(lines, from, cap, honor_noindex, honor_noduplicate)[k],
                cap,
            ),
        forall|i: int|
            from <= i < lines.len() && text::trimmed(#[trigger] lines[i]).len() > 0 ==> {
                let whole = surrounding(lines, i);
                ||| spanned(pieces(lines, from, cap, honor_noindex, honor_noduplicate), i)
                ||| honor_noindex && text::has(capped(whole, cap), NOINDEX_MARK@)
                ||| whole.len() > cap && text::trimmed(whole.take(cap)).len() == 0
            },
    decreases lines.len() - from,
{
    if from < lines.len() {
        let n = lines.len() as int;
        let end = window_end(from, n);
        let all = pieces(lines, from, cap, honor_noindex, honor_noduplicate);
        let rest = pieces(lines, end, cap, honor_noindex, honor_noduplicate);
        lemma_slices(lines, end, cap, honor_noindex, honor_noduplicate);
        let s = window_text(lines, from, cap);
        let whole = text::joined(lines.subrange(from, end), "\n"@);
        let skipped = all.len() - rest.len();
        assert forall|k: int| 0 <= k < all.len() implies is_slice(lines, #[trigger] all[k], cap) by {
            if k >= skipped {
                assert(all[k] == rest[k - skipped]);
            } else {
                assert(all[0].start_line == from + 1);
            }
        }
        assert forall|i: int| from <= i < lines.len() && text::trimmed(#[trigger] lines[i]).len() > 0 implies {
            let whole = surrounding(lines, i);
            ||| spanned(all, i)
            ||| honor_noindex && text::has(capped(whole, cap), NOINDEX_MARK@)
            ||| whole.len() > cap && text::trimmed(whole.take(cap)).len() == 0
        } by {
            if i >= end {
                if spanned(rest, i) {
                    let k = choose|k: int|
                        0 <= k < rest.len() && (#[trigger] rest[k]).start_line <= i + 1 <= rest[k].end_line;
                    assert(all[k + skipped] == rest[k]);
                }
            } else {
                assert(i - i % 40 == from);
                assert(surrounding(lines, i) == whole);
                if stored(s, honor_noindex) {
                    assert(all[0].start_line <= i + 1 <= all[0].end_line);
                } else if !(honor_noindex && text::has(s, NOINDEX_MARK@)) {
                    text::law_trimmed_blank(lines[i]);
                    text::law_trimmed_blank(whole);
                    let j = choose|j: int| 0 <= j < lines[i].len() && !text::white_space(#[trigger] lines[i][j]);
                    assert(lines.subrange(from, end)[i - from] == lines[i]);
                    text::lemma_joined_holds(lines.subrange(from, end), "\n"@, i - from, lines[i][j]);
                    let m = choose|m: int| 0 <= m < whole.len() && whole[m] == lines[i][j];
                    assert(!text::white_space(whole[m]));
                }
            }
        }
    }
}

/// The text of every chunk is the file's own: its lines from the first to the last it names, joined by
/// newlines, or the beginning of that where the cap cuts it. And the chunks leave nothing out: every
/// line that is not blank lies in one, unless what the cap leaves of its window opts out of the index
/// or is blank.
pub proof fn law_chunks_are_the_file(raw: Seq<char>, cap: int, honor_noindex: bool, honor_noduplicate: bool)
    requires
        0 <= cap,
    ensures
        forall|k: int|
            0 <= k < pieces(text::lines(raw), 0, cap, honor_noindex, honor_noduplicate).len() ==> is_slice(
                text::lines(raw),
                #[trigger] pieces(text::lines(raw), 0, cap, honor_noindex, honor_noduplicate)[k],
                cap,
            ),
        forall|i: int|
            0 <= i < text::lines(raw).len() && text::trimmed(#[trigger] text::lines(raw)[i]).len() > 0 ==> {
                let whole = surrounding(text::lines(raw), i);
                ||| spanned(pieces(text::lines(raw), 0, cap, honor_noindex, honor_noduplicate), i)
                ||| honor_noindex && whole.len() <= cap && text::has(whole, "sai-noindexing"@)
                ||| honor_noindex && whole.len() > cap && text::has(whole.take(cap), "sai-noindexing"@)
                ||| whole.len() > cap && text::trimmed(whole.take(cap)).len() == 0
            },
{
    lemma_slices(text::lines(raw), 0, cap, honor_noindex, honor_noduplicate);
}

/// A chunk of a file holds the flag exactly if its text holds `sai-noduplicate` and the marker is
/// honoured; none holds `sai-noindexing` where that is honoured; none is blank.
pub proof fn law_chunk_markers(raw: Seq<char>, cap: int, honor_noindex: bool, honor_noduplicate: bool, k: int)
    requires
        0 <= cap,
        0 <= k < pieces(text::lines(raw), 0, cap, honor_noindex, honor_noduplicate).len(),
    ensures
        ({
            let p = pieces(text::lines(raw), 0, cap, honor_noindex, honor_noduplicate)[k];
            &&& p.no_duplicate == (honor_noduplicate && text::has(p.text, "sai-noduplicate"@))
            &&& !(honor_noindex && text::has(p.text, "sai-noindexing"@))
            &&& exists|j: int| 0 <= j < p.text.len() && !text::white_space(#[trigger] p.text[j])
        }),
{
    lemma_pieces_in_order(text::lines(raw), 0, cap, honor_noindex, honor_noduplicate);
    let p = pieces(text::lines(raw), 0, cap, honor_noindex, honor_noduplicate)[k];
    assert(is_sound(p, 0, text::lines(raw).len() as int, cap, honor_noindex, honor_noduplicate));
    text::law_trimmed_blank(p.text);
}

/// A file says that it was generated exactly if `@generated` stands in one of its first five lines.
pub proof fn law_generated_mark(raw: Seq<char>)
    ensures
        says_generated(raw) <==> exists|i: int, j: int|
            0 <= i < 5 && i < text::lines(raw).len() && 0 <= j && j + 10 <= text::lines(raw)[i].len()
                && #[trigger] text::lines(raw)[i].subrange(j, j + 10) == "@generated"@,
{
    reveal_strlit("@generated");
    if says_generated(raw) {
        let i = choose|i: int|
            0 <= i < text::lines(raw).len() && i < GENERATED_HEAD && text::has(
                #[trigger] text::lines(raw)[i],
                GENERATED_MARK@,
            );
        let j = choose|j: int| #[trigger] text::occurs_at(text::lines(raw)[i], GENERATED_MARK@, j);
        assert(text::lines(raw)[i].subrange(j, j + 10) == "@generated"@);
    }
    if exists|i: int, j: int|
        0 <= i < 5 && i < text::lines(raw).len() && 0 <= j && j + 10 <= text::lines(raw)[i].len()
            && #[trigger] text::lines(raw)[i].subrange(j, j + 10) == "@generated"@ {
        let (i, j) = choose|i: int, j: int|
            0 <= i < 5 && i < text::lines(raw).len() && 0 <= j && j + 10 <= text::lines(raw)[i].len()
                && #[trigger] text::lines(raw)[i].subrange(j, j + 10) == "@generated"@;
        assert(text::occurs_at(text::lines(raw)[i], GENERATED_MARK@, j));
    }
}

/// A file is cut exactly if its extension is one of the flag's, without leading dots; the config has no
/// allow-list or the path is on it; no exclude pattern of the config matches; and it is not left out as
/// generated.
pub proof fn law_wanted_files(
    args: crate::cli::Args,
    config: crate::config::Config,
    default: Seq<char>,
    plan: Plan,
    ast: bool,
    ext: Option<Seq<char>>,
    key: Seq<char>,
    generated: bool,
)
    requires
        crate::config::is_plan(plan, args, config, default, ast),
    ensures
        wanted(plan, ext, key, generated) <==> {
            &&& ext is Some
            &&& exists|i: int|
                0 <= i < args.ext@.len() && text::strip_front((#[trigger] args.ext@[i])@, '.') == ext->0
            &&& config.include_globs@.len() == 0 || crate::globs::globs_match(
                text::views(config.include_globs@),
                key,
            )
            &&& !crate::globs::globs_match(text::views(config.exclude@), key)
            &&& !(config.skip_generated_marker && generated)
        },
{
    let bare = text::views(plan.ext@);
    if let Some(e) = ext {
        if bare.contains(e) {
            let i = choose|i: int| 0 <= i < bare.len() && bare[i] == e;
            assert(text::strip_front(args.ext@[i]@, '.') == e);
        }
        if exists|i: int| 0 <= i < args.ext@.len() && text::strip_front((#[trigger] args.ext@[i])@, '.') == e {
            let i = choose|i: int| 0 <= i < args.ext@.len() && text::strip_front((#[trigger] args.ext@[i])@, '.') == e;
            assert(bare[i] == e);
        }
    }
}

} // verus!
