//! Splitting text into short pieces for speech synthesis.
//!
//! Smaller chunks reduce the time to the first audio on CPU-only VOICEVOX
//! deployments. Chunks follow the natural boundaries of Japanese text where
//! they can, and never cut through a run of URL-like characters.
use vstd::prelude::*;

use crate::text::{chars_of, is_blank, is_blank_str, is_white_space, is_whitespace, string_from_chars};

verus! {

broadcast use vstd::seq_lib::group_seq_properties;

use vstd::seq_lib::lemma_flatten_concat;

/// A chunk is closed at a natural boundary once it holds at least this many characters.
pub const MIN_CHUNK_CHARS: usize = 10;

/// Text longer than this is split further.
pub const TARGET_CHUNK_CHARS: usize = 25;

/// A sentence is not appended to a chunk if the two would exceed this many characters.
pub const MAX_CHUNK_CHARS: usize = 60;

// ---------------------------------------------------------------------------
// Model
// ---------------------------------------------------------------------------

/// Characters after which text may be split naturally.
pub open spec fn is_natural_boundary(c: char) -> bool {
    c == '。' || c == '！' || c == '？' || c == '、' || c == '\n'
}

/// Characters that make up URLs and ASCII tokens, which are kept intact.
pub open spec fn is_protected(c: char) -> bool {
    ||| ('0' <= c && c <= '9')
    ||| ('a' <= c && c <= 'z')
    ||| ('A' <= c && c <= 'Z')
    ||| c == ':' || c == '/' || c == '?' || c == '&' || c == '=' || c == '#'
    ||| c == '%' || c == '.' || c == '_' || c == '-' || c == '~'
}

/// Splitting `c` before index `i` would cut a run of protected characters.
pub open spec fn splits_run(c: Seq<char>, i: int) -> bool {
    0 < i < c.len() && is_protected(c[i - 1]) && is_protected(c[i])
}

/// The largest `i` in `lo..=hi` with `p(i)`.
pub open spec fn last_index_where(lo: int, hi: int, p: spec_fn(int) -> bool) -> Option<int>
    decreases hi - lo + 1,
{
    if hi < lo {
        None
    } else if p(hi) {
        Some(hi)
    } else {
        last_index_where(lo, hi - 1, p)
    }
}

/// The smallest `i` in `lo..hi` with `p(i)`.
pub open spec fn first_index_where(lo: int, hi: int, p: spec_fn(int) -> bool) -> Option<int>
    decreases hi - lo,
{
    if hi <= lo {
        None
    } else if p(lo) {
        Some(lo)
    } else {
        first_index_where(lo + 1, hi, p)
    }
}

/// Splitting before `i` leaves a Japanese comma at the end of the first part.
pub open spec fn after_comma(c: Seq<char>) -> spec_fn(int) -> bool {
    |i: int| c[i - 1] == '、'
}

/// Splitting before `i` leaves whitespace at the end of the first part.
pub open spec fn after_whitespace(c: Seq<char>) -> spec_fn(int) -> bool {
    |i: int| is_white_space(c[i - 1])
}

/// Splitting before `i` keeps runs of protected characters intact.
pub open spec fn keeps_runs(c: Seq<char>) -> spec_fn(int) -> bool {
    |i: int| !splits_run(c, i)
}

/// The highest index at which a chunk that has grown too long is cut.
pub open spec fn split_limit(c: Seq<char>) -> int {
    if (TARGET_CHUNK_CHARS as int) < c.len() {
        TARGET_CHUNK_CHARS as int
    } else {
        c.len() as int
    }
}

/// Where an over-long chunk `c` is cut: after the last Japanese comma in
/// `MIN..=limit`, else after the last whitespace there, else at the last place
/// there that keeps protected runs intact, else at the first such place after
/// the limit, else not at all (the whole of `c`).
pub open spec fn preferred_split(c: Seq<char>) -> int {
    let lo = MIN_CHUNK_CHARS as int;
    let limit = split_limit(c);
    match last_index_where(lo, limit, after_comma(c)) {
        Some(i) => i,
        None => match last_index_where(lo, limit, after_whitespace(c)) {
            Some(i) => i,
            None => match last_index_where(lo, limit, keeps_runs(c)) {
                Some(i) => i,
                None => match first_index_where(limit + 1, c.len() as int, keeps_runs(c)) {
                    Some(i) => i,
                    None => c.len() as int,
                },
            },
        },
    }
}

/// Ends (exclusive, counted in characters) of the natural boundaries among the first `n` characters.
pub open spec fn boundary_ends(t: Seq<char>, n: int) -> Seq<int>
    decreases n,
{
    if n <= 0 {
        seq![]
    } else if is_natural_boundary(t[n - 1]) {
        boundary_ends(t, n - 1).push(n)
    } else {
        boundary_ends(t, n - 1)
    }
}

/// Ends of the sentences of `t`: after each natural boundary, and at the end of the text.
pub open spec fn segment_ends(t: Seq<char>) -> Seq<int> {
    let ends = boundary_ends(t, t.len() as int);
    let last = if ends.len() == 0 {
        0
    } else {
        ends.last()
    };
    if last < t.len() {
        ends.push(t.len() as int)
    } else {
        ends
    }
}

/// Where sentence `k` starts.
pub open spec fn segment_start(ends: Seq<int>, k: int) -> int {
    if k <= 0 {
        0
    } else {
        ends[k - 1]
    }
}

/// Cuts the current chunk `t[cs..e]` while it is longer than the target.
pub open spec fn drain_current(t: Seq<char>, chunks: Seq<Seq<char>>, cs: int, e: int) -> (Seq<Seq<char>>, int)
    decreases e - cs,
{
    if e - cs > TARGET_CHUNK_CHARS && 0 <= cs && e <= t.len() {
        let k = preferred_split(t.subrange(cs, e));
        proof {
            lemma_preferred_split(t.subrange(cs, e));
        }
        drain_current(t, chunks.push(t.subrange(cs, cs + k)), cs + k, e)
    } else {
        (chunks, cs)
    }
}

/// Adds the sentence `t[s..e]` to the current chunk `t[cs..s]`.
pub open spec fn process_segment(t: Seq<char>, state: (Seq<Seq<char>>, int), s: int, e: int) -> (Seq<Seq<char>>, int) {
    let chunks0 = state.0;
    let cs0 = state.1;
    let first = if e - cs0 > MAX_CHUNK_CHARS && s - cs0 >= MIN_CHUNK_CHARS {
        (chunks0.push(t.subrange(cs0, s)), s)
    } else {
        (chunks0, cs0)
    };
    let drained = drain_current(t, first.0, first.1, e);
    if is_natural_boundary(t[e - 1]) && e - drained.1 >= MIN_CHUNK_CHARS {
        (drained.0.push(t.subrange(drained.1, e)), e)
    } else {
        drained
    }
}

/// The chunks closed, and where the current chunk starts, after the first `k` sentences.
pub open spec fn fold_segments(t: Seq<char>, ends: Seq<int>, k: int) -> (Seq<Seq<char>>, int)
    decreases k,
{
    if k <= 0 {
        (seq![], 0)
    } else {
        process_segment(t, fold_segments(t, ends, k - 1), segment_start(ends, k - 1), ends[k - 1])
    }
}

/// The chunks that `split_text` gives for the characters `t`.
pub open spec fn split_text_spec(t: Seq<char>) -> Seq<Seq<char>> {
    let ends = segment_ends(t);
    let state = fold_segments(t, ends, ends.len() as int);
    if state.1 < t.len() {
        state.0.push(t.subrange(state.1, t.len() as int))
    } else {
        state.0
    }
}

/// A chunk is at most the target length, unless from its `MIN`-th character on
/// it is one run of protected characters that could not be cut.
pub open spec fn chunk_size_ok(chunk: Seq<char>) -> bool {
    chunk.len() <= TARGET_CHUNK_CHARS || forall|j: int|
        MIN_CHUNK_CHARS - 1 <= j < chunk.len() ==> #[trigger] is_protected(chunk[j])
}

/// No two neighbouring chunks meet inside a run of protected characters.
pub open spec fn keeps_protected_runs(chunks: Seq<Seq<char>>) -> bool {
    forall|i: int|
        0 <= i < chunks.len() - 1 ==> !(is_protected(#[trigger] chunks[i].last())
            && is_protected(chunks[i + 1].first()))
}

// ---------------------------------------------------------------------------
// Lemmas
// ---------------------------------------------------------------------------

proof fn lemma_last_index_where(lo: int, hi: int, p: spec_fn(int) -> bool)
    ensures
        match last_index_where(lo, hi, p) {
            Some(i) => lo <= i <= hi && p(i),
            None => forall|j: int| lo <= j <= hi ==> !#[trigger] p(j),
        },
    decreases hi - lo + 1,
{
    if hi >= lo && !p(hi) {
        lemma_last_index_where(lo, hi - 1, p);
    }
}

proof fn lemma_first_index_where(lo: int, hi: int, p: spec_fn(int) -> bool)
    ensures
        match first_index_where(lo, hi, p) {
            Some(i) => lo <= i < hi && p(i) && forall|j: int| lo <= j < i ==> !#[trigger] p(j),
            None => forall|j: int| lo <= j < hi ==> !#[trigger] p(j),
        },
    decreases hi - lo,
{
    if hi > lo && !p(lo) {
        lemma_first_index_where(lo + 1, hi, p);
    }
}

/// Where an over-long chunk is cut: not too early, not past its end, not inside
/// a protected run, and past the target only across a protected run.
pub proof fn lemma_preferred_split(c: Seq<char>)
    ensures
        (if c.len() < MIN_CHUNK_CHARS {
            c.len() as int
        } else {
            MIN_CHUNK_CHARS as int
        }) <= preferred_split(c) <= c.len(),
        preferred_split(c) == c.len() || !splits_run(c, preferred_split(c)),
        preferred_split(c) <= TARGET_CHUNK_CHARS || forall|j: int|
            MIN_CHUNK_CHARS - 1 <= j < preferred_split(c) ==> #[trigger] is_protected(c[j]),
        preferred_split(c) <= TARGET_CHUNK_CHARS || forall|i: int|
            MIN_CHUNK_CHARS <= i <= TARGET_CHUNK_CHARS ==> #[trigger] splits_run(c, i),
{
    let lo = MIN_CHUNK_CHARS as int;
    let limit = split_limit(c);
    lemma_last_index_where(lo, limit, after_comma(c));
    lemma_last_index_where(lo, limit, after_whitespace(c));
    lemma_last_index_where(lo, limit, keeps_runs(c));
    lemma_first_index_where(limit + 1, c.len() as int, keeps_runs(c));
    let k = preferred_split(c);
    if last_index_where(lo, limit, after_comma(c)) is None && last_index_where(
        lo,
        limit,
        after_whitespace(c),
    ) is None && last_index_where(lo, limit, keeps_runs(c)) is None && k > TARGET_CHUNK_CHARS {
        assert forall|i: int| MIN_CHUNK_CHARS <= i <= TARGET_CHUNK_CHARS implies #[trigger] splits_run(
            c,
            i,
        ) by {
            assert(!keeps_runs(c)(i));
        }
        assert forall|j: int| MIN_CHUNK_CHARS - 1 <= j < k implies #[trigger] is_protected(c[j]) by {
            if j + 1 <= limit {
                assert(!keeps_runs(c)(j + 1));
            } else {
                assert(!keeps_runs(c)(j));
            }
        }
    }
}

proof fn lemma_boundary_ends(t: Seq<char>, n: int)
    requires
        0 <= n <= t.len(),
    ensures
        forall|j: int|
            0 <= j < boundary_ends(t, n).len() ==> 0 < #[trigger] boundary_ends(t, n)[j] <= n
                && is_natural_boundary(t[boundary_ends(t, n)[j] - 1]),
        forall|i: int, j: int|
            0 <= i < j < boundary_ends(t, n).len() ==> boundary_ends(t, n)[i] < boundary_ends(
                t,
                n,
            )[j],
        forall|p: int|
            0 <= p < n && is_natural_boundary(t[p]) ==> #[trigger] boundary_ends(t, n).contains(
                p + 1,
            ),
    decreases n,
{
    if n > 0 {
        lemma_boundary_ends(t, n - 1);
        let prev = boundary_ends(t, n - 1);
        let b = boundary_ends(t, n);
        assert forall|p: int|
            0 <= p < n && is_natural_boundary(t[p]) implies #[trigger] b.contains(p + 1) by {
            if p < n - 1 {
                assert(prev.contains(p + 1));
                let j = choose|j: int| 0 <= j < prev.len() && prev[j] == p + 1;
                if is_natural_boundary(t[n - 1]) {
                    assert(b[j] == prev[j]);
                }
            } else {
                assert(b[b.len() - 1] == n);
            }
        }
        if is_natural_boundary(t[n - 1]) {
            assert(b == prev.push(n));
            assert forall|j: int| 0 <= j < b.len() implies 0 < #[trigger] b[j] <= n
                && is_natural_boundary(t[b[j] - 1]) by {
                if j < prev.len() {
                    assert(b[j] == prev[j]);
                }
            }
            assert forall|i: int, j: int| 0 <= i < j < b.len() implies b[i] < b[j] by {
                assert(b[i] == prev[i]);
                if j < prev.len() {
                    assert(b[j] == prev[j]);
                }
            }
        }
    }
}

/// Sentence ends rise strictly, the last is the end of the text, every other
/// one follows a natural boundary, and every natural boundary ends a sentence:
/// the sentences are non-empty, put together give the text, and hold a
/// natural boundary at most as their last character.
pub proof fn lemma_segment_ends(t: Seq<char>)
    ensures
        forall|j: int|
            0 <= j < segment_ends(t).len() ==> 0 < #[trigger] segment_ends(t)[j] <= t.len(),
        forall|j: int|
            0 <= j < segment_ends(t).len() && #[trigger] segment_ends(t)[j] < t.len()
                ==> is_natural_boundary(t[segment_ends(t)[j] - 1]),
        forall|i: int, j: int|
            0 <= i < j < segment_ends(t).len() ==> segment_ends(t)[i] < segment_ends(t)[j],
        t.len() == 0 ==> segment_ends(t).len() == 0,
        t.len() > 0 ==> segment_ends(t).len() > 0 && segment_ends(t).last() == t.len(),
        forall|p: int|
            0 <= p < t.len() && is_natural_boundary(t[p]) ==> #[trigger] segment_ends(t).contains(
                p + 1,
            ),
{
    lemma_boundary_ends(t, t.len() as int);
    let b = boundary_ends(t, t.len() as int);
    assert forall|p: int|
        0 <= p < t.len() && is_natural_boundary(t[p]) implies #[trigger] segment_ends(t).contains(
        p + 1,
    ) by {
        assert(b.contains(p + 1));
        let j = choose|j: int| 0 <= j < b.len() && b[j] == p + 1;
        assert(segment_ends(t)[j] == b[j]);
    }
}


/// The chunks that hold something other than whitespace.
pub open spec fn non_blank(chunks: Seq<Seq<char>>) -> Seq<Seq<char>>
    decreases chunks.len(),
{
    if chunks.len() == 0 {
        chunks
    } else if is_blank(chunks.last()) {
        non_blank(chunks.drop_last())
    } else {
        non_blank(chunks.drop_last()).push(chunks.last())
    }
}

/// The character sequences of `strings`.
pub open spec fn views(strings: Seq<String>) -> Seq<Seq<char>> {
    strings.map_values(|s: String| s@)
}

/// What holds of the chunks closed so far, when the current chunk starts at `cs`.
spec fn chunking_inv(t: Seq<char>, chunks: Seq<Seq<char>>, cs: int) -> bool {
    &&& 0 <= cs <= t.len()
    &&& chunks.flatten() == t.subrange(0, cs)
    &&& forall|i: int| 0 <= i < chunks.len() ==> #[trigger] chunks[i].len() > 0
    &&& forall|i: int| 0 <= i < chunks.len() ==> chunk_size_ok(#[trigger] chunks[i])
    &&& keeps_protected_runs(chunks)
    &&& chunks.len() > 0 && cs < t.len() ==> !(is_protected(t[cs - 1]) && is_protected(t[cs]))
}

/// Every chunk holds at least the minimum number of characters.
spec fn all_long(chunks: Seq<Seq<char>>) -> bool {
    forall|i: int| 0 <= i < chunks.len() ==> #[trigger] chunks[i].len() >= MIN_CHUNK_CHARS
}

proof fn lemma_all_long_push(chunks: Seq<Seq<char>>, c: Seq<char>)
    requires
        all_long(chunks),
    ensures
        c.len() >= MIN_CHUNK_CHARS ==> all_long(chunks.push(c)),
        forall|i: int| 0 <= i < chunks.len() ==> #[trigger] chunks.push(c)[i].len() >= MIN_CHUNK_CHARS,
{
    assert forall|i: int| 0 <= i < chunks.len() implies #[trigger] chunks.push(c)[i].len() >= MIN_CHUNK_CHARS by {
        assert(chunks.push(c)[i] == chunks[i]);
    }
}

proof fn lemma_boundary_not_protected(c: char)
    requires
        is_natural_boundary(c),
    ensures
        !is_protected(c),
{
}

/// Closing the chunk `t[cs..x]` keeps the invariant.
proof fn lemma_push_chunk(t: Seq<char>, chunks: Seq<Seq<char>>, cs: int, x: int)
    requires
        chunking_inv(t, chunks, cs),
        cs < x <= t.len(),
        chunk_size_ok(t.subrange(cs, x)),
        x < t.len() ==> !(is_protected(t[x - 1]) && is_protected(t[x])),
    ensures
        chunking_inv(t, chunks.push(t.subrange(cs, x)), x),
{
    let c = t.subrange(cs, x);
    let n = chunks.push(c);
    chunks.lemma_flatten_push(c);
    assert(t.subrange(0, cs) + c =~= t.subrange(0, x));
    if chunks.len() > 0 {
        let d = chunks.drop_last();
        assert(chunks =~= d.push(chunks.last()));
        d.lemma_flatten_push(chunks.last());
        assert(chunks.last().len() > 0);
        assert(chunks.flatten().last() == chunks.last().last());
        assert(t.subrange(0, cs).last() == t[cs - 1]);
    }
    assert forall|i: int| 0 <= i < n.len() - 1 implies !(is_protected(#[trigger] n[i].last())
        && is_protected(n[i + 1].first())) by {
        if i < chunks.len() - 1 {
            assert(n[i] == chunks[i]);
            assert(n[i + 1] == chunks[i + 1]);
        } else {
            assert(n[i] == chunks.last());
            assert(n[i + 1] == c);
            assert(c.first() == t[cs]);
        }
    }
    assert forall|i: int| 0 <= i < n.len() implies #[trigger] n[i].len() > 0 && chunk_size_ok(
        n[i],
    ) by {
        if i < chunks.len() {
            assert(n[i] == chunks[i]);
        }
    }
}

/// One cut of an over-long current chunk keeps the invariant and makes progress.
proof fn lemma_drain_step(t: Seq<char>, chunks: Seq<Seq<char>>, cs: int, e: int)
    requires
        chunking_inv(t, chunks, cs),
        cs <= e <= t.len(),
        e - cs > TARGET_CHUNK_CHARS,
        e == t.len() || is_natural_boundary(t[e - 1]),
    ensures
        ({
            let k = preferred_split(t.subrange(cs, e));
            &&& MIN_CHUNK_CHARS <= k <= e - cs
            &&& chunking_inv(t, chunks.push(t.subrange(cs, cs + k)), cs + k)
            &&& drain_current(t, chunks, cs, e) == drain_current(
                t,
                chunks.push(t.subrange(cs, cs + k)),
                cs + k,
                e,
            )
        }),
{
    let c = t.subrange(cs, e);
    lemma_preferred_split(c);
    let k = preferred_split(c);
    let piece = t.subrange(cs, cs + k);
    if k > TARGET_CHUNK_CHARS {
        assert forall|j: int| MIN_CHUNK_CHARS - 1 <= j < piece.len() implies #[trigger] is_protected(
            piece[j],
        ) by {
            assert(piece[j] == c[j]);
            assert(is_protected(c[j]));
        }
    }
    if cs + k < t.len() {
        if k < c.len() {
            assert(c[k - 1] == t[cs + k - 1]);
            assert(c[k] == t[cs + k]);
        } else {
            lemma_boundary_not_protected(t[e - 1]);
        }
    }
    lemma_push_chunk(t, chunks, cs, cs + k);
}

/// A clause that is read on its own: 10 to 25 characters, with a natural
/// boundary as its last character and nowhere before it.
pub open spec fn is_clause(s: Seq<char>) -> bool {
    &&& MIN_CHUNK_CHARS <= s.len() <= TARGET_CHUNK_CHARS
    &&& is_natural_boundary(s.last())
    &&& forall|j: int| 0 <= j < s.len() - 1 ==> !is_natural_boundary(#[trigger] s[j])
}

/// Where clause `k` of `clauses` ends in their concatenation.
spec fn clause_end(clauses: Seq<Seq<char>>, k: int) -> int {
    clauses.take(k).flatten().len() as int
}

/// Clause `k` stands, whole, at its place in the concatenation.
proof fn lemma_clause_in_text(clauses: Seq<Seq<char>>, k: int)
    requires
        0 <= k < clauses.len(),
    ensures
        clauses.flatten() == clauses.take(k).flatten() + clauses[k] + clauses.skip(k + 1).flatten(),
        clauses.take(k + 1).flatten() == clauses.take(k).flatten() + clauses[k],
        clause_end(clauses, k + 1) == clause_end(clauses, k) + clauses[k].len(),
        clauses.flatten().subrange(clause_end(clauses, k), clause_end(clauses, k + 1)) == clauses[k],
        clause_end(clauses, k + 1) <= clauses.flatten().len(),
{
    let p = clauses.take(k);
    let rest = clauses.skip(k);
    assert(clauses =~= p + rest);
    lemma_flatten_concat(p, rest);
    assert(rest.first() == clauses[k]);
    assert(rest.drop_first() =~= clauses.skip(k + 1));
    assert(rest.flatten() == rest.first() + rest.drop_first().flatten());
    assert(clauses.take(k + 1) =~= p.push(clauses[k]));
    p.lemma_flatten_push(clauses[k]);
    let t = clauses.flatten();
    assert(t =~= p.flatten() + clauses[k] + clauses.skip(k + 1).flatten());
    assert(t.subrange(clause_end(clauses, k), clause_end(clauses, k + 1)) =~= clauses[k]);
}

/// Inside a clause, natural boundaries are found only at its end.
proof fn lemma_boundary_ends_in_clause(clauses: Seq<Seq<char>>, k: int, n: int)
    requires
        0 <= k < clauses.len(),
        is_clause(clauses[k]),
        clause_end(clauses, k) <= n < clause_end(clauses, k + 1),
    ensures
        boundary_ends(clauses.flatten(), n) == boundary_ends(
            clauses.flatten(),
            clause_end(clauses, k),
        ),
    decreases n,
{
    lemma_clause_in_text(clauses, k);
    let t = clauses.flatten();
    let start = clause_end(clauses, k);
    if n > start {
        lemma_boundary_ends_in_clause(clauses, k, n - 1);
        let c = clauses[k];
        assert(t.subrange(start, clause_end(clauses, k + 1))[n - 1 - start] == t[n - 1]);
        assert(c[n - 1 - start] == t[n - 1]);
        assert(!is_natural_boundary(c[n - 1 - start]));
    }
}

/// The natural boundaries of concatenated clauses are exactly the clause ends.
proof fn lemma_boundary_ends_of_clauses(clauses: Seq<Seq<char>>, k: int)
    requires
        0 <= k <= clauses.len(),
        forall|i: int| 0 <= i < clauses.len() ==> is_clause(#[trigger] clauses[i]),
    ensures
        boundary_ends(clauses.flatten(), clause_end(clauses, k)) == Seq::new(
            k as nat,
            |i: int| clause_end(clauses, i + 1),
        ),
    decreases k,
{
    let t = clauses.flatten();
    if k == 0 {
        assert(clauses.take(0) =~= Seq::<Seq<char>>::empty());
        assert(clause_end(clauses, 0) == 0);
        assert(Seq::new(0, |i: int| clause_end(clauses, i + 1)) =~= Seq::<int>::empty());
    } else {
        lemma_boundary_ends_of_clauses(clauses, k - 1);
        lemma_clause_in_text(clauses, k - 1);
        let c = clauses[k - 1];
        assert(is_clause(c));
        let end = clause_end(clauses, k);
        lemma_boundary_ends_in_clause(clauses, k - 1, end - 1);
        assert(t.subrange(clause_end(clauses, k - 1), end)[c.len() - 1] == t[end - 1]);
        assert(is_natural_boundary(t[end - 1]));
        assert(Seq::new(k as nat, |i: int| clause_end(clauses, i + 1)) =~= Seq::new(
            (k - 1) as nat,
            |i: int| clause_end(clauses, i + 1),
        ).push(end));
    }
}

/// Splitting processes each clause into a chunk of its own.
proof fn lemma_fold_clauses(clauses: Seq<Seq<char>>, k: int)
    requires
        0 <= k <= clauses.len(),
        forall|i: int| 0 <= i < clauses.len() ==> is_clause(#[trigger] clauses[i]),
    ensures
        fold_segments(
            clauses.flatten(),
            Seq::new(clauses.len(), |i: int| clause_end(clauses, i + 1)),
            k,
        ) == (clauses.take(k), clause_end(clauses, k)),
    decreases k,
{
    let t = clauses.flatten();
    let ends = Seq::new(clauses.len(), |i: int| clause_end(clauses, i + 1));
    if k == 0 {
        assert(clauses.take(0) =~= Seq::<Seq<char>>::empty());
        assert(clause_end(clauses, 0) == 0);
    } else {
        lemma_fold_clauses(clauses, k - 1);
        lemma_clause_in_text(clauses, k - 1);
        let c = clauses[k - 1];
        assert(is_clause(c));
        let s = clause_end(clauses, k - 1);
        let e = clause_end(clauses, k);
        assert(segment_start(ends, k - 1) == s) by {
            if k - 1 > 0 {
                assert(ends[k - 2] == clause_end(clauses, k - 1));
            } else {
                assert(clauses.take(0) =~= Seq::<Seq<char>>::empty());
            }
        }
        assert(ends[k - 1] == e);
        assert(drain_current(t, clauses.take(k - 1), s, e) == (clauses.take(k - 1), s));
        assert(t.subrange(s, e)[c.len() - 1] == t[e - 1]);
        assert(is_natural_boundary(t[e - 1]));
        assert(clauses.take(k) =~= clauses.take(k - 1).push(c));
    }
}

/// A text made of clauses of 10 to 25 characters, each ending at a natural
/// boundary, is read one clause at a time: each clause is a chunk of its own.
pub proof fn lemma_clauses_are_chunks(clauses: Seq<Seq<char>>)
    requires
        forall|i: int| 0 <= i < clauses.len() ==> is_clause(#[trigger] clauses[i]),
    ensures
        split_text_spec(clauses.flatten()) == clauses,
{
    let t = clauses.flatten();
    let n = clauses.len() as int;
    assert(clauses.take(n) =~= clauses);
    lemma_boundary_ends_of_clauses(clauses, n);
    lemma_fold_clauses(clauses, n);
    let ends = Seq::new(clauses.len(), |i: int| clause_end(clauses, i + 1));
    assert(clause_end(clauses, n) == t.len());
    assert(segment_ends(t) == ends) by {
        if n > 0 {
            assert(ends.last() == clause_end(clauses, n));
        }
    }
}

/// The characters that end a sentence or clause: `。`, `！`, `？`, `、` and a line break.
pub open spec fn ends_sentence(c: char) -> bool {
    c == '。' || c == '！' || c == '？' || c == '、' || c == '\n'
}

/// Inside `chunk`, every sentence end that is not its last character comes
/// while the chunk is still shorter than the minimum: a chunk that has reached
/// the minimum is closed right after a sentence end.
pub open spec fn closed_at_sentence_ends(chunk: Seq<char>) -> bool {
    forall|j: int|
        0 <= j < chunk.len() - 1 && ends_sentence(#[trigger] chunk[j]) ==> j + 1 < MIN_CHUNK_CHARS
}

/// Every sentence end in `t[cs..upto]` comes less than the minimum after `cs`.
spec fn short_before(t: Seq<char>, cs: int, upto: int) -> bool {
    forall|p: int| cs <= p < upto && ends_sentence(#[trigger] t[p]) ==> p + 1 - cs < MIN_CHUNK_CHARS
}

spec fn all_closed(chunks: Seq<Seq<char>>) -> bool {
    forall|i: int| 0 <= i < chunks.len() ==> closed_at_sentence_ends(#[trigger] chunks[i])
}

proof fn lemma_sentence_end_is_boundary(c: char)
    requires
        ends_sentence(c),
    ensures
        is_natural_boundary(c),
{
}

proof fn lemma_closed_push(t: Seq<char>, chunks: Seq<Seq<char>>, cs: int, x: int)
    requires
        all_closed(chunks),
        0 <= cs <= x <= t.len(),
        short_before(t, cs, x - 1),
    ensures
        all_closed(chunks.push(t.subrange(cs, x))),
{
    let c = t.subrange(cs, x);
    assert forall|j: int| 0 <= j < c.len() - 1 && ends_sentence(#[trigger] c[j]) implies j + 1
        < MIN_CHUNK_CHARS by {
        assert(c[j] == t[cs + j]);
    }
    let n = chunks.push(c);
    assert forall|i: int| 0 <= i < n.len() implies closed_at_sentence_ends(#[trigger] n[i]) by {
        if i < chunks.len() {
            assert(n[i] == chunks[i]);
        }
    }
}

proof fn lemma_drain_closed(t: Seq<char>, chunks: Seq<Seq<char>>, cs: int, e: int)
    requires
        all_closed(chunks),
        0 <= cs <= e <= t.len(),
        short_before(t, cs, e - 1),
    ensures
        all_closed(drain_current(t, chunks, cs, e).0),
        cs <= drain_current(t, chunks, cs, e).1 <= e,
        short_before(t, drain_current(t, chunks, cs, e).1, e - 1),
    decreases e - cs,
{
    if e - cs > TARGET_CHUNK_CHARS {
        let c = t.subrange(cs, e);
        lemma_preferred_split(c);
        let k = preferred_split(c);
        lemma_closed_push(t, chunks, cs, cs + k);
        assert(short_before(t, cs + k, e - 1));
        lemma_drain_closed(t, chunks.push(t.subrange(cs, cs + k)), cs + k, e);
    }
}

proof fn lemma_segment_closed(t: Seq<char>, chunks: Seq<Seq<char>>, cs: int, s: int, e: int)
    requires
        all_closed(chunks),
        0 <= cs <= s < e <= t.len(),
        short_before(t, cs, s),
        forall|p: int| s <= p < e - 1 ==> !ends_sentence(#[trigger] t[p]),
    ensures
        all_closed(process_segment(t, (chunks, cs), s, e).0),
        0 <= process_segment(t, (chunks, cs), s, e).1 <= e,
        short_before(t, process_segment(t, (chunks, cs), s, e).1, e),
{
    assert(short_before(t, cs, e - 1));
    let first = if e - cs > MAX_CHUNK_CHARS && s - cs >= MIN_CHUNK_CHARS {
        (chunks.push(t.subrange(cs, s)), s)
    } else {
        (chunks, cs)
    };
    if e - cs > MAX_CHUNK_CHARS && s - cs >= MIN_CHUNK_CHARS {
        lemma_closed_push(t, chunks, cs, s);
    }
    assert(short_before(t, first.1, e - 1));
    lemma_drain_closed(t, first.0, first.1, e);
    let drained = drain_current(t, first.0, first.1, e);
    if is_natural_boundary(t[e - 1]) && e - drained.1 >= MIN_CHUNK_CHARS {
        lemma_closed_push(t, drained.0, drained.1, e);
    } else {
        assert forall|p: int| drained.1 <= p < e && ends_sentence(#[trigger] t[p]) implies p + 1
            - drained.1 < MIN_CHUNK_CHARS by {
            if p == e - 1 {
                lemma_sentence_end_is_boundary(t[p]);
            }
        }
    }
}

proof fn lemma_fold_closed(t: Seq<char>, k: int)
    requires
        0 <= k <= segment_ends(t).len(),
    ensures
        all_closed(fold_segments(t, segment_ends(t), k).0),
        0 <= fold_segments(t, segment_ends(t), k).1 <= segment_start(segment_ends(t), k),
        short_before(
            t,
            fold_segments(t, segment_ends(t), k).1,
            segment_start(segment_ends(t), k),
        ),
    decreases k,
{
    let ends = segment_ends(t);
    lemma_segment_ends(t);
    if k > 0 {
        lemma_fold_closed(t, k - 1);
        let s = segment_start(ends, k - 1);
        let e = ends[k - 1];
        assert(s < e) by {
            if k - 1 > 0 {
                assert(ends[k - 2] < ends[k - 1]);
            }
        }
        assert forall|p: int| s <= p < e - 1 implies !ends_sentence(#[trigger] t[p]) by {
            if ends_sentence(t[p]) {
                lemma_sentence_end_is_boundary(t[p]);
                assert(ends.contains(p + 1));
                let m = choose|m: int| 0 <= m < ends.len() && ends[m] == p + 1;
                if m < k - 1 {
                    if k - 1 > 0 {
                        if m < k - 2 {
                            assert(ends[m] < ends[k - 2]);
                        }
                    }
                } else if m > k - 1 {
                    assert(ends[k - 1] < ends[m]);
                }
            }
        }
        let prev = fold_segments(t, ends, k - 1);
        assert(prev == (prev.0, prev.1));
        lemma_segment_closed(t, prev.0, prev.1, s, e);
    } else {
        assert(all_closed(Seq::<Seq<char>>::empty()));
    }
}

/// Every sentence end (`。`, `！`, `？`, `、` or a line break) closes the chunk
/// it falls in as soon as that chunk has the minimum length: inside a chunk,
/// a sentence end that is not the chunk's last character comes before the
/// chunk's tenth character.
pub proof fn lemma_sentence_ends_close_chunks(t: Seq<char>)
    ensures
        forall|i: int, j: int|
            0 <= i < split_text_spec(t).len() && 0 <= j < split_text_spec(t)[i].len() - 1
                && ends_sentence(#[trigger] split_text_spec(t)[i][j]) ==> j + 1 < MIN_CHUNK_CHARS,
{
    let ends = segment_ends(t);
    lemma_segment_ends(t);
    lemma_fold_closed(t, ends.len() as int);
    let state = fold_segments(t, ends, ends.len() as int);
    assert(segment_start(ends, ends.len() as int) == t.len()) by {
        if t.len() == 0 {
        } else {
            assert(ends[ends.len() - 1] == t.len());
        }
    }
    if state.1 < t.len() {
        lemma_closed_push(t, state.0, state.1, t.len() as int);
    }
    let r = split_text_spec(t);
    assert(all_closed(r));
    assert forall|i: int, j: int|
        0 <= i < r.len() && 0 <= j < r[i].len() - 1 && ends_sentence(#[trigger] r[i][j]) implies j
        + 1 < MIN_CHUNK_CHARS by {
        assert(closed_at_sentence_ends(r[i]));
    }
}

// ---------------------------------------------------------------------------
// Implementation
// ---------------------------------------------------------------------------

fn is_boundary_character(c: char) -> (b: bool)
    ensures
        b == is_natural_boundary(c),
{
    c == '。' || c == '！' || c == '？' || c == '、' || c == '\n'
}

fn is_protected_character(c: char) -> (b: bool)
    ensures
        b == is_protected(c),
{
    ('0' <= c && c <= '9') || ('a' <= c && c <= 'z') || ('A' <= c && c <= 'Z') || c == ':' || c
        == '/' || c == '?' || c == '&' || c == '=' || c == '#' || c == '%' || c == '.' || c == '_'
        || c == '-' || c == '~'
}

/// Whether the sentence `chars[start..end]` ends at a natural boundary.
fn ends_with_natural_boundary(chars: &Vec<char>, start: usize, end: usize) -> (b: bool)
    requires
        start < end <= chars.len(),
    ensures
        b == is_natural_boundary(chars@[end - 1]),
{
    is_boundary_character(chars[end - 1])
}

/// Whether cutting `chars[start..end]` before `index` would cut a protected run.
fn splits_protected_run(chars: &Vec<char>, start: usize, end: usize, index: usize) -> (b: bool)
    requires
        start <= end <= chars.len(),
    ensures
        b == splits_run(chars@.subrange(start as int, end as int), index as int),
{
    index > 0 && index < end - start && is_protected_character(chars[start + index - 1])
        && is_protected_character(chars[start + index])
}

/// Where to cut the current chunk `chars[start..end]`.
fn preferred_split_index(chars: &Vec<char>, start: usize, end: usize) -> (index: usize)
    requires
        start <= end <= chars.len(),
    ensures
        index == preferred_split(chars@.subrange(start as int, end as int)),
{
    let ghost c = chars@.subrange(start as int, end as int);
    let len = end - start;
    let limit: usize = if TARGET_CHUNK_CHARS < len {
        TARGET_CHUNK_CHARS
    } else {
        len
    };
    let ghost lo = MIN_CHUNK_CHARS as int;

    let mut index: usize = limit;
    while index >= MIN_CHUNK_CHARS
        invariant
            start <= end <= chars.len(),
            len == end - start,
            lo == MIN_CHUNK_CHARS as int,
            c == chars@.subrange(start as int, end as int),
            limit == split_limit(c),
            index <= limit <= len,
            last_index_where(lo, index as int, after_comma(c)) == last_index_where(
                lo,
                limit as int,
                after_comma(c),
            ),
        decreases index,
    {
        if chars[start + index - 1] == '、' {
            assert(after_comma(c)(index as int));
            assert(last_index_where(lo, index as int, after_comma(c)) == Some(index as int));
            return index;
        }
        index -= 1;
    }
    assert(last_index_where(lo, index as int, after_comma(c)) is None);

    let mut index: usize = limit;
    while index >= MIN_CHUNK_CHARS
        invariant
            start <= end <= chars.len(),
            len == end - start,
            lo == MIN_CHUNK_CHARS as int,
            c == chars@.subrange(start as int, end as int),
            limit == split_limit(c),
            index <= limit <= len,
            last_index_where(lo, limit as int, after_comma(c)) is None,
            last_index_where(lo, index as int, after_whitespace(c)) == last_index_where(
                lo,
                limit as int,
                after_whitespace(c),
            ),
        decreases index,
    {
        if is_whitespace(chars[start + index - 1]) {
            assert(after_whitespace(c)(index as int));
            assert(last_index_where(lo, index as int, after_whitespace(c)) == Some(index as int));
            return index;
        }
        index -= 1;
    }
    assert(last_index_where(lo, index as int, after_whitespace(c)) is None);

    let mut index: usize = limit;
    while index >= MIN_CHUNK_CHARS
        invariant
            start <= end <= chars.len(),
            len == end - start,
            lo == MIN_CHUNK_CHARS as int,
            c == chars@.subrange(start as int, end as int),
            limit == split_limit(c),
            index <= limit <= len,
            last_index_where(lo, limit as int, after_comma(c)) is None,
            last_index_where(lo, limit as int, after_whitespace(c)) is None,
            last_index_where(lo, index as int, keeps_runs(c)) == last_index_where(
                lo,
                limit as int,
                keeps_runs(c),
            ),
        decreases index,
    {
        if !splits_protected_run(chars, start, end, index) {
            assert(keeps_runs(c)(index as int));
            assert(last_index_where(lo, index as int, keeps_runs(c)) == Some(index as int));
            return index;
        }
        index -= 1;
    }
    assert(last_index_where(lo, index as int, keeps_runs(c)) is None);

    // A single URL or ASCII token can be longer than the maximum. Keep it intact
    // when possible, rather than cutting it in the middle.
    let mut index: usize = limit + 1;
    while index < len
        invariant
            start <= end <= chars.len(),
            len == end - start,
            lo == MIN_CHUNK_CHARS as int,
            c == chars@.subrange(start as int, end as int),
            limit == split_limit(c),
            limit + 1 <= index,
            limit <= len,
            last_index_where(lo, limit as int, after_comma(c)) is None,
            last_index_where(lo, limit as int, after_whitespace(c)) is None,
            last_index_where(lo, limit as int, keeps_runs(c)) is None,
            first_index_where(index as int, len as int, keeps_runs(c)) == first_index_where(
                limit + 1,
                len as int,
                keeps_runs(c),
            ),
        decreases len - index,
    {
        if !splits_protected_run(chars, start, end, index) {
            assert(keeps_runs(c)(index as int));
            assert(first_index_where(index as int, len as int, keeps_runs(c)) == Some(index as int));
            return index;
        }
        index += 1;
    }
    assert(first_index_where(index as int, len as int, keeps_runs(c)) is None);
    assert(c.len() == len);
    len
}

/// Where the sentences of `chars` end: after every natural boundary, and at
/// the end of the text.
fn split_at_natural_boundaries(chars: &Vec<char>) -> (ends: Vec<usize>)
    ensures
        ends@.len() == segment_ends(chars@).len(),
        forall|j: int| 0 <= j < ends@.len() ==> ends@[j] as int == #[trigger] segment_ends(chars@)[j],
{
    let mut ends: Vec<usize> = Vec::new();
    let mut i: usize = 0;
    while i < chars.len()
        invariant
            i <= chars.len(),
            ends@.len() == boundary_ends(chars@, i as int).len(),
            forall|j: int|
                0 <= j < ends@.len() ==> ends@[j] as int == #[trigger] boundary_ends(
                    chars@,
                    i as int,
                )[j],
        decreases chars.len() - i,
    {
        if is_boundary_character(chars[i]) {
            ends.push(i + 1);
        }
        i += 1;
    }
    let ghost b = boundary_ends(chars@, chars@.len() as int);
    let last = if ends.len() == 0 {
        0
    } else {
        ends[ends.len() - 1]
    };
    if last < chars.len() {
        ends.push(chars.len());
    }
    assert(forall|j: int| 0 <= j < ends@.len() ==> ends@[j] as int == #[trigger] segment_ends(chars@)[j]);
    ends
}

/// Splits text into natural, bounded pieces while keeping every character of it.
///
/// Short sentences are combined until a chunk reaches the minimum length; long
/// text is cut after Japanese commas, then after whitespace, and runs of URL or
/// ASCII characters are never cut.
#[verifier::rlimit(40)]
#[verifier::spinoff_prover]
pub fn split_text(text: &str) -> (chunks: Vec<String>)
    ensures
        views(chunks@) == split_text_spec(text@),
        views(chunks@).flatten() == text@,
        forall|i: int| 0 <= i < chunks@.len() ==> #[trigger] chunks@[i]@.len() > 0,
        forall|i: int| 0 <= i < chunks@.len() ==> chunk_size_ok(#[trigger] chunks@[i]@),
        keeps_protected_runs(views(chunks@)),
        forall|i: int| 0 <= i < chunks@.len() - 1 ==> #[trigger] chunks@[i]@.len() >= MIN_CHUNK_CHARS,
{
    let chars = chars_of(text);
    let ghost t = chars@;
    let ends = split_at_natural_boundaries(&chars);
    let ghost sends = segment_ends(t);
    proof {
        lemma_segment_ends(t);
    }
    let mut chunks: Vec<String> = Vec::new();
    let mut cs: usize = 0;
    let mut s: usize = 0;
    let mut k: usize = 0;
    assert(views(chunks@) =~= Seq::<Seq<char>>::empty());
    assert(t.subrange(0, 0) =~= Seq::<char>::empty());
    while k < ends.len()
        invariant
            t == chars@,
            sends == segment_ends(t),
            ends@.len() == sends.len(),
            forall|j: int| 0 <= j < ends@.len() ==> ends@[j] as int == #[trigger] sends[j],
            forall|j: int| 0 <= j < sends.len() ==> 0 < #[trigger] sends[j] <= t.len(),
            forall|j: int|
                0 <= j < sends.len() && #[trigger] sends[j] < t.len() ==> is_natural_boundary(
                    t[sends[j] - 1],
                ),
            forall|i: int, j: int| 0 <= i < j < sends.len() ==> sends[i] < sends[j],
            t.len() > 0 ==> sends.len() > 0 && sends.last() == t.len(),
            k <= ends.len(),
            s as int == segment_start(sends, k as int),
            s <= t.len(),
            cs <= s,
            s - cs <= TARGET_CHUNK_CHARS,
            fold_segments(t, sends, k as int) == (views(chunks@), cs as int),
            chunking_inv(t, views(chunks@), cs as int),
            all_long(views(chunks@)),
        decreases ends.len() - k,
    {
        let e = ends[k];
        assert(e as int == sends[k as int]);
        assert(s < e) by {
            if k > 0 {
                assert(sends[k - 1] < sends[k as int]);
            }
        }
        if e - cs > MAX_CHUNK_CHARS && s - cs >= MIN_CHUNK_CHARS {
            proof {
                assert(is_natural_boundary(t[s - 1]));
                lemma_boundary_not_protected(t[s - 1]);
                lemma_push_chunk(t, views(chunks@), cs as int, s as int);
                lemma_all_long_push(views(chunks@), t.subrange(cs as int, s as int));
            }
            let piece = string_from_chars(&chars, cs, s);
            let ghost before = views(chunks@);
            chunks.push(piece);
            assert(views(chunks@) =~= before.push(t.subrange(cs as int, s as int)));
            cs = s;
        }
        let ghost first_chunks = views(chunks@);
        let ghost first_cs = cs as int;
        while e - cs > TARGET_CHUNK_CHARS
            invariant
                t == chars@,
                cs <= e <= t.len(),
                e == t.len() || is_natural_boundary(t[e - 1]),
                chunking_inv(t, views(chunks@), cs as int),
                all_long(views(chunks@)),
                drain_current(t, views(chunks@), cs as int, e as int) == drain_current(
                    t,
                    first_chunks,
                    first_cs,
                    e as int,
                ),
            decreases e - cs,
        {
            let split = preferred_split_index(&chars, cs, e);
            proof {
                lemma_drain_step(t, views(chunks@), cs as int, e as int);
                lemma_all_long_push(views(chunks@), t.subrange(cs as int, cs + split));
            }
            let piece = string_from_chars(&chars, cs, cs + split);
            let ghost before = views(chunks@);
            chunks.push(piece);
            assert(views(chunks@) =~= before.push(t.subrange(cs as int, cs + split)));
            cs = cs + split;
        }
        if ends_with_natural_boundary(&chars, s, e) && e - cs >= MIN_CHUNK_CHARS {
            proof {
                lemma_push_chunk(t, views(chunks@), cs as int, e as int);
                lemma_all_long_push(views(chunks@), t.subrange(cs as int, e as int));
            }
            let piece = string_from_chars(&chars, cs, e);
            let ghost before = views(chunks@);
            chunks.push(piece);
            assert(views(chunks@) =~= before.push(t.subrange(cs as int, e as int)));
            cs = e;
        }
        s = e;
        k += 1;
    }
    if cs < chars.len() {
        proof {
            lemma_push_chunk(t, views(chunks@), cs as int, t.len() as int);
            lemma_all_long_push(views(chunks@), t.subrange(cs as int, t.len() as int));
        }
        let piece = string_from_chars(&chars, cs, chars.len());
        let ghost before = views(chunks@);
        chunks.push(piece);
        assert(views(chunks@) =~= before.push(t.subrange(cs as int, t.len() as int)));
        cs = chars.len();
    }
    assert(t.subrange(0, t.len() as int) =~= t);
    assert forall|i: int| 0 <= i < chunks@.len() implies #[trigger] chunks@[i]@.len() > 0
        && chunk_size_ok(chunks@[i]@) && (i < chunks@.len() - 1 ==> chunks@[i]@.len()
        >= MIN_CHUNK_CHARS) by {
        assert(views(chunks@)[i] == chunks@[i]@);
    }
    chunks
}


/// The pieces of `message` that are read aloud, in order: its chunks, without
/// those that hold nothing but whitespace.
pub fn speakable_chunks(message: &str) -> (pieces: Vec<String>)
    ensures
        views(pieces@) == non_blank(split_text_spec(message@)),
{
    let chunks = split_text(message);
    let ghost all = views(chunks@);
    let mut pieces: Vec<String> = Vec::new();
    let mut i: usize = 0;
    assert(all.take(0) =~= Seq::<Seq<char>>::empty());
    assert(views(pieces@) =~= Seq::<Seq<char>>::empty());
    while i < chunks.len()
        invariant
            i <= chunks.len(),
            all == views(chunks@),
            views(pieces@) == non_blank(all.take(i as int)),
        decreases chunks.len() - i,
    {
        assert(all.take(i + 1).drop_last() =~= all.take(i as int));
        assert(all.take(i + 1).last() == chunks@[i as int]@);
        if !is_blank_str(chunks[i].as_str()) {
            let ghost before = views(pieces@);
            pieces.push(chunks[i].clone());
            assert(views(pieces@) =~= before.push(chunks@[i as int]@));
        }
        i += 1;
    }
    assert(all.take(chunks.len() as int) =~= all);
    pieces
}

} // verus!
