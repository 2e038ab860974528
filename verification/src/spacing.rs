//! When two statement terminators can follow each other in a stream.

use vstd::prelude::*;
use crate::chars::{is_line_terminator, separator, terminator, whitespace, word_char};
use crate::model::{
    lemma_terminator_run_bound, lemma_word_run_bound, terminator_run, word_run, LexState,
};
use crate::stream::{kinds, kinds_from, lemma_kinds_from, lemma_scan, lemma_step, tokens};
use crate::token::KindView;

verus! {

/// `s[i]` is a character of a word: neither whitespace nor a terminator, and a brace only
/// behind another character of the word.
pub open spec fn in_word(s: Seq<char>, i: int) -> bool
    decreases i,
{
    if 0 <= i < s.len() && word_char(s[i]) {
        (s[i] == '{' || s[i] == '}') ==> i > 0 && in_word(s, i - 1)
    } else {
        false
    }
}

/// `s[i]` is an opening brace that stands for itself, not inside a word.
pub open spec fn opens_block(s: Seq<char>, i: int) -> bool {
    0 <= i < s.len() && s[i] == '{' && !in_word(s, i - 1)
}

/// Nothing but terminators stands between an opening brace and `s[i]`: a terminator at `i`
/// is swallowed by that brace.
pub open spec fn behind_opening(s: Seq<char>, i: int) -> bool {
    exists|b: int| #[trigger]
        opens_block(s, b) && b < i && forall|k: int| b < k < i ==> terminator(#[trigger] s[k])
}

/// `s[i]` and `s[j]` are terminators parted by blanks alone, and the one at `i` gives a
/// token: it is not swallowed by an opening brace, and something other than whitespace and
/// terminators stands before it.
pub open spec fn split_terminators(s: Seq<char>, i: int, j: int) -> bool {
    &&& 0 <= i && i + 1 < j < s.len()
    &&& terminator(s[i]) && terminator(s[j])
    &&& forall|k: int| i < k < j ==> separator(#[trigger] s[k]) && !terminator(s[k])
    &&& exists|m: int| 0 <= m < i && !separator(#[trigger] s[m])
    &&& !behind_opening(s, i)
}

/// The text holds two terminators that give two tokens with nothing between them.
pub open spec fn has_split_terminators(s: Seq<char>) -> bool {
    exists|i: int, j: int| split_terminators(s, i, j)
}

/// No two terminators follow each other in `ks`.
pub open spec fn no_adjacent_semis(ks: Seq<KindView>) -> bool {
    forall|i: int|
        0 <= i < ks.len() - 1 ==> !(#[trigger] ks[i] == KindView::Semi && ks[i + 1]
            == KindView::Semi)
}

/// The state `st` stands at position `p` of the text `s`, between two tokens.
pub open spec fn placed(s: Seq<char>, p: int, st: LexState) -> bool {
    &&& 0 <= p <= s.len()
    &&& st.rest == s.skip(p)
    &&& st.settled()
    &&& st.pending is Some ==> p > 0 && s[p - 1] == '}'
    &&& st.last is Some && p < s.len() ==> exists|m: int| 0 <= m < p && !separator(#[trigger] s[m])
    &&& st.pending is None && p < s.len() && terminator(s[p]) ==> !behind_opening(s, p)
    &&& st.pending is None && st.last == Some(KindView::Semi) && p < s.len() ==> {
        &&& p > 0
        &&& terminator(s[p - 1])
        &&& !terminator(s[p])
        &&& !behind_opening(s, p - 1)
    }
}

/// Behind a character that is neither a terminator nor an opening brace of its own, no
/// opening brace can swallow anything.
proof fn lemma_not_behind_opening(s: Seq<char>, i: int)
    requires
        0 < i <= s.len(),
        !terminator(s[i - 1]),
        !opens_block(s, i - 1),
    ensures
        !behind_opening(s, i),
{
    if behind_opening(s, i) {
        let b = choose|b: int| #[trigger]
            opens_block(s, b) && b < i && forall|k: int| b < k < i ==> terminator(#[trigger] s[k]);
        if b < i - 1 {
            assert(terminator(s[i - 1]));
        }
    }
}

/// A terminator run that no opening brace swallows at its start is not swallowed further in.
proof fn lemma_run_not_swallowed(s: Seq<char>, q: int, e: int)
    requires
        0 <= q <= e < s.len(),
        forall|k: int| q <= k <= e ==> terminator(#[trigger] s[k]),
        !behind_opening(s, q),
    ensures
        !behind_opening(s, e),
{
    if behind_opening(s, e) {
        let b = choose|b: int| #[trigger]
            opens_block(s, b) && b < e && forall|k: int| b < k < e ==> terminator(#[trigger] s[k]);
        if b >= q {
            assert(terminator(s[b]));
        } else {
            assert(forall|k: int| b < k < q ==> terminator(#[trigger] s[k]));
            assert(behind_opening(s, q));
        }
    }
}

/// The characters of a run of word characters that does not begin with a brace are
/// characters of a word.
proof fn lemma_word_chars_in_word(s: Seq<char>, q: int, k: int)
    requires
        0 <= q <= k < s.len(),
        s[q] != '{' && s[q] != '}',
        forall|i: int| q <= i <= k ==> word_char(#[trigger] s[i]),
    ensures
        in_word(s, k),
    decreases k - q,
{
    if k > q {
        lemma_word_chars_in_word(s, q, k - 1);
    }
}

/// A scan that began at position `p` and has passed over separators up to `q` ends at a
/// position between two tokens, and gives no terminator right behind another one.
proof fn lemma_scan_from(s: Seq<char>, p: int, q: int, st: LexState) -> (stop: int)
    requires
        !has_split_terminators(s),
        0 <= p <= q <= s.len(),
        st.rest == s.skip(q),
        st.pending is None,
        st.last is Some && p < s.len() ==> exists|m: int| 0 <= m < p && !separator(#[trigger] s[m]),
        p < s.len() && terminator(s[p]) ==> !behind_opening(s, p),
        st.last == Some(KindView::Semi) && p < s.len() ==> {
            &&& p > 0
            &&& terminator(s[p - 1])
            &&& !terminator(s[p])
            &&& !behind_opening(s, p - 1)
        },
        forall|k: int| p <= k < q ==> separator(#[trigger] s[k]) && (st.last is Some ==> !terminator(s[k])),
    ensures
        placed(s, stop, st.scan().state),
        st.last == Some(KindView::Semi) && st.scan().token is Some ==> st.scan().token->0.kind
            != KindView::Semi,
    decreases s.len() - q,
{
    let r = st.rest;
    lemma_scan(st);
    if r.len() == 0 {
        return s.len() as int;
    }
    assert(r[0] == s[q]);
    if r[0] == '{' {
        let t = r.skip(1);
        lemma_terminator_run_bound(t);
        let n = terminator_run(t) as int;
        let stop = q + 1 + n;
        assert(r.skip(1 + n) =~= s.skip(stop));
        assert(!separator(s[q]));
        if stop < s.len() {
            assert(t[n] == s[stop]);
        }
        return stop;
    }
    if r[0] == '}' {
        let stop = q + 1;
        assert(r.skip(1) =~= s.skip(stop));
        assert(!separator(s[q]));
        lemma_not_behind_opening(s, stop);
        return stop;
    }
    if terminator(r[0]) {
        lemma_terminator_run_bound(r);
        let n = terminator_run(r) as int;
        let stop = q + n;
        let after = st.consume(n as nat);
        assert(after.rest =~= s.skip(stop));
        assert forall|k: int| q <= k < stop implies terminator(#[trigger] s[k]) by {
            assert(s[k] == r[k - q]);
        }
        if st.last is None {
            return lemma_scan_from(s, p, stop, after);
        }
        if stop < s.len() {
            assert(r[n] == s[stop]);
        }
        if st.last == Some(KindView::Semi) {
            assert(q > p);
            let m = choose|m: int| 0 <= m < p && !separator(#[trigger] s[m]);
            assert(m < p - 1);
            assert(split_terminators(s, p - 1, q));
        }
        if q > p {
            assert(separator(s[q - 1]));
            lemma_not_behind_opening(s, q);
        }
        lemma_run_not_swallowed(s, q, stop - 1);
        return stop;
    }
    if whitespace(r[0]) {
        let next = LexState { rest: r.skip(1), ..st };
        assert(next.rest =~= s.skip(q + 1));
        assert(separator(s[q]));
        return lemma_scan_from(s, p, q + 1, next);
    }
    lemma_word_run_bound(r);
    let n = word_run(r) as int;
    assert(!separator(s[q]));
    assert forall|i: int| q <= i <= q + n - 1 implies word_char(#[trigger] s[i]) by {
        assert(s[i] == r[i - q]);
    }
    lemma_word_chars_in_word(s, q, q + n - 1);
    if n < r.len() && !terminator(r[n]) {
        let stop = q + n + 1;
        assert(r.skip(n + 1) =~= s.skip(stop));
        assert(s[stop - 1] == r[n]);
        lemma_not_behind_opening(s, stop);
        stop
    } else {
        let stop = q + n;
        assert(r.skip(n) =~= s.skip(stop));
        lemma_not_behind_opening(s, stop);
        stop
    }
}

/// From a position between two tokens, no two terminators follow each other, nor does a
/// terminator follow one that was emitted last.
proof fn lemma_no_adjacent_from(s: Seq<char>, p: int, st: LexState)
    requires
        !has_split_terminators(s),
        placed(s, p, st),
    ensures
        no_adjacent_semis(kinds_from(st)),
        st.last == Some(KindView::Semi) && kinds_from(st).len() > 0 ==> kinds_from(st)[0]
            != KindView::Semi,
    decreases st.budget(),
{
    lemma_step(st);
    lemma_kinds_from(st);
    if st.step().token is Some {
        let next = st.step().state;
        let stop = if st.pending is Some {
            lemma_not_behind_opening(s, p);
            p
        } else {
            lemma_scan_from(s, p, p, st)
        };
        lemma_no_adjacent_from(s, stop, next);
        let ks = kinds_from(st);
        let tail = kinds_from(next);
        assert forall|i: int| 0 <= i < ks.len() - 1 implies !(#[trigger] ks[i] == KindView::Semi
            && ks[i + 1] == KindView::Semi) by {
            if i > 0 {
                assert(ks[i] == tail[i - 1]);
                assert(ks[i + 1] == tail[i]);
            } else {
                assert(ks[1] == tail[0]);
            }
        }
    }
}

/// No two terminators follow each other in a stream, where the text does not hold two
/// terminators that are parted by blanks alone and of which the first gives a token.
pub proof fn lemma_no_adjacent_semis(text: Seq<char>)
    requires
        !has_split_terminators(text),
    ensures
        no_adjacent_semis(kinds(tokens(text))),
{
    let st = LexState::start(text);
    assert(text.skip(0) =~= text);
    assert(!behind_opening(text, 0));
    lemma_no_adjacent_from(text, 0, st);
}

/// The state `st` stands at position `p` of the text `s`, between two tokens, with nothing
/// of a word behind it that a brace could join.
spec fn seated(s: Seq<char>, p: int, st: LexState) -> bool {
    &&& 0 <= p <= s.len()
    &&& st.rest == s.skip(p)
    &&& st.settled()
    &&& st.last is None ==> forall|k: int| 0 <= k < p ==> separator(#[trigger] s[k])
    &&& st.pending is Some ==> p > 0 && s[p - 1] == '}' && !in_word(s, p - 1)
    &&& st.pending is None && p < s.len() && !terminator(s[p]) ==> !in_word(s, p - 1)
}

/// The terminator run that holds `s[i]` begins somewhere.
proof fn lemma_run_start(s: Seq<char>, i: int) -> (r: int)
    requires
        0 <= i < s.len(),
        terminator(s[i]),
    ensures
        0 <= r <= i,
        forall|k: int| r <= k <= i ==> terminator(#[trigger] s[k]),
        r > 0 ==> !terminator(s[r - 1]),
    decreases i,
{
    if i > 0 && terminator(s[i - 1]) {
        lemma_run_start(s, i - 1)
    } else {
        i
    }
}

/// Behind a terminator that was emitted, blanks and then a terminator give one more.
proof fn lemma_blanks_then_terminator(s: Seq<char>, q: int, j: int, st: LexState)
    requires
        0 <= q <= j < s.len(),
        st.rest == s.skip(q),
        st.pending is None,
        st.last is Some,
        forall|k: int| q <= k < j ==> separator(#[trigger] s[k]) && !terminator(s[k]),
        terminator(s[j]),
    ensures
        st.scan().token is Some,
        st.scan().token->0.kind == KindView::Semi,
    decreases j - q,
{
    let r = st.rest;
    assert(r[0] == s[q]);
    if q < j {
        assert(separator(s[q]));
        let next = LexState { rest: r.skip(1), ..st };
        assert(next.rest =~= s.skip(q + 1));
        lemma_blanks_then_terminator(s, q + 1, j, next);
    }
}

/// A scan that has passed over separators from `p` to `q`, before the terminator run from
/// `r` to `i`, ends before that run, or gives the run's terminator and ends behind it.
proof fn lemma_scan_towards(s: Seq<char>, r: int, i: int, p: int, q: int, st: LexState) -> (stop: int)
    requires
        0 <= p <= q <= r <= i < s.len() - 1,
        forall|k: int| r <= k <= i ==> terminator(#[trigger] s[k]),
        r > 0 ==> !terminator(s[r - 1]),
        !terminator(s[i + 1]),
        exists|m: int| 0 <= m < r && !separator(#[trigger] s[m]),
        !behind_opening(s, r),
        st.rest == s.skip(q),
        st.pending is None,
        st.last is None ==> forall|k: int| 0 <= k < p ==> separator(#[trigger] s[k]),
        p < s.len() && !terminator(s[p]) ==> !in_word(s, p - 1),
        forall|k: int| p <= k < q ==> separator(#[trigger] s[k]),
    ensures
        st.scan().token is Some,
        seated(s, stop, st.scan().state),
        stop <= r || (stop == i + 1 && st.scan().token->0.kind == KindView::Semi
            && st.scan().state.pending is None),
    decreases s.len() - q,
{
    let t = st.rest;
    lemma_scan(st);
    assert(t[0] == s[q]);
    if q > p {
        assert(separator(s[q - 1]));
    }
    if t[0] == '{' || t[0] == '}' {
        assert(!in_word(s, q - 1));
        assert(!in_word(s, q));
        if t[0] == '}' {
            assert(t.skip(1) =~= s.skip(q + 1));
            return q + 1;
        }
        assert(opens_block(s, q));
        let u = t.skip(1);
        lemma_terminator_run_bound(u);
        let n = terminator_run(u) as int;
        let stop = q + 1 + n;
        assert(t.skip(1 + n) =~= s.skip(stop));
        assert forall|k: int| q < k < stop implies terminator(#[trigger] s[k]) by {
            assert(s[k] == u[k - q - 1]);
        }
        if stop > r {
            assert(behind_opening(s, r));
        }
        if stop < s.len() {
            assert(s[stop] == u[n]);
        }
        return stop;
    }
    if terminator(t[0]) {
        lemma_terminator_run_bound(t);
        let n = terminator_run(t) as int;
        let stop = q + n;
        let after = st.consume(n as nat);
        assert(after.rest =~= s.skip(stop));
        assert forall|k: int| q <= k < stop implies terminator(#[trigger] s[k]) by {
            assert(s[k] == t[k - q]);
        }
        if stop < s.len() {
            assert(s[stop] == t[n]);
        }
        if q < r {
            if stop > r - 1 {
                assert(terminator(s[r - 1]));
            }
            if st.last is None {
                assert forall|k: int| p <= k < stop implies separator(#[trigger] s[k]) by {
                    if k >= q {
                        assert(terminator(s[k]));
                    }
                }
                return lemma_scan_towards(s, r, i, p, stop, after);
            }
            return stop;
        }
        if st.last is None {
            let m = choose|m: int| 0 <= m < r && !separator(#[trigger] s[m]);
            assert(separator(s[m]));
        }
        if stop <= i {
            assert(terminator(s[stop]));
        }
        if stop > i + 1 {
            assert(terminator(s[i + 1]));
        }
        return stop;
    }
    if whitespace(t[0]) {
        let next = LexState { rest: t.skip(1), ..st };
        assert(next.rest =~= s.skip(q + 1));
        assert(separator(s[q]));
        return lemma_scan_towards(s, r, i, p, q + 1, next);
    }
    lemma_word_run_bound(t);
    let n = word_run(t) as int;
    assert forall|k: int| q <= k < q + n implies word_char(#[trigger] s[k]) by {
        assert(s[k] == t[k - q]);
    }
    if q + n > r {
        assert(word_char(s[r]));
    }
    assert(s[q + n] == t[n]);
    if !terminator(t[n]) {
        let stop = q + n + 1;
        assert(t.skip(n + 1) =~= s.skip(stop));
        assert(!in_word(s, stop - 1));
        stop
    } else {
        let stop = q + n;
        assert(t.skip(n) =~= s.skip(stop));
        stop
    }
}

/// Before a terminator run that gives a token and is followed by blanks and one more
/// terminator, two terminators that follow each other are still to come.
proof fn lemma_adjacent_from(s: Seq<char>, r: int, i: int, j: int, p: int, st: LexState)
    requires
        0 <= p <= r <= i && i + 1 < j < s.len(),
        forall|k: int| r <= k <= i ==> terminator(#[trigger] s[k]),
        r > 0 ==> !terminator(s[r - 1]),
        forall|k: int| i < k < j ==> separator(#[trigger] s[k]) && !terminator(s[k]),
        terminator(s[j]),
        exists|m: int| 0 <= m < r && !separator(#[trigger] s[m]),
        !behind_opening(s, r),
        seated(s, p, st),
    ensures
        !no_adjacent_semis(kinds_from(st)),
    decreases st.budget(),
{
    lemma_step(st);
    lemma_kinds_from(st);
    let next = st.step().state;
    let ks = kinds_from(st);
    let tail = kinds_from(next);
    assert(separator(s[i + 1]) && !terminator(s[i + 1]));
    let stop = if st.pending is Some {
        p
    } else {
        lemma_scan_towards(s, r, i, p, p, st)
    };
    if stop <= r {
        lemma_adjacent_from(s, r, i, j, stop, next);
        let x = choose|x: int|
            0 <= x < tail.len() - 1 && #[trigger] tail[x] == KindView::Semi && tail[x + 1]
                == KindView::Semi;
        assert(ks[x + 1] == tail[x]);
        assert(ks[x + 2] == tail[x + 1]);
    } else {
        lemma_blanks_then_terminator(s, i + 1, j, next);
        lemma_kinds_from(next);
        assert(ks[0] == KindView::Semi);
        assert(ks[1] == tail[0]);
    }
}

/// Two terminators follow each other in the stream of every text that holds two
/// terminators which are parted by blanks alone and of which the first gives a token: the
/// texts that `lemma_no_adjacent_semis` leaves out are those on which it would fail.
pub proof fn lemma_split_terminators_show(text: Seq<char>)
    requires
        has_split_terminators(text),
    ensures
        !no_adjacent_semis(kinds(tokens(text))),
{
    let (i, j) = choose|i: int, j: int| split_terminators(text, i, j);
    let r = lemma_run_start(text, i);
    if behind_opening(text, r) {
        let b = choose|b: int| #[trigger]
            opens_block(text, b) && b < r && forall|k: int| b < k < r ==> terminator(#[trigger] text[k]);
        assert(forall|k: int| b < k < i ==> terminator(#[trigger] text[k]));
        assert(behind_opening(text, i));
    }
    let m = choose|m: int| 0 <= m < i && !separator(#[trigger] text[m]);
    if m >= r {
        assert(terminator(text[m]));
    }
    assert(text.skip(0) =~= text);
    lemma_adjacent_from(text, r, i, j, 0, LexState::start(text));
}

/// Something other than whitespace and terminators stands before `s[k]`.
spec fn marked_before(s: Seq<char>, k: int) -> bool {
    exists|m: int| 0 <= m < k && !separator(#[trigger] s[m])
}

/// `s[i]` is a terminator that gives a token, and blanks alone fill the text from behind it
/// up to `s[k]`, at least one.
spec fn run_up(s: Seq<char>, i: int, k: int) -> bool {
    &&& 0 <= i && i + 1 < k
    &&& terminator(s[i])
    &&& marked_before(s, i)
    &&& !behind_opening(s, i)
    &&& forall|m: int| i < m < k ==> separator(#[trigger] s[m]) && !terminator(s[m])
}

/// Some terminator before `s[k]` gives a token and has blanks alone behind it up to `s[k]`.
spec fn armed_at(s: Seq<char>, k: int) -> bool {
    exists|i: int| run_up(s, i, k)
}

/// `s[k]` is the second of two split terminators.
spec fn split_at(s: Seq<char>, k: int) -> bool {
    exists|i: int| split_terminators(s, i, k)
}

/// `s[k - 1]` is a terminator that gives a token.
spec fn fresh_at(s: Seq<char>, k: int) -> bool {
    k > 0 && terminator(s[k - 1]) && marked_before(s, k - 1) && !behind_opening(s, k - 1)
}

/// What one more character does to the facts that the search keeps.
proof fn lemma_search_step(s: Seq<char>, k: int)
    requires
        0 <= k < s.len(),
    ensures
        marked_before(s, k + 1) == (marked_before(s, k) || !separator(s[k])),
        behind_opening(s, k + 1) == if terminator(s[k]) {
            behind_opening(s, k)
        } else {
            opens_block(s, k)
        },
        armed_at(s, k + 1) == (separator(s[k]) && !terminator(s[k]) && (armed_at(s, k)
            || fresh_at(s, k))),
        split_at(s, k) == (terminator(s[k]) && armed_at(s, k)),
        fresh_at(s, k + 1) == (terminator(s[k]) && marked_before(s, k) && !behind_opening(s, k)),
{
    if marked_before(s, k + 1) {
        let m = choose|m: int| 0 <= m < k + 1 && !separator(#[trigger] s[m]);
        if m < k {
            assert(marked_before(s, k));
        }
    }
    if marked_before(s, k) {
        let m = choose|m: int| 0 <= m < k && !separator(#[trigger] s[m]);
        assert(marked_before(s, k + 1));
    }
    if !separator(s[k]) {
        assert(marked_before(s, k + 1));
    }
    if behind_opening(s, k + 1) {
        let b = choose|b: int| #[trigger]
            opens_block(s, b) && b < k + 1 && forall|m: int| b < m < k + 1 ==> terminator(#[trigger] s[m]);
        if b < k {
            assert(terminator(s[k]));
            assert(behind_opening(s, k));
        }
    }
    if terminator(s[k]) && behind_opening(s, k) {
        let b = choose|b: int| #[trigger]
            opens_block(s, b) && b < k && forall|m: int| b < m < k ==> terminator(#[trigger] s[m]);
        assert(opens_block(s, b) && b < k + 1);
        assert(behind_opening(s, k + 1));
    }
    if opens_block(s, k) {
        assert(behind_opening(s, k + 1));
    }
    let next = k + 1;
    if armed_at(s, next) {
        let i = choose|i: int| run_up(s, i, next);
        assert(separator(s[k]) && !terminator(s[k]));
        if i + 1 < k {
            assert(run_up(s, i, k));
        } else {
            assert(fresh_at(s, k));
        }
    }
    if separator(s[k]) && !terminator(s[k]) {
        if armed_at(s, k) {
            let i = choose|i: int| run_up(s, i, k);
            assert(run_up(s, i, next));
        }
        if fresh_at(s, k) {
            assert(run_up(s, k - 1, next));
        }
    }
    if split_at(s, k) {
        let i = choose|i: int| split_terminators(s, i, k);
        let m = choose|m: int| 0 <= m < i && !separator(#[trigger] s[m]);
        assert(marked_before(s, i));
        assert(run_up(s, i, k));
    }
    if terminator(s[k]) && armed_at(s, k) {
        let i = choose|i: int| run_up(s, i, k);
        let m = choose|m: int| 0 <= m < i && !separator(#[trigger] s[m]);
        assert(split_terminators(s, i, k));
    }
}

/// Whether `src` holds two terminators that are parted by blanks alone and of which the
/// first gives a token: whether two terminators follow each other in its stream.
pub fn has_split_terminators_in(src: &str) -> (found: bool)
    ensures
        found == has_split_terminators(src@),
{
    let mut marked = false;
    let mut word = false;
    let mut open = false;
    let mut fresh = false;
    let mut armed = false;
    assert(!behind_opening(src@, 0));
    for c in it: src.chars()
        invariant
            it.seq() == src@,
            marked == marked_before(src@, it.index() as int),
            word == in_word(src@, it.index() - 1),
            open == behind_opening(src@, it.index() as int),
            fresh == fresh_at(src@, it.index() as int),
            armed == armed_at(src@, it.index() as int),
            forall|i: int, j: int| j < it.index() ==> !split_terminators(src@, i, j),
    {
        let ghost k = it.index() as int;
        proof {
            lemma_search_step(src@, k);
        }
        if is_line_terminator(c) {
            if armed {
                proof {
                    let i = choose|i: int| split_terminators(src@, i, k);
                    assert(split_terminators(src@, i, k));
                }
                return true;
            }
            fresh = marked && !open;
            word = false;
        } else if c.is_whitespace() {
            armed = armed || fresh;
            fresh = false;
            open = false;
            word = false;
        } else {
            let brace = c == '{' || c == '}';
            open = c == '{' && !word;
            word = !brace || word;
            marked = true;
            armed = false;
            fresh = false;
        }
        assert forall|i: int, j: int| j < k + 1 implies !split_terminators(src@, i, j) by {
            if j == k && split_terminators(src@, i, j) {
                assert(split_at(src@, k));
            }
        }
    }
    false
}

} // verus!
