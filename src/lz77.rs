//! LZ77 parsing: each position becomes a literal or the longest back-reference that a
//! 32 KiB window offers, the nearest one on equal length.

use vstd::prelude::*;
use std::collections::HashMap;

verus! {

broadcast use vstd::std_specs::hash::group_hash_axioms;

/// Longest back-reference a token may carry.
pub const MAX_MATCH: usize = 258;

/// Shortest back-reference worth emitting.
pub const MIN_MATCH: usize = 3;

/// Distances must stay below this bound.
pub const WINDOW: usize = 32768;

/// One element of an LZ77 token stream.
#[derive(Clone, Copy, Debug, PartialEq, Eq)]
pub enum Token {
    /// A byte emitted as it is.
    Literal(u8),
    /// Copy `length` bytes starting `distance` bytes back in the output.
    Match { length: usize, distance: usize },
}

/// `out` extended by `len` bytes, each copied from `dist` positions before the end as
/// the output grows.
pub open spec fn copy_back(out: Seq<u8>, len: nat, dist: nat) -> Seq<u8>
    decreases len,
{
    if len == 0 {
        out
    } else {
        let o = copy_back(out, (len - 1) as nat, dist);
        o.push(o[o.len() - dist])
    }
}

/// The output after one more token.
pub open spec fn apply_token(out: Seq<u8>, t: Token) -> Seq<u8> {
    match t {
        Token::Literal(b) => out.push(b),
        Token::Match { length, distance } => copy_back(out, length as nat, distance as nat),
    }
}

/// A token that can follow the output `out`: a back-reference stays in the allowed
/// ranges and reaches only bytes already produced.
pub open spec fn token_fits(out: Seq<u8>, t: Token) -> bool {
    match t {
        Token::Literal(_) => true,
        Token::Match { length, distance } => {
            &&& 3 <= length <= 258
            &&& 1 <= distance <= 32768
            &&& distance <= out.len()
        },
    }
}

/// The output of replaying `toks` after `out`.
pub open spec fn replay_from(out: Seq<u8>, toks: Seq<Token>) -> Seq<u8>
    decreases toks.len(),
{
    if toks.len() == 0 {
        out
    } else {
        replay_from(apply_token(out, toks[0]), toks.skip(1))
    }
}

/// Every token of `toks` fits the output replayed before it, starting from `out`.
pub open spec fn tokens_fit_from(out: Seq<u8>, toks: Seq<Token>) -> bool
    decreases toks.len(),
{
    toks.len() == 0 || (token_fits(out, toks[0]) && tokens_fit_from(
        apply_token(out, toks[0]),
        toks.skip(1),
    ))
}

/// The bytes a token stream stands for.
pub open spec fn replay(toks: Seq<Token>) -> Seq<u8> {
    replay_from(Seq::empty(), toks)
}

/// Every back-reference of the stream is in range and looks back only at produced bytes.
pub open spec fn tokens_fit(toks: Seq<Token>) -> bool {
    tokens_fit_from(Seq::empty(), toks)
}

/// Length of the common run at `q` and `p`, from `k` on, capped at 258 and by the end of `s`.
pub open spec fn match_from(s: Seq<u8>, q: int, p: int, k: int) -> nat
    decreases 258 - k,
{
    if 0 <= k < 258 && p + k < s.len() && s[q + k] == s[p + k] {
        match_from(s, q, p, k + 1)
    } else if k < 0 {
        0
    } else {
        k as nat
    }
}

/// Length of the match that the bytes at `q` offer for the bytes at `p`.
pub open spec fn match_len(s: Seq<u8>, q: int, p: int) -> nat {
    match_from(s, q, p, 0)
}

/// `q` lies in the window that position `p` may look back into.
pub open spec fn in_window(p: int, q: int) -> bool {
    0 <= q < p && p - q < 32768
}

/// `(len, dist)` is the longest match in the window at `p`, the nearest on equal length.
pub open spec fn is_best(s: Seq<u8>, p: int, len: nat, dist: nat) -> bool {
    &&& dist >= 1
    &&& in_window(p, p - dist)
    &&& len == match_len(s, p - dist, p)
    &&& forall|q: int| in_window(p, q) ==> #[trigger] match_len(s, q, p) <= len
    &&& forall|q: int| p - dist < q < p ==> #[trigger] match_len(s, q, p) < len
}

/// How far back position `p` may look.
pub open spec fn window_span(p: int) -> nat {
    if p < 32767 { if p < 0 { 0 } else { p as nat } } else { 32767 }
}

/// The longest match among distances `1..=d` at `p`, as `(length, distance)`; a farther
/// candidate replaces a nearer one only when it is strictly longer.
pub open spec fn best_scan(s: Seq<u8>, p: int, d: nat) -> (nat, nat)
    decreases d,
{
    if d == 0 {
        (0, 0)
    } else {
        let prev = best_scan(s, p, (d - 1) as nat);
        let m = match_len(s, p - d, p);
        if m > prev.0 { (m, d) } else { prev }
    }
}

/// The token emitted at position `p`.
pub open spec fn token_at(s: Seq<u8>, p: int) -> Token {
    let b = best_scan(s, p, window_span(p));
    if p + 3 <= s.len() && b.0 >= 3 {
        Token::Match { length: b.0 as usize, distance: b.1 as usize }
    } else {
        Token::Literal(s[p])
    }
}

/// How many input bytes a token covers.
pub open spec fn token_len(t: Token) -> nat {
    match t {
        Token::Literal(_) => 1,
        Token::Match { length, .. } => length as nat,
    }
}

/// The token stream for the bytes of `s` from position `p` on.
pub open spec fn lz77_parse(s: Seq<u8>, p: int) -> Seq<Token>
    decreases s.len() - p,
{
    if p < 0 || p >= s.len() {
        Seq::empty()
    } else {
        let t = token_at(s, p);
        if token_len(t) == 0 || p + token_len(t) > s.len() {
            Seq::empty()
        } else {
            seq![t] + lz77_parse(s, p + token_len(t))
        }
    }
}

/// Key of the three bytes at `q`.
pub open spec fn triplet_key(s: Seq<u8>, q: int) -> nat {
    (s[q] as nat) * 65536 + (s[q + 1] as nat) * 256 + (s[q + 2] as nat)
}

/// The positions that the index holds for key `k`, oldest first.
pub open spec fn chain(m: Map<u32, Vec<usize>>, k: u32) -> Seq<usize> {
    if m.contains_key(k) {
        m[k]@
    } else {
        Seq::empty()
    }
}

/// Position `q` is listed in the index under its own key.
pub open spec fn indexed(m: Map<u32, Vec<usize>>, s: Seq<u8>, q: int) -> bool {
    exists|i: int|
        0 <= i < chain(m, triplet_key(s, q) as u32).len() && #[trigger] chain(
            m,
            triplet_key(s, q) as u32,
        )[i] == q
}

/// The match index lists, under each key and in increasing order, exactly the positions
/// before `n` whose three bytes have that key.
pub open spec fn index_wf(m: Map<u32, Vec<usize>>, s: Seq<u8>, n: int) -> bool {
    &&& forall|k: u32, i: int|
        0 <= i < chain(m, k).len() ==> {
            &&& #[trigger] chain(m, k)[i] < n
            &&& chain(m, k)[i] + 3 <= s.len()
            &&& triplet_key(s, chain(m, k)[i] as int) == k as nat
        }
    &&& forall|k: u32, i: int, j: int|
        0 <= i < j < chain(m, k).len() ==> #[trigger] chain(m, k)[i] < #[trigger] chain(m, k)[j]
    &&& forall|q: int| 0 <= q < n && q + 3 <= s.len() ==> #[trigger] indexed(m, s, q)
}

proof fn lemma_match_from_facts(s: Seq<u8>, q: int, p: int, k: int)
    requires
        0 <= k <= 258,
        0 <= q < p,
        p + k <= s.len(),
        forall|j: int| 0 <= j < k ==> s[q + j] == #[trigger] s[p + j],
    ensures
        k <= match_from(s, q, p, k) <= 258,
        p + match_from(s, q, p, k) <= s.len(),
        forall|j: int| 0 <= j < match_from(s, q, p, k) ==> s[q + j] == #[trigger] s[p + j],
    decreases 258 - k,
{
    if k < 258 && p + k < s.len() && s[q + k] == s[p + k] {
        lemma_match_from_facts(s, q, p, k + 1);
    }
}

/// A match is a run of equal bytes that stays inside the input and below 258 bytes.
pub proof fn lemma_match_len(s: Seq<u8>, q: int, p: int)
    requires
        0 <= q < p <= s.len(),
    ensures
        match_len(s, q, p) <= 258,
        p + match_len(s, q, p) <= s.len(),
        forall|j: int| 0 <= j < match_len(s, q, p) ==> s[q + j] == #[trigger] s[p + j],
{
    lemma_match_from_facts(s, q, p, 0);
}

proof fn lemma_best_unique(s: Seq<u8>, p: int, l1: nat, d1: nat, l2: nat, d2: nat)
    requires
        is_best(s, p, l1, d1),
        is_best(s, p, l2, d2),
    ensures
        l1 == l2,
        d1 == d2,
{
    assert(match_len(s, p - d1, p) <= l2);
    assert(match_len(s, p - d2, p) <= l1);
    if d1 < d2 {
        assert(match_len(s, p - d1, p) < l2);
    }
    if d2 < d1 {
        assert(match_len(s, p - d2, p) < l1);
    }
}

/// Copying `len` bytes from `dist` back reproduces the input when the input repeats itself
/// at that distance.
proof fn lemma_copy_back_repeats(s: Seq<u8>, p: int, len: nat, dist: nat)
    requires
        1 <= dist <= p,
        p + len <= s.len(),
        forall|j: int| 0 <= j < len ==> s[p - dist + j] == #[trigger] s[p + j],
    ensures
        copy_back(s.take(p), len, dist) == s.take(p + len),
    decreases len,
{
    if len > 0 {
        lemma_copy_back_repeats(s, p, (len - 1) as nat, dist);
        let j = len - 1;
        assert(s[p - dist + j] == s[p + j]);
        assert(s.take(p + len - 1).push(s[p + len - 1 - dist]) =~= s.take(p + len));
    } else {
        assert(s.take(p) =~= s.take(p + len));
    }
}

proof fn lemma_best_scan(s: Seq<u8>, p: int, d: nat)
    requires
        d <= p,
    ensures
        forall|j: int| 1 <= j <= d ==> #[trigger] match_len(s, p - j, p) <= best_scan(s, p, d).0,
        best_scan(s, p, d).0 > 0 ==> {
            &&& 1 <= best_scan(s, p, d).1 <= d
            &&& best_scan(s, p, d).0 == match_len(s, p - best_scan(s, p, d).1, p)
            &&& forall|j: int|
                1 <= j < best_scan(s, p, d).1 ==> #[trigger] match_len(s, p - j, p) < best_scan(
                    s,
                    p,
                    d,
                ).0
        },
    decreases d,
{
    if d > 0 {
        lemma_best_scan(s, p, (d - 1) as nat);
    }
}

/// The scan over the window finds the best match whenever one of three bytes exists.
proof fn lemma_best_scan_is_best(s: Seq<u8>, p: int)
    requires
        0 <= p,
        best_scan(s, p, window_span(p)).0 > 0,
    ensures
        is_best(s, p, best_scan(s, p, window_span(p)).0, best_scan(s, p, window_span(p)).1),
{
    let d = window_span(p);
    lemma_best_scan(s, p, d);
    let b = best_scan(s, p, d);
    assert forall|q: int| in_window(p, q) implies #[trigger] match_len(s, q, p) <= b.0 by {
        assert(match_len(s, p - (p - q), p) <= b.0);
    }
    assert forall|q: int| p - b.1 < q < p implies #[trigger] match_len(s, q, p) < b.0 by {
        assert(match_len(s, p - (p - q), p) < b.0);
    }
}

proof fn lemma_token_at_facts(s: Seq<u8>, p: int)
    requires
        0 <= p < s.len(),
    ensures
        token_fits(s.take(p), token_at(s, p)),
        1 <= token_len(token_at(s, p)),
        p + token_len(token_at(s, p)) <= s.len(),
        apply_token(s.take(p), token_at(s, p)) == s.take(p + token_len(token_at(s, p))),
{
    let b = best_scan(s, p, window_span(p));
    if p + 3 <= s.len() && b.0 >= 3 {
        lemma_best_scan_is_best(s, p);
        lemma_match_len(s, p - b.1, p);
        lemma_copy_back_repeats(s, p, b.0, b.1);
    } else {
        assert(s.take(p).push(s[p]) =~= s.take(p + 1));
    }
}

/// Replaying the parse of `s` from `p` after the first `p` bytes gives back `s`, and every
/// token of it fits.
pub proof fn lemma_parse_replays_from(s: Seq<u8>, p: int)
    requires
        0 <= p <= s.len(),
    ensures
        replay_from(s.take(p), lz77_parse(s, p)) == s,
        tokens_fit_from(s.take(p), lz77_parse(s, p)),
    decreases s.len() - p,
{
    if p == s.len() {
        assert(s.take(p) =~= s);
    } else {
        lemma_token_at_facts(s, p);
        let t = token_at(s, p);
        let rest = lz77_parse(s, p + token_len(t));
        lemma_parse_replays_from(s, p + token_len(t));
        let all = lz77_parse(s, p);
        assert(all == seq![t] + rest);
        assert(all[0] == t);
        assert(all.skip(1) =~= rest);
    }
}

/// The token stream of any input replays to exactly that input, and every back-reference
/// in it has a length in `[3, 258]`, a distance in `[1, 32768]` and looks back only at bytes
/// already produced.
pub proof fn lemma_parse_replays(s: Seq<u8>)
    ensures
        replay(lz77_parse(s, 0)) == s,
        tokens_fit(lz77_parse(s, 0)),
{
    lemma_parse_replays_from(s, 0);
    assert(s.take(0) =~= Seq::<u8>::empty());
}

/// Key of the three bytes at `q`, as the match index stores it.
fn read_triplet_at(data: &Vec<u8>, q: usize) -> (r: u32)
    requires
        q + 3 <= data@.len(),
    ensures
        r as nat == triplet_key(data@, q as int),
{
    let n = data.len();
    assert(q + 2 < n);
    (data[q] as u32) * 65536 + (data[q + 1] as u32) * 256 + (data[q + 2] as u32)
}

/// Matching keys mean matching bytes.
proof fn lemma_triplet_key_eq(s: Seq<u8>, q: int, p: int)
    requires
        0 <= q,
        q + 3 <= s.len(),
        0 <= p,
        p + 3 <= s.len(),
    ensures
        triplet_key(s, q) == triplet_key(s, p) <==> (s[q] == s[p] && s[q + 1] == s[p + 1] && s[q
            + 2] == s[p + 2]),
{
}

/// Files position `q` under its key.
fn index_insert(index: &mut HashMap<u32, Vec<usize>>, data: &Vec<u8>, q: usize)
    requires
        index_wf(old(index)@, data@, q as int),
        q + 3 <= data@.len(),
    ensures
        index_wf(final(index)@, data@, q + 1),
{
    let ghost s = data@;
    let ghost m0 = index@;
    let key = read_triplet_at(data, q);
    let mut list = match index.remove(&key) {
        Some(v) => v,
        None => Vec::new(),
    };
    assert(list@ == chain(m0, key));
    list.push(q);
    index.insert(key, list);
    let ghost m1 = index@;
    assert forall|k: u32| k != key implies chain(m1, k) == chain(m0, k) by {}
    assert(chain(m1, key) == chain(m0, key).push(q));
    assert forall|p: int| 0 <= p < q + 1 && p + 3 <= s.len() implies #[trigger] indexed(m1, s, p) by {
        if p == q {
            assert(triplet_key(s, q as int) as u32 == key);
            assert(chain(m1, key)[chain(m0, key).len() as int] == q);
        } else {
            assert(indexed(m0, s, p));
            let k = triplet_key(s, p) as u32;
            let i = choose|i: int| 0 <= i < chain(m0, k).len() && #[trigger] chain(m0, k)[i] == p;
            assert(chain(m1, k)[i] == p);
        }
    }
}

/// Length of the match that position `q` offers for position `p`.
fn match_length(data: &Vec<u8>, q: usize, p: usize) -> (r: usize)
    requires
        q < p <= data@.len(),
    ensures
        r == match_len(data@, q as int, p as int),
{
    let n = data.len();
    let mut k: usize = 0;
    while k < MAX_MATCH && p + k < n && data[q + k] == data[p + k]
        invariant
            q < p <= data@.len(),
            n == data@.len(),
            k <= 258,
            p + k <= data@.len(),
            match_len(data@, q as int, p as int) == match_from(data@, q as int, p as int, k as int),
        decreases 258 - k,
    {
        k = k + 1;
    }
    k
}

/// The longest match in the window at `p` among the positions the index holds for the
/// bytes at `p`, the nearest on equal length; `(0, 0)` when there is none.
fn is_long_match(index: &HashMap<u32, Vec<usize>>, data: &Vec<u8>, p: usize) -> (r: (usize, usize))
    requires
        index_wf(index@, data@, p as int),
        p + 3 <= data@.len(),
    ensures
        r.0 >= 3 ==> is_best(data@, p as int, r.0 as nat, r.1 as nat),
        r.0 < 3 ==> forall|q: int| in_window(p as int, q) ==> #[trigger] match_len(data@, q, p as int) < 3,
        r.0 < 3 ==> r.0 == 0 && r.1 == 0,
{
    let ghost s = data@;
    let key = read_triplet_at(data, p);
    let empty: Vec<usize> = Vec::new();
    let list: &Vec<usize> = match index.get(&key) {
        Some(v) => v,
        None => &empty,
    };
    assert(list@ == chain(index@, key));
    let mut best_len: usize = 0;
    let mut best_dist: usize = 0;
    let mut i: usize = list.len();
    while i > 0 && best_len < MAX_MATCH
        invariant
            list@ == chain(index@, key),
            s == data@,
            index_wf(index@, s, p as int),
            key as nat == triplet_key(s, p as int),
            p + 3 <= s.len(),
            i <= list@.len(),
            best_len == 0 ==> best_dist == 0,
            best_len <= 258,
            best_len > 0 ==> {
                &&& best_len >= 3
                &&& 1 <= best_dist <= p
                &&& best_dist < 32768
                &&& best_len == match_len(s, p - best_dist, p as int)
                &&& forall|q: int| p - best_dist < q < p ==> #[trigger] match_len(s, q, p as int) < best_len
            },
            forall|q: int|
                (if i == list@.len() { p as int } else { list@[i as int] as int }) <= q < p
                    ==> #[trigger] match_len(s, q, p as int) <= (if best_len < 3 { 2 } else { best_len }),
        ensures
            i == 0 || p - list@[i - 1] >= 32768 || best_len == 258,
        decreases i,
    {
        let q = list[i - 1];
        assert(chain(index@, key)[i - 1] == q);
        assert(q < p && q + 3 <= s.len());
        if p - q >= WINDOW {
            break;
        }
        let m = match_length(data, q, p);
        proof {
            lemma_match_len(s, q as int, p as int);
            lemma_match_len_at_least_3(s, q as int, p as int);
            let lo = if i == list@.len() { p as int } else { list@[i as int] as int };
            assert forall|x: int| q < x < lo implies #[trigger] match_len(s, x, p as int) < 3 by {
                lemma_gap(index@, s, p as int, key, i as int, x);
            }
        }
        if m > best_len {
            best_len = m;
            best_dist = p - q;
        }
        i = i - 1;
    }
    proof {
        let lo = if i == list@.len() { p as int } else { list@[i as int] as int };
        assert forall|x: int| in_window(p as int, x) implies #[trigger] match_len(s, x, p as int)
            <= (if best_len < 3 { 2 } else { best_len }) by {
            if best_len == 258 {
                lemma_match_len(s, x, p as int);
            } else if x < lo {
                lemma_gap(index@, s, p as int, key, i as int, x);
            }
        }
    }
    (best_len, best_dist)
}

proof fn lemma_match_len_at_least_3(s: Seq<u8>, q: int, p: int)
    requires
        0 <= q < p,
        p + 3 <= s.len(),
        triplet_key(s, q) == triplet_key(s, p),
    ensures
        match_len(s, q, p) >= 3,
{
    lemma_triplet_key_eq(s, q, p);
    lemma_match_from_facts(s, q, p, 3);
    assert(match_from(s, q, p, 2) == match_from(s, q, p, 3));
    assert(match_from(s, q, p, 1) == match_from(s, q, p, 2));
    assert(match_from(s, q, p, 0) == match_from(s, q, p, 1));
}

/// No position strictly between two neighbouring entries of the chain for the bytes at `p`
/// offers a match of three bytes.
proof fn lemma_gap(m: Map<u32, Vec<usize>>, s: Seq<u8>, p: int, key: u32, idx: int, x: int)
    requires
        index_wf(m, s, p),
        key as nat == triplet_key(s, p),
        p + 3 <= s.len(),
        0 <= x < p,
        0 <= idx <= chain(m, key).len(),
        idx == 0 || chain(m, key)[idx - 1] < x,
        idx == chain(m, key).len() || x < chain(m, key)[idx],
    ensures
        match_len(s, x, p) < 3,
{
    if match_len(s, x, p) >= 3 {
        lemma_match_len(s, x, p);
        assert(s[x + 0] == s[p + 0]);
        assert(s[x + 1] == s[p + 1]);
        assert(s[x + 2] == s[p + 2]);
        lemma_triplet_key_eq(s, x, p);
        assert(indexed(m, s, x));
        let list = chain(m, key);
        let j = choose|j: int| 0 <= j < list.len() && #[trigger] chain(m, triplet_key(s, x) as u32)[j] == x;
        assert(list[j] == x);
        if j < idx {
            if j < idx - 1 {
                assert(list[j] < list[idx - 1]);
            }
        } else {
            if j > idx {
                assert(list[idx] < list[j]);
            }
        }
    }
}


proof fn lemma_index_wf_skip(m: Map<u32, Vec<usize>>, s: Seq<u8>, n: int)
    requires
        index_wf(m, s, n),
        n + 3 > s.len(),
    ensures
        index_wf(m, s, n + 1),
{
}

/// The token that the scan at `p` settles on.
proof fn lemma_token_from_search(s: Seq<u8>, p: int, len: nat, dist: nat)
    requires
        0 <= p,
        p + 3 <= s.len(),
        len >= 3 ==> is_best(s, p, len, dist),
        len < 3 ==> forall|q: int| in_window(p, q) ==> #[trigger] match_len(s, q, p) < 3,
    ensures
        len >= 3 ==> token_at(s, p) == (Token::Match { length: len as usize, distance: dist as usize }),
        len < 3 ==> token_at(s, p) == Token::Literal(s[p]),
{
    let span = window_span(p);
    lemma_best_scan(s, p, span);
    let b = best_scan(s, p, span);
    if len >= 3 {
        assert(match_len(s, p - dist, p) <= b.0);
        lemma_best_scan_is_best(s, p);
        lemma_best_unique(s, p, len, dist, b.0, b.1);
    } else if b.0 > 0 {
        assert(in_window(p, p - b.1));
    }
}

/// The LZ77 token stream of `data`: at each position the longest match of at least three
/// bytes within the window (the nearest on equal length), else a literal.
pub fn lz77_tokens(data: &Vec<u8>) -> (toks: Vec<Token>)
    ensures
        toks@ == lz77_parse(data@, 0),
        replay(toks@) == data@,
        tokens_fit(toks@),
{
    let ghost s = data@;
    let n = data.len();
    let mut index: HashMap<u32, Vec<usize>> = HashMap::new();
    let mut toks: Vec<Token> = Vec::new();
    let mut p: usize = 0;
    assert(toks@ + lz77_parse(s, 0) =~= lz77_parse(s, 0));
    while p < n
        invariant
            s == data@,
            n == s.len(),
            p <= n,
            index_wf(index@, s, p as int),
            toks@ + lz77_parse(s, p as int) == lz77_parse(s, 0),
        decreases n - p,
    {
        let ghost p0 = p as int;
        let ghost toks0 = toks@;
        proof {
            lemma_token_at_facts(s, p0);
        }
        if n - p >= MIN_MATCH {
            let (len, dist) = is_long_match(&index, data, p);
            proof {
                lemma_token_from_search(s, p0, len as nat, dist as nat);
            }
            index_insert(&mut index, data, p);
            if len >= MIN_MATCH {
                toks.push(Token::Match { length: len, distance: dist });
                let mut j: usize = p + 1;
                while j < p + len
                    invariant
                        s == data@,
                        n == s.len(),
                        p + 1 <= j <= p + len,
                        p + len <= n,
                        index_wf(index@, s, j as int),
                    decreases p + len - j,
                {
                    if n - j >= MIN_MATCH {
                        index_insert(&mut index, data, j);
                    } else {
                        proof {
                            lemma_index_wf_skip(index@, s, j as int);
                        }
                    }
                    j = j + 1;
                }
                p = p + len;
            } else {
                toks.push(Token::Literal(data[p]));
                p = p + 1;
            }
        } else {
            proof {
                lemma_index_wf_skip(index@, s, p as int);
            }
            toks.push(Token::Literal(data[p]));
            p = p + 1;
        }
        proof {
            let t = token_at(s, p0);
            assert(lz77_parse(s, p0) == seq![t] + lz77_parse(s, p as int));
            assert(toks@ == toks0.push(t));
            assert(toks@ + lz77_parse(s, p as int) =~= toks0 + lz77_parse(s, p0));
        }
    }
    assert(toks@ =~= toks@ + lz77_parse(s, p as int));
    proof {
        lemma_parse_replays(s);
    }
    toks
}

/// The decimal digits of `n`, as ASCII.
pub open spec fn decimal(n: nat) -> Seq<u8>
    decreases n,
{
    if n < 10 {
        seq![(48 + n) as u8]
    } else {
        decimal(n / 10).push((48 + n % 10) as u8)
    }
}

/// The text form of a token: a literal as its byte, a back-reference as `<length,distance>`.
pub open spec fn token_text(t: Token) -> Seq<u8> {
    match t {
        Token::Literal(b) => seq![b],
        Token::Match { length, distance } => seq![60u8] + decimal(length as nat) + seq![44u8]
            + decimal(distance as nat) + seq![62u8],
    }
}

/// The text form of a token stream, token after token.
pub open spec fn tokens_text(toks: Seq<Token>) -> Seq<u8>
    decreases toks.len(),
{
    if toks.len() == 0 {
        Seq::empty()
    } else {
        tokens_text(toks.drop_last()) + token_text(toks.last())
    }
}

fn push_decimal(buf: &mut Vec<u8>, n: usize)
    ensures
        final(buf)@ == old(buf)@ + decimal(n as nat),
    decreases n,
{
    if n >= 10 {
        push_decimal(buf, n / 10);
    }
    buf.push((48 + n % 10) as u8);
    assert(final(buf)@ =~= old(buf)@ + decimal(n as nat));
}

/// The text form of a token stream.
pub fn render_tokens(toks: &Vec<Token>) -> (r: Vec<u8>)
    ensures
        r@ == tokens_text(toks@),
{
    let mut out: Vec<u8> = Vec::new();
    let mut i: usize = 0;
    while i < toks.len()
        invariant
            i <= toks@.len(),
            out@ == tokens_text(toks@.take(i as int)),
        decreases toks@.len() - i,
    {
        let ghost before = out@;
        let t = toks[i];
        match t {
            Token::Literal(b) => {
                out.push(b);
            },
            Token::Match { length, distance } => {
                out.push(60u8);
                push_decimal(&mut out, length);
                out.push(44u8);
                push_decimal(&mut out, distance);
                out.push(62u8);
            },
        }
        proof {
            assert(toks@.take(i + 1).drop_last() =~= toks@.take(i as int));
            assert(out@ =~= before + token_text(t));
        }
        i = i + 1;
    }
    assert(toks@.take(i as int) =~= toks@);
    out
}

} // verus!
