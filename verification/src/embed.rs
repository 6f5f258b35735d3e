//! Deterministic n-gram feature hashing.
//!
//! A text is lowered, cut into whole ASCII tokens (which matter most for model
//! ids such as `A1332` and codenames such as `mione_plus`), pairs of characters
//! and single characters (which matter for CJK text). Each of these features is
//! hashed with FNV-1a into one coordinate of a vector and a sign. The vector
//! itself is made of floating-point numbers: it is the sum of the features,
//! scaled to length one, and is formed by the callers of this module.

use crate::text;
use vstd::prelude::*;

verus! {

broadcast use vstd::string::group_string_axioms;

/// The number of coordinates.
pub const DIM: usize = 1024;

/// The FNV-1a hash of a sequence of bytes, started from the offset basis mixed
/// with the seed.
pub open spec fn fnv(bytes: Seq<u8>, seed: u64) -> u64
    decreases bytes.len(),
{
    if bytes.len() == 0 {
        0xcbf2_9ce4_8422_2325u64 ^ seed
    } else {
        (fnv(bytes.drop_last(), seed) ^ (bytes.last() as u64)).wrapping_mul(0x100_0000_01b3)
    }
}

/// The FNV-1a hash.
pub fn fnv1a(bytes: &[u8], seed: u64) -> (r: u64)
    ensures
        r == fnv(bytes@, seed),
{
    let mut h: u64 = 0xcbf2_9ce4_8422_2325u64 ^ seed;
    for i in 0..bytes.len()
        invariant
            h == fnv(bytes@.take(i as int), seed),
    {
        assert(bytes@.take(i + 1).drop_last() =~= bytes@.take(i as int));
        h = (h ^ (bytes[i] as u64)).wrapping_mul(0x100_0000_01b3);
    }
    assert(bytes@.take(bytes@.len() as int) =~= bytes@);
    h
}

/// Lowers the ASCII letters of a text.
pub fn normalize(s: &str) -> (r: String)
    ensures
        r@ == text::ascii_lowered(s@),
{
    text::lower_ascii(s)
}

/// One hashed feature: the coordinate it falls on, its sign, and its weight
/// counted in halves.
#[derive(Debug, Clone, Copy, PartialEq, Eq, Structural)]
pub struct Feature {
    pub index: usize,
    pub positive: bool,
    pub halves: u8,
}

/// The weight of a whole token, in halves.
pub const TOKEN_HALVES: u8 = 8;

/// The weight of a pair of characters, in halves.
pub const BIGRAM_HALVES: u8 = 4;

/// The weight of a single character, in halves.
pub const UNIGRAM_HALVES: u8 = 1;

/// The feature of a piece of text: the lowest bit of the hash is the sign, the
/// others choose the coordinate.
pub open spec fn feature_of(piece: Seq<char>, halves: u8) -> Feature {
    let h = fnv(vstd::utf8::encode_utf8(piece), 0);
    Feature { index: ((h >> 1) % (DIM as u64)) as usize, positive: h & 1 == 1, halves }
}

/// The features of the runs that are not empty.
pub open spec fn token_features(runs: Seq<Seq<char>>) -> Seq<Feature>
    decreases runs.len(),
{
    if runs.len() == 0 {
        Seq::empty()
    } else if runs.last().len() == 0 {
        token_features(runs.drop_last())
    } else {
        token_features(runs.drop_last()).push(feature_of(runs.last(), TOKEN_HALVES))
    }
}

/// The features of the neighbouring pairs without white space.
pub open spec fn bigram_features(s: Seq<char>) -> Seq<Feature>
    decreases s.len(),
{
    if s.len() < 2 {
        Seq::empty()
    } else {
        let a = s[s.len() - 2];
        let b = s[s.len() - 1];
        if text::is_space(a) || text::is_space(b) {
            bigram_features(s.drop_last())
        } else {
            bigram_features(s.drop_last()).push(feature_of(seq![a, b], BIGRAM_HALVES))
        }
    }
}

/// The features of the characters that are not white space.
pub open spec fn unigram_features(s: Seq<char>) -> Seq<Feature>
    decreases s.len(),
{
    if s.len() == 0 {
        Seq::empty()
    } else if text::is_space(s.last()) {
        unigram_features(s.drop_last())
    } else {
        unigram_features(s.drop_last()).push(feature_of(seq![s.last()], UNIGRAM_HALVES))
    }
}

/// The features of a text: its ASCII tokens, then its pairs of characters, then
/// its characters, all of the lowered text.
pub open spec fn features_of(s: Seq<char>) -> Seq<Feature> {
    let low = text::ascii_lowered(s);
    token_features(text::runs(low, |c: char| text::is_alnum(c))) + bigram_features(low)
        + unigram_features(low)
}

/// Hashes one piece of text.
fn feature(piece: &[char], halves: u8) -> (r: Feature)
    ensures
        r == feature_of(piece@, halves),
{
    let s = text::string_of(piece);
    let h = fnv1a(s.as_str().as_bytes(), 0);
    let index: usize = ((h >> 1) % (DIM as u64)) as usize;
    Feature { index, positive: h & 1 == 1, halves }
}

/// Adds the features of the ASCII tokens.
fn push_tokens(s: &[char], out: &mut Vec<Feature>)
    ensures
        final(out)@ == old(out)@ + token_features(text::runs(s@, |c: char| text::is_alnum(c))),
{
    let ghost keep = |c: char| text::is_alnum(c);
    let mut tok: Vec<char> = Vec::new();
    proof {
        let r = text::runs(s@.take(0), keep);
        assert(r.drop_last() =~= Seq::<Seq<char>>::empty());
        assert(r.last() =~= tok@);
        assert(token_features(r.drop_last()) =~= Seq::<Feature>::empty());
        assert(out@ =~= old(out)@ + token_features(r.drop_last()));
    }
    for i in 0..s.len()
        invariant
            keep == (|c: char| text::is_alnum(c)),
            text::runs(s@.take(i as int), keep).len() >= 1,
            tok@ == text::runs(s@.take(i as int), keep).last(),
            out@ == old(out)@ + token_features(text::runs(s@.take(i as int), keep).drop_last()),
    {
        let c = s[i];
        let ghost before = text::runs(s@.take(i as int), keep);
        let ghost after = text::runs(s@.take(i + 1), keep);
        assert(s@.take(i + 1).drop_last() =~= s@.take(i as int));
        assert(keep(c) == text::is_alnum(c));
        if text::alnum(c) {
            tok.push(c);
            assert(after.drop_last() =~= before.drop_last());
        } else {
            assert(after.drop_last() =~= before);
            if tok.len() > 0 {
                let f = feature(tok.as_slice(), TOKEN_HALVES);
                out.push(f);
                assert(out@ =~= old(out)@ + token_features(before));
                tok = Vec::new();
            }
            assert(tok@ =~= after.last());
        }
    }
    assert(s@.take(s@.len() as int) =~= s@);
    if tok.len() > 0 {
        let f = feature(tok.as_slice(), TOKEN_HALVES);
        out.push(f);
    }
    assert(out@ =~= old(out)@ + token_features(text::runs(s@, keep)));
}

/// Adds the features of the neighbouring pairs.
fn push_bigrams(s: &[char], out: &mut Vec<Feature>)
    ensures
        final(out)@ == old(out)@ + bigram_features(s@),
{
    assert(out@ + bigram_features(s@.take(0)) =~= out@);
    for i in 0..s.len()
        invariant
            out@ == old(out)@ + bigram_features(s@.take(i as int)),
    {
        let ghost t = s@.take(i + 1);
        assert(t.drop_last() =~= s@.take(i as int));
        if i > 0 && !text::space(s[i - 1]) && !text::space(s[i]) {
            let pair: &[char] = &s[i - 1..i + 1];
            assert(pair@ =~= seq![t[t.len() - 2], t[t.len() - 1]]);
            let f = feature(pair, BIGRAM_HALVES);
            out.push(f);
        }
        assert(out@ =~= old(out)@ + bigram_features(t));
    }
    assert(s@.take(s@.len() as int) =~= s@);
}

/// Adds the features of the single characters.
fn push_unigrams(s: &[char], out: &mut Vec<Feature>)
    ensures
        final(out)@ == old(out)@ + unigram_features(s@),
{
    assert(out@ + unigram_features(s@.take(0)) =~= out@);
    for i in 0..s.len()
        invariant
            out@ == old(out)@ + unigram_features(s@.take(i as int)),
    {
        let ghost t = s@.take(i + 1);
        assert(t.drop_last() =~= s@.take(i as int));
        if !text::space(s[i]) {
            let one: &[char] = &s[i..i + 1];
            assert(one@ =~= seq![t.last()]);
            let f = feature(one, UNIGRAM_HALVES);
            out.push(f);
        }
        assert(out@ =~= old(out)@ + unigram_features(t));
    }
    assert(s@.take(s@.len() as int) =~= s@);
}

/// The features of a text, in the order in which they are added up.
pub fn features(text: &str) -> (r: Vec<Feature>)
    ensures
        r@ == features_of(text@),
{
    let low = normalize(text);
    let s = text::chars_of(low.as_str());
    let mut out: Vec<Feature> = Vec::new();
    push_tokens(s.as_slice(), &mut out);
    push_bigrams(s.as_slice(), &mut out);
    push_unigrams(s.as_slice(), &mut out);
    assert(out@ =~= features_of(text@));
    out
}

/// The features do not see the case of ASCII letters: a text has those of its
/// lowered form.
pub proof fn lemma_features_ignore_case(s: Seq<char>, t: Seq<char>)
    requires
        text::ascii_lowered(s) == text::ascii_lowered(t),
    ensures
        features_of(s) == features_of(t),
{
}

/// Every coordinate of the features is one of the vector's.
pub open spec fn in_range(v: Seq<Feature>) -> bool {
    forall|i: int| 0 <= i < v.len() ==> (#[trigger] v[i]).index < DIM
}

/// Every feature of a text falls on one of the coordinates.
pub proof fn lemma_features_in_range(s: Seq<char>)
    ensures
        in_range(features_of(s)),
{
    let low = text::ascii_lowered(s);
    lemma_token_range(text::runs(low, |c: char| text::is_alnum(c)));
    lemma_gram_range(low);
}

proof fn lemma_feature_range(piece: Seq<char>, halves: u8)
    ensures
        feature_of(piece, halves).index < DIM,
{
    let h = fnv(vstd::utf8::encode_utf8(piece), 0) >> 1;
    assert(h % (DIM as u64) < DIM);
}

proof fn lemma_token_range(runs: Seq<Seq<char>>)
    ensures
        in_range(token_features(runs)),
    decreases runs.len(),
{
    if runs.len() > 0 {
        lemma_token_range(runs.drop_last());
        lemma_feature_range(runs.last(), TOKEN_HALVES);
    }
}

proof fn lemma_gram_range(s: Seq<char>)
    ensures
        in_range(bigram_features(s)),
        in_range(unigram_features(s)),
    decreases s.len(),
{
    if s.len() > 0 {
        lemma_gram_range(s.drop_last());
        lemma_feature_range(seq![s.last()], UNIGRAM_HALVES);
        if s.len() > 1 {
            lemma_feature_range(seq![s[s.len() - 2], s[s.len() - 1]], BIGRAM_HALVES);
        }
    }
}

/// The signed weight that a feature adds to a coordinate, in halves.
pub open spec fn share(f: Feature, i: int) -> int {
    if f.index != i {
        0
    } else if f.positive {
        f.halves as int
    } else {
        -(f.halves as int)
    }
}

/// The weight that features add up to on a coordinate, in halves.
pub open spec fn weight_at(v: Seq<Feature>, i: int) -> int
    decreases v.len(),
{
    if v.len() == 0 {
        0
    } else {
        weight_at(v.drop_last(), i) + share(v.last(), i)
    }
}

proof fn lemma_weight_bound(v: Seq<Feature>, i: int)
    ensures
        -255 * v.len() <= weight_at(v, i) <= 255 * v.len(),
    decreases v.len(),
{
    if v.len() > 0 {
        lemma_weight_bound(v.drop_last(), i);
    }
}

/// The weights of a text on all coordinates, in halves: the direction of its
/// vector.
pub fn weights(text: &str) -> (r: Vec<i128>)
    ensures
        r@.len() == DIM,
        forall|i: int| 0 <= i < DIM ==> #[trigger] r@[i] == weight_at(features_of(text@), i),
{
    let all = features(text);
    let mut out: Vec<i128> = Vec::new();
    for i in 0..DIM
        invariant
            out@.len() == i,
            forall|k: int| 0 <= k < i ==> #[trigger] out@[k] == 0,
    {
        out.push(0);
    }
    proof {
        lemma_features_in_range(text@);
    }
    for n in 0..all.len()
        invariant
            all@ == features_of(text@),
            in_range(all@),
            out@.len() == DIM,
            forall|k: int| 0 <= k < DIM ==> #[trigger] out@[k] == weight_at(all@.take(n as int), k),
    {
        let f = all[n];
        assert(all@.take(n + 1).drop_last() =~= all@.take(n as int));
        assert(f.index < DIM);
        proof {
            lemma_weight_bound(all@.take(n as int), f.index as int);
        }
        let w: i128 = out[f.index];
        let sum: i128 = if f.positive {
            w + f.halves as i128
        } else {
            w - f.halves as i128
        };
        out.set(f.index, sum);
    }
    assert(all@.take(all@.len() as int) =~= all@);
    out
}

// ---------------------------------------------------------------------------
// What the features of a text are
// ---------------------------------------------------------------------------

/// A feature of a piece of text with a weight.
pub open spec fn of_piece(f: Feature, piece: Seq<char>, halves: int) -> bool {
    f.halves == halves && f == feature_of(piece, f.halves)
}

proof fn lemma_unigrams(s: Seq<char>) -> (at: Seq<int>)
    ensures
        text::lists(at, s.len() as int, |i: int| !text::is_space(s[i])),
        at.len() == unigram_features(s).len(),
        forall|k: int|
            0 <= k < at.len() ==> of_piece(unigram_features(s)[k], seq![s[#[trigger] at[k]]], 1),
    decreases s.len(),
{
    let q = |i: int| !text::is_space(s[i]);
    if s.len() == 0 {
        let none = Seq::<int>::empty();
        assert(text::lists(none, 0, q));
        none
    } else {
        let init = s.drop_last();
        let n = init.len() as int;
        let p = |i: int| !text::is_space(init[i]);
        let before = lemma_unigrams(init);
        assert forall|i: int| 0 <= i < n implies #[trigger] p(i) == q(i) by {}
        text::lemma_lists_next(before, n, p, q);
        assert(s[n] == s.last());
        let at = if q(n) {
            before.push(n)
        } else {
            before
        };
        assert forall|k: int| 0 <= k < at.len() implies of_piece(
            unigram_features(s)[k],
            seq![s[#[trigger] at[k]]],
            1,
        ) by {
            if k < before.len() {
                assert(at[k] == before[k]);
                assert(init[before[k]] == s[before[k]]);
            }
        }
        at
    }
}

proof fn lemma_bigrams(s: Seq<char>) -> (at: Seq<int>)
    ensures
        text::lists(
            at,
            s.len() as int,
            |i: int| i > 0 && !text::is_space(s[i - 1]) && !text::is_space(s[i]),
        ),
        at.len() == bigram_features(s).len(),
        forall|k: int|
            0 <= k < at.len() ==> of_piece(
                bigram_features(s)[k],
                seq![s[at[k] - 1], s[#[trigger] at[k]]],
                4,
            ),
    decreases s.len(),
{
    let q = |i: int| i > 0 && !text::is_space(s[i - 1]) && !text::is_space(s[i]);
    if s.len() == 0 {
        let none = Seq::<int>::empty();
        assert(text::lists(none, 0, q));
        none
    } else {
        let init = s.drop_last();
        let n = init.len() as int;
        let p = |i: int| i > 0 && !text::is_space(init[i - 1]) && !text::is_space(init[i]);
        let before = lemma_bigrams(init);
        assert forall|i: int| 0 <= i < n implies #[trigger] p(i) == q(i) by {}
        text::lemma_lists_next(before, n, p, q);
        let at = if q(n) {
            before.push(n)
        } else {
            before
        };
        if n == 0 {
            assert(before.len() == 0);
        }
        assert forall|k: int| 0 <= k < at.len() implies of_piece(
            bigram_features(s)[k],
            seq![s[at[k] - 1], s[#[trigger] at[k]]],
            4,
        ) by {
            if k < before.len() {
                assert(at[k] == before[k]);
                assert(p(before[k]));
                assert(init[before[k]] == s[before[k]]);
                assert(init[before[k] - 1] == s[before[k] - 1]);
            }
        }
        at
    }
}

proof fn lemma_token_pieces(runs: Seq<Seq<char>>)
    ensures
        ({
            let kept = text::select(runs, |t: Seq<char>| t.len() >= 1);
            &&& token_features(runs).len() == kept.len()
            &&& forall|k: int|
                0 <= k < kept.len() ==> of_piece(token_features(runs)[k], #[trigger] kept[k], 8)
        }),
    decreases runs.len(),
{
    if runs.len() > 0 {
        lemma_token_pieces(runs.drop_last());
        let p = |t: Seq<char>| t.len() >= 1;
        let before = text::select(runs.drop_last(), p);
        let kept = text::select(runs, p);
        assert(p(runs.last()) == (runs.last().len() >= 1));
        assert forall|k: int| 0 <= k < kept.len() implies of_piece(
            token_features(runs)[k],
            #[trigger] kept[k],
            8,
        ) by {
            if k < before.len() {
                assert(kept[k] == before[k]);
                assert(token_features(runs)[k] == token_features(runs.drop_last())[k]);
            }
        }
    }
}

/// The features of a text, read off its lowered form: one of weight 4 for each
/// longest possible run of ASCII letters and digits, then one of weight 2 for each
/// two neighbours that are not white space, then one of weight 1/2 for each
/// character that is not white space, whatever its script. Nothing else is a
/// feature, and each group stands in the order of the text. Weights are counted in
/// halves.
pub proof fn lemma_features(s: Seq<char>) -> (at: (Seq<(int, int)>, Seq<int>, Seq<int>))
    ensures
        ({
            let low = text::ascii_lowered(s);
            let (spans, pairs, ones) = at;
            let all = features_of(s);
            let t = spans.len() as int;
            let b = t + pairs.len();
            &&& text::in_runs(
                Seq::new(spans.len(), |k: int| low.subrange(spans[k].0, spans[k].1)),
                spans,
                low,
                |c: char| '0' <= c <= '9' || 'A' <= c <= 'Z' || 'a' <= c <= 'z',
                1,
            )
            &&& text::lists(
                pairs,
                low.len() as int,
                |i: int| i > 0 && !text::is_space(low[i - 1]) && !text::is_space(low[i]),
            )
            &&& text::lists(ones, low.len() as int, |i: int| !text::is_space(low[i]))
            &&& all.len() == spans.len() + pairs.len() + ones.len()
            &&& forall|k: int|
                0 <= k < spans.len() ==> of_piece(
                    all[k],
                    low.subrange((#[trigger] spans[k]).0, spans[k].1),
                    8,
                )
            &&& forall|k: int|
                0 <= k < pairs.len() ==> of_piece(
                    all[t + k],
                    seq![low[pairs[k] - 1], low[#[trigger] pairs[k]]],
                    4,
                )
            &&& forall|k: int|
                0 <= k < ones.len() ==> of_piece(all[b + k], seq![low[#[trigger] ones[k]]], 1)
        }),
{
    let low = text::ascii_lowered(s);
    let keep = |c: char| text::is_alnum(c);
    let plain = |c: char| '0' <= c <= '9' || 'A' <= c <= 'Z' || 'a' <= c <= 'z';
    assert(keep =~= plain);
    let all_runs = text::runs(low, keep);
    let min = 1int;
    let p = |t: Seq<char>| t.len() >= min;
    assert(p =~= (|t: Seq<char>| t.len() >= 1));
    let kept = text::select(all_runs, p);
    let spans = text::lemma_runs(low, keep, min);
    lemma_token_pieces(all_runs);
    let pairs = lemma_bigrams(low);
    let ones = lemma_unigrams(low);
    let texts = Seq::new(spans.len(), |k: int| low.subrange(spans[k].0, spans[k].1));
    assert(texts =~= kept);
    let all = features_of(s);
    let tf = token_features(all_runs);
    let bf = bigram_features(low);
    let uf = unigram_features(low);
    assert(all =~= tf + bf + uf);
    assert forall|k: int| 0 <= k < spans.len() implies of_piece(
        all[k],
        low.subrange((#[trigger] spans[k]).0, spans[k].1),
        8,
    ) by {
        assert(all[k] == tf[k]);
        assert(kept[k] == low.subrange(spans[k].0, spans[k].1));
    }
    assert forall|k: int| 0 <= k < pairs.len() implies of_piece(
        all[spans.len() + k],
        seq![low[pairs[k] - 1], low[#[trigger] pairs[k]]],
        4,
    ) by {
        assert(all[spans.len() + k] == bf[k]);
    }
    assert forall|k: int| 0 <= k < ones.len() implies of_piece(
        all[spans.len() + pairs.len() + k],
        seq![low[#[trigger] ones[k]]],
        1,
    ) by {
        assert(all[spans.len() + pairs.len() + k] == uf[k]);
    }
    (spans, pairs, ones)
}

/// Each character that is not white space has a feature, and so has each pair of
/// neighbours without white space: no text but a blank one is without features.
pub proof fn lemma_each_character_counts(s: Seq<char>, i: int)
    requires
        0 <= i < s.len(),
        !text::is_space(s[i]),
    ensures
        features_of(s).contains(feature_of(seq![text::ascii_lower(s[i])], 1)),
        i > 0 && !text::is_space(s[i - 1]) ==> features_of(s).contains(
            feature_of(seq![text::ascii_lower(s[i - 1]), text::ascii_lower(s[i])], 4),
        ),
{
    let low = text::ascii_lowered(s);
    let (spans, pairs, ones) = lemma_features(s);
    let all = features_of(s);
    let one = |i: int| !text::is_space(low[i]);
    let two = |i: int| i > 0 && !text::is_space(low[i - 1]) && !text::is_space(low[i]);
    assert(text::lists(ones, low.len() as int, one));
    assert(text::lists(pairs, low.len() as int, two));
    assert(one(i));
    let k = choose|k: int| 0 <= k < ones.len() && ones[k] == i;
    assert(of_piece(all[spans.len() + pairs.len() + k], seq![low[ones[k]]], 1));
    if i > 0 && !text::is_space(s[i - 1]) {
        assert(two(i));
        let l = choose|l: int| 0 <= l < pairs.len() && pairs[l] == i;
        assert(of_piece(all[spans.len() + l], seq![low[pairs[l] - 1], low[pairs[l]]], 4));
    }
}

/// Weights add up: the features of two lists together weigh what each of the lists
/// weighs, and a single feature weighs so much on its own coordinate, up or down by
/// its sign, and nothing on the others.
pub proof fn lemma_weights_add_up(v: Seq<Feature>, w: Seq<Feature>, f: Feature, i: int)
    ensures
        weight_at(v + w, i) == weight_at(v, i) + weight_at(w, i),
        weight_at(seq![f], i) == (if f.index != i {
            0
        } else if f.positive {
            f.halves as int
        } else {
            0 - f.halves
        }),
    decreases w.len(),
{
    if w.len() > 0 {
        lemma_weights_add_up(v, w.drop_last(), f, i);
        assert((v + w).drop_last() =~= v + w.drop_last());
    } else {
        assert(v + w =~= v);
    }
    assert(seq![f].drop_last() =~= Seq::<Feature>::empty());
    assert(weight_at(seq![f].drop_last(), i) == 0);
}

/// The hash of bytes is that of the FNV-1a algorithm with 64 bits: it starts at the
/// offset basis, mixed with the seed, and each byte is mixed in before the hash is
/// multiplied by the prime, modulo 2 to the power of 64.
pub proof fn lemma_hash(bytes: Seq<u8>, b: u8, seed: u64)
    ensures
        fnv(Seq::empty(), seed) == 14695981039346656037u64 ^ seed,
        fnv(bytes.push(b), seed) == ((fnv(bytes, seed) ^ (b as u64)) * 1099511628211)
            % 18446744073709551616,
{
    assert(bytes.push(b).drop_last() =~= bytes);
}

/// The feature of a piece of text: half of its hash, modulo 1024, is the coordinate,
/// and the sign is positive where the hash is odd.
pub proof fn lemma_feature(piece: Seq<char>, halves: u8)
    ensures
        ({
            let h = fnv(vstd::utf8::encode_utf8(piece), 0);
            let f = feature_of(piece, halves);
            &&& f.index == (h / 2) % 1024
            &&& f.positive <==> h % 2 == 1
            &&& f.halves == halves
        }),
{
    let h = fnv(vstd::utf8::encode_utf8(piece), 0);
    assert(h >> 1 == h / 2) by (bit_vector);
    assert(h & 1 == h % 2) by (bit_vector);
}

} // verus!
