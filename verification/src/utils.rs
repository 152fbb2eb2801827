//! Bringing raw arguments into canonical shape.

use vstd::prelude::*;
use vstd::string::*;
use crate::text::{
    find_char, first_index, join_text, lemma_first_index, lemma_first_index_unique, slice_text,
    texts,
};

verus! {

/// A token that starts with a dash.
pub open spec fn is_dashed(t: Seq<char>) -> bool {
    t.len() > 0 && t[0] == '-'
}

/// A token that starts with exactly one dash.
pub open spec fn is_short_form(t: Seq<char>) -> bool {
    is_dashed(t) && !(t.len() > 1 && t[1] == '-')
}

/// One short flag, `-c`, for each character of `cs`.
pub open spec fn short_flags(cs: Seq<char>) -> Seq<Seq<char>> {
    Seq::new(cs.len(), |i: int| seq!['-', cs[i]])
}

/// A token whose designator, which is all of it up to the first `=`, is a
/// cluster of short flags: one dash and two or more characters, as in
/// `-abc` and `-abc=x`. Neither `-` nor `-a` is a cluster.
pub open spec fn is_cluster(t: Seq<char>) -> bool {
    is_short_form(t) && first_index(t, '=') > 2
}

/// What one raw token becomes.
///
/// A dashed token with an `=` is cut at the first `=` into designator and
/// value; the value is never cut again. With `cluster` set, a designator
/// that is a cluster is moreover taken apart into one short flag per
/// character. Every other token stays as it is.
pub open spec fn expand_token(t: Seq<char>, cluster: bool) -> Seq<Seq<char>> {
    let p = first_index(t, '=');
    if cluster && is_cluster(t) {
        if p < t.len() {
            short_flags(t.subrange(1, p)).push(t.subrange(p + 1, t.len() as int))
        } else {
            short_flags(t.subrange(1, t.len() as int))
        }
    } else if is_dashed(t) && p < t.len() {
        seq![t.subrange(0, p), t.subrange(p + 1, t.len() as int)]
    } else {
        seq![t]
    }
}

/// What a sequence of raw tokens becomes: the expansions of its tokens, in order.
pub open spec fn expand_tokens(ts: Seq<Seq<char>>, cluster: bool) -> Seq<Seq<char>>
    decreases ts.len(),
{
    if ts.len() == 0 {
        Seq::empty()
    } else {
        expand_tokens(ts.drop_last(), cluster) + expand_token(ts.last(), cluster)
    }
}

/// A token that normalization leaves as it is.
pub open spec fn is_settled(t: Seq<char>, cluster: bool) -> bool {
    expand_token(t, cluster) == seq![t]
}

/// Every token of `ts` is left as it is.
pub open spec fn all_settled(ts: Seq<Seq<char>>, cluster: bool) -> bool {
    forall|i: int| 0 <= i < ts.len() ==> is_settled(#[trigger] ts[i], cluster)
}

/// A token whose value, once cut off, would itself be rewritten, such as
/// `--a=-b=c`, whose value `-b=c` is dashed and holds an `=`, or, with
/// clustering, `--a=-xy`, whose value is a cluster.
pub open spec fn reopens(t: Seq<char>, cluster: bool) -> bool {
    let p = first_index(t, '=');
    is_dashed(t) && p < t.len() && !is_settled(t.subrange(p + 1, t.len() as int), cluster)
}

/// Every token becomes at least one token: normalization loses none.
pub proof fn lemma_expand_loses_no_token(ts: Seq<Seq<char>>, cluster: bool)
    ensures
        forall|i: int| 0 <= i < ts.len() ==> expand_token(#[trigger] ts[i], cluster).len() >= 1,
        expand_tokens(ts, cluster).len() >= ts.len(),
    decreases ts.len(),
{
    assert forall|i: int| 0 <= i < ts.len() implies expand_token(
        #[trigger] ts[i],
        cluster,
    ).len() >= 1 by {
        lemma_first_index(ts[i], '=');
    }
    if ts.len() > 0 {
        lemma_expand_loses_no_token(ts.drop_last(), cluster);
        assert(expand_token(ts[ts.len() - 1], cluster).len() >= 1);
    }
}

/// Normalization distributes over concatenation.
pub proof fn lemma_expand_concat(a: Seq<Seq<char>>, b: Seq<Seq<char>>, cluster: bool)
    ensures
        expand_tokens(a + b, cluster) == expand_tokens(a, cluster) + expand_tokens(b, cluster),
    decreases b.len(),
{
    if b.len() == 0 {
        assert(a + b =~= a);
        assert(expand_tokens(a, cluster) + expand_tokens(b, cluster) =~= expand_tokens(
            a,
            cluster,
        ));
    } else {
        lemma_expand_concat(a, b.drop_last(), cluster);
        assert((a + b).drop_last() =~= a + b.drop_last());
        assert((a + b).last() == b.last());
        assert(expand_tokens(a + b, cluster) =~= expand_tokens(a, cluster) + expand_tokens(
            b,
            cluster,
        ));
    }
}

/// Settled tokens come out of normalization unchanged.
pub proof fn lemma_expand_settled(ts: Seq<Seq<char>>, cluster: bool)
    requires
        all_settled(ts, cluster),
    ensures
        expand_tokens(ts, cluster) == ts,
    decreases ts.len(),
{
    if ts.len() > 0 {
        lemma_expand_settled(ts.drop_last(), cluster);
        assert(is_settled(ts[ts.len() - 1], cluster));
        assert(expand_tokens(ts, cluster) =~= ts);
    } else {
        assert(expand_tokens(ts, cluster) =~= ts);
    }
}

/// A token without `=` is settled unless clustering takes it apart.
proof fn lemma_plain_token_settled(t: Seq<char>, cluster: bool)
    requires
        !t.contains('='),
        !(cluster && is_cluster(t)),
    ensures
        is_settled(t, cluster),
{
    lemma_first_index(t, '=');
}

/// A short flag of one character other than `=` is settled.
proof fn lemma_short_flag_settled(c: char, cluster: bool)
    requires
        c != '=',
    ensures
        is_settled(seq!['-', c], cluster),
{
    let t = seq!['-', c];
    lemma_first_index_unique(t, '=', 2);
}

/// The short flags made of characters other than `=` are all settled.
proof fn lemma_short_flags_settled(cs: Seq<char>, cluster: bool)
    requires
        !cs.contains('='),
    ensures
        all_settled(short_flags(cs), cluster),
{
    assert forall|i: int| 0 <= i < short_flags(cs).len() implies is_settled(
        #[trigger] short_flags(cs)[i],
        cluster,
    ) by {
        assert(cs[i] != '=');
        lemma_short_flag_settled(cs[i], cluster);
    }
}

/// Each token that a token becomes is settled, or is the value of a token
/// that reopens, and then shorter than that token.
pub proof fn lemma_expand_token_parts(t: Seq<char>, cluster: bool)
    ensures
        forall|k: int|
            0 <= k < expand_token(t, cluster).len() ==> is_settled(
                #[trigger] expand_token(t, cluster)[k],
                cluster,
            ) || (reopens(t, cluster) && expand_token(t, cluster)[k].len() < t.len()),
{
    lemma_first_index(t, '=');
    let p = first_index(t, '=');
    let n = t.len() as int;
    let out = expand_token(t, cluster);
    if cluster && is_cluster(t) {
        if p < n {
            let head = t.subrange(1, p);
            assert(!head.contains('=')) by {
                if head.contains('=') {
                    let k = choose|k: int| 0 <= k < head.len() && head[k] == '=';
                    assert(t[k + 1] == '=');
                }
            }
            lemma_short_flags_settled(head, cluster);
            assert forall|k: int| 0 <= k < out.len() implies is_settled(
                #[trigger] out[k],
                cluster,
            ) || (reopens(t, cluster) && out[k].len() < t.len()) by {
                if k < head.len() {
                    assert(out[k] == short_flags(head)[k]);
                }
            }
        } else {
            let rest = t.subrange(1, n);
            assert(!rest.contains('=')) by {
                if rest.contains('=') {
                    let k = choose|k: int| 0 <= k < rest.len() && rest[k] == '=';
                    assert(t[k + 1] == '=');
                }
            }
            lemma_short_flags_settled(rest, cluster);
        }
    } else if is_dashed(t) && p < n {
        let head = t.subrange(0, p);
        assert(!head.contains('=')) by {
            if head.contains('=') {
                let k = choose|k: int| 0 <= k < head.len() && head[k] == '=';
                assert(t[k] == '=');
            }
        }
        lemma_first_index_unique(head, '=', p);
        assert(!(cluster && is_cluster(head))) by {
            if cluster && p > 2 {
                assert(head[0] == t[0]);
                assert(head[1] == t[1]);
            }
        }
        lemma_plain_token_settled(head, cluster);
    } else {
    }
}

/// What a token becomes is settled, unless the token reopens.
pub proof fn lemma_expand_token_settled(t: Seq<char>, cluster: bool)
    requires
        !reopens(t, cluster),
    ensures
        all_settled(expand_token(t, cluster), cluster),
{
    lemma_expand_token_parts(t, cluster);
}

/// The value of a token that reopens is among what the token becomes.
pub proof fn lemma_reopening_value(t: Seq<char>, cluster: bool)
    requires
        reopens(t, cluster),
    ensures
        expand_token(t, cluster).contains(
            t.subrange(first_index(t, '=') + 1, t.len() as int),
        ),
{
    let out = expand_token(t, cluster);
    assert(out[out.len() - 1] == t.subrange(first_index(t, '=') + 1, t.len() as int));
}

/// The tokens that normalization gives are settled, unless a token reopens.
pub proof fn lemma_expand_tokens_settled(ts: Seq<Seq<char>>, cluster: bool)
    requires
        forall|i: int| 0 <= i < ts.len() ==> !reopens(#[trigger] ts[i], cluster),
    ensures
        all_settled(expand_tokens(ts, cluster), cluster),
    decreases ts.len(),
{
    if ts.len() > 0 {
        let front = ts.drop_last();
        assert forall|i: int| 0 <= i < front.len() implies !reopens(
            #[trigger] front[i],
            cluster,
        ) by {
            assert(front[i] == ts[i]);
        }
        lemma_expand_tokens_settled(front, cluster);
        assert(!reopens(ts[ts.len() - 1], cluster));
        lemma_expand_token_settled(ts.last(), cluster);
        let a = expand_tokens(front, cluster);
        let b = expand_token(ts.last(), cluster);
        assert forall|i: int| 0 <= i < (a + b).len() implies is_settled(
            #[trigger] (a + b)[i],
            cluster,
        ) by {
            if i < a.len() {
                assert((a + b)[i] == a[i]);
            } else {
                assert((a + b)[i] == b[i - a.len()]);
            }
        }
    }
}

/// Normalizing twice gives what normalizing once gives, for every sequence
/// of tokens none of which reopens.
pub proof fn lemma_normalize_idempotent(ts: Seq<Seq<char>>, cluster: bool)
    requires
        forall|i: int| 0 <= i < ts.len() ==> !reopens(#[trigger] ts[i], cluster),
    ensures
        expand_tokens(expand_tokens(ts, cluster), cluster) == expand_tokens(ts, cluster),
{
    lemma_expand_tokens_settled(ts, cluster);
    lemma_expand_settled(expand_tokens(ts, cluster), cluster);
}

/// What a token becomes is part of what the sequence it stands in becomes.
pub proof fn lemma_expand_holds_token(ts: Seq<Seq<char>>, i: int, cluster: bool)
    requires
        0 <= i < ts.len(),
    ensures
        forall|k: int|
            0 <= k < expand_token(ts[i], cluster).len() ==> expand_tokens(ts, cluster).contains(
                #[trigger] expand_token(ts[i], cluster)[k],
            ),
    decreases ts.len(),
{
    let front = expand_tokens(ts.drop_last(), cluster);
    let last = expand_token(ts.last(), cluster);
    let all = expand_tokens(ts, cluster);
    if i == ts.len() - 1 {
        assert forall|k: int| 0 <= k < last.len() implies all.contains(#[trigger] last[k]) by {
            assert(all[front.len() + k] == last[k]);
        }
    } else {
        lemma_expand_holds_token(ts.drop_last(), i, cluster);
        assert(ts.drop_last()[i] == ts[i]);
        let mine = expand_token(ts[i], cluster);
        assert forall|k: int| 0 <= k < mine.len() implies all.contains(#[trigger] mine[k]) by {
            assert(front.contains(mine[k]));
            let j = choose|j: int| 0 <= j < front.len() && front[j] == mine[k];
            assert(all[j] == mine[k]);
        }
    }
}

/// Each token that normalization gives is among what one of the tokens
/// becomes.
pub proof fn lemma_expand_comes_from_token(ts: Seq<Seq<char>>, j: int, cluster: bool) -> (i: int)
    requires
        0 <= j < expand_tokens(ts, cluster).len(),
    ensures
        0 <= i < ts.len(),
        expand_token(ts[i], cluster).contains(expand_tokens(ts, cluster)[j]),
    decreases ts.len(),
{
    let front = expand_tokens(ts.drop_last(), cluster);
    let last = expand_token(ts.last(), cluster);
    if j < front.len() {
        let i = lemma_expand_comes_from_token(ts.drop_last(), j, cluster);
        assert(ts.drop_last()[i] == ts[i]);
        i
    } else {
        assert(last[j - front.len()] == expand_tokens(ts, cluster)[j]);
        ts.len() - 1
    }
}

/// The length of the longest of the tokens.
pub open spec fn longest(ts: Seq<Seq<char>>) -> nat
    decreases ts.len(),
{
    if ts.len() == 0 {
        0
    } else if ts.last().len() > longest(ts.drop_last()) {
        ts.last().len()
    } else {
        longest(ts.drop_last())
    }
}

/// No token is longer than the longest.
pub proof fn lemma_longest(ts: Seq<Seq<char>>, i: int)
    requires
        0 <= i < ts.len(),
    ensures
        ts[i].len() <= longest(ts),
    decreases ts.len(),
{
    if i < ts.len() - 1 {
        lemma_longest(ts.drop_last(), i);
        assert(ts.drop_last()[i] == ts[i]);
    }
}

/// Normalization changes every sequence that holds a token that is not
/// settled.
pub proof fn lemma_unsettled_changes(ts: Seq<Seq<char>>, j: int, cluster: bool)
    requires
        0 <= j < ts.len(),
        !is_settled(ts[j], cluster),
    ensures
        expand_tokens(ts, cluster) != ts,
    decreases longest(ts) - ts[j].len(),
{
    lemma_longest(ts, j);
    if expand_tokens(ts, cluster) == ts {
        let i = lemma_expand_comes_from_token(ts, j, cluster);
        let parts = expand_token(ts[i], cluster);
        let k = choose|k: int| 0 <= k < parts.len() && parts[k] == ts[j];
        lemma_expand_token_parts(ts[i], cluster);
        assert(is_settled(parts[k], cluster) || parts[k].len() < ts[i].len());
        assert(!is_settled(ts[i], cluster)) by {
            if is_settled(ts[i], cluster) {
                assert(parts[0] == ts[i]);
            }
        }
        lemma_longest(ts, i);
        lemma_unsettled_changes(ts, i, cluster);
    }
}

/// Normalizing twice gives what normalizing once gives exactly for the
/// sequences of tokens none of which reopens.
pub proof fn lemma_normalize_idempotent_exactly(ts: Seq<Seq<char>>, cluster: bool)
    ensures
        expand_tokens(expand_tokens(ts, cluster), cluster) == expand_tokens(ts, cluster) <==> (
        forall|i: int| 0 <= i < ts.len() ==> !reopens(#[trigger] ts[i], cluster)),
{
    let once = expand_tokens(ts, cluster);
    if forall|i: int| 0 <= i < ts.len() ==> !reopens(#[trigger] ts[i], cluster) {
        lemma_normalize_idempotent(ts, cluster);
    } else {
        let i = choose|i: int| 0 <= i < ts.len() && reopens(#[trigger] ts[i], cluster);
        let t = ts[i];
        let value = t.subrange(first_index(t, '=') + 1, t.len() as int);
        lemma_reopening_value(t, cluster);
        let k = choose|k: int|
            0 <= k < expand_token(t, cluster).len() && expand_token(t, cluster)[k] == value;
        lemma_expand_holds_token(ts, i, cluster);
        assert(once.contains(expand_token(t, cluster)[k]));
        let j = choose|j: int| 0 <= j < once.len() && once[j] == value;
        lemma_unsettled_changes(once, j, cluster);
    }
}

/// Appends to `out` one short flag for each character of `s` from `from` up to `to`.
fn push_short_flags(out: &mut Vec<String>, s: &str, from: usize, to: usize)
    requires
        from <= to <= s@.len(),
    ensures
        texts(final(out)@) == texts(old(out)@) + short_flags(s@.subrange(from as int, to as int)),
{
    let mut j: usize = from;
    while j < to
        invariant
            from <= j <= to <= s@.len(),
            texts(out@) == texts(old(out)@) + short_flags(s@.subrange(from as int, j as int)),
        decreases to - j,
    {
        let flag = join_text("-", s.substring_char(j, j + 1));
        proof {
            reveal_strlit("-");
            assert(flag@ =~= seq!['-', s@[j as int]]);
        }
        let ghost before = out@;
        out.push(flag);
        proof {
            assert(texts(out@) =~= texts(before).push(flag@));
            assert(short_flags(s@.subrange(from as int, j + 1)) =~= short_flags(
                s@.subrange(from as int, j as int),
            ).push(flag@));
        }
        j += 1;
    }
}

/// Appends to `out` what the token `s` becomes.
fn push_expanded(out: &mut Vec<String>, s: &str, cluster: bool)
    ensures
        texts(final(out)@) == texts(old(out)@) + expand_token(s@, cluster),
{
    let n: usize = s.unicode_len();
    let dashed = n > 0 && s.get_char(0) == '-';
    let short_form = dashed && !(n > 1 && s.get_char(1) == '-');
    let cut = find_char(s, '=');
    let designator: usize = match cut {
        Some(p) => p,
        None => n,
    };
    let ghost before = out@;
    proof {
        lemma_first_index(s@, '=');
    }
    if cluster && short_form && designator > 2 {
        match cut {
            Some(p) => {
                push_short_flags(out, s, 1, p);
                let ghost mid = out@;
                let value = slice_text(s, p + 1, n);
                out.push(value);
                proof {
                    assert(texts(out@) =~= texts(mid).push(value@));
                }
            },
            None => {
                push_short_flags(out, s, 1, n);
            },
        }
    } else if dashed && cut.is_some() {
        let p: usize = cut.unwrap();
        let head = slice_text(s, 0, p);
        let value = slice_text(s, p + 1, n);
        out.push(head);
        out.push(value);
        proof {
            assert(texts(out@) =~= texts(before) + seq![head@, value@]);
        }
    } else {
        let whole = String::from_str(s);
        out.push(whole);
        proof {
            assert(texts(out@) =~= texts(before) + seq![s@]);
        }
    }
}

/// Brings raw arguments into canonical shape.
///
/// `--flag=value` and `-f=value` become two tokens, cut at the first `=`.
/// Clustering of short flags (`-abe` for `-a -b -e`) is off unless `cluster`
/// is set, since it forbids aliases of more than one character. A lone `-`
/// and a single short flag `-a` are no clusters and stay as they are.
pub fn normalize(raw_args: Vec<String>, cluster: bool) -> (out: Vec<String>)
    ensures
        texts(out@) == expand_tokens(texts(raw_args@), cluster),
{
    let mut out: Vec<String> = Vec::new();
    let mut i: usize = 0;
    assert(texts(raw_args@).take(0) =~= Seq::empty());
    assert(texts(out@) =~= Seq::empty());
    while i < raw_args.len()
        invariant
            0 <= i <= raw_args.len(),
            texts(out@) == expand_tokens(texts(raw_args@).take(i as int), cluster),
        decreases raw_args.len() - i,
    {
        push_expanded(&mut out, raw_args[i].as_str(), cluster);
        proof {
            let ts = texts(raw_args@);
            assert(ts.take(i + 1).drop_last() =~= ts.take(i as int));
            assert(ts.take(i + 1).last() == raw_args[i as int]@);
        }
        i += 1;
    }
    assert(texts(raw_args@).take(i as int) =~= texts(raw_args@));
    out
}

/// Canonical shape with clusters of short flags taken apart.
///
/// `--flag=value` becomes `--flag value`; `-abe` becomes `-a -b -e`;
/// `-abef=32` becomes `-a -b -e -f 32`. A lone `-` and a single short flag
/// `-a` stay as they are, and no token is ever lost.
pub fn normalized_args(raw_args: Vec<String>) -> (out: Vec<String>)
    ensures
        texts(out@) == expand_tokens(texts(raw_args@), true),
{
    normalize(raw_args, true)
}

} // verus!
