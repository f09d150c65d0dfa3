//! Tokenization of a logical command and resolution of its command token.
//!
//! A token is a maximal run of bytes between single ASCII spaces; consecutive
//! spaces yield empty tokens, which are kept.  Leading tokens that hold an
//! `=` byte look like environment-variable assignments and are skipped when
//! the command token is resolved; this is a documented heuristic, not a
//! parser of shell quoting.

use vstd::prelude::*;

use crate::decode::line_views;

verus! {

/// The space-separated tokens of a logical command.
pub open spec fn tokens(s: Seq<u8>) -> Seq<Seq<u8>>
    decreases s.len(),
{
    if s.len() == 0 {
        seq![Seq::<u8>::empty()]
    } else if s[0] == 32u8 {
        seq![Seq::<u8>::empty()] + tokens(s.skip(1))
    } else {
        seq![seq![s[0]] + tokens(s.skip(1))[0]] + tokens(s.skip(1)).skip(1)
    }
}

/// Splitting always yields at least one token.
pub proof fn lemma_tokens_nonempty(s: Seq<u8>)
    ensures
        tokens(s).len() >= 1,
    decreases s.len(),
{
    if s.len() == 0 {
    } else {
        lemma_tokens_nonempty(s.skip(1));
    }
}

/// If the first space of `s` stands at index `i`, the first token is what
/// precedes it and the rest are the tokens of what follows it.
pub proof fn lemma_tokens_split_at(s: Seq<u8>, i: int)
    requires
        0 <= i < s.len(),
        s[i] == 32u8,
        forall|j: int| 0 <= j < i ==> s[j] != 32u8,
    ensures
        tokens(s) == seq![s.take(i)] + tokens(s.skip(i + 1)),
    decreases i,
{
    lemma_tokens_nonempty(s.skip(1));
    if i == 0 {
        assert(s.take(0) =~= Seq::<u8>::empty());
        assert(s.skip(0int + 1) =~= s.skip(1));
    } else {
        assert(forall|j: int| 0 <= j < i - 1 ==> s.skip(1)[j] == s[j + 1]);
        lemma_tokens_split_at(s.skip(1), i - 1);
        assert(seq![s[0]] + s.skip(1).take(i - 1) =~= s.take(i));
        assert(s.skip(1).skip(i) =~= s.skip(i + 1));
        assert(tokens(s) =~= seq![s.take(i)] + tokens(s.skip(i + 1)));
    }
}

/// A command without a space is one single token.
pub proof fn lemma_tokens_whole(s: Seq<u8>)
    requires
        forall|j: int| 0 <= j < s.len() ==> s[j] != 32u8,
    ensures
        tokens(s) == seq![s],
    decreases s.len(),
{
    if s.len() == 0 {
        assert(s =~= Seq::<u8>::empty());
    } else {
        assert(forall|j: int| 0 <= j < s.skip(1).len() ==> s.skip(1)[j] == s[j + 1]);
        lemma_tokens_whole(s.skip(1));
        assert(seq![s[0]] + s.skip(1) =~= s);
        assert(tokens(s) =~= seq![s]);
    }
}

/// Whether a token consists of ASCII digit bytes only (vacuously true of an
/// empty token).
pub open spec fn all_digits(t: Seq<u8>) -> bool {
    forall|i: int| 0 <= i < t.len() ==> 48 <= #[trigger] t[i] <= 57
}

/// Whether a token holds an `=` byte: it looks like an environment-variable
/// assignment and is skipped when the command token is resolved.
pub open spec fn has_eq(t: Seq<u8>) -> bool {
    exists|i: int| 0 <= i < t.len() && t[i] == 61u8
}

/// The index of the first token that is no environment assignment, or the
/// token count when every token looks like one.
pub open spec fn resolved_ix(ts: Seq<Seq<u8>>) -> int
    decreases ts.len(),
{
    if ts.len() == 0 {
        0
    } else if !has_eq(ts[0]) {
        0
    } else {
        1 + resolved_ix(ts.skip(1))
    }
}

/// `resolved_ix` is the least index free of `=`, and lies in bounds.
pub proof fn lemma_resolved_ix_at(ts: Seq<Seq<u8>>, i: int)
    requires
        0 <= i <= ts.len(),
        forall|j: int| 0 <= j < i ==> has_eq(ts[j]),
        i < ts.len() ==> !has_eq(ts[i]),
    ensures
        resolved_ix(ts) == i,
    decreases i,
{
    if i == 0 {
    } else {
        assert(forall|j: int| 0 <= j < i - 1 ==> ts.skip(1)[j] == ts[j + 1]);
        lemma_resolved_ix_at(ts.skip(1), i - 1);
    }
}

/// The resolved command token of a logical command, if any token survives
/// the environment-assignment skipping.
pub open spec fn resolved_cmd(c: Seq<u8>) -> Option<Seq<u8>> {
    if resolved_ix(tokens(c)) < tokens(c).len() {
        Some(tokens(c)[resolved_ix(tokens(c))])
    } else {
        None
    }
}

/// The `k`-th token after the resolved command token, if present.
pub open spec fn arg_at(c: Seq<u8>, k: int) -> Option<Seq<u8>> {
    if resolved_ix(tokens(c)) + k < tokens(c).len() {
        Some(tokens(c)[resolved_ix(tokens(c)) + k])
    } else {
        None
    }
}

/// `resolved_ix` lies between zero and the token count.
pub proof fn lemma_resolved_ix_bounds(ts: Seq<Seq<u8>>)
    ensures
        0 <= resolved_ix(ts) <= ts.len(),
    decreases ts.len(),
{
    if ts.len() > 0 && has_eq(ts[0]) {
        lemma_resolved_ix_bounds(ts.skip(1));
    }
}

/// A leading environment-assignment token changes neither the resolved
/// command token nor the arguments after it.
pub proof fn lemma_env_prefix_skipped(t: Seq<u8>, rest: Seq<u8>)
    requires
        has_eq(t),
        forall|i: int| 0 <= i < t.len() ==> t[i] != 32u8,
    ensures
        resolved_cmd(t + seq![32u8] + rest) == resolved_cmd(rest),
        arg_at(t + seq![32u8] + rest, 1) == arg_at(rest, 1),
        arg_at(t + seq![32u8] + rest, 2) == arg_at(rest, 2),
{
    let s = t + seq![32u8] + rest;
    assert(s.len() == t.len() + 1 + rest.len());
    assert forall|j: int| 0 <= j < t.len() implies s[j] == t[j] by {
        assert(s[j] == (t + seq![32u8])[j]);
    }
    assert(s[t.len() as int] == (t + seq![32u8])[t.len() as int]);
    assert(s[t.len() as int] == 32u8);
    lemma_tokens_split_at(s, t.len() as int);
    assert(s.take(t.len() as int) =~= t);
    assert(s.skip(t.len() as int + 1) =~= rest);
    let ts = tokens(rest);
    assert(tokens(s) == seq![t] + ts);
    assert((seq![t] + ts)[0] == t);
    assert((seq![t] + ts).skip(1) =~= ts);
    assert(resolved_ix(tokens(s)) == 1 + resolved_ix(ts));
    lemma_resolved_ix_bounds(ts);
    let ix = resolved_ix(ts);
    assert(tokens(s).len() == 1 + ts.len());
    assert(ix < ts.len() ==> tokens(s)[1 + ix] == ts[ix]);
    assert(ix + 1 < ts.len() ==> tokens(s)[1 + ix + 1] == ts[ix + 1]);
    assert(ix + 2 < ts.len() ==> tokens(s)[1 + ix + 2] == ts[ix + 2]);
}

/// The view of an optional byte vector.
pub open spec fn opt_view(o: Option<Vec<u8>>) -> Option<Seq<u8>> {
    match o {
        Some(v) => Some(v@),
        None => None,
    }
}

/// Splits a logical command into its tokens.
pub fn split_tokens(s: &Vec<u8>) -> (r: Vec<Vec<u8>>)
    ensures
        line_views(r@) == tokens(s@),
{
    let mut r: Vec<Vec<u8>> = Vec::new();
    let mut cur: Vec<u8> = Vec::new();
    let mut i: usize = 0;
    let ghost mut start: int = 0;
    proof {
        assert(s@.skip(0) =~= s@);
        assert(line_views(r@) =~= Seq::<Seq<u8>>::empty());
        assert(line_views(r@) + tokens(s@) =~= tokens(s@));
    }
    while i < s.len()
        invariant
            0 <= start <= i <= s@.len(),
            cur@ == s@.subrange(start, i as int),
            forall|j: int| start <= j < i ==> s@[j] != 32u8,
            tokens(s@) == line_views(r@) + tokens(s@.skip(start)),
        decreases s@.len() - i,
    {
        let b = s[i];
        if b == 32u8 {
            proof {
                let suffix = s@.skip(start);
                assert(forall|j: int| 0 <= j < i - start ==> suffix[j] == s@[start + j]);
                lemma_tokens_split_at(suffix, i - start);
                assert(suffix.take(i - start) =~= cur@);
                assert(suffix.skip(i - start + 1) =~= s@.skip(i + 1));
            }
            r.push(cur);
            cur = Vec::new();
            i += 1;
            proof {
                start = i as int;
                assert(line_views(r@) =~= line_views(r@.drop_last()) + seq![r@.last()@]);
                assert(tokens(s@) =~= line_views(r@) + tokens(s@.skip(start)));
                assert(cur@ =~= s@.subrange(start, i as int));
            }
        } else {
            cur.push(b);
            i += 1;
            proof {
                assert(cur@ =~= s@.subrange(start, i as int));
            }
        }
    }
    proof {
        let suffix = s@.skip(start);
        assert(forall|j: int| 0 <= j < suffix.len() ==> suffix[j] == s@[start + j]);
        lemma_tokens_whole(suffix);
        assert(suffix =~= cur@);
    }
    r.push(cur);
    proof {
        assert(line_views(r@) =~= line_views(r@.drop_last()) + seq![r@.last()@]);
        assert(line_views(r@) =~= tokens(s@));
    }
    r
}

/// Whether a token holds an `=` byte.
fn has_eq_byte(t: &Vec<u8>) -> (r: bool)
    ensures
        r == has_eq(t@),
{
    let mut i: usize = 0;
    while i < t.len()
        invariant
            i <= t@.len(),
            forall|j: int| 0 <= j < i ==> t@[j] != 61u8,
        decreases t@.len() - i,
    {
        if t[i] == 61u8 {
            return true;
        }
        i += 1;
    }
    false
}

/// Finds the index of the resolved command token in a token list.
fn find_resolved(ts: &Vec<Vec<u8>>) -> (r: usize)
    ensures
        r as int == resolved_ix(line_views(ts@)),
        r <= ts@.len(),
{
    let mut j: usize = 0;
    while j < ts.len()
        invariant
            j <= ts@.len(),
            forall|j2: int| 0 <= j2 < j ==> has_eq(line_views(ts@)[j2]),
        decreases ts@.len() - j,
    {
        if !has_eq_byte(&ts[j]) {
            proof {
                lemma_resolved_ix_at(line_views(ts@), j as int);
            }
            return j;
        }
        j += 1;
    }
    proof {
        lemma_resolved_ix_at(line_views(ts@), ts@.len() as int);
    }
    j
}

/// Splits a logical command and hands back its resolved command token and
/// the two tokens that follow it, where present.
pub fn resolve_command(entry: &Vec<u8>) -> (r: (Option<Vec<u8>>, Option<Vec<u8>>, Option<Vec<u8>>))
    ensures
        opt_view(r.0) == resolved_cmd(entry@),
        opt_view(r.1) == arg_at(entry@, 1),
        opt_view(r.2) == arg_at(entry@, 2),
{
    let ts = split_tokens(entry);
    let ix = find_resolved(&ts);
    let cmd = if ix < ts.len() {
        Some(crate::bytes::copy_bytes(&ts[ix]))
    } else {
        None
    };
    let a1 = if ix < ts.len() && ts.len() - ix > 1 {
        Some(crate::bytes::copy_bytes(&ts[ix + 1]))
    } else {
        None
    };
    let a2 = if ix < ts.len() && ts.len() - ix > 2 {
        Some(crate::bytes::copy_bytes(&ts[ix + 2]))
    } else {
        None
    };
    (cmd, a1, a2)
}

} // verus!
