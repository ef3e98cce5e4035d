//! The path/walk converter: mutual re-encodings of the two traversal token
//! streams, coordinate synthesis from the segment-length index, and the
//! record-by-record rewriting of a whole file in either direction.

use crate::bytes::{
    all_dec_digits, dec_of_usize, dec_repr, dec_value, is_dec_digit, is_dec_digit_byte,
    replace_bytes, replace_spec, split_bytes, split_spec, views_of,
};
use crate::error::CmdError;
use crate::gfa::u8_slice_to_usize;
use vstd::prelude::*;

verus! {

/// One oriented traversal step: a direction (`true` is forward) and the
/// digits of the segment id it visits.
pub type TraversalToken = (bool, Seq<u8>);

/// Every token's id is made of decimal digits only.
pub open spec fn wf_tokens(ts: Seq<TraversalToken>) -> bool {
    forall|k: int| 0 <= k < ts.len() ==> all_dec_digits((#[trigger] ts[k]).1)
}

/// A token in the path encoding: the digits, then `+` or `-`.
pub open spec fn path_token(t: TraversalToken) -> Seq<u8> {
    t.1 + seq![
        if t.0 {
            43u8
        } else {
            45u8
        },
    ]
}

/// The path encoding of a token stream: tokens joined by commas.
pub open spec fn path_encode(ts: Seq<TraversalToken>) -> Seq<u8>
    decreases ts.len(),
{
    if ts.len() == 0 {
        Seq::<u8>::empty()
    } else if ts.len() == 1 {
        path_token(ts[0])
    } else {
        path_token(ts[0]) + seq![44u8] + path_encode(ts.drop_first())
    }
}

/// A token in the walk encoding: `>` or `<`, then the digits.
pub open spec fn walk_token(t: TraversalToken) -> Seq<u8> {
    seq![
        if t.0 {
            62u8
        } else {
            60u8
        },
    ] + t.1
}

/// The walk encoding of a token stream: tokens concatenated with no
/// separators.
pub open spec fn walk_encode(ts: Seq<TraversalToken>) -> Seq<u8>
    decreases ts.len(),
{
    if ts.len() == 0 {
        Seq::<u8>::empty()
    } else {
        walk_token(ts[0]) + walk_encode(ts.drop_first())
    }
}

/// What one comma-separated part becomes under the forward re-encoding: `>`
/// for a trailing `+`, `<` for anything else, each way dropping the last
/// byte.
pub open spec fn encode_part(p: Seq<u8>) -> Seq<u8>
    recommends
        p.len() >= 1,
{
    if p.last() == 43 {
        seq![62u8] + p.drop_last()
    } else {
        seq![60u8] + p.drop_last()
    }
}

/// The forward re-encoding applied to each part in turn.
pub open spec fn p2w_parts(parts: Seq<Seq<u8>>) -> Seq<u8>
    decreases parts.len(),
{
    if parts.len() == 0 {
        Seq::<u8>::empty()
    } else {
        encode_part(parts[0]) + p2w_parts(parts.drop_first())
    }
}

/// The forward re-encoding of a whole path unit: split on commas, re-encode
/// each part, concatenate with no separators.
pub open spec fn p2w_spec(s: Seq<u8>) -> Seq<u8> {
    p2w_parts(split_spec(s, 44))
}

/// No comma-separated part of `s` is empty.
pub open spec fn nonempty_parts(s: Seq<u8>, sep: u8) -> bool {
    forall|k: int|
        0 <= k < split_spec(s, sep).len() ==> (#[trigger] split_spec(s, sep)[k]).len() >= 1
}

/// Re-encodes a path unit (`id+,id-` tokens) as a walk unit (`>id<id` runs).
pub fn p2w(input: &[u8]) -> (r: Vec<u8>)
    requires
        nonempty_parts(input@, 44),
    ensures
        r@ == p2w_spec(input@),
{
    let parts = split_bytes(input, 44);
    let ghost pv = views_of(parts@);
    let mut out: Vec<u8> = Vec::new();
    let mut i: usize = 0;
    proof {
        assert(pv.skip(0) =~~= pv);
        assert(out@ + p2w_parts(pv) =~= p2w_parts(pv));
    }
    while i < parts.len()
        invariant
            0 <= i <= parts@.len(),
            pv == views_of(parts@),
            nonempty_parts(input@, 44),
            pv == split_spec(input@, 44),
            p2w_spec(input@) =~= out@ + p2w_parts(pv.skip(i as int)),
        decreases parts@.len() - i,
    {
        proof {
            assert(pv.skip(i as int)[0] == pv[i as int]);
            assert(pv.skip(i as int).drop_first() =~~= pv.skip(i as int + 1));
        }
        let part = &parts[i];
        let plen = part.len();
        assert(plen >= 1);
        let marker: u8 = if part[plen - 1] == 43 {
            62
        } else {
            60
        };
        let ghost base = out@;
        out.push(marker);
        let mut k: usize = 0;
        while k < plen - 1
            invariant
                0 <= k <= plen - 1,
                plen == part@.len() >= 1,
                out@ =~= base + seq![marker] + part@.take(k as int),
            decreases plen - 1 - k,
        {
            out.push(part[k]);
            proof {
                assert(part@.take(k as int + 1) =~= part@.take(k as int).push(part@[k as int]));
            }
            k = k + 1;
        }
        proof {
            assert(part@.take(plen - 1 as int) =~= part@.drop_last());
            assert(seq![marker] + part@.drop_last() =~= encode_part(pv[i as int]));
            assert(out@ =~= base + encode_part(pv[i as int]));
        }
        i = i + 1;
    }
    proof {
        assert(pv.skip(i as int) =~~= Seq::<Seq<u8>>::empty());
        assert(out@ + p2w_parts(Seq::<Seq<u8>>::empty()) =~= out@);
    }
    out
}

/// The first index at or after `i` that is not a decimal digit (or the end of
/// `s`).
pub open spec fn digit_run_end(s: Seq<u8>, i: int) -> int
    decreases s.len() - i,
{
    if i < 0 {
        0
    } else if i >= s.len() {
        s.len() as int
    } else if is_dec_digit(s[i]) {
        digit_run_end(s, i + 1)
    } else {
        i
    }
}

/// `digit_run_end` stays inside `s`, covers digits only, and stops at the
/// first non-digit.
pub proof fn lemma_digit_run_end_bounds(s: Seq<u8>, i: int)
    requires
        0 <= i <= s.len(),
    ensures
        i <= digit_run_end(s, i) <= s.len(),
        forall|k: int| i <= k < digit_run_end(s, i) ==> is_dec_digit(#[trigger] s[k]),
        digit_run_end(s, i) < s.len() ==> !is_dec_digit(s[digit_run_end(s, i)]),
    decreases s.len() - i,
{
    if i < s.len() && is_dec_digit(s[i]) {
        lemma_digit_run_end_bounds(s, i + 1);
    }
}

/// The digit run ending exactly at `j` determines `digit_run_end`.
pub proof fn lemma_digit_run_end_of(s: Seq<u8>, i: int, j: int)
    requires
        0 <= i <= j <= s.len(),
        forall|k: int| i <= k < j ==> is_dec_digit(#[trigger] s[k]),
        j < s.len() ==> !is_dec_digit(s[j]),
    ensures
        digit_run_end(s, i) == j,
    decreases j - i,
{
    if i < j {
        lemma_digit_run_end_of(s, i + 1, j);
    }
}

/// The reverse re-encoding of a whole walk unit: each token starts with one
/// byte, `>` giving the suffix `+` and any other byte `-`; the digit run
/// that follows is emitted, then the suffix, then a comma exactly when
/// another `>` or `<` marker follows.
pub open spec fn w2p_spec(s: Seq<u8>) -> Seq<u8>
    decreases s.len(),
    via w2p_spec_decreases
{
    if s.len() == 0 {
        Seq::<u8>::empty()
    } else {
        let suffix: u8 = if s[0] == 62 {
            43
        } else {
            45
        };
        let j = digit_run_end(s, 1);
        s.subrange(1, j) + seq![suffix] + (if j < s.len() && (s[j] == 62 || s[j] == 60) {
            seq![44u8]
        } else {
            Seq::<u8>::empty()
        }) + w2p_spec(s.skip(j))
    }
}

#[via_fn]
proof fn w2p_spec_decreases(s: Seq<u8>) {
    if s.len() > 0 {
        lemma_digit_run_end_bounds(s, 1);
    }
}

/// Re-encodes a walk unit (`>id<id` runs) as a path unit (`id+,id-` tokens).
pub fn w2p(input: &[u8]) -> (r: Vec<u8>)
    ensures
        r@ == w2p_spec(input@),
{
    let mut out: Vec<u8> = Vec::new();
    let mut i: usize = 0;
    proof {
        assert(input@.skip(0) =~= input@);
        assert(out@ + w2p_spec(input@) =~= w2p_spec(input@));
    }
    while i < input.len()
        invariant
            0 <= i <= input@.len(),
            w2p_spec(input@) =~= out@ + w2p_spec(input@.skip(i as int)),
        decreases input@.len() - i,
    {
        let ghost rem = input@.skip(i as int);
        let sign = input[i];
        let suffix: u8 = if sign == 62 {
            43
        } else {
            45
        };
        let ghost base = out@;
        let mut j: usize = i + 1;
        while j < input.len() && is_dec_digit_byte(input[j])
            invariant
                i + 1 <= j <= input@.len(),
                out@ =~= base + input@.subrange(i as int + 1, j as int),
                forall|k: int| i + 1 <= k < j ==> is_dec_digit(#[trigger] input@[k]),
            decreases input@.len() - j,
        {
            out.push(input[j]);
            proof {
                assert(input@.subrange(i as int + 1, j as int + 1) =~= input@.subrange(
                    i as int + 1,
                    j as int,
                ).push(input@[j as int]));
            }
            j = j + 1;
        }
        out.push(suffix);
        let has_comma = if j < input.len() {
            let b = input[j];
            b == 62 || b == 60
        } else {
            false
        };
        if has_comma {
            out.push(44);
        }
        proof {
            assert(rem[0] == input@[i as int]);
            lemma_digit_run_end_of(rem, 1, j - i);
            assert(rem.subrange(1, j - i) =~= input@.subrange(i as int + 1, j as int));
            assert(rem.skip(j - i) =~= input@.skip(j as int));
            if has_comma {
                assert(rem[j - i] == input@[j as int]);
                assert(out@ =~= base + (rem.subrange(1, j - i) + seq![suffix] + seq![44u8]));
                assert(w2p_spec(rem) == rem.subrange(1, j - i) + seq![suffix] + seq![44u8]
                    + w2p_spec(rem.skip(j - i)));
            } else {
                if j < input.len() {
                    assert(rem[j - i] == input@[j as int]);
                }
                assert(out@ =~= base + (rem.subrange(1, j - i) + seq![suffix]));
                assert(w2p_spec(rem) == rem.subrange(1, j - i) + seq![suffix] + Seq::<u8>::empty()
                    + w2p_spec(rem.skip(j - i)));
                assert(rem.subrange(1, j - i) + seq![suffix] + Seq::<u8>::empty() =~= rem.subrange(
                    1,
                    j - i,
                ) + seq![suffix]);
            }
            assert(w2p_spec(input@) =~= out@ + w2p_spec(input@.skip(j as int)));
        }
        i = j;
    }
    proof {
        assert(input@.skip(i as int) =~= Seq::<u8>::empty());
        assert(out@ + w2p_spec(Seq::<u8>::empty()) =~= out@);
    }
    out
}

/// A byte string free of `sep` splits into itself alone.
proof fn lemma_split_single(a: Seq<u8>, sep: u8)
    requires
        forall|k: int| 0 <= k < a.len() ==> a[k] != sep,
    ensures
        split_spec(a, sep) == seq![a],
    decreases a.len(),
{
    if a.len() == 0 {
        assert(split_spec(a, sep) =~~= seq![a]);
    } else {
        lemma_split_single(a.drop_first(), sep);
        assert(split_spec(a, sep) =~~= seq![seq![a[0]] + a.drop_first()]);
        assert(seq![a[0]] + a.drop_first() =~= a);
        assert(split_spec(a, sep) =~~= seq![a]);
    }
}

/// Splitting starts over after a separator that follows a separator-free
/// prefix.
proof fn lemma_split_concat(a: Seq<u8>, b: Seq<u8>, sep: u8)
    requires
        forall|k: int| 0 <= k < a.len() ==> a[k] != sep,
    ensures
        split_spec(a + seq![sep] + b, sep) == seq![a] + split_spec(b, sep),
    decreases a.len(),
{
    let s = a + seq![sep] + b;
    if a.len() == 0 {
        assert(s[0] == sep);
        assert(s.drop_first() =~= b);
        assert(split_spec(s, sep) =~~= seq![a] + split_spec(b, sep));
    } else {
        lemma_split_concat(a.drop_first(), b, sep);
        crate::bytes::lemma_split_spec_len(b, sep);
        assert(s[0] == a[0]);
        assert(s[0] != sep);
        assert(s.drop_first() =~= a.drop_first() + seq![sep] + b);
        let r = split_spec(s.drop_first(), sep);
        assert(r == seq![a.drop_first()] + split_spec(b, sep));
        assert(r[0] == a.drop_first());
        assert(seq![a[0]] + r[0] =~= a);
        assert(r.skip(1) =~~= split_spec(b, sep));
        assert(split_spec(s, sep) =~~= seq![a] + split_spec(b, sep));
    }
}

/// An all-digit token holds no comma and no orientation suffix.
proof fn lemma_digits_have_no_sep(d: Seq<u8>)
    requires
        all_dec_digits(d),
    ensures
        forall|k: int| 0 <= k < d.len() ==> d[k] != 44,
        forall|k: int| 0 <= k < path_token((true, d)).len() ==> path_token((true, d))[k] != 44,
        forall|k: int| 0 <= k < path_token((false, d)).len() ==> path_token((false, d))[k] != 44,
{
    assert forall|k: int| 0 <= k < d.len() implies d[k] != 44 by {
        assert(is_dec_digit(d[k]));
    }
    assert forall|k: int|
        0 <= k < path_token((true, d)).len() implies path_token((true, d))[k] != 44 by {
        if k < d.len() {
            assert(is_dec_digit(d[k]));
        }
    }
    assert forall|k: int|
        0 <= k < path_token((false, d)).len() implies path_token((false, d))[k] != 44 by {
        if k < d.len() {
            assert(is_dec_digit(d[k]));
        }
    }
}

/// Forward direction of the round trip: the path encoding of any nonempty
/// token stream re-encodes to exactly its walk encoding.
pub proof fn lemma_p2w_of_path_encode(ts: Seq<TraversalToken>)
    requires
        wf_tokens(ts),
        ts.len() >= 1,
    ensures
        p2w_spec(path_encode(ts)) == walk_encode(ts),
    decreases ts.len(),
{
    let t = ts[0];
    let ptok = path_token(t);
    lemma_digits_have_no_sep(t.1);
    assert(forall|k: int| 0 <= k < ptok.len() ==> ptok[k] != 44);
    if ts.len() == 1 {
        lemma_split_single(ptok, 44);
        assert(p2w_parts(seq![ptok]) =~= encode_part(ptok) + p2w_parts(
            Seq::<Seq<u8>>::empty(),
        )) by {
            assert(seq![ptok].drop_first() =~~= Seq::<Seq<u8>>::empty());
        }
        assert(ptok.drop_last() =~= t.1);
        assert(encode_part(ptok) =~= walk_token(t));
        assert(walk_encode(ts) =~= walk_token(t)) by {
            assert(walk_encode(ts.drop_first()) =~= Seq::<u8>::empty());
        }
        assert(p2w_spec(path_encode(ts)) =~= walk_encode(ts));
    } else {
        let rest = ts.drop_first();
        lemma_p2w_of_path_encode(rest);
        lemma_split_concat(ptok, path_encode(rest), 44);
        let parts = split_spec(path_encode(ts), 44);
        assert(parts == seq![ptok] + split_spec(path_encode(rest), 44));
        crate::bytes::lemma_split_spec_len(path_encode(rest), 44);
        assert(parts[0] == ptok);
        assert(parts.drop_first() =~~= split_spec(path_encode(rest), 44));
        assert(p2w_parts(parts) == encode_part(ptok) + p2w_parts(
            split_spec(path_encode(rest), 44),
        ));
        assert(ptok.drop_last() =~= t.1);
        assert(encode_part(ptok) =~= walk_token(t));
        assert(p2w_spec(path_encode(ts)) =~= walk_token(t) + walk_encode(rest));
        assert(p2w_spec(path_encode(ts)) =~= walk_encode(ts));
    }
}

/// Reverse direction of the round trip: the walk encoding of any token
/// stream re-encodes to exactly its path encoding.
pub proof fn lemma_w2p_of_walk_encode(ts: Seq<TraversalToken>)
    requires
        wf_tokens(ts),
    ensures
        w2p_spec(walk_encode(ts)) == path_encode(ts),
    decreases ts.len(),
{
    if ts.len() == 0 {
        assert(walk_encode(ts) =~= Seq::<u8>::empty());
        assert(w2p_spec(walk_encode(ts)) =~= path_encode(ts));
    } else {
        let t = ts[0];
        let rest = ts.drop_first();
        lemma_w2p_of_walk_encode(rest);
        let s = walk_encode(ts);
        let d = t.1;
        let j = 1 + d.len() as int;
        assert(s == walk_token(t) + walk_encode(rest));
        assert(s.len() == 1 + d.len() + walk_encode(rest).len()) by {
            assert(walk_token(t).len() == 1 + d.len());
        }
        assert(forall|k: int| 1 <= k < j ==> s[k] == d[k - 1] && is_dec_digit(#[trigger] s[k]));
        if rest.len() == 0 {
            assert(walk_encode(rest).len() == 0);
            assert(j == s.len());
            lemma_digit_run_end_of(s, 1, j);
            assert(s.subrange(1, j) =~= d);
            assert(s.skip(j) =~= Seq::<u8>::empty());
            assert(w2p_spec(s) == s.subrange(1, j) + seq![
                if s[0] == 62 {
                    43u8
                } else {
                    45u8
                },
            ] + Seq::<u8>::empty() + w2p_spec(Seq::<u8>::empty()));
            assert(s[0] == walk_token(t)[0]);
            assert(w2p_spec(s) =~= path_token(t));
            assert(path_encode(ts) == path_token(t));
        } else {
            let wrest = walk_encode(rest);
            assert(wrest == walk_token(rest[0]) + walk_encode(rest.drop_first()));
            assert(wrest[0] == walk_token(rest[0])[0]);
            assert(wrest[0] == 62 || wrest[0] == 60);
            assert(j < s.len());
            assert(s[j] == wrest[0]);
            assert(!is_dec_digit(s[j]));
            lemma_digit_run_end_of(s, 1, j);
            assert(s.subrange(1, j) =~= d);
            assert(s.skip(j) =~= wrest);
            assert(w2p_spec(s) == s.subrange(1, j) + seq![
                if s[0] == 62 {
                    43u8
                } else {
                    45u8
                },
            ] + seq![44u8] + w2p_spec(wrest));
            assert(s[0] == walk_token(t)[0]);
            assert(w2p_spec(s) =~= path_token(t) + seq![44u8] + path_encode(rest));
            assert(path_encode(ts) == path_token(t) + seq![44u8] + path_encode(rest));
        }
    }
}

/// Round trip, starting from the path grammar: re-encoding a nonempty
/// comma-separated `id+`/`id-` stream to the walk form and back returns the
/// original bytes.
pub proof fn lemma_w2p_p2w_round_trip(ts: Seq<TraversalToken>)
    requires
        wf_tokens(ts),
        ts.len() >= 1,
    ensures
        w2p_spec(p2w_spec(path_encode(ts))) == path_encode(ts),
{
    lemma_p2w_of_path_encode(ts);
    lemma_w2p_of_walk_encode(ts);
}

/// Round trip, starting from the walk grammar: re-encoding a `>`/`<`-prefixed
/// digit-run stream to the path form and back returns the original bytes.
pub proof fn lemma_p2w_w2p_round_trip(ts: Seq<TraversalToken>)
    requires
        wf_tokens(ts),
        ts.len() >= 1,
    ensures
        p2w_spec(w2p_spec(walk_encode(ts))) == walk_encode(ts),
{
    lemma_w2p_of_walk_encode(ts);
    lemma_p2w_of_path_encode(ts);
}

/// The version token `Z:1.0` of the path-based format.
pub open spec fn v10_pat() -> Seq<u8> {
    seq![90u8, 58u8, 49u8, 46u8, 48u8]
}

/// The version token `Z:1.1` of the walk-based format.
pub open spec fn v11_pat() -> Seq<u8> {
    seq![90u8, 58u8, 49u8, 46u8, 49u8]
}

fn v10_vec() -> (r: Vec<u8>)
    ensures
        r@ == v10_pat(),
{
    let mut v: Vec<u8> = Vec::new();
    v.push(90);
    v.push(58);
    v.push(49);
    v.push(46);
    v.push(48);
    proof {
        assert(v@ =~= v10_pat());
    }
    v
}

fn v11_vec() -> (r: Vec<u8>)
    ensures
        r@ == v11_pat(),
{
    let mut v: Vec<u8> = Vec::new();
    v.push(90);
    v.push(58);
    v.push(49);
    v.push(46);
    v.push(49);
    proof {
        assert(v@ =~= v11_pat());
    }
    v
}

/// What an `S` line contributes to the segment-length index: its id field
/// mapped to the byte length of its sequence field.
pub open spec fn seg_len_entry_spec(line: Seq<u8>) -> Result<(usize, usize), CmdError> {
    let parts = split_spec(line, 9);
    if parts.len() < 2 {
        Err(CmdError::EmptyLine)
    } else if !(all_dec_digits(parts[1]) && dec_value(parts[1]) <= usize::MAX) {
        Err(CmdError::ParseError)
    } else if parts.len() < 3 {
        Err(CmdError::EmptyLine)
    } else {
        Ok((dec_value(parts[1]) as usize, parts[2].len() as usize))
    }
}

/// Records one `S` line's id and sequence length in the segment-length
/// index; on failure the index is unchanged.
pub fn handle_s_line(
    line: &[u8],
    all_segment: &mut std::collections::HashMap<usize, usize>,
) -> (r: Result<(), CmdError>)
    ensures
        r matches Ok(u) ==> seg_len_entry_spec(line@) matches Ok(en) && final(all_segment)@ == old(
            all_segment,
        )@.insert(en.0, en.1),
        r matches Err(e) ==> seg_len_entry_spec(line@) == Err::<(usize, usize), CmdError>(e)
            && final(all_segment)@ == old(all_segment)@,
{
    broadcast use vstd::std_specs::hash::group_hash_axioms;

    let parts = split_bytes(line, 9);
    if parts.len() < 2 {
        return Err(CmdError::EmptyLine);
    }
    let key = match u8_slice_to_usize(parts[1].as_slice()) {
        Ok(n) => n,
        Err(e) => {
            return Err(e);
        },
    };
    if parts.len() < 3 {
        return Err(CmdError::EmptyLine);
    }
    let value = parts[2].len();
    all_segment.insert(key, value);
    Ok(())
}

/// What a `W` line becomes under the reverse conversion: a `P` line whose
/// combined first field is rebuilt as `sample#haptype#chrom:start-end` and
/// whose traversal field is re-encoded; the line must have all seven fields.
pub open spec fn convert_w_line_spec(line: Seq<u8>) -> Result<Seq<u8>, CmdError> {
    let parts = split_spec(line, 9);
    if parts.len() < 7 {
        Err(CmdError::ParseError)
    } else {
        Ok(
            seq![80u8, 9u8] + parts[1] + seq![35u8] + parts[2] + seq![35u8] + parts[3] + seq![58u8]
                + parts[4] + seq![45u8] + parts[5] + seq![9u8] + w2p_spec(parts[6]),
        )
    }
}

/// Rewrites one `W` line as a `P` line.
pub fn convert_w_line(line: &[u8]) -> (r: Result<Vec<u8>, CmdError>)
    ensures
        r matches Ok(v) ==> convert_w_line_spec(line@) == Ok::<Seq<u8>, CmdError>(v@),
        r matches Err(e) ==> convert_w_line_spec(line@) == Err::<Seq<u8>, CmdError>(e),
{
    let parts = split_bytes(line, 9);
    if parts.len() < 7 {
        return Err(CmdError::ParseError);
    }
    let mut out: Vec<u8> = Vec::new();
    out.push(80);
    out.push(9);
    crate::bytes::append_bytes(&mut out, parts[1].as_slice());
    out.push(35);
    crate::bytes::append_bytes(&mut out, parts[2].as_slice());
    out.push(35);
    crate::bytes::append_bytes(&mut out, parts[3].as_slice());
    out.push(58);
    crate::bytes::append_bytes(&mut out, parts[4].as_slice());
    out.push(45);
    crate::bytes::append_bytes(&mut out, parts[5].as_slice());
    out.push(9);
    let tail = w2p(parts[6].as_slice());
    crate::bytes::append_bytes(&mut out, tail.as_slice());
    proof {
        let pv = views_of(parts@);
        assert(out@ =~= seq![80u8, 9u8] + pv[1] + seq![35u8] + pv[2] + seq![35u8] + pv[3] + seq![
            58u8,
        ] + pv[4] + seq![45u8] + pv[5] + seq![9u8] + w2p_spec(pv[6]));
    }
    Ok(out)
}

/// A valid path-encoding token: at least one byte, a `+` or `-` suffix, and
/// digits before it.
pub open spec fn is_path_token_bytes(t: Seq<u8>) -> bool {
    t.len() >= 1 && (t.last() == 43 || t.last() == 45) && all_dec_digits(t.drop_last())
}

/// Every comma-separated part of `s` is a valid path token.
pub open spec fn wf_path_unit(s: Seq<u8>) -> bool {
    forall|k: int|
        0 <= k < split_spec(s, 44).len() ==> is_path_token_bytes(#[trigger] split_spec(s, 44)[k])
}

/// The segment ids a path unit traverses, in order.
pub open spec fn token_ids(s: Seq<u8>) -> Seq<nat> {
    split_spec(s, 44).map_values(|p: Seq<u8>| dec_value(p.drop_last()))
}

/// Every id fits in `usize`.
pub open spec fn ids_fit(ids: Seq<nat>) -> bool {
    forall|k: int| 0 <= k < ids.len() ==> #[trigger] ids[k] <= usize::MAX
}

/// Addition saturating at `usize::MAX`.
pub open spec fn sat_add(a: nat, b: nat) -> nat {
    if a + b > usize::MAX {
        usize::MAX as nat
    } else {
        a + b
    }
}

/// The length the index `m` records for the segment `id`; a segment the
/// index does not know contributes nothing.
pub open spec fn seg_len_of(m: Map<usize, usize>, id: nat) -> nat {
    if id <= usize::MAX && m.contains_key(id as usize) {
        m[id as usize] as nat
    } else {
        0
    }
}

/// The sum of the recorded lengths of `ids`, accumulated left to right and
/// saturating at `usize::MAX`.
pub open spec fn sum_lens_sat(ids: Seq<nat>, m: Map<usize, usize>) -> nat
    decreases ids.len(),
{
    if ids.len() == 0 {
        0
    } else {
        sat_add(sum_lens_sat(ids.drop_last(), m), seg_len_of(m, ids.last()))
    }
}

/// The `W` line with the given fields, coordinates rendered in base 10.
pub open spec fn w_line_spec(
    sample: Seq<u8>,
    haptype: Seq<u8>,
    chrom: Seq<u8>,
    start: nat,
    end: nat,
    unit: Seq<u8>,
) -> Seq<u8> {
    seq![87u8, 9u8] + sample + seq![9u8] + haptype + seq![9u8] + chrom + seq![9u8] + dec_repr(start)
        + seq![9u8] + dec_repr(end) + seq![9u8] + unit
}

/// What a `P` line becomes under the forward conversion: the combined first
/// field is taken apart, the traversal is re-encoded, and a missing or zero
/// end coordinate is synthesized as the summed index lengths of every
/// traversed segment after the first.
pub open spec fn convert_p_line_spec(line: Seq<u8>, m: Map<usize, usize>) -> Result<
    Seq<u8>,
    CmdError,
> {
    let parts = split_spec(line, 9);
    if parts.len() < 3 {
        Err(CmdError::ParseError)
    } else {
        let tem = split_spec(parts[1], 35);
        if tem.len() < 3 {
            Err(CmdError::ParseError)
        } else {
            let cps = split_spec(tem[2], 58);
            let unit = parts[2];
            if !(wf_path_unit(unit) && ids_fit(token_ids(unit))) {
                Err(CmdError::ParseError)
            } else if cps.len() > 1 {
                let rps = split_spec(cps[1], 45);
                if rps.len() < 2 {
                    Err(CmdError::ParseError)
                } else if !(all_dec_digits(rps[0]) && dec_value(rps[0]) <= usize::MAX
                    && all_dec_digits(rps[1]) && dec_value(rps[1]) <= usize::MAX) {
                    Err(CmdError::ParseError)
                } else {
                    let start = dec_value(rps[0]);
                    let end0 = dec_value(rps[1]);
                    let end = if end0 == 0 {
                        sum_lens_sat(token_ids(unit).drop_first(), m)
                    } else {
                        end0
                    };
                    Ok(w_line_spec(tem[0], tem[1], cps[0], start, end, p2w_spec(unit)))
                }
            } else {
                Ok(
                    w_line_spec(
                        tem[0],
                        tem[1],
                        cps[0],
                        0,
                        sum_lens_sat(token_ids(unit).drop_first(), m),
                        p2w_spec(unit),
                    ),
                )
            }
        }
    }
}

/// Rewrites one `P` line as a `W` line against the segment-length index `m`.
pub fn convert_p_line(
    line: &[u8],
    all_segment: &std::collections::HashMap<usize, usize>,
) -> (r: Result<Vec<u8>, CmdError>)
    ensures
        r matches Ok(v) ==> convert_p_line_spec(line@, all_segment@) == Ok::<Seq<u8>, CmdError>(
            v@,
        ),
        r matches Err(e) ==> convert_p_line_spec(line@, all_segment@) == Err::<Seq<u8>, CmdError>(
            e,
        ),
{
    broadcast use vstd::std_specs::hash::group_hash_axioms;

    let parts = split_bytes(line, 9);
    if parts.len() < 3 {
        return Err(CmdError::ParseError);
    }
    let tem = split_bytes(parts[1].as_slice(), 35);
    if tem.len() < 3 {
        return Err(CmdError::ParseError);
    }
    let cps = split_bytes(tem[2].as_slice(), 58);
    let unit = &parts[2];
    let ghost uv = unit@;
    let ghost pv = views_of(parts@);
    let ghost temv = views_of(tem@);
    let ghost tids = token_ids(uv);
    let toks = split_bytes(unit.as_slice(), 44);
    let ghost tv = views_of(toks@);
    let mut ids: Vec<usize> = Vec::new();
    let mut k: usize = 0;
    while k < toks.len()
        invariant
            0 <= k <= toks@.len(),
            pv == split_spec(line@, 9),
            pv.len() >= 3,
            temv == split_spec(pv[1], 35),
            temv.len() >= 3,
            uv == pv[2],
            tv == views_of(toks@),
            tv == split_spec(uv, 44),
            tids == token_ids(uv),
            ids@.len() == k,
            forall|j: int| 0 <= j < k ==> is_path_token_bytes(#[trigger] tv[j]),
            forall|j: int| 0 <= j < k ==> (#[trigger] ids@[j]) as nat == tids[j],
        decreases toks@.len() - k,
    {
        let t = &toks[k];
        if t.len() < 1 {
            proof {
                assert(!is_path_token_bytes(tv[k as int]));
                assert(!wf_path_unit(uv));
            }
            return Err(CmdError::ParseError);
        }
        let lastb = t[t.len() - 1];
        proof {
            assert(lastb == tv[k as int].last());
        }
        if !(lastb == 43 || lastb == 45) {
            proof {
                assert(!is_path_token_bytes(tv[k as int]));
                assert(!wf_path_unit(uv));
            }
            return Err(CmdError::ParseError);
        }
        let idslice = vstd::slice::slice_subrange(t.as_slice(), 0, t.len() - 1);
        proof {
            assert(idslice@ =~= tv[k as int].drop_last());
        }
        match u8_slice_to_usize(idslice) {
            Ok(n) => {
                ids.push(n);
                proof {
                    assert(tids[k as int] == dec_value(tv[k as int].drop_last()));
                }
            },
            Err(_) => {
                proof {
                    assert(tids[k as int] == dec_value(tv[k as int].drop_last()));
                    if all_dec_digits(tv[k as int].drop_last()) {
                        assert(tids[k as int] > usize::MAX);
                        assert(!ids_fit(tids));
                    } else {
                        assert(!is_path_token_bytes(tv[k as int]));
                        assert(!wf_path_unit(uv));
                    }
                }
                return Err(CmdError::ParseError);
            },
        }
        k = k + 1;
    }
    proof {
        assert(wf_path_unit(uv));
        assert(ids_fit(tids)) by {
            assert(forall|j: int|
                0 <= j < tids.len() ==> (#[trigger] tids[j]) == ids@[j] as nat);
        }
    }
    let (start, end0): (usize, usize) = if cps.len() > 1 {
        let rps = split_bytes(cps[1].as_slice(), 45);
        if rps.len() < 2 {
            return Err(CmdError::ParseError);
        }
        let s = match u8_slice_to_usize(rps[0].as_slice()) {
            Ok(n) => n,
            Err(e) => {
                return Err(e);
            },
        };
        let e = match u8_slice_to_usize(rps[1].as_slice()) {
            Ok(n) => n,
            Err(e) => {
                return Err(e);
            },
        };
        (s, e)
    } else {
        (0, 0)
    };
    let end: usize = if end0 == 0 {
        let mut sum: usize = 0;
        let mut q: usize = 1;
        proof {
            assert(tids.subrange(1, 1) =~= Seq::<nat>::empty());
            assert(tids.len() == ids@.len() >= 1);
        }
        while q < ids.len()
            invariant
                1 <= q <= ids@.len(),
                ids@.len() == tids.len(),
                forall|j: int| 0 <= j < ids@.len() ==> (#[trigger] ids@[j]) as nat == tids[j],
                sum as nat == sum_lens_sat(tids.subrange(1, q as int), all_segment@),
                vstd::std_specs::hash::obeys_key_model::<usize>(),
                vstd::std_specs::hash::builds_valid_hashers::<std::hash::RandomState>(),
            decreases ids@.len() - q,
        {
            let id = ids[q];
            let add: usize = match all_segment.get(&id) {
                Some(l) => *l,
                None => 0,
            };
            proof {
                assert(add as nat == seg_len_of(all_segment@, tids[q as int]));
                assert(tids.subrange(1, q as int + 1).drop_last() =~= tids.subrange(1, q as int));
                assert(tids.subrange(1, q as int + 1).last() == tids[q as int]);
            }
            if sum > usize::MAX - add {
                sum = usize::MAX;
            } else {
                sum = sum + add;
            }
            q = q + 1;
        }
        proof {
            assert(tids.subrange(1, q as int) =~= tids.drop_first());
        }
        sum
    } else {
        end0
    };
    proof {
        assert(nonempty_parts(uv, 44));
    }
    let unit2 = p2w(unit.as_slice());
    let mut out: Vec<u8> = Vec::new();
    out.push(87);
    out.push(9);
    crate::bytes::append_bytes(&mut out, tem[0].as_slice());
    out.push(9);
    crate::bytes::append_bytes(&mut out, tem[1].as_slice());
    out.push(9);
    crate::bytes::append_bytes(&mut out, cps[0].as_slice());
    out.push(9);
    let sv = dec_of_usize(start);
    crate::bytes::append_bytes(&mut out, sv.as_slice());
    out.push(9);
    let ev = dec_of_usize(end);
    crate::bytes::append_bytes(&mut out, ev.as_slice());
    out.push(9);
    crate::bytes::append_bytes(&mut out, unit2.as_slice());
    proof {
        let pv = views_of(parts@);
        let temv = views_of(tem@);
        let cpsv = views_of(cps@);
        assert(out@ =~= w_line_spec(
            temv[0],
            temv[1],
            cpsv[0],
            start as nat,
            end as nat,
            p2w_spec(uv),
        ));
    }
    Ok(out)
}

/// The segment-length index a first pass reads off a whole file: every line
/// whose first byte is `S` contributes its entry, and the first malformed
/// `S` line aborts.
pub open spec fn seg_map_fold(lines: Seq<Seq<u8>>) -> Result<Map<usize, usize>, CmdError>
    decreases lines.len(),
{
    if lines.len() == 0 {
        Ok(Map::<usize, usize>::empty())
    } else {
        match seg_map_fold(lines.drop_last()) {
            Err(e) => Err(e),
            Ok(m) => {
                let l = lines.last();
                if l.len() >= 1 && l[0] == 83 {
                    match seg_len_entry_spec(l) {
                        Err(e) => Err(e),
                        Ok(en) => Ok(m.insert(en.0, en.1)),
                    }
                } else {
                    Ok(m)
                }
            },
        }
    }
}

/// A failing prefix decides the whole first pass.
proof fn lemma_seg_map_fold_prefix_err(lines: Seq<Seq<u8>>, i: int)
    requires
        0 <= i <= lines.len(),
        seg_map_fold(lines.take(i)) is Err,
    ensures
        seg_map_fold(lines) == seg_map_fold(lines.take(i)),
    decreases lines.len() - i,
{
    if i < lines.len() {
        assert(lines.take(i + 1).drop_last() =~~= lines.take(i));
        lemma_seg_map_fold_prefix_err(lines, i + 1);
    } else {
        assert(lines.take(i) =~~= lines);
    }
}

/// What one line becomes under the forward conversion: a line led by `H` has
/// its version token substituted, a line led by `P` is rewritten as a `W`
/// line, and every other line passes through unchanged.
pub open spec fn convert_line_1_1_spec(line: Seq<u8>, m: Map<usize, usize>) -> Result<
    Seq<u8>,
    CmdError,
> {
    if line.len() >= 1 && line[0] == 72 {
        Ok(replace_spec(line, v10_pat(), v11_pat()))
    } else if line.len() >= 1 && line[0] == 80 {
        convert_p_line_spec(line, m)
    } else {
        Ok(line)
    }
}

/// The forward conversion applied to each line in turn; the first failure
/// aborts.
pub open spec fn conv_1_1_fold(lines: Seq<Seq<u8>>, m: Map<usize, usize>) -> Result<
    Seq<Seq<u8>>,
    CmdError,
>
    decreases lines.len(),
{
    if lines.len() == 0 {
        Ok(Seq::<Seq<u8>>::empty())
    } else {
        match conv_1_1_fold(lines.drop_last(), m) {
            Err(e) => Err(e),
            Ok(out) => match convert_line_1_1_spec(lines.last(), m) {
                Err(e) => Err(e),
                Ok(v) => Ok(out.push(v)),
            },
        }
    }
}

/// A failing prefix decides the whole forward rewrite pass.
proof fn lemma_conv_1_1_fold_prefix_err(lines: Seq<Seq<u8>>, m: Map<usize, usize>, i: int)
    requires
        0 <= i <= lines.len(),
        conv_1_1_fold(lines.take(i), m) is Err,
    ensures
        conv_1_1_fold(lines, m) == conv_1_1_fold(lines.take(i), m),
    decreases lines.len() - i,
{
    if i < lines.len() {
        assert(lines.take(i + 1).drop_last() =~~= lines.take(i));
        lemma_conv_1_1_fold_prefix_err(lines, m, i + 1);
    } else {
        assert(lines.take(i) =~~= lines);
    }
}

/// What the forward conversion makes of a whole file: the segment-length
/// index is read off every `S` line first, then each line is rewritten
/// against it.
pub open spec fn convert_file_1_1_spec(lines: Seq<Seq<u8>>) -> Result<Seq<Seq<u8>>, CmdError> {
    match seg_map_fold(lines) {
        Err(e) => Err(e),
        Ok(m) => conv_1_1_fold(lines, m),
    }
}

/// Rewrites a whole file from the path-based to the walk-based form: every
/// `P` line becomes a `W` line, the header's version token is substituted,
/// and all other lines pass through. The segment-length index is built from
/// all `S` lines before any `P` line is rewritten.
pub fn convert_lines_1_1(lines: &Vec<Vec<u8>>) -> (r: Result<Vec<Vec<u8>>, CmdError>)
    ensures
        r matches Ok(out) ==> convert_file_1_1_spec(views_of(lines@)) == Ok::<
            Seq<Seq<u8>>,
            CmdError,
        >(views_of(out@)),
        r matches Err(e) ==> convert_file_1_1_spec(views_of(lines@)) == Err::<
            Seq<Seq<u8>>,
            CmdError,
        >(e),
{
    broadcast use vstd::std_specs::hash::group_hash_axioms;

    let ghost lv = views_of(lines@);
    let mut all_segment: std::collections::HashMap<usize, usize> =
        std::collections::HashMap::new();
    let mut i: usize = 0;
    proof {
        assert(lv.take(0) =~~= Seq::<Seq<u8>>::empty());
    }
    while i < lines.len()
        invariant
            0 <= i <= lines@.len(),
            lv == views_of(lines@),
            seg_map_fold(lv.take(i as int)) == Ok::<Map<usize, usize>, CmdError>(all_segment@),
            vstd::std_specs::hash::obeys_key_model::<usize>(),
            vstd::std_specs::hash::builds_valid_hashers::<std::hash::RandomState>(),
        decreases lines@.len() - i,
    {
        let l = &lines[i];
        proof {
            assert(lv.take(i as int + 1).drop_last() =~~= lv.take(i as int));
            assert(lv.take(i as int + 1).last() == lv[i as int]);
            assert(lv[i as int] == l@);
        }
        if l.len() >= 1 && l[0] == 83 {
            match handle_s_line(l.as_slice(), &mut all_segment) {
                Ok(_) => {},
                Err(e) => {
                    proof {
                        assert(seg_map_fold(lv.take(i as int + 1)) == Err::<
                            Map<usize, usize>,
                            CmdError,
                        >(e));
                        lemma_seg_map_fold_prefix_err(lv, i as int + 1);
                    }
                    return Err(e);
                },
            }
        }
        i = i + 1;
    }
    proof {
        assert(lv.take(i as int) =~~= lv);
    }
    let ghost m = all_segment@;
    let mut out: Vec<Vec<u8>> = Vec::new();
    let mut j: usize = 0;
    proof {
        assert(lv.take(0) =~~= Seq::<Seq<u8>>::empty());
        assert(views_of(out@) =~~= Seq::<Seq<u8>>::empty());
    }
    while j < lines.len()
        invariant
            0 <= j <= lines@.len(),
            lv == views_of(lines@),
            m == all_segment@,
            seg_map_fold(lv) == Ok::<Map<usize, usize>, CmdError>(m),
            conv_1_1_fold(lv.take(j as int), m) == Ok::<Seq<Seq<u8>>, CmdError>(views_of(out@)),
        decreases lines@.len() - j,
    {
        let l = &lines[j];
        proof {
            assert(lv.take(j as int + 1).drop_last() =~~= lv.take(j as int));
            assert(lv.take(j as int + 1).last() == lv[j as int]);
            assert(lv[j as int] == l@);
        }
        let converted: Result<Vec<u8>, CmdError> = if l.len() >= 1 && l[0] == 72 {
            let pat = v10_vec();
            let rep = v11_vec();
            Ok(replace_bytes(l.as_slice(), pat.as_slice(), rep.as_slice()))
        } else if l.len() >= 1 && l[0] == 80 {
            convert_p_line(l.as_slice(), &all_segment)
        } else {
            Ok(vstd::slice::slice_to_vec(l.as_slice()))
        };
        match converted {
            Ok(v) => {
                let ghost old_out = views_of(out@);
                out.push(v);
                proof {
                    assert(views_of(out@) =~~= old_out.push(v@));
                }
            },
            Err(e) => {
                proof {
                    assert(conv_1_1_fold(lv.take(j as int + 1), m) == Err::<
                        Seq<Seq<u8>>,
                        CmdError,
                    >(e));
                    lemma_conv_1_1_fold_prefix_err(lv, m, j as int + 1);
                }
                return Err(e);
            },
        }
        j = j + 1;
    }
    proof {
        assert(lv.take(j as int) =~~= lv);
    }
    Ok(out)
}

/// What one line becomes under the reverse conversion: a line led by `H` has
/// its version token substituted back, a line led by `W` is rewritten as a
/// `P` line, and every other line passes through unchanged.
pub open spec fn convert_line_1_0_spec(line: Seq<u8>) -> Result<Seq<u8>, CmdError> {
    if line.len() >= 1 && line[0] == 72 {
        Ok(replace_spec(line, v11_pat(), v10_pat()))
    } else if line.len() >= 1 && line[0] == 87 {
        convert_w_line_spec(line)
    } else {
        Ok(line)
    }
}

/// The reverse conversion applied to each line in turn; the first failure
/// aborts.
pub open spec fn convert_file_1_0_spec(lines: Seq<Seq<u8>>) -> Result<Seq<Seq<u8>>, CmdError>
    decreases lines.len(),
{
    if lines.len() == 0 {
        Ok(Seq::<Seq<u8>>::empty())
    } else {
        match convert_file_1_0_spec(lines.drop_last()) {
            Err(e) => Err(e),
            Ok(out) => match convert_line_1_0_spec(lines.last()) {
                Err(e) => Err(e),
                Ok(v) => Ok(out.push(v)),
            },
        }
    }
}

/// A failing prefix decides the whole reverse rewrite.
proof fn lemma_conv_1_0_prefix_err(lines: Seq<Seq<u8>>, i: int)
    requires
        0 <= i <= lines.len(),
        convert_file_1_0_spec(lines.take(i)) is Err,
    ensures
        convert_file_1_0_spec(lines) == convert_file_1_0_spec(lines.take(i)),
    decreases lines.len() - i,
{
    if i < lines.len() {
        assert(lines.take(i + 1).drop_last() =~~= lines.take(i));
        lemma_conv_1_0_prefix_err(lines, i + 1);
    } else {
        assert(lines.take(i) =~~= lines);
    }
}

/// Rewrites a whole file from the walk-based back to the path-based form:
/// every `W` line becomes a `P` line, the header's version token is
/// substituted back, and all other lines pass through.
pub fn convert_lines_1_0(lines: &Vec<Vec<u8>>) -> (r: Result<Vec<Vec<u8>>, CmdError>)
    ensures
        r matches Ok(out) ==> convert_file_1_0_spec(views_of(lines@)) == Ok::<
            Seq<Seq<u8>>,
            CmdError,
        >(views_of(out@)),
        r matches Err(e) ==> convert_file_1_0_spec(views_of(lines@)) == Err::<
            Seq<Seq<u8>>,
            CmdError,
        >(e),
{
    let ghost lv = views_of(lines@);
    let mut out: Vec<Vec<u8>> = Vec::new();
    let mut i: usize = 0;
    proof {
        assert(lv.take(0) =~~= Seq::<Seq<u8>>::empty());
        assert(views_of(out@) =~~= Seq::<Seq<u8>>::empty());
    }
    while i < lines.len()
        invariant
            0 <= i <= lines@.len(),
            lv == views_of(lines@),
            convert_file_1_0_spec(lv.take(i as int)) == Ok::<Seq<Seq<u8>>, CmdError>(
                views_of(out@),
            ),
        decreases lines@.len() - i,
    {
        let l = &lines[i];
        proof {
            assert(lv.take(i as int + 1).drop_last() =~~= lv.take(i as int));
            assert(lv.take(i as int + 1).last() == lv[i as int]);
            assert(lv[i as int] == l@);
        }
        let converted: Result<Vec<u8>, CmdError> = if l.len() >= 1 && l[0] == 72 {
            let pat = v11_vec();
            let rep = v10_vec();
            Ok(replace_bytes(l.as_slice(), pat.as_slice(), rep.as_slice()))
        } else if l.len() >= 1 && l[0] == 87 {
            convert_w_line(l.as_slice())
        } else {
            Ok(vstd::slice::slice_to_vec(l.as_slice()))
        };
        match converted {
            Ok(v) => {
                let ghost old_out = views_of(out@);
                out.push(v);
                proof {
                    assert(views_of(out@) =~~= old_out.push(v@));
                }
            },
            Err(e) => {
                proof {
                    assert(convert_file_1_0_spec(lv.take(i as int + 1)) == Err::<
                        Seq<Seq<u8>>,
                        CmdError,
                    >(e));
                    lemma_conv_1_0_prefix_err(lv, i as int + 1);
                }
                return Err(e);
            },
        }
        i = i + 1;
    }
    proof {
        assert(lv.take(i as int) =~~= lv);
    }
    Ok(out)
}

} // verus!
