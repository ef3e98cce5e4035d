//! Byte-level building blocks shared by the record grammars: ASCII
//! classification, decimal decoding and encoding, whitespace trimming,
//! separator splitting, and substring replacement, each verified against a
//! small mathematical specification.

use vstd::prelude::*;

verus! {

/// The ASCII decimal digits.
pub open spec fn is_dec_digit(b: u8) -> bool {
    48 <= b <= 57
}

/// Every byte of `s` is an ASCII decimal digit.
pub open spec fn all_dec_digits(s: Seq<u8>) -> bool {
    forall|i: int| 0 <= i < s.len() ==> is_dec_digit(#[trigger] s[i])
}

/// The number denoted by a sequence of ASCII digits in base 10; the empty
/// sequence denotes 0.
pub open spec fn dec_value(s: Seq<u8>) -> nat
    decreases s.len(),
{
    if s.len() == 0 {
        0
    } else {
        dec_value(s.drop_last()) * 10 + (if is_dec_digit(s.last()) {
            (s.last() - 48) as nat
        } else {
            0
        })
    }
}

/// Base-10 digit accumulation over `s`, rejecting any non-digit byte and any
/// value that does not fit in `usize`. An empty `s` yields 0.
pub fn dec_to_usize(s: &[u8]) -> (r: Option<usize>)
    ensures
        r is Some <==> all_dec_digits(s@) && dec_value(s@) <= usize::MAX,
        r matches Some(n) ==> n == dec_value(s@),
{
    let mut num: usize = 0;
    let mut i: usize = 0;
    while i < s.len()
        invariant
            0 <= i <= s@.len(),
            all_dec_digits(s@.take(i as int)),
            num == dec_value(s@.take(i as int)),
        decreases s@.len() - i,
    {
        let b = s[i];
        if b < 48 || b > 57 {
            proof {
                assert(!is_dec_digit(s@[i as int]));
            }
            return None;
        }
        let d = (b - 48) as usize;
        if num > (usize::MAX - d) / 10 {
            proof {
                assert(s@.take(i as int + 1).drop_last() =~= s@.take(i as int));
                assert(dec_value(s@.take(i as int + 1)) > usize::MAX);
                lemma_dec_value_prefix_le(s@, i as int + 1);
            }
            return None;
        }
        num = num * 10 + d;
        i = i + 1;
        proof {
            assert(s@.take(i as int).drop_last() =~= s@.take(i as int - 1));
        }
    }
    proof {
        assert(s@.take(i as int) =~= s@);
    }
    Some(num)
}

/// The value of a digit string only grows as more digits are appended.
proof fn lemma_dec_value_prefix_le(s: Seq<u8>, i: int)
    requires
        0 <= i <= s.len(),
    ensures
        dec_value(s.take(i)) <= dec_value(s),
    decreases s.len() - i,
{
    if i < s.len() {
        lemma_dec_value_prefix_le(s, i + 1);
        assert(s.take(i + 1).drop_last() =~= s.take(i));
        assert(dec_value(s.take(i)) <= dec_value(s.take(i + 1)));
    } else {
        assert(s.take(i) =~= s);
    }
}

/// The base-10 rendering of `n`, most significant digit first, no sign and no
/// leading zeros (except for `n == 0`, rendered as "0").
pub open spec fn dec_repr(n: nat) -> Seq<u8>
    decreases n,
{
    if n < 10 {
        seq![(48 + n) as u8]
    } else {
        dec_repr(n / 10).push((48 + n % 10) as u8)
    }
}

/// Renders `n` in base 10, most significant digit first.
pub fn dec_of_usize(n: usize) -> (r: Vec<u8>)
    ensures
        r@ == dec_repr(n as nat),
    decreases n,
{
    if n < 10 {
        let mut v: Vec<u8> = Vec::new();
        v.push(48 + n as u8);
        proof {
            assert(v@ =~= dec_repr(n as nat));
        }
        v
    } else {
        let mut v = dec_of_usize(n / 10);
        v.push(48 + (n % 10) as u8);
        v
    }
}

/// The bytes Rust counts as ASCII whitespace: space, tab, newline, form feed
/// and carriage return.
pub open spec fn is_ws(b: u8) -> bool {
    b == 32 || b == 9 || b == 10 || b == 12 || b == 13
}

/// `s` without its leading ASCII whitespace.
pub open spec fn trim_start_spec(s: Seq<u8>) -> Seq<u8>
    decreases s.len(),
{
    if s.len() > 0 && is_ws(s[0]) {
        trim_start_spec(s.drop_first())
    } else {
        s
    }
}

/// `s` without its trailing ASCII whitespace.
pub open spec fn trim_end_spec(s: Seq<u8>) -> Seq<u8>
    decreases s.len(),
{
    if s.len() > 0 && is_ws(s.last()) {
        trim_end_spec(s.drop_last())
    } else {
        s
    }
}

/// `s` without ASCII whitespace at either edge.
pub open spec fn trim_spec(s: Seq<u8>) -> Seq<u8> {
    trim_end_spec(trim_start_spec(s))
}

/// Decides `is_dec_digit` on a concrete byte.
pub fn is_dec_digit_byte(b: u8) -> (r: bool)
    ensures
        r == is_dec_digit(b),
{
    48 <= b && b <= 57
}

/// Decides `is_ws` on a concrete byte.
fn is_ws_byte(b: u8) -> (r: bool)
    ensures
        r == is_ws(b),
{
    b == 32 || b == 9 || b == 10 || b == 12 || b == 13
}

/// Copies `s` without ASCII whitespace at either edge.
pub fn trim_bytes(s: &[u8]) -> (r: Vec<u8>)
    ensures
        r@ == trim_spec(s@),
{
    let mut lo: usize = 0;
    proof {
        assert(s@.skip(0) =~= s@);
    }
    while lo < s.len() && is_ws_byte(s[lo])
        invariant
            0 <= lo <= s@.len(),
            trim_start_spec(s@) == trim_start_spec(s@.skip(lo as int)),
        decreases s@.len() - lo,
    {
        proof {
            assert(s@.skip(lo as int).drop_first() =~= s@.skip(lo as int + 1));
        }
        lo = lo + 1;
    }
    proof {
        assert(trim_start_spec(s@.skip(lo as int)) == s@.skip(lo as int));
    }
    let mut hi: usize = s.len();
    while hi > lo && is_ws_byte(s[hi - 1])
        invariant
            lo <= hi <= s@.len(),
            trim_start_spec(s@) == s@.skip(lo as int),
            trim_end_spec(s@.skip(lo as int)) == trim_end_spec(s@.subrange(lo as int, hi as int)),
        decreases hi,
    {
        proof {
            assert(s@.subrange(lo as int, hi as int).drop_last() =~= s@.subrange(
                lo as int,
                hi as int - 1,
            ));
        }
        hi = hi - 1;
    }
    proof {
        assert(s@.skip(lo as int) =~= s@.subrange(lo as int, s@.len() as int));
        assert(trim_end_spec(s@.subrange(lo as int, hi as int)) == s@.subrange(
            lo as int,
            hi as int,
        ));
    }
    vstd::slice::slice_to_vec(vstd::slice::slice_subrange(s, lo, hi))
}

/// The fields of `s` between occurrences of `sep`: splitting never yields an
/// empty result, and `n` separators yield `n + 1` fields.
pub open spec fn split_spec(s: Seq<u8>, sep: u8) -> Seq<Seq<u8>>
    decreases s.len(),
{
    if s.len() == 0 {
        seq![Seq::<u8>::empty()]
    } else if s[0] == sep {
        seq![Seq::<u8>::empty()] + split_spec(s.drop_first(), sep)
    } else {
        let r = split_spec(s.drop_first(), sep);
        seq![seq![s[0]] + r[0]] + r.skip(1)
    }
}

/// Splitting always yields at least one field.
pub proof fn lemma_split_spec_len(s: Seq<u8>, sep: u8)
    ensures
        split_spec(s, sep).len() >= 1,
    decreases s.len(),
{
    if s.len() == 0 {
    } else {
        lemma_split_spec_len(s.drop_first(), sep);
    }
}

/// The byte sequences held by a sequence of byte vectors.
pub open spec fn views_of(s: Seq<Vec<u8>>) -> Seq<Seq<u8>> {
    s.map_values(|v: Vec<u8>| v@)
}

/// Splits `s` on every occurrence of `sep`.
pub fn split_bytes(s: &[u8], sep: u8) -> (r: Vec<Vec<u8>>)
    ensures
        r.deep_view() == split_spec(s@, sep),
        views_of(r@) == split_spec(s@, sep),
        r@.len() >= 1,
{
    let mut res: Vec<Vec<u8>> = Vec::new();
    let mut cur: Vec<u8> = Vec::new();
    let mut i: usize = 0;
    proof {
        lemma_split_spec_len(s@, sep);
        assert(s@.skip(0) =~= s@);
        assert(res.deep_view() =~~= Seq::<Seq<u8>>::empty());
        assert(cur@ + split_spec(s@, sep)[0] =~= split_spec(s@, sep)[0]);
        assert(split_spec(s@, sep) =~~= res.deep_view() + seq![
            cur@ + split_spec(s@.skip(0), sep)[0],
        ] + split_spec(s@.skip(0), sep).skip(1));
    }
    while i < s.len()
        invariant
            0 <= i <= s@.len(),
            split_spec(s@, sep) =~~= res.deep_view() + seq![
                cur@ + split_spec(s@.skip(i as int), sep)[0],
            ] + split_spec(s@.skip(i as int), sep).skip(1),
        decreases s@.len() - i,
    {
        let ghost t = split_spec(s@.skip(i as int), sep);
        let ghost tnext = split_spec(s@.skip(i as int + 1), sep);
        proof {
            assert(s@.skip(i as int).len() > 0);
            assert(s@.skip(i as int)[0] == s@[i as int]);
            assert(s@.skip(i as int).drop_first() =~= s@.skip(i as int + 1));
            lemma_split_spec_len(s@.skip(i as int + 1), sep);
        }
        if s[i] == sep {
            proof {
                assert(t == seq![Seq::<u8>::empty()] + tnext);
                assert(t[0] =~= Seq::<u8>::empty());
                assert(cur@ + t[0] =~= cur@);
                assert(t.skip(1) =~~= tnext);
            }
            let ghost old_res_dv = res.deep_view();
            let ghost old_cur = cur@;
            res.push(cur);
            cur = Vec::new();
            proof {
                assert(res.deep_view() =~~= old_res_dv.push(old_cur));
                assert(tnext =~~= seq![tnext[0]] + tnext.skip(1));
                assert(cur@ + tnext[0] =~= tnext[0]);
                assert(split_spec(s@, sep) =~~= res.deep_view() + seq![cur@ + tnext[0]]
                    + tnext.skip(1));
            }
        } else {
            let ghost old_cur = cur@;
            cur.push(s[i]);
            proof {
                assert(t == seq![seq![s@[i as int]] + tnext[0]] + tnext.skip(1));
                assert(t[0] == seq![s@[i as int]] + tnext[0]);
                assert(cur@ =~= old_cur.push(s@[i as int]));
                assert(cur@ + tnext[0] =~= old_cur + t[0]);
                assert(t.skip(1) =~~= tnext.skip(1));
                assert(split_spec(s@, sep) =~~= res.deep_view() + seq![cur@ + tnext[0]]
                    + tnext.skip(1));
            }
        }
        i = i + 1;
    }
    proof {
        assert(s@.skip(i as int) =~= Seq::<u8>::empty());
        assert(split_spec(s@.skip(i as int), sep) == seq![Seq::<u8>::empty()]);
        assert(cur@ + split_spec(s@.skip(i as int), sep)[0] =~= cur@);
        assert(split_spec(s@.skip(i as int), sep).skip(1) =~~= Seq::<Seq<u8>>::empty());
    }
    let ghost old_res_dv = res.deep_view();
    let ghost old_cur = cur@;
    res.push(cur);
    proof {
        assert(res.deep_view() =~~= old_res_dv.push(old_cur));
        assert(res.deep_view() =~~= split_spec(s@, sep));
        assert(views_of(res@) =~~= res.deep_view());
    }
    res
}

/// Appends every byte of `add` to `out`.
pub fn append_bytes(out: &mut Vec<u8>, add: &[u8])
    ensures
        final(out)@ == old(out)@ + add@,
{
    let mut k: usize = 0;
    proof {
        assert(old(out)@ + add@.take(0) =~= old(out)@);
    }
    while k < add.len()
        invariant
            0 <= k <= add@.len(),
            out@ =~= old(out)@ + add@.take(k as int),
        decreases add@.len() - k,
    {
        out.push(add[k]);
        proof {
            assert(old(out)@ + add@.take(k as int + 1) =~= (old(out)@ + add@.take(k as int)).push(
                add@[k as int],
            ));
        }
        k = k + 1;
    }
    proof {
        assert(add@.take(k as int) =~= add@);
    }
}

/// Whether `pre` is a prefix of `s`.
pub open spec fn has_prefix(s: Seq<u8>, pre: Seq<u8>) -> bool {
    s.len() >= pre.len() && s.take(pre.len() as int) == pre
}

/// Compares the first `pre.len()` bytes of `s` against `pre`.
pub fn starts_with_bytes(s: &[u8], pre: &[u8]) -> (r: bool)
    ensures
        r == has_prefix(s@, pre@),
{
    if s.len() < pre.len() {
        proof {
            assert(!has_prefix(s@, pre@));
        }
        return false;
    }
    let mut i: usize = 0;
    while i < pre.len()
        invariant
            0 <= i <= pre@.len() <= s@.len(),
            forall|j: int| 0 <= j < i ==> s@[j] == pre@[j],
        decreases pre@.len() - i,
    {
        if s[i] != pre[i] {
            proof {
                assert(s@.take(pre@.len() as int)[i as int] != pre@[i as int]);
            }
            return false;
        }
        i = i + 1;
    }
    proof {
        assert(s@.take(pre@.len() as int) =~= pre@);
    }
    true
}

/// `s` with every occurrence of `pat` replaced by `rep`, scanning left to
/// right without rescanning replaced text; an empty `pat` leaves `s` as it is.
pub open spec fn replace_spec(s: Seq<u8>, pat: Seq<u8>, rep: Seq<u8>) -> Seq<u8>
    decreases s.len(),
{
    if pat.len() == 0 || s.len() < pat.len() {
        s
    } else if s.take(pat.len() as int) == pat {
        rep + replace_spec(s.skip(pat.len() as int), pat, rep)
    } else {
        seq![s[0]] + replace_spec(s.drop_first(), pat, rep)
    }
}

/// Whether `pat` occurs in `s` at offset `i`.
fn matches_at(s: &[u8], i: usize, pat: &[u8]) -> (r: bool)
    requires
        i <= s@.len(),
    ensures
        r == (i + pat@.len() <= s@.len() && s@.subrange(
            i as int,
            i as int + pat@.len() as int,
        ) == pat@),
{
    if pat.len() > s.len() - i {
        return false;
    }
    let mut j: usize = 0;
    while j < pat.len()
        invariant
            0 <= j <= pat@.len(),
            i + pat@.len() <= s@.len() <= usize::MAX,
            forall|k: int| 0 <= k < j ==> s@[i as int + k] == pat@[k],
        decreases pat@.len() - j,
    {
        if s[i + j] != pat[j] {
            proof {
                assert(s@.subrange(i as int, i as int + pat@.len() as int)[j as int] != pat@[
                    j as int
                ]);
            }
            return false;
        }
        j = j + 1;
    }
    proof {
        assert(s@.subrange(i as int, i as int + pat@.len() as int) =~= pat@);
    }
    true
}

/// Replaces every occurrence of `pat` in `s` by `rep`, scanning left to right.
pub fn replace_bytes(s: &[u8], pat: &[u8], rep: &[u8]) -> (r: Vec<u8>)
    requires
        pat@.len() >= 1,
    ensures
        r@ == replace_spec(s@, pat@, rep@),
{
    let mut out: Vec<u8> = Vec::new();
    let mut i: usize = 0;
    proof {
        assert(s@.skip(0) =~= s@);
        assert(out@ + replace_spec(s@, pat@, rep@) =~= replace_spec(s@, pat@, rep@));
    }
    while i < s.len()
        invariant
            0 <= i <= s@.len(),
            pat@.len() >= 1,
            replace_spec(s@, pat@, rep@) =~= out@ + replace_spec(s@.skip(i as int), pat@, rep@),
        decreases s@.len() - i,
    {
        let ghost t = replace_spec(s@.skip(i as int), pat@, rep@);
        if matches_at(s, i, pat) {
            proof {
                assert(s@.skip(i as int).len() >= pat@.len());
                assert(s@.skip(i as int).take(pat@.len() as int) =~= s@.subrange(
                    i as int,
                    i as int + pat@.len() as int,
                ));
                assert(s@.skip(i as int).skip(pat@.len() as int) =~= s@.skip(
                    i as int + pat@.len() as int,
                ));
                assert(t == rep@ + replace_spec(s@.skip(i as int + pat@.len() as int), pat@, rep@));
            }
            let ghost old_out = out@;
            let mut k: usize = 0;
            while k < rep.len()
                invariant
                    0 <= k <= rep@.len(),
                    out@ =~= old_out + rep@.take(k as int),
                decreases rep@.len() - k,
            {
                out.push(rep[k]);
                proof {
                    assert(old_out + rep@.take(k as int + 1) =~= (old_out + rep@.take(
                        k as int,
                    )).push(rep@[k as int]));
                }
                k = k + 1;
            }
            proof {
                assert(rep@.take(rep@.len() as int) =~= rep@);
                assert(out@ =~= old_out + rep@);
            }
            i = i + pat.len();
            proof {
                assert(replace_spec(s@, pat@, rep@) =~= out@ + replace_spec(
                    s@.skip(i as int),
                    pat@,
                    rep@,
                ));
            }
        } else {
            proof {
                assert(s@.skip(i as int)[0] == s@[i as int]);
                if s@.skip(i as int).len() >= pat@.len() {
                    assert(s@.skip(i as int).take(pat@.len() as int) =~= s@.subrange(
                        i as int,
                        i as int + pat@.len() as int,
                    ));
                }
                assert(s@.skip(i as int).drop_first() =~= s@.skip(i as int + 1));
                assert(t == seq![s@[i as int]] + replace_spec(s@.skip(i as int + 1), pat@, rep@));
            }
            let ghost old_out = out@;
            out.push(s[i]);
            i = i + 1;
            proof {
                assert(out@ =~= old_out.push(s@[i as int - 1]));
                assert(out@ + replace_spec(s@.skip(i as int), pat@, rep@) =~= old_out + t);
            }
        }
    }
    proof {
        assert(s@.skip(i as int) =~= Seq::<u8>::empty());
        assert(replace_spec(Seq::<u8>::empty(), pat@, rep@) == Seq::<u8>::empty());
        assert(out@ + Seq::<u8>::empty() =~= out@);
    }
    out
}

} // verus!
