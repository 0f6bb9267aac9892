//! The canonical string form of a normalized resolution set, and the
//! round-trip law: re-parsing the canonical form yields the same set.
//!
//! The canonical form writes each pair as `WIDTHxHEIGHT` in decimal and
//! joins the pairs with commas, in the set's own (strictly descending)
//! order.

use vstd::prelude::*;
use crate::parser::is_digit;
use crate::parser::is_space;
use crate::parser::scan_digits;
use crate::parser::skip_spaces;
use crate::parser::digits_val;
use crate::parser::spec_parse_u32;
use crate::parser::spec_parse_size;
use crate::parser::spec_parse_sizes;
use crate::parser::spec_parse_resolution;
use crate::parser::spec_parse_resolutions;
use crate::parser::spec_parse_spec;
use crate::parser::cross;
use crate::parser::pair_row;
use crate::resset::ResolutionSet;
use crate::resset::sorted_strict_desc;

verus! {

/// The decimal digits of `n`, most significant first.
pub open spec fn dec_digits(n: int) -> Seq<u8>
    decreases n when n >= 0
{
    if n < 10 {
        seq![(48 + n) as u8]
    } else {
        dec_digits(n / 10) + seq![(48 + n % 10) as u8]
    }
}

/// The canonical spelling of one pair: `WIDTHxHEIGHT`.
pub open spec fn canon_pair(p: (u32, u32)) -> Seq<u8> {
    dec_digits(p.0 as int) + seq![120u8] + dec_digits(p.1 as int)
}

/// The canonical spelling of a pair list: the pairs joined with commas.
pub open spec fn canon_pairs(ps: Seq<(u32, u32)>) -> Seq<u8>
    decreases ps.len(),
{
    if ps.len() == 0 {
        Seq::empty()
    } else if ps.len() == 1 {
        canon_pair(ps[0])
    } else {
        canon_pair(ps[0]) + seq![44u8] + canon_pairs(ps.drop_first())
    }
}

proof fn lemma_dec_digits_wf(n: int)
    requires
        n >= 0,
    ensures
        dec_digits(n).len() >= 1,
        forall|t: int| 0 <= t < dec_digits(n).len() ==> is_digit(#[trigger] dec_digits(n)[t]),
    decreases n,
{
    if n >= 10 {
        lemma_dec_digits_wf(n / 10);
    }
}

proof fn lemma_dec_digits_val(n: int)
    requires
        n >= 0,
    ensures
        digits_val(dec_digits(n)) == n,
    decreases n,
{
    if n < 10 {
        assert(dec_digits(n) =~= seq![(48 + n) as u8]);
        assert(seq![(48 + n) as u8].drop_last() =~= Seq::<u8>::empty());
        assert(digits_val(seq![(48 + n) as u8]) == digits_val(Seq::<u8>::empty()) * 10 + (48 + n
            - 48));
    } else {
        lemma_dec_digits_val(n / 10);
        let d = dec_digits(n);
        assert(d.drop_last() =~= dec_digits(n / 10));
        assert(d.last() == (48 + n % 10) as u8);
        assert(digits_val(d) == (n / 10) * 10 + n % 10);
        assert(n == 10 * (n / 10) + n % 10) by {
            vstd::arithmetic::div_mod::lemma_fundamental_div_mod(n, 10);
        };
    }
}

/// When the bytes from `i` to `j` are digits and `j` sits at the end or at a
/// non-digit, the digit scan from `i` stops exactly at `j`.
proof fn lemma_scan_digits_exact(s: Seq<u8>, i: int, j: int)
    requires
        0 <= i <= j <= s.len(),
        forall|t: int| i <= t < j ==> is_digit(s[t]),
        j < s.len() ==> !is_digit(s[j]),
    ensures
        scan_digits(s, i) == j,
    decreases j - i,
{
    if i < j {
        lemma_scan_digits_exact(s, i + 1, j);
    }
}

/// Parsing an integer at the start of its own decimal spelling yields the
/// integer back and stops just past it.
proof fn lemma_parse_u32_exact(s: Seq<u8>, i: int, n: u32)
    requires
        0 <= i,
        i + dec_digits(n as int).len() <= s.len(),
        s.subrange(i, i + dec_digits(n as int).len()) == dec_digits(n as int),
        i + dec_digits(n as int).len() < s.len() ==> !is_digit(s[i + dec_digits(n as int).len()]),
    ensures
        spec_parse_u32(s, i) == Some((n, i + dec_digits(n as int).len())),
{
    let d = dec_digits(n as int);
    let j = i + d.len();
    lemma_dec_digits_wf(n as int);
    assert forall|t: int| i <= t < j implies is_digit(s[t]) by {
        assert(s[t] == d[t - i]);
    };
    lemma_scan_digits_exact(s, i, j);
    lemma_dec_digits_val(n as int);
    assert(s.subrange(i, j) == d);
    assert(digits_val(s.subrange(i, j)) == n);
}

proof fn lemma_cross_single(w: u32, h: u32)
    ensures
        cross(seq![w], seq![h]) == seq![(w, h)],
{
    assert(seq![w].drop_first() =~= Seq::<u32>::empty());
    assert(cross(Seq::<u32>::empty(), seq![h]) =~= Seq::<(u32, u32)>::empty());
    assert(pair_row(w, seq![h]) =~= seq![(w, h)]);
    assert(cross(seq![w], seq![h]) =~= seq![(w, h)]);
}

/// Parsing one resolution expression at the start of a pair's canonical
/// spelling yields exactly that pair and stops just past it, provided the
/// next byte (if any) is a comma.
proof fn lemma_parse_canon_pair(s: Seq<u8>, i: int, p: (u32, u32))
    requires
        0 <= i,
        i + canon_pair(p).len() <= s.len(),
        s.subrange(i, i + canon_pair(p).len()) == canon_pair(p),
        i + canon_pair(p).len() < s.len() ==> s[i + canon_pair(p).len()] == 44,
    ensures
        spec_parse_resolution(s, i) == Some((seq![p], i + canon_pair(p).len())),
{
    let dw = dec_digits(p.0 as int);
    let dh = dec_digits(p.1 as int);
    let c = canon_pair(p);
    let jw = i + dw.len();
    let e = i + c.len();
    lemma_dec_digits_wf(p.0 as int);
    lemma_dec_digits_wf(p.1 as int);
    assert(c.len() == dw.len() + 1 + dh.len());
    assert forall|t: int| 0 <= t < c.len() implies s[i + t] == c[t] by {
        assert(s.subrange(i, e)[t] == s[i + t]);
    };
    assert(s[jw] == c[dw.len() as int]);
    assert(c[dw.len() as int] == 120);
    assert(s.subrange(i, jw) =~= dw);
    lemma_parse_u32_exact(s, i, p.0);
    assert(s.subrange(jw + 1, e) =~= dh) by {
        assert forall|t: int| 0 <= t < dh.len() implies s.subrange(jw + 1, e)[t] == dh[t] by {
            assert(s[jw + 1 + t] == c[dw.len() as int + 1 + t]);
            assert(c[dw.len() as int + 1 + t] == dh[t]);
        };
    };
    assert(e < s.len() ==> !is_digit(s[e]));
    lemma_parse_u32_exact(s, jw + 1, p.1);
    // The width is a scalar: an `x`, not a `:`, follows it.
    assert(spec_parse_size(s, i) == Some((seq![p.0], jw)));
    // The height is a scalar: the spelling ends or a comma follows.
    assert(spec_parse_size(s, jw + 1) == Some((seq![p.1], e)));
    assert(spec_parse_sizes(s, i) == Some((cross(seq![p.0], seq![p.1]), e)));
    lemma_cross_single(p.0, p.1);
    assert(is_digit(s[i])) by {
        assert(s[i] == c[0] && c[0] == dw[0]);
    };
    assert(s[i] != 91);
    assert(spec_parse_resolution(s, i) == Some((seq![p], e)));
}

/// Parsing the resolution list at the start of a pair list's canonical
/// spelling, which runs to the end of the input, yields exactly those pairs
/// and consumes the whole input.
proof fn lemma_parse_canon(s: Seq<u8>, i: int, ps: Seq<(u32, u32)>)
    requires
        0 <= i <= s.len(),
        ps.len() >= 1,
        s.subrange(i, s.len() as int) == canon_pairs(ps),
    ensures
        spec_parse_resolutions(s, i) == Some((ps, s.len() as int)),
    decreases ps.len(),
{
    let c0 = canon_pair(ps[0]);
    let e = i + c0.len();
    if ps.len() == 1 {
        assert(s.subrange(i, s.len() as int) == c0);
        assert(s.len() - i == c0.len());
        lemma_parse_canon_pair(s, i, ps[0]);
        assert(seq![ps[0]] =~= ps);
        assert(spec_parse_resolutions(s, i) == Some((ps, s.len() as int)));
    } else {
        let rest = ps.drop_first();
        let tail = canon_pairs(rest);
        let whole = s.subrange(i, s.len() as int);
        assert(whole == c0 + seq![44u8] + tail);
        assert(whole.len() == c0.len() + 1 + tail.len());
        assert forall|t: int| 0 <= t < whole.len() implies s[i + t] == whole[t] by {
            assert(whole[t] == s.subrange(i, s.len() as int)[t]);
        };
        assert(s.subrange(i, e) =~= c0) by {
            assert forall|t: int| 0 <= t < c0.len() implies s.subrange(i, e)[t] == c0[t] by {
                assert(s[i + t] == whole[t]);
                assert(whole[t] == c0[t]);
            };
        };
        assert(s[e] == whole[c0.len() as int]);
        assert(whole[c0.len() as int] == 44);
        lemma_parse_canon_pair(s, i, ps[0]);
        // No whitespace follows the comma: the next pair starts with a digit.
        lemma_dec_digits_wf(rest[0].0 as int);
        assert(tail.len() >= 1) by {
            if rest.len() == 1 {
                lemma_dec_digits_wf(rest[0].0 as int);
            }
        };
        assert(e + 1 < s.len());
        assert(s[e + 1] == whole[c0.len() as int + 1]);
        assert(whole[c0.len() as int + 1] == tail[0]);
        assert(tail[0] == canon_pair(rest[0])[0]);
        assert(canon_pair(rest[0])[0] == dec_digits(rest[0].0 as int)[0]);
        assert(is_digit(s[e + 1]));
        assert(!is_space(s[e + 1]));
        assert(skip_spaces(s, e + 1) == e + 1);
        assert(s.subrange(e + 1, s.len() as int) =~= tail) by {
            assert forall|t: int| 0 <= t < tail.len() implies s.subrange(e + 1, s.len() as int)[t]
                == tail[t] by {
                assert(s[e + 1 + t] == whole[c0.len() as int + 1 + t]);
                assert(whole[c0.len() as int + 1 + t] == tail[t]);
            };
        };
        lemma_parse_canon(s, e + 1, rest);
        assert(seq![ps[0]] + rest =~= ps);
        assert(spec_parse_resolutions(s, i) == Some((ps, s.len() as int)));
    }
}

/// Stability of normalization: parsing the canonical string form of a
/// normalized set yields exactly its pairs again, and any strictly
/// descending deduplication of those pairs, in particular the one the
/// normalizer builds, is the set itself.
pub proof fn lemma_canonical_round_trip(ps: Seq<(u32, u32)>, renorm: Seq<(u32, u32)>)
    requires
        ps.len() >= 1,
        sorted_strict_desc(ps),
        sorted_strict_desc(renorm),
        renorm.to_set() == ps.to_set(),
    ensures
        spec_parse_spec(canon_pairs(ps)) == Some(ps),
        renorm == ps,
{
    let s = canon_pairs(ps);
    assert(s.subrange(0, s.len() as int) =~= s);
    lemma_parse_canon(s, 0, ps);
    crate::resset::lemma_normalize_idempotent(ps, renorm);
}

/// Appends the decimal spelling of `n`.
fn push_dec(out: &mut Vec<u8>, n: u32)
    ensures
        final(out)@ == old(out)@ + dec_digits(n as int),
    decreases n,
{
    if n < 10 {
        out.push(48 + n as u8);
        assert(final(out)@ =~= old(out)@ + dec_digits(n as int));
    } else {
        push_dec(out, n / 10);
        out.push(48 + (n % 10) as u8);
        assert(final(out)@ =~= old(out)@ + dec_digits(n as int));
    }
}

/// The canonical string form of the set, as bytes: `WxH` pairs joined with
/// commas, in the set's own order.  Re-parsing it yields the same set.
pub fn to_canonical(set: &ResolutionSet) -> (r: Vec<u8>)
    ensures
        r@ == canon_pairs(set@),
{
    let pairs = set.as_pairs();
    let n = pairs.len();
    let mut out: Vec<u8> = Vec::new();
    let mut i: usize = 0;
    assert(out@ =~= Seq::<u8>::empty());
    assert(set@.subrange(0, n as int) =~= set@);
    while i < n
        invariant
            i <= n,
            n == set@.len(),
            pairs@ == set@,
            canon_pairs(set@) == out@ + canon_pairs(set@.subrange(i as int, n as int)),
        decreases n - i,
    {
        let ghost rem = set@.subrange(i as int, n as int);
        let (w, h) = pairs[i];
        proof {
            assert(rem[0] == set@[i as int]);
            assert(rem.drop_first() =~= set@.subrange(i as int + 1, n as int));
        }
        let ghost before = out@;
        push_dec(&mut out, w);
        out.push(120);
        push_dec(&mut out, h);
        proof {
            assert(out@ =~= before + canon_pair(set@[i as int]));
        }
        if i + 1 < n {
            out.push(44);
            proof {
                assert(out@ + canon_pairs(set@.subrange(i as int + 1, n as int)) =~= before
                    + canon_pairs(rem));
            }
        } else {
            proof {
                assert(set@.subrange(i as int + 1, n as int) =~= Seq::<(u32, u32)>::empty());
                assert(out@ + canon_pairs(set@.subrange(i as int + 1, n as int)) =~= before
                    + canon_pairs(rem));
            }
        }
        i = i + 1;
    }
    proof {
        assert(set@.subrange(n as int, n as int) =~= Seq::<(u32, u32)>::empty());
        assert(out@ + canon_pairs(set@.subrange(n as int, n as int)) =~= out@);
    }
    out
}

} // verus!
