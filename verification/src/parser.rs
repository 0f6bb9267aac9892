//! The resolution specification grammar.
//!
//! A specification string is a comma-separated union of resolution
//! expressions.  Each expression is either a `sizes` production or a
//! bracketed `sizes` production that emits both orientations of every pair.
//! A `sizes` production is one dimension list, or two dimension lists joined
//! by `x`; a dimension list is a single unsigned integer or an inclusive
//! `start:end[:step]` range.  A lone list is paired with itself; two lists
//! form the full width-by-height cross product, width outer, height inner.

use vstd::prelude::*;

verus! {

/// Parse failure, carrying the byte offset at which parsing stopped.
#[derive(Debug)]
pub struct ParseError {
    pub offset: usize,
}

/// ASCII decimal digit.
pub open spec fn is_digit(c: u8) -> bool {
    48 <= c && c <= 57
}

/// ASCII whitespace accepted after a comma: space, tab, newline, return.
pub open spec fn is_space(c: u8) -> bool {
    c == 32 || c == 9 || c == 10 || c == 13
}

/// First position at or after `i` that does not hold a digit.
pub open spec fn scan_digits(s: Seq<u8>, i: int) -> int
    decreases s.len() - i when 0 <= i <= s.len()
{
    if i < s.len() && is_digit(s[i]) {
        scan_digits(s, i + 1)
    } else {
        i
    }
}

/// First position at or after `i` that does not hold whitespace.
pub open spec fn skip_spaces(s: Seq<u8>, i: int) -> int
    decreases s.len() - i when 0 <= i <= s.len()
{
    if i < s.len() && is_space(s[i]) {
        skip_spaces(s, i + 1)
    } else {
        i
    }
}

/// Value of a string of decimal digits, most significant first.
pub open spec fn digits_val(s: Seq<u8>) -> int
    decreases s.len()
{
    if s.len() == 0 {
        0
    } else {
        digits_val(s.drop_last()) * 10 + (s.last() - 48)
    }
}

pub proof fn lemma_scan_digits_bounds(s: Seq<u8>, i: int)
    requires
        0 <= i <= s.len(),
    ensures
        i <= scan_digits(s, i) <= s.len(),
        forall|t: int| i <= t < scan_digits(s, i) ==> is_digit(s[t]),
        scan_digits(s, i) < s.len() ==> !is_digit(s[scan_digits(s, i)]),
    decreases s.len() - i,
{
    if i < s.len() && is_digit(s[i]) {
        lemma_scan_digits_bounds(s, i + 1);
    }
}

pub proof fn lemma_digits_val_nonneg(s: Seq<u8>)
    requires
        forall|t: int| 0 <= t < s.len() ==> is_digit(s[t]),
    ensures
        digits_val(s) >= 0,
    decreases s.len(),
{
    if s.len() > 0 {
        lemma_digits_val_nonneg(s.drop_last());
    }
}

/// Appending one digit multiplies the value by ten and adds the digit.
pub proof fn lemma_digits_val_step(s: Seq<u8>, i: int, k: int)
    requires
        0 <= i <= k < s.len(),
    ensures
        digits_val(s.subrange(i, k + 1)) == digits_val(s.subrange(i, k)) * 10 + (s[k] - 48),
{
    assert(s.subrange(i, k + 1).drop_last() =~= s.subrange(i, k));
    assert(s.subrange(i, k + 1).last() == s[k]);
}

/// Extending a digit string to the right never decreases its value.
pub proof fn lemma_digits_val_extend(s: Seq<u8>, i: int, k: int, j: int)
    requires
        0 <= i <= k <= j <= s.len(),
        forall|t: int| i <= t < j ==> is_digit(s[t]),
    ensures
        digits_val(s.subrange(i, j)) >= digits_val(s.subrange(i, k)),
    decreases j - k,
{
    if k < j {
        lemma_digits_val_step(s, i, k);
        assert(forall|t: int| 0 <= t < s.subrange(i, k).len() ==> is_digit(s.subrange(i, k)[t]));
        lemma_digits_val_nonneg(s.subrange(i, k));
        lemma_digits_val_extend(s, i, k + 1, j);
    }
}

/// The meaning of an unsigned integer literal at position `i`: its value and
/// the position just past it, or nothing when no digit stands at `i` or the
/// value overflows `u32`.
pub open spec fn spec_parse_u32(s: Seq<u8>, i: int) -> Option<(u32, int)>
    recommends
        0 <= i <= s.len(),
{
    let j = scan_digits(s, i);
    if j == i {
        None
    } else if digits_val(s.subrange(i, j)) > u32::MAX {
        None
    } else {
        Some((digits_val(s.subrange(i, j)) as u32, j))
    }
}

fn scan_digits_exec(s: &[u8], i: usize) -> (j: usize)
    requires
        i <= s@.len(),
    ensures
        j as int == scan_digits(s@, i as int),
        i <= j <= s@.len(),
    decreases s@.len() - i,
{
    let n = s.len();
    let mut j = i;
    while j < n && 48 <= s[j] && s[j] <= 57
        invariant
            i <= j <= n,
            n == s@.len(),
            scan_digits(s@, i as int) == scan_digits(s@, j as int),
        decreases n - j,
    {
        j = j + 1;
    }
    j
}

/// Reads the unsigned integer literal at position `i`.
fn parse_u32_at(s: &[u8], i: usize) -> (r: Result<(u32, usize), usize>)
    requires
        i <= s@.len(),
    ensures
        match r {
            Ok(p) => spec_parse_u32(s@, i as int) == Some((p.0, p.1 as int)) && i < p.1 <= s@.len(),
            Err(_) => spec_parse_u32(s@, i as int) is None,
        },
{
    let j = scan_digits_exec(s, i);
    proof {
        lemma_scan_digits_bounds(s@, i as int);
    }
    if j == i {
        return Err(i);
    }
    let mut val: u64 = 0;
    let mut k = i;
    while k < j
        invariant
            i <= k <= j <= s@.len(),
            i < j,
            j as int == scan_digits(s@, i as int),
            val <= u32::MAX,
            val == digits_val(s@.subrange(i as int, k as int)),
            forall|t: int| i <= t < j ==> is_digit(s@[t]),
        decreases j - k,
    {
        let d: u8 = s[k];
        proof {
            lemma_digits_val_step(s@, i as int, k as int);
        }
        let next: u64 = val * 10 + (d - 48) as u64;
        if next > 0xFFFF_FFFF {
            proof {
                lemma_digits_val_extend(s@, i as int, k as int + 1, j as int);
            }
            return Err(k);
        }
        val = next;
        k = k + 1;
    }
    assert(s@.subrange(i as int, k as int) =~= s@.subrange(i as int, j as int));
    Ok((val as u32, j))
}

/// The dimensions named by an inclusive range: `start`, `start + step`, and
/// so on, up to the last value at most `end`.
pub open spec fn range_seq(start: int, end: int, step: int) -> Seq<u32>
    recommends
        1 <= step,
        0 <= start <= u32::MAX,
        0 <= end <= u32::MAX,
    decreases (if start > end { 0int } else { end - start + 1 }) when step >= 1
{
    if start > end {
        Seq::empty()
    } else {
        seq![start as u32] + range_seq(start + step, end, step)
    }
}

/// Expands an inclusive `(start, end, step)` range into the ordered list of
/// the dimensions it names.
pub fn generate_values(args: (u32, u32, u32)) -> (r: Vec<u32>)
    requires
        args.2 >= 1,
    ensures
        r@ == range_seq(args.0 as int, args.1 as int, args.2 as int),
{
    let (start, end, step) = args;
    let mut out: Vec<u32> = Vec::new();
    let mut cur: u64 = start as u64;
    while cur <= end as u64
        invariant
            step >= 1,
            range_seq(start as int, end as int, step as int)
                == out@ + range_seq(cur as int, end as int, step as int),
        decreases (if cur > end { 0int } else { end as int - cur as int + 1 }),
    {
        let ghost prev = out@;
        out.push(cur as u32);
        proof {
            assert(out@ + range_seq(cur as int + step as int, end as int, step as int)
                =~= prev + range_seq(cur as int, end as int, step as int));
        }
        cur = cur + step as u64;
    }
    assert(out@ + range_seq(cur as int, end as int, step as int) =~= out@);
    out
}

/// The meaning of a dimension list at position `i`: a single integer, or an
/// inclusive range `start:end` with an optional `:step`.  A step of zero is
/// rejected as a parse error.
pub open spec fn spec_parse_size(s: Seq<u8>, i: int) -> Option<(Seq<u32>, int)>
    recommends
        0 <= i <= s.len(),
{
    match spec_parse_u32(s, i) {
        None => None,
        Some((start, j)) => if j < s.len() && s[j] == 58 {
            match spec_parse_u32(s, j + 1) {
                None => None,
                Some((end, k)) => if k < s.len() && s[k] == 58 {
                    match spec_parse_u32(s, k + 1) {
                        None => None,
                        Some((step, m)) => if step == 0 {
                            None
                        } else {
                            Some((range_seq(start as int, end as int, step as int), m))
                        },
                    }
                } else {
                    Some((range_seq(start as int, end as int, 1), k))
                },
            }
        } else {
            Some((seq![start], j))
        },
    }
}

/// Every width in `ws` paired with every height in `hs`: width outer, height
/// inner.
pub open spec fn pair_row(w: u32, hs: Seq<u32>) -> Seq<(u32, u32)> {
    Seq::new(hs.len(), |t: int| (w, hs[t]))
}

pub open spec fn cross(ws: Seq<u32>, hs: Seq<u32>) -> Seq<(u32, u32)>
    decreases ws.len(),
{
    if ws.len() == 0 {
        Seq::empty()
    } else {
        pair_row(ws[0], hs) + cross(ws.drop_first(), hs)
    }
}

pub proof fn lemma_cross_push(ws: Seq<u32>, w: u32, hs: Seq<u32>)
    ensures
        cross(ws.push(w), hs) == cross(ws, hs) + pair_row(w, hs),
    decreases ws.len(),
{
    if ws.len() == 0 {
        assert(ws.push(w).drop_first() =~= ws);
        assert(ws.push(w)[0] == w);
        assert(cross(ws, hs) =~= Seq::<(u32, u32)>::empty());
        assert(cross(ws.push(w), hs) =~= cross(ws, hs) + pair_row(w, hs));
    } else {
        assert(ws.push(w).drop_first() =~= ws.drop_first().push(w));
        lemma_cross_push(ws.drop_first(), w, hs);
        assert(cross(ws.push(w), hs) =~= cross(ws, hs) + pair_row(w, hs));
    }
}

/// The meaning of a `sizes` production at position `i`: two dimension lists
/// joined by `x` form their cross product; a lone list is crossed with
/// itself.
pub open spec fn spec_parse_sizes(s: Seq<u8>, i: int) -> Option<(Seq<(u32, u32)>, int)>
    recommends
        0 <= i <= s.len(),
{
    match spec_parse_size(s, i) {
        None => None,
        Some((ws, j)) => if j < s.len() && s[j] == 120 {
            match spec_parse_size(s, j + 1) {
                None => None,
                Some((hs, k)) => Some((cross(ws, hs), k)),
            }
        } else {
            Some((cross(ws, ws), j))
        },
    }
}

/// Both orientations of every pair, in order: `(w, h)` then `(h, w)`.
pub open spec fn both_orients(ps: Seq<(u32, u32)>) -> Seq<(u32, u32)> {
    Seq::new(2 * ps.len(), |t: int| if t % 2 == 0 {
        ps[t / 2]
    } else {
        (ps[t / 2].1, ps[t / 2].0)
    })
}

/// The meaning of one resolution expression: a `sizes` production, or a
/// bracketed `sizes` production expanded to both orientations.
pub open spec fn spec_parse_resolution(s: Seq<u8>, i: int) -> Option<(Seq<(u32, u32)>, int)>
    recommends
        0 <= i <= s.len(),
{
    if i < s.len() && s[i] == 91 {
        match spec_parse_sizes(s, i + 1) {
            None => None,
            Some((ps, j)) => if j < s.len() && s[j] == 93 {
                Some((both_orients(ps), j + 1))
            } else {
                None
            },
        }
    } else {
        spec_parse_sizes(s, i)
    }
}

/// The meaning of the comma-separated union of resolution expressions
/// starting at position `i`.  Whitespace is allowed after each comma.  The
/// two guards on positions can never fail (every production consumes at
/// least one byte); they only make the recursion visibly well-founded.
pub open spec fn spec_parse_resolutions(s: Seq<u8>, i: int) -> Option<(Seq<(u32, u32)>, int)>
    decreases s.len() - i when 0 <= i <= s.len()
{
    match spec_parse_resolution(s, i) {
        None => None,
        Some((ps, j)) => if !(i < j <= s.len()) {
            None
        } else if j < s.len() && s[j] == 44 {
            let k = skip_spaces(s, j + 1);
            if !(j < k <= s.len()) {
                None
            } else {
                match spec_parse_resolutions(s, k) {
                    None => None,
                    Some((rest, m)) => Some((ps + rest, m)),
                }
            }
        } else {
            Some((ps, j))
        },
    }
}

/// The meaning of a whole specification string: the union of its resolution
/// expressions, provided they span the entire input.
pub open spec fn spec_parse_spec(s: Seq<u8>) -> Option<Seq<(u32, u32)>> {
    match spec_parse_resolutions(s, 0) {
        None => None,
        Some((ps, j)) => if j == s.len() {
            Some(ps)
        } else {
            None
        },
    }
}

fn parse_size_at(s: &[u8], i: usize) -> (r: Result<(Vec<u32>, usize), usize>)
    requires
        i <= s@.len(),
    ensures
        match r {
            Ok(p) => spec_parse_size(s@, i as int) == Some((p.0@, p.1 as int)) && i < p.1
                <= s@.len(),
            Err(_) => spec_parse_size(s@, i as int) is None,
        },
{
    let (start, j) = match parse_u32_at(s, i) {
        Ok(p) => p,
        Err(e) => {
            return Err(e);
        },
    };
    if j < s.len() && s[j] == 58 {
        let (end, k) = match parse_u32_at(s, j + 1) {
            Ok(p) => p,
            Err(e) => {
                return Err(e);
            },
        };
        if k < s.len() && s[k] == 58 {
            let (step, m) = match parse_u32_at(s, k + 1) {
                Ok(p) => p,
                Err(e) => {
                    return Err(e);
                },
            };
            if step == 0 {
                return Err(k + 1);
            }
            Ok((generate_values((start, end, step)), m))
        } else {
            Ok((generate_values((start, end, 1)), k))
        }
    } else {
        let mut out: Vec<u32> = Vec::new();
        out.push(start);
        assert(out@ =~= seq![start]);
        Ok((out, j))
    }
}

fn cross_exec(ws: &Vec<u32>, hs: &Vec<u32>) -> (r: Vec<(u32, u32)>)
    ensures
        r@ == cross(ws@, hs@),
{
    let mut out: Vec<(u32, u32)> = Vec::new();
    let mut i: usize = 0;
    assert(ws@.subrange(0, 0) =~= Seq::<u32>::empty());
    while i < ws.len()
        invariant
            i <= ws@.len(),
            out@ == cross(ws@.subrange(0, i as int), hs@),
        decreases ws@.len() - i,
    {
        let w = ws[i];
        let ghost before = out@;
        let mut j: usize = 0;
        while j < hs.len()
            invariant
                j <= hs@.len(),
                out@.len() == before.len() + j,
                forall|t: int| 0 <= t < before.len() ==> out@[t] == before[t],
                forall|t: int| 0 <= t < j ==> out@[before.len() + t] == (w, hs@[t]),
            decreases hs@.len() - j,
        {
            let h = hs[j];
            out.push((w, h));
            j = j + 1;
        }
        proof {
            assert(out@ =~= before + pair_row(w, hs@));
            lemma_cross_push(ws@.subrange(0, i as int), w, hs@);
            assert(ws@.subrange(0, i as int).push(w) =~= ws@.subrange(0, i as int + 1));
        }
        i = i + 1;
    }
    assert(ws@.subrange(0, ws@.len() as int) =~= ws@);
    out
}

fn parse_sizes_at(s: &[u8], i: usize) -> (r: Result<(Vec<(u32, u32)>, usize), usize>)
    requires
        i <= s@.len(),
    ensures
        match r {
            Ok(p) => spec_parse_sizes(s@, i as int) == Some((p.0@, p.1 as int)) && i < p.1
                <= s@.len(),
            Err(_) => spec_parse_sizes(s@, i as int) is None,
        },
{
    let (ws, j) = match parse_size_at(s, i) {
        Ok(p) => p,
        Err(e) => {
            return Err(e);
        },
    };
    if j < s.len() && s[j] == 120 {
        let (hs, k) = match parse_size_at(s, j + 1) {
            Ok(p) => p,
            Err(e) => {
                return Err(e);
            },
        };
        Ok((cross_exec(&ws, &hs), k))
    } else {
        Ok((cross_exec(&ws, &ws), j))
    }
}

fn parse_resolution_at(s: &[u8], i: usize) -> (r: Result<(Vec<(u32, u32)>, usize), usize>)
    requires
        i <= s@.len(),
    ensures
        match r {
            Ok(p) => spec_parse_resolution(s@, i as int) == Some((p.0@, p.1 as int)) && i < p.1
                <= s@.len(),
            Err(_) => spec_parse_resolution(s@, i as int) is None,
        },
{
    if i < s.len() && s[i] == 91 {
        let (ps, j) = match parse_sizes_at(s, i + 1) {
            Ok(p) => p,
            Err(e) => {
                return Err(e);
            },
        };
        if j < s.len() && s[j] == 93 {
            let mut out: Vec<(u32, u32)> = Vec::new();
            let mut t: usize = 0;
            while t < ps.len()
                invariant
                    t <= ps@.len(),
                    out@.len() == 2 * t,
                    forall|u: int| 0 <= u < out@.len() ==> out@[u] == both_orients(ps@)[u],
                decreases ps@.len() - t,
            {
                let (w, h) = ps[t];
                out.push((w, h));
                out.push((h, w));
                t = t + 1;
            }
            assert(out@ =~= both_orients(ps@));
            Ok((out, j + 1))
        } else {
            Err(j)
        }
    } else {
        parse_sizes_at(s, i)
    }
}

fn parse_resolutions_at(s: &[u8], i: usize) -> (r: Result<(Vec<(u32, u32)>, usize), usize>)
    requires
        i <= s@.len(),
    ensures
        match r {
            Ok(p) => spec_parse_resolutions(s@, i as int) == Some((p.0@, p.1 as int)) && i < p.1
                <= s@.len(),
            Err(_) => spec_parse_resolutions(s@, i as int) is None,
        },
    decreases s@.len() - i,
{
    let (mut ps, j) = match parse_resolution_at(s, i) {
        Ok(p) => p,
        Err(e) => {
            return Err(e);
        },
    };
    if j < s.len() && s[j] == 44 {
        let mut k = j + 1;
        while k < s.len() && (s[k] == 32 || s[k] == 9 || s[k] == 10 || s[k] == 13)
            invariant
                j + 1 <= k <= s@.len(),
                skip_spaces(s@, j + 1 as int) == skip_spaces(s@, k as int),
            decreases s@.len() - k,
        {
            k = k + 1;
        }
        let (mut rest, m) = match parse_resolutions_at(s, k) {
            Ok(p) => p,
            Err(e) => {
                return Err(e);
            },
        };
        ps.append(&mut rest);
        Ok((ps, m))
    } else {
        Ok((ps, j))
    }
}

/// Parses a whole resolution specification string (as bytes) into the flat
/// list of (width, height) pairs it denotes, in grammar order.  Fails, with
/// the byte offset at which parsing stopped, exactly when the input does not
/// match the grammar.
pub fn parse_resolutions(input: &[u8]) -> (r: Result<Vec<(u32, u32)>, ParseError>)
    ensures
        match r {
            Ok(ps) => spec_parse_spec(input@) == Some(ps@),
            Err(_) => spec_parse_spec(input@) is None,
        },
{
    match parse_resolutions_at(input, 0) {
        Ok((ps, j)) => {
            if j == input.len() {
                Ok(ps)
            } else {
                Err(ParseError { offset: j })
            }
        },
        Err(offset) => Err(ParseError { offset }),
    }
}

} // verus!
