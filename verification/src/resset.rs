//! The normalized candidate set of resolutions.
//!
//! The parsed list of pairs is deduplicated and sorted in strictly
//! descending lexicographic order, and must end up non-empty with every
//! dimension positive; the result is shared read-only by all jobs.

use vstd::prelude::*;

verus! {

/// Strict ascending lexicographic order on (width, height) pairs.
pub open spec fn pair_lt(a: (u32, u32), b: (u32, u32)) -> bool {
    a.0 < b.0 || (a.0 == b.0 && a.1 < b.1)
}

/// Strictly descending: later pairs are strictly smaller, so there are no
/// duplicates.
pub open spec fn sorted_strict_desc(s: Seq<(u32, u32)>) -> bool {
    forall|i: int, j: int| 0 <= i < j < s.len() ==> pair_lt(s[j], s[i])
}

/// No pair has a zero width or height.
pub open spec fn all_nonzero(s: Seq<(u32, u32)>) -> bool {
    forall|i: int| 0 <= i < s.len() ==> (#[trigger] s[i]).0 > 0 && s[i].1 > 0
}

/// A fatal configuration error: the specification denotes no usable set.
#[derive(Debug)]
pub enum ConfigError {
    /// The parsed list held no pair at all.
    EmptySet,
    /// Some pair had a zero width or height.
    ZeroDimension,
}

/// The candidate set: unique pairs in strictly descending order, non-empty,
/// all dimensions positive.  Built once by `normalize` and then read-only.
pub struct ResolutionSet {
    pairs: Vec<(u32, u32)>,
}

impl View for ResolutionSet {
    type V = Seq<(u32, u32)>;

    closed spec fn view(&self) -> Seq<(u32, u32)> {
        self.pairs@
    }
}

impl ResolutionSet {
    /// The invariant every constructed set satisfies.
    pub open spec fn wf(&self) -> bool {
        self@.len() > 0 && sorted_strict_desc(self@) && all_nonzero(self@)
    }

    /// The pairs, in the set's fixed iteration order.
    pub fn as_pairs(&self) -> (r: &Vec<(u32, u32)>)
        ensures
            r@ == self@,
    {
        &self.pairs
    }
}

/// Deduplicates and sorts the parsed pairs into the candidate set.  Fails
/// exactly when the list is empty or some pair has a zero dimension.
pub fn normalize(pairs: &Vec<(u32, u32)>) -> (r: Result<ResolutionSet, ConfigError>)
    ensures
        match r {
            Ok(set) => set.wf() && set@.to_set() == pairs@.to_set(),
            Err(e) => match e {
                ConfigError::EmptySet => pairs@.len() == 0,
                ConfigError::ZeroDimension => !all_nonzero(pairs@),
            },
        },
        r is Ok <==> pairs@.len() > 0 && all_nonzero(pairs@),
{
    if pairs.len() == 0 {
        return Err(ConfigError::EmptySet);
    }
    let n = pairs.len();
    let mut i: usize = 0;
    while i < n
        invariant
            i <= n,
            n == pairs@.len(),
            forall|t: int| 0 <= t < i ==> (#[trigger] pairs@[t]).0 > 0 && pairs@[t].1 > 0,
        decreases n - i,
    {
        let (w, h) = pairs[i];
        if w == 0 || h == 0 {
            return Err(ConfigError::ZeroDimension);
        }
        i = i + 1;
    }
    let mut out: Vec<(u32, u32)> = Vec::new();
    let mut i: usize = 0;
    while i < n
        invariant
            i <= n,
            n == pairs@.len(),
            all_nonzero(pairs@),
            sorted_strict_desc(out@),
            forall|x: (u32, u32)|
                #![trigger out@.contains(x)]
                #![trigger pairs@.subrange(0, i as int).contains(x)]
                (out@.contains(x) <==> pairs@.subrange(0, i as int).contains(x)),
        decreases n - i,
    {
        let p = pairs[i];
        let mut lo: usize = 0;
        while lo < out.len() && (out[lo].0 > p.0 || (out[lo].0 == p.0 && out[lo].1 > p.1))
            invariant
                lo <= out@.len(),
                forall|t: int| 0 <= t < lo ==> pair_lt(p, #[trigger] out@[t]),
            decreases out@.len() - lo,
        {
            lo = lo + 1;
        }
        let ghost before = out@;
        if lo < out.len() && out[lo].0 == p.0 && out[lo].1 == p.1 {
            // Exact duplicate: already present.
            proof {
                assert(before.contains(p));
                assert forall|x: (u32, u32)| pairs@.subrange(0, i as int + 1).contains(x)
                    implies out@.contains(x) by {
                    let t = choose|t: int|
                        0 <= t < i + 1 && #[trigger] pairs@.subrange(0, i as int + 1)[t] == x;
                    if t < i {
                        assert(pairs@.subrange(0, i as int)[t] == x);
                    }
                };
                assert forall|x: (u32, u32)| out@.contains(x) implies pairs@.subrange(
                    0,
                    i as int + 1,
                ).contains(x) by {
                    assert(pairs@.subrange(0, i as int).contains(x));
                    let t = choose|t: int| 0 <= t < i && #[trigger] pairs@.subrange(0, i as int)[t] == x;
                    assert(pairs@.subrange(0, i as int + 1)[t] == x);
                };
            }
        } else {
            out.insert(lo, p);
            proof {
                assert forall|u: int, v: int| 0 <= u < v < out@.len() implies pair_lt(
                    out@[v],
                    out@[u],
                ) by {
                    if v < lo {
                        assert(out@[u] == before[u] && out@[v] == before[v]);
                    } else if u > lo {
                        assert(out@[u] == before[u - 1] && out@[v] == before[v - 1]);
                    } else if u == lo && v > lo {
                        assert(out@[v] == before[v - 1]);
                        if lo < before.len() {
                            assert(!pair_lt(p, before[lo as int]));
                            if v - 1 > lo {
                                assert(pair_lt(before[v - 1], before[lo as int]));
                            }
                        }
                    } else if v == lo {
                        assert(out@[u] == before[u]);
                        assert(pair_lt(p, before[u]));
                    } else {
                        // u < lo < v
                        assert(out@[u] == before[u] && out@[v] == before[v - 1]);
                        assert(pair_lt(p, before[u]));
                        if lo < before.len() {
                            assert(!pair_lt(p, before[lo as int]));
                        }
                    }
                };
                assert forall|x: (u32, u32)| pairs@.subrange(0, i as int + 1).contains(x)
                    implies out@.contains(x) by {
                    let t = choose|t: int|
                        0 <= t < i + 1 && #[trigger] pairs@.subrange(0, i as int + 1)[t] == x;
                    if t < i {
                        assert(pairs@.subrange(0, i as int)[t] == x);
                        assert(before.contains(x));
                        let u = choose|u: int| 0 <= u < before.len() && before[u] == x;
                        if u < lo {
                            assert(out@[u] == x);
                        } else {
                            assert(out@[u + 1] == x);
                        }
                    } else {
                        assert(out@[lo as int] == p);
                    }
                };
                assert forall|x: (u32, u32)| out@.contains(x) implies pairs@.subrange(
                    0,
                    i as int + 1,
                ).contains(x) by {
                    let u = choose|u: int| 0 <= u < out@.len() && out@[u] == x;
                    if u == lo {
                        assert(pairs@.subrange(0, i as int + 1)[i as int] == p);
                    } else {
                        if u < lo {
                            assert(before[u] == x);
                        } else {
                            assert(before[u - 1] == x);
                        }
                        assert(pairs@.subrange(0, i as int).contains(x));
                        let t = choose|t: int| 0 <= t < i && #[trigger] pairs@.subrange(0, i as int)[t] == x;
                        assert(pairs@.subrange(0, i as int + 1)[t] == x);
                    }
                };
            }
        }
        i = i + 1;
    }
    proof {
        assert(pairs@.subrange(0, n as int) =~= pairs@);
        assert(out@.contains(pairs@[0]));
        assert(out@.to_set() =~= pairs@.to_set());
        assert forall|t: int| 0 <= t < out@.len() implies (#[trigger] out@[t]).0 > 0
            && out@[t].1 > 0 by {
            assert(out@.contains(out@[t]));
            assert(pairs@.contains(out@[t]));
        };
    }
    Ok(ResolutionSet { pairs: out })
}

/// Two strictly descending sequences with the same elements are the same
/// sequence.
proof fn lemma_sorted_desc_unique(a: Seq<(u32, u32)>, b: Seq<(u32, u32)>)
    requires
        sorted_strict_desc(a),
        sorted_strict_desc(b),
        a.to_set() == b.to_set(),
    ensures
        a == b,
    decreases a.len(),
{
    broadcast use vstd::set::group_set_axioms;

    if a.len() == 0 {
        if b.len() > 0 {
            assert(b.contains(b[0]));
            assert(b.to_set().contains(b[0]));
            assert(a.contains(b[0]));
        }
        assert(a =~= b);
    } else {
        assert(a.contains(a[0]));
        assert(b.to_set().contains(a[0]));
        assert(b.contains(a[0]));
        if b.len() == 0 {
            assert(false);
        }
        let k = choose|k: int| 0 <= k < b.len() && b[k] == a[0];
        assert(b.contains(b[0]));
        assert(b.to_set().contains(b[0]));
        assert(a.to_set().contains(b[0]));
        assert(a.contains(b[0]));
        let m = choose|m: int| 0 <= m < a.len() && a[m] == b[0];
        if k > 0 {
            assert(pair_lt(b[k], b[0]));
        }
        if m > 0 {
            assert(pair_lt(a[m], a[0]));
        }
        assert(a[0] == b[0]);
        let at = a.drop_first();
        let bt = b.drop_first();
        assert forall|x: (u32, u32)| at.contains(x) implies bt.contains(x) by {
            let t = choose|t: int| 0 <= t < at.len() && at[t] == x;
            assert(a[t + 1] == x);
            assert(pair_lt(x, a[0]));
            assert(a.contains(x));
            assert(a.to_set().contains(x));
            assert(b.to_set().contains(x));
            assert(b.contains(x));
            let u = choose|u: int| 0 <= u < b.len() && b[u] == x;
            assert(u != 0);
            assert(bt[u - 1] == x);
        };
        assert forall|x: (u32, u32)| bt.contains(x) implies at.contains(x) by {
            let t = choose|t: int| 0 <= t < bt.len() && bt[t] == x;
            assert(b[t + 1] == x);
            assert(pair_lt(x, b[0]));
            assert(b.contains(x));
            assert(b.to_set().contains(x));
            assert(a.to_set().contains(x));
            assert(a.contains(x));
            let u = choose|u: int| 0 <= u < a.len() && a[u] == x;
            assert(u != 0);
            assert(at[u - 1] == x);
        };
        assert(at.to_set() =~= bt.to_set());
        assert(sorted_strict_desc(at)) by {
            assert forall|i: int, j: int| 0 <= i < j < at.len() implies pair_lt(at[j], at[i]) by {
                assert(at[j] == a[j + 1] && at[i] == a[i + 1]);
            };
        };
        assert(sorted_strict_desc(bt)) by {
            assert forall|i: int, j: int| 0 <= i < j < bt.len() implies pair_lt(bt[j], bt[i]) by {
                assert(bt[j] == b[j + 1] && bt[i] == b[i + 1]);
            };
        };
        lemma_sorted_desc_unique(at, bt);
        assert(a.len() == b.len());
        assert forall|t: int| 0 <= t < a.len() implies a[t] == b[t] by {
            if t > 0 {
                assert(a[t] == at[t - 1]);
                assert(b[t] == bt[t - 1]);
            }
        };
        assert(a =~= b);
    }
}

/// The normalizer is idempotent: a list that is already normalized (strictly
/// descending, non-empty, no zero dimension) is returned unchanged, because
/// any strictly descending list with the same elements is that list itself.
pub proof fn lemma_normalize_idempotent(input: Seq<(u32, u32)>, output: Seq<(u32, u32)>)
    requires
        sorted_strict_desc(input),
        sorted_strict_desc(output),
        output.to_set() == input.to_set(),
    ensures
        output == input,
{
    lemma_sorted_desc_unique(output, input);
}

} // verus!
