use vstd::prelude::*;
use vstd::string::StrSliceExecFns;
use vstd::string::StringSliceAdditionalSpecFns;
use crate::errors::Fault;

verus! {

pub open spec fn is_digit(b: u8) -> bool {
    48 <= b <= 57
}

pub open spec fn all_digits(s: Seq<u8>) -> bool {
    forall|i: int| 0 <= i < s.len() ==> is_digit(#[trigger] s[i])
}

/// The numeric value of a digit string, most significant digit first.
pub open spec fn digits_val(s: Seq<u8>) -> int
    decreases s.len(),
{
    if s.len() == 0 {
        0
    } else {
        digits_val(s.drop_last()) * 10 + (s.last() - 48)
    }
}

/// The text of an unsigned decimal literal after its optional plus sign.
pub open spec fn after_sign(s: Seq<u8>) -> Seq<u8> {
    if s.len() > 0 && s[0] == 43 {
        s.skip(1)
    } else {
        s
    }
}

/// Whether `s` is accepted as a range bound: an optional `+`, then one or
/// more decimal digits, with a value that fits the seed type.
pub open spec fn u32_text_ok(s: Seq<u8>) -> bool {
    let d = after_sign(s);
    d.len() > 0 && all_digits(d) && digits_val(d) <= u32::MAX
}

pub open spec fn u32_text_val(s: Seq<u8>) -> int {
    digits_val(after_sign(s))
}

/// Index of the first `-` in `s`, or `-1` when there is none.
pub open spec fn first_dash(s: Seq<u8>) -> int
    decreases s.len(),
{
    if s.len() == 0 {
        -1
    } else if s[0] == 45 {
        0
    } else {
        let t = first_dash(s.skip(1));
        if t == -1 {
            -1
        } else {
            t + 1
        }
    }
}

/// `s` split on every `-`, empty parts included.
pub open spec fn split_dash(s: Seq<u8>) -> Seq<Seq<u8>>
    decreases s.len(),
{
    let i = first_dash(s);
    if i < 0 || i >= s.len() {
        seq![s]
    } else {
        seq![s.take(i)] + split_dash(s.skip(i + 1))
    }
}

/// What a seed range text means: `N` is the range `(0, N)`, `N-M` the range
/// `(N, M)` provided `N <= M`; a part that is not a number in range is a
/// number error, an inverted range an order error, any other shape a format
/// error.
pub open spec fn parse_seed_spec(b: Seq<u8>) -> Result<(u32, u32), Fault> {
    let parts = split_dash(b);
    if exists|k: int| 0 <= k < parts.len() && !u32_text_ok(#[trigger] parts[k]) {
        Err(Fault::InvalidSeedNumber)
    } else if parts.len() == 1 {
        Ok((0, u32_text_val(parts[0]) as u32))
    } else if parts.len() == 2 {
        if u32_text_val(parts[0]) > u32_text_val(parts[1]) {
            Err(Fault::InvalidSeedOrder)
        } else {
            Ok((u32_text_val(parts[0]) as u32, u32_text_val(parts[1]) as u32))
        }
    } else {
        Err(Fault::InvalidSeedFormat)
    }
}

proof fn lemma_digits_val_nonneg(s: Seq<u8>)
    requires
        all_digits(s),
    ensures
        digits_val(s) >= 0,
    decreases s.len(),
{
    if s.len() > 0 {
        assert(all_digits(s.drop_last())) by {
            assert(forall|i: int|
                0 <= i < s.drop_last().len() ==> s.drop_last()[i] == #[trigger] s[i]);
        }
        lemma_digits_val_nonneg(s.drop_last());
    }
}

/// A digit string is worth at least any of its prefixes.
proof fn lemma_digits_val_prefix(s: Seq<u8>, m: int)
    requires
        all_digits(s),
        0 <= m <= s.len(),
    ensures
        digits_val(s.take(m)) <= digits_val(s),
    decreases s.len() - m,
{
    if m < s.len() {
        lemma_digits_val_prefix(s, m + 1);
        let t = s.take(m + 1);
        assert(all_digits(t)) by {
            assert(forall|i: int| 0 <= i < t.len() ==> t[i] == #[trigger] s[i]);
        }
        assert(t.drop_last() =~= s.take(m));
        assert(all_digits(t.drop_last()));
        lemma_digits_val_nonneg(t.drop_last());
        assert(digits_val(t) == digits_val(s.take(m)) * 10 + (t.last() - 48));
        assert(t.last() == s[m]);
        assert(digits_val(s.take(m)) <= digits_val(t));
    } else {
        assert(s.take(m) =~= s);
    }
}

/// Parses the decimal number in `v[lo..hi]`, exactly when it is one.
fn parse_u32_part(v: &Vec<u8>, lo: usize, hi: usize) -> (r: Result<u32, Fault>)
    requires
        lo <= hi <= v@.len(),
    ensures
        ({
            let part = v@.subrange(lo as int, hi as int);
            &&& r is Ok <==> u32_text_ok(part)
            &&& r matches Ok(x) ==> x == u32_text_val(part)
            &&& r is Err ==> r == Err::<u32, Fault>(Fault::InvalidSeedNumber)
        }),
{
    let ghost part = v@.subrange(lo as int, hi as int);
    let mut p = lo;
    if p < hi && v[p] == 43u8 {
        p = p + 1;
    }
    let ghost d = v@.subrange(p as int, hi as int);
    proof {
        if part.len() > 0 && part[0] == 43 {
            assert(p == lo + 1);
            assert(after_sign(part) =~= d);
        } else {
            assert(p == lo);
            assert(after_sign(part) =~= d);
        }
        assert(after_sign(part) == d);
    }
    if p == hi {
        return Err(Fault::InvalidSeedNumber);
    }
    let mut acc: u64 = 0;
    let mut i = p;
    while i < hi
        invariant
            p <= i <= hi <= v@.len(),
            part == v@.subrange(lo as int, hi as int),
            d == v@.subrange(p as int, hi as int),
            after_sign(part) == d,
            all_digits(v@.subrange(p as int, i as int)),
            acc == digits_val(v@.subrange(p as int, i as int)),
            acc <= u32::MAX,
        decreases hi - i,
    {
        let b = v[i];
        let ghost pre = v@.subrange(p as int, i as int);
        if b < 48 || b > 57 {
            proof {
                assert(d[i - p] == b);
                assert(!is_digit(d[i - p]));
                assert(!all_digits(d));
            }
            return Err(Fault::InvalidSeedNumber);
        }
        acc = acc * 10 + (b - 48) as u64;
        proof {
            assert(v@.subrange(p as int, i + 1).drop_last() =~= pre);
            assert(v@.subrange(p as int, i + 1).last() == b);
            assert(all_digits(v@.subrange(p as int, i + 1))) by {
                assert(forall|k: int|
                    0 <= k < pre.len() ==> pre[k] == #[trigger] v@.subrange(p as int, i + 1)[k]);
            }
        }
        if acc > 0xffff_ffffu64 {
            proof {
                if u32_text_ok(part) {
                    assert(all_digits(d));
                    lemma_digits_val_prefix(d, i + 1 - p);
                    assert(d.take(i + 1 - p) =~= v@.subrange(p as int, i + 1));
                    assert(digits_val(d) >= digits_val(v@.subrange(p as int, i + 1)));
                    assert(false);
                }
            }
            return Err(Fault::InvalidSeedNumber);
        }
        i = i + 1;
    }
    proof {
        assert(v@.subrange(p as int, i as int) =~= d);
    }
    Ok(acc as u32)
}

proof fn lemma_first_dash_from_scan(u: Seq<u8>, j: int)
    requires
        0 <= j <= u.len(),
        forall|k: int| 0 <= k < j ==> u[k] != 45,
        j < u.len() ==> u[j] == 45,
    ensures
        first_dash(u) == if j == u.len() {
            -1int
        } else {
            j
        },
    decreases u.len(),
{
    if u.len() > 0 && u[0] != 45 {
        assert(j > 0);
        assert forall|k: int| 0 <= k < j - 1 implies u.skip(1)[k] != 45 by {
            assert(u.skip(1)[k] == u[k + 1]);
        }
        assert(j - 1 < u.skip(1).len() ==> u.skip(1)[j - 1] == 45);
        lemma_first_dash_from_scan(u.skip(1), j - 1);
    }
}

proof fn lemma_split_len(u: Seq<u8>)
    ensures
        1 <= split_dash(u).len() <= u.len() + 1,
    decreases u.len(),
{
    let i = first_dash(u);
    if 0 <= i < u.len() {
        lemma_split_len(u.skip(i + 1));
    }
}

/// Seed range parsing, as the run command reads its first argument:
/// `"N"` means seeds `0` through `N`, `"N-M"` seeds `N` through `M`.
/// Exactly [`parse_seed_spec`] on the text's bytes.
pub fn parse_seed(s: &str) -> (r: Result<(u32, u32), Fault>)
    requires
        s.spec_bytes().len() < usize::MAX,
    ensures
        r == parse_seed_spec(s.spec_bytes()),
{
    let v = s.as_bytes_vec();
    let ghost parts = split_dash(v@);
    proof {
        lemma_split_len(v@);
        assert(v@.skip(0) =~= v@);
        assert(parts.skip(0) =~= parts);
    }
    let mut p: usize = 0;
    let mut cnt: usize = 0;
    let mut v0: u32 = 0;
    let mut v1: u32 = 0;
    let mut done = false;
    while !done
        invariant
            v@ == s.spec_bytes(),
            v@.len() < usize::MAX,
            parts == split_dash(v@),
            1 <= parts.len() <= v@.len() + 1,
            p <= v@.len(),
            cnt <= parts.len(),
            !done ==> split_dash(v@.skip(p as int)) == parts.skip(cnt as int),
            !done ==> cnt < parts.len(),
            done ==> cnt == parts.len(),
            forall|k: int| 0 <= k < cnt ==> u32_text_ok(#[trigger] parts[k]),
            cnt >= 1 ==> v0 == u32_text_val(parts[0]),
            cnt >= 2 ==> v1 == u32_text_val(parts[1]),
        decreases v@.len() - p + (if done {
            0int
        } else {
            1int
        }),
    {
        let ghost tail = v@.skip(p as int);
        let mut q = p;
        while q < v.len() && v[q] != 45u8
            invariant
                p <= q <= v@.len(),
                v@ == s.spec_bytes(),
                forall|k: int| p <= k < q ==> v@[k] != 45,
            decreases v@.len() - q,
        {
            q = q + 1;
        }
        proof {
            assert forall|k: int| 0 <= k < q - p implies tail[k] != 45 by {
                assert(tail[k] == v@[p + k]);
            }
            assert(q - p < tail.len() ==> tail[q - p] == 45);
            lemma_first_dash_from_scan(tail, q - p);
            assert(parts.skip(cnt as int)[0] == parts[cnt as int]);
            if q == v.len() {
                assert(split_dash(tail) == seq![tail]);
                assert(seq![tail][0] == tail);
                assert(parts[cnt as int] == tail);
                assert(tail =~= v@.subrange(p as int, q as int));
            } else {
                assert(split_dash(tail) == seq![tail.take(q - p)] + split_dash(
                    tail.skip(q - p + 1),
                ));
                assert((seq![tail.take(q - p)] + split_dash(tail.skip(q - p + 1)))[0] == tail.take(
                    q - p,
                ));
                assert(parts[cnt as int] == tail.take(q - p));
                assert(tail.take(q - p) =~= v@.subrange(p as int, q as int));
            }
            assert(parts[cnt as int] == v@.subrange(p as int, q as int));
        }
        let x = match parse_u32_part(&v, p, q) {
            Ok(x) => x,
            Err(e) => {
                proof {
                    assert(!u32_text_ok(parts[cnt as int]));
                }
                return Err(e);
            },
        };
        if cnt == 0 {
            v0 = x;
        } else if cnt == 1 {
            v1 = x;
        }
        let ghost cnt0 = cnt as int;
        cnt = cnt + 1;
        proof {
            assert forall|k: int| 0 <= k < cnt implies u32_text_ok(#[trigger] parts[k]) by {}
        }
        if q == v.len() {
            proof {
                assert(split_dash(tail) == seq![tail]);
                assert(parts.skip(cnt0).len() == 1);
                assert(cnt == parts.len());
            }
            done = true;
        } else {
            proof {
                let rest = split_dash(tail.skip(q - p + 1));
                assert(parts.skip(cnt0) == seq![tail.take(q - p)] + rest);
                assert((seq![tail.take(q - p)] + rest).skip(1) =~= rest);
                assert(parts.skip(cnt0).skip(1) =~= parts.skip(cnt0 + 1));
                assert(parts.skip(cnt as int) == rest);
                assert(tail.skip(q - p + 1) =~= v@.skip(q + 1));
                assert(split_dash(v@.skip(q + 1)) == parts.skip(cnt as int));
                lemma_split_len(v@.skip(q + 1));
                assert(parts.skip(cnt as int).len() >= 1);
                assert(cnt < parts.len());
            }
            p = q + 1;
        }
    }
    proof {
        if cnt >= 1 {
            lemma_digits_val_nonneg(after_sign(parts[0]));
        }
        if cnt >= 2 {
            lemma_digits_val_nonneg(after_sign(parts[1]));
        }
    }
    if cnt == 1 {
        Ok((0, v0))
    } else if cnt == 2 {
        if v0 > v1 {
            Err(Fault::InvalidSeedOrder)
        } else {
            Ok((v0, v1))
        }
    } else {
        Err(Fault::InvalidSeedFormat)
    }
}

} // verus!
