use vstd::prelude::*;
use vstd::string::StrSliceExecFns;
use vstd::string::StringExecFns;

verus! {

/// Equality of two string slices, decided by their character sequences.
pub fn str_eq(a: &str, b: &str) -> (r: bool)
    ensures
        r == (a@ == b@),
{
    let x = a.to_owned();
    let y = b.to_owned();
    x == y
}

pub open spec fn digit_char(d: int) -> char {
    if d == 0 {
        '0'
    } else if d == 1 {
        '1'
    } else if d == 2 {
        '2'
    } else if d == 3 {
        '3'
    } else if d == 4 {
        '4'
    } else if d == 5 {
        '5'
    } else if d == 6 {
        '6'
    } else if d == 7 {
        '7'
    } else if d == 8 {
        '8'
    } else {
        '9'
    }
}

/// The decimal digits of `n`, most significant first, no leading zero
/// except for `n == 0` itself.
pub open spec fn dec_rep(n: nat) -> Seq<char>
    decreases n,
{
    if n < 10 {
        seq![digit_char(n as int)]
    } else {
        dec_rep(n / 10).push(digit_char((n % 10) as int))
    }
}

fn digit_str(d: u64) -> (r: &'static str)
    requires
        d < 10,
    ensures
        r@ =~= seq![digit_char(d as int)],
{
    proof {
        reveal_strlit("0");
        reveal_strlit("1");
        reveal_strlit("2");
        reveal_strlit("3");
        reveal_strlit("4");
        reveal_strlit("5");
        reveal_strlit("6");
        reveal_strlit("7");
        reveal_strlit("8");
        reveal_strlit("9");
    }
    match d {
        0 => "0",
        1 => "1",
        2 => "2",
        3 => "3",
        4 => "4",
        5 => "5",
        6 => "6",
        7 => "7",
        8 => "8",
        _ => "9",
    }
}

/// `n` written in decimal.
pub fn u64_to_dec(n: u64) -> (r: String)
    ensures
        r@ == dec_rep(n as nat),
    decreases n,
{
    if n < 10 {
        let r = digit_str(n).to_owned();
        proof {
            assert(r@ =~= dec_rep(n as nat));
        }
        r
    } else {
        let mut s = u64_to_dec(n / 10);
        s.append(digit_str(n % 10));
        proof {
            assert(s@ =~= dec_rep(n as nat));
        }
        s
    }
}

pub open spec fn zeros(k: nat) -> Seq<char> {
    Seq::new(k, |i: int| '0')
}

/// `n` in decimal, left-padded with zeros to at least four digits.
pub open spec fn dec_rep04(n: nat) -> Seq<char> {
    let pad: nat = if n < 10 {
        3
    } else if n < 100 {
        2
    } else if n < 1000 {
        1
    } else {
        0
    };
    zeros(pad) + dec_rep(n)
}

/// `n` written in decimal, zero-padded to width four.
pub fn u64_to_dec04(n: u64) -> (r: String)
    ensures
        r@ == dec_rep04(n as nat),
{
    let p: &'static str = if n < 10 {
        "000"
    } else if n < 100 {
        "00"
    } else if n < 1000 {
        "0"
    } else {
        ""
    };
    proof {
        reveal_strlit("000");
        reveal_strlit("00");
        reveal_strlit("0");
        reveal_strlit("");
        assert(n < 10 ==> p@ =~= zeros(3));
        assert(!(n < 10) && n < 100 ==> p@ =~= zeros(2));
        assert(!(n < 100) && n < 1000 ==> p@ =~= zeros(1));
        assert(!(n < 1000) ==> p@ =~= zeros(0));
    }
    let d = u64_to_dec(n);
    let r = p.to_owned().concat(d.as_str());
    proof {
        assert(r@ =~= dec_rep04(n as nat));
    }
    r
}

/// `s` with every non-overlapping occurrence of `p`, found left to right,
/// replaced by `r`.
pub open spec fn replaced(s: Seq<char>, p: Seq<char>, r: Seq<char>) -> Seq<char>
    decreases s.len(),
    when p.len() > 0
{
    if s.len() == 0 {
        Seq::empty()
    } else if p.len() <= s.len() && s.take(p.len() as int) == p {
        r + replaced(s.skip(p.len() as int), p, r)
    } else {
        seq![s[0]] + replaced(s.skip(1), p, r)
    }
}

/// Replaces every non-overlapping occurrence of `pat` in `s` by `rep`,
/// scanning left to right.
pub fn replace_all(s: &str, pat: &str, rep: &str) -> (res: String)
    requires
        pat@.len() > 0,
    ensures
        res@ == replaced(s@, pat@, rep@),
{
    let n = s.unicode_len();
    let plen = pat.unicode_len();
    let mut out = String::new();
    let mut i: usize = 0;
    proof {
        assert(s@.skip(0) =~= s@);
        assert(out@ + replaced(s@.skip(0), pat@, rep@) =~= replaced(s@, pat@, rep@));
    }
    while i < n
        invariant
            i <= n,
            n == s@.len(),
            plen == pat@.len(),
            plen > 0,
            out@ + replaced(s@.skip(i as int), pat@, rep@) == replaced(s@, pat@, rep@),
        decreases n - i,
    {
        let ghost outg = out@;
        let ghost tail = s@.skip(i as int);
        let mut matched = false;
        if plen <= n - i {
            matched = true;
            let mut j: usize = 0;
            while j < plen && matched
                invariant
                    j <= plen,
                    plen <= n - i,
                    i <= n,
                    n == s@.len(),
                    plen == pat@.len(),
                    matched ==> forall|k: int| 0 <= k < j ==> s@[i + k] == pat@[k],
                    !matched ==> exists|k: int| 0 <= k < plen && s@[i + k] != pat@[k],
                decreases plen - j, (if matched { 1int } else { 0int }),
            {
                if s.get_char(i + j) != pat.get_char(j) {
                    proof {
                        assert(s@[i + j] != pat@[j as int]);
                    }
                    matched = false;
                } else {
                    j = j + 1;
                }
            }
        }
        if matched {
            out.append(rep);
            proof {
                assert(tail.take(plen as int) =~= pat@);
                assert(tail.skip(plen as int) =~= s@.skip(i + plen));
                assert(replaced(tail, pat@, rep@) == rep@ + replaced(
                    s@.skip(i + plen),
                    pat@,
                    rep@,
                ));
                assert(out@ + replaced(s@.skip(i + plen), pat@, rep@) =~= outg + replaced(
                    tail,
                    pat@,
                    rep@,
                ));
            }
            i = i + plen;
        } else {
            let c = s.substring_char(i, i + 1);
            out.append(c);
            proof {
                if plen <= tail.len() && tail.take(plen as int) == pat@ {
                    let k = choose|k: int| 0 <= k < plen && s@[i + k] != pat@[k];
                    assert(tail.take(plen as int)[k] == s@[i + k]);
                    assert(false);
                }
                assert(c@ =~= seq![tail[0]]);
                assert(tail.skip(1) =~= s@.skip(i + 1));
                assert(replaced(tail, pat@, rep@) == seq![tail[0]] + replaced(
                    s@.skip(i + 1),
                    pat@,
                    rep@,
                ));
                assert(out@ + replaced(s@.skip(i + 1), pat@, rep@) =~= outg + replaced(
                    tail,
                    pat@,
                    rep@,
                ));
            }
            i = i + 1;
        }
    }
    proof {
        assert(s@.skip(n as int) =~= Seq::<char>::empty());
        assert(replaced(Seq::<char>::empty(), pat@, rep@) == Seq::<char>::empty());
        assert(out@ + Seq::<char>::empty() =~= out@);
    }
    out
}

/// The seed placeholders of a path template filled in: `{SEED04}` becomes
/// the zero-padded seed, then `{SEED}` the plain decimal seed.
pub fn replace_placeholder(s: &str, seed: u64) -> (r: String)
    ensures
        r@ == replaced(
            replaced(s@, "{SEED04}"@, dec_rep04(seed as nat)),
            "{SEED}"@,
            dec_rep(seed as nat),
        ),
{
    proof {
        reveal_strlit("{SEED04}");
        reveal_strlit("{SEED}");
    }
    let s04 = u64_to_dec04(seed);
    let sd = u64_to_dec(seed);
    let t1 = replace_all(s, "{SEED04}", s04.as_str());
    replace_all(t1.as_str(), "{SEED}", sd.as_str())
}

/// The seed and run-id placeholders of a path template filled in:
/// `{SEED04}`, then `{SEED}`, then `{ID}`.
pub fn replace_placeholder2(s: &str, seed: u64, id: &str) -> (r: String)
    ensures
        r@ == replaced(
            replaced(
                replaced(s@, "{SEED04}"@, dec_rep04(seed as nat)),
                "{SEED}"@,
                dec_rep(seed as nat),
            ),
            "{ID}"@,
            id@,
        ),
{
    proof {
        reveal_strlit("{ID}");
    }
    let t1 = replace_placeholder(s, seed);
    replace_all(t1.as_str(), "{ID}", id)
}

} // verus!
