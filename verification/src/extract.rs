use vstd::prelude::*;
use vstd::string::StrSliceExecFns;
use crate::errors::Fault;
use crate::text::str_eq;
use crate::rex::{pattern_valid, captures_of, match_line};
use vstd::pervasive::VecAdditionalExecFns;

verus! {

pub open spec fn is_digit_ch(c: char) -> bool {
    '0' <= c <= '9'
}

/// Case-insensitive match of `s` against a keyword given in both cases.
pub open spec fn matches_ci(s: Seq<char>, lower: Seq<char>, upper: Seq<char>) -> bool {
    s.len() == lower.len() && forall|i: int|
        0 <= i < s.len() ==> (#[trigger] s[i] == lower[i] || s[i] == upper[i])
}

/// The keyword spellings of an undefined or infinite value.
pub open spec fn is_special(s: Seq<char>) -> bool {
    ||| matches_ci(s, "inf"@, "INF"@)
    ||| matches_ci(s, "infinity"@, "INFINITY"@)
    ||| matches_ci(s, "nan"@, "NAN"@)
}

pub open spec fn strip_sign(s: Seq<char>) -> Seq<char> {
    if s.len() > 0 && (s[0] == '+' || s[0] == '-') {
        s.skip(1)
    } else {
        s
    }
}

pub open spec fn count_dots(s: Seq<char>) -> int
    decreases s.len(),
{
    if s.len() == 0 {
        0
    } else {
        count_dots(s.drop_last()) + if s.last() == '.' {
            1int
        } else {
            0int
        }
    }
}

/// A mantissa: digits with at most one point among them, at least one digit.
pub open spec fn mantissa_ok(s: Seq<char>) -> bool {
    &&& s.len() > 0
    &&& forall|i: int| 0 <= i < s.len() ==> (is_digit_ch(#[trigger] s[i]) || s[i] == '.')
    &&& exists|i: int| 0 <= i < s.len() && is_digit_ch(s[i])
    &&& count_dots(s) <= 1
}

/// An exponent: an optional sign, then one or more digits.
pub open spec fn exp_ok(s: Seq<char>) -> bool {
    let d = strip_sign(s);
    d.len() > 0 && forall|i: int| 0 <= i < d.len() ==> is_digit_ch(#[trigger] d[i])
}

/// Index of the first exponent marker `e` or `E`, or `-1`.
pub open spec fn first_exp(s: Seq<char>) -> int
    decreases s.len(),
{
    if s.len() == 0 {
        -1
    } else if s[0] == 'e' || s[0] == 'E' {
        0
    } else {
        let t = first_exp(s.skip(1));
        if t == -1 {
            -1
        } else {
            t + 1
        }
    }
}

pub open spec fn number_ok(s: Seq<char>) -> bool {
    let i = first_exp(s);
    if i < 0 || i >= s.len() {
        mantissa_ok(s)
    } else {
        mantissa_ok(s.take(i)) && exp_ok(s.skip(i + 1))
    }
}

/// Whether `s` is a floating-point literal as the score parser accepts it:
/// an optional sign, then `inf`, `infinity` or `nan` in any case, or a
/// mantissa with an optional exponent.
pub open spec fn float_text_ok(s: Seq<char>) -> bool {
    let b = strip_sign(s);
    is_special(b) || number_ok(b)
}

/// Case-insensitive comparison of `s` from position `st` on against a
/// keyword spelled out in both cases.
fn eq_ci_from(s: &str, st: usize, lo: &str, up: &str) -> (r: bool)
    requires
        st <= s@.len(),
        lo@.len() == up@.len(),
    ensures
        r == matches_ci(s@.skip(st as int), lo@, up@),
{
    let n = s.unicode_len();
    let m = lo.unicode_len();
    if n - st != m {
        return false;
    }
    let mut j: usize = 0;
    while j < m
        invariant
            j <= m,
            st <= s@.len(),
            n == s@.len(),
            m == lo@.len(),
            m == up@.len(),
            n - st == m,
            forall|k: int| 0 <= k < j ==> (s@[st + k] == lo@[k] || #[trigger] s@[st + k] == up@[k]),
        decreases m - j,
    {
        let c = s.get_char(st + j);
        if c != lo.get_char(j) && c != up.get_char(j) {
            proof {
                assert(s@.skip(st as int)[j as int] == s@[st + j]);
            }
            return false;
        }
        j = j + 1;
    }
    proof {
        assert forall|k: int| 0 <= k < s@.skip(st as int).len() implies (#[trigger] s@.skip(
            st as int,
        )[k] == lo@[k] || s@.skip(st as int)[k] == up@[k]) by {
            assert(s@.skip(st as int)[k] == s@[st + k]);
        }
    }
    true
}

proof fn lemma_first_exp_from_scan(u: Seq<char>, j: int)
    requires
        0 <= j <= u.len(),
        forall|k: int| 0 <= k < j ==> u[k] != 'e' && #[trigger] u[k] != 'E',
        j < u.len() ==> u[j] == 'e' || u[j] == 'E',
    ensures
        first_exp(u) == if j == u.len() {
            -1int
        } else {
            j
        },
    decreases u.len(),
{
    if u.len() > 0 && !(u[0] == 'e' || u[0] == 'E') {
        assert(j > 0);
        assert forall|k: int| 0 <= k < j - 1 implies u.skip(1)[k] != 'e' && #[trigger] u.skip(
            1,
        )[k] != 'E' by {
            assert(u.skip(1)[k] == u[k + 1]);
        }
        assert(j - 1 < u.skip(1).len() ==> u.skip(1)[j - 1] == 'e' || u.skip(1)[j - 1] == 'E');
        lemma_first_exp_from_scan(u.skip(1), j - 1);
    }
}

/// Whether the digits of `s` in `[lo, hi)` form a valid mantissa.
fn mantissa_check(s: &str, lo: usize, hi: usize) -> (r: bool)
    requires
        lo <= hi <= s@.len(),
    ensures
        r == mantissa_ok(s@.subrange(lo as int, hi as int)),
{
    let ghost m = s@.subrange(lo as int, hi as int);
    if lo == hi {
        return false;
    }
    let mut has_digit = false;
    let mut dots: u64 = 0;
    let mut k = lo;
    while k < hi
        invariant
            lo <= k <= hi <= s@.len(),
            m == s@.subrange(lo as int, hi as int),
            forall|i: int| 0 <= i < k - lo ==> (is_digit_ch(#[trigger] m[i]) || m[i] == '.'),
            has_digit <==> exists|i: int| 0 <= i < k - lo && is_digit_ch(m[i]),
            dots == count_dots(m.take(k - lo)),
            dots <= k - lo,
        decreases hi - k,
    {
        let c = s.get_char(k);
        proof {
            assert(m[k - lo] == c);
            assert(m.take(k - lo + 1).drop_last() =~= m.take(k - lo));
            assert(m.take(k - lo + 1).last() == c);
        }
        if c >= '0' && c <= '9' {
            has_digit = true;
        } else if c == '.' {
            dots = dots + 1;
        } else {
            return false;
        }
        k = k + 1;
    }
    proof {
        assert(m.take(k - lo) =~= m);
    }
    has_digit && dots <= 1
}

/// Whether `s` in `[lo, hi)` is a valid exponent part.
fn exp_check(s: &str, lo: usize, hi: usize) -> (r: bool)
    requires
        lo <= hi <= s@.len(),
    ensures
        r == exp_ok(s@.subrange(lo as int, hi as int)),
{
    let ghost e = s@.subrange(lo as int, hi as int);
    let mut p = lo;
    if p < hi {
        let c = s.get_char(p);
        if c == '+' || c == '-' {
            p = p + 1;
        }
    }
    proof {
        assert(strip_sign(e) =~= s@.subrange(p as int, hi as int));
    }
    let ghost d = s@.subrange(p as int, hi as int);
    if p == hi {
        return false;
    }
    let mut k = p;
    while k < hi
        invariant
            lo <= p <= k <= hi <= s@.len(),
            e == s@.subrange(lo as int, hi as int),
            d == s@.subrange(p as int, hi as int),
            strip_sign(e) == d,
            forall|i: int| 0 <= i < k - p ==> is_digit_ch(#[trigger] d[i]),
        decreases hi - k,
    {
        let c = s.get_char(k);
        proof {
            assert(d[k - p] == c);
        }
        if c < '0' || c > '9' {
            proof {
                assert(!is_digit_ch(d[k - p]));
            }
            return false;
        }
        k = k + 1;
    }
    true
}

/// Whether `s` is a floating-point literal, exactly [`float_text_ok`].
pub fn float_text_check(s: &str) -> (r: bool)
    ensures
        r == float_text_ok(s@),
{
    proof {
        reveal_strlit("inf");
        reveal_strlit("INF");
        reveal_strlit("infinity");
        reveal_strlit("INFINITY");
        reveal_strlit("nan");
        reveal_strlit("NAN");
    }
    let n = s.unicode_len();
    let mut st: usize = 0;
    if n > 0 {
        let c = s.get_char(0);
        if c == '+' || c == '-' {
            st = 1;
        }
    }
    let ghost b = s@.skip(st as int);
    proof {
        assert(strip_sign(s@) =~= b);
    }
    if eq_ci_from(s, st, "inf", "INF") {
        return true;
    }
    if eq_ci_from(s, st, "infinity", "INFINITY") {
        return true;
    }
    if eq_ci_from(s, st, "nan", "NAN") {
        return true;
    }
    // scan for the exponent marker
    let mut q = st;
    while q < n && s.get_char(q) != 'e' && s.get_char(q) != 'E'
        invariant
            st <= q <= n,
            n == s@.len(),
            forall|k: int| st <= k < q ==> s@[k] != 'e' && #[trigger] s@[k] != 'E',
        decreases n - q,
    {
        q = q + 1;
    }
    proof {
        assert forall|k: int| 0 <= k < q - st implies b[k] != 'e' && #[trigger] b[k] != 'E' by {
            assert(b[k] == s@[st + k]);
        }
        assert(q - st < b.len() ==> b[q - st] == 'e' || b[q - st] == 'E');
        lemma_first_exp_from_scan(b, q - st);
        if q == n {
            assert(first_exp(b) == -1);
        } else {
            assert(first_exp(b) == q - st);
            assert(b.take(q - st) =~= s@.subrange(st as int, q as int));
            assert(b.skip(q - st + 1) =~= s@.subrange(q + 1, n as int));
        }
        assert(b =~= s@.subrange(st as int, n as int));
    }
    if q == n {
        mantissa_check(s, st, n)
    } else {
        let m = mantissa_check(s, st, q);
        if !m {
            return false;
        }
        exp_check(s, q + 1, n)
    }
}

/// First index in `d` whose key reads `k`, or `-1`.
pub open spec fn find_key(d: Seq<(Seq<char>, Seq<char>)>, k: Seq<char>) -> int
    decreases d.len(),
{
    if d.len() == 0 {
        -1
    } else if d[0].0 == k {
        0
    } else {
        let t = find_key(d.skip(1), k);
        if t == -1 {
            -1
        } else {
            t + 1
        }
    }
}

/// One auxiliary line folded into the data list: a known key has its value
/// replaced in place, a new key is appended, first-seen order kept.
pub open spec fn upsert(
    d: Seq<(Seq<char>, Seq<char>)>,
    k: Seq<char>,
    v: Seq<char>,
) -> Seq<(Seq<char>, Seq<char>)> {
    let i = find_key(d, k);
    if i == -1 {
        d.push((k, v))
    } else {
        d.update(i, (k, v))
    }
}

proof fn lemma_find_key_props(d: Seq<(Seq<char>, Seq<char>)>, k: Seq<char>)
    ensures
        find_key(d, k) >= -1,
        find_key(d, k) == -1 ==> forall|j: int| 0 <= j < d.len() ==> d[j].0 != k,
        find_key(d, k) != -1 ==> 0 <= find_key(d, k) < d.len() && d[find_key(d, k)].0 == k
            && forall|j: int| 0 <= j < find_key(d, k) ==> d[j].0 != k,
    decreases d.len(),
{
    if d.len() > 0 && d[0].0 != k {
        let t = find_key(d.skip(1), k);
        lemma_find_key_props(d.skip(1), k);
        if t != -1 {
            assert(d.skip(1)[t] == d[t + 1]);
            assert forall|j: int| 0 <= j < find_key(d, k) implies d[j].0 != k by {
                if j > 0 {
                    assert(d.skip(1)[j - 1] == d[j]);
                }
            }
        }
        assert forall|j: int| 0 <= j < d.len() && d[j].0 == k implies find_key(d, k) != -1 by {
            if j > 0 {
                assert(d.skip(1)[j - 1].0 == k);
            }
        }
    }
}

pub open spec fn data_view(d: Seq<(String, String)>) -> Seq<(Seq<char>, Seq<char>)> {
    d.map_values(|p: (String, String)| (p.0@, p.1@))
}

pub open spec fn opt_view(o: Option<String>) -> Option<Seq<char>> {
    match o {
        None => None,
        Some(s) => Some(s@),
    }
}

pub open spec fn lines_view(ls: Seq<String>) -> Seq<Seq<char>> {
    ls.map_values(|l: String| l@)
}

/// One diagnostic line folded into the extraction state: the pattern must
/// compile; a non-matching line is ignored; a `score` line must carry a
/// numeric value and sets the score text; any other match upserts its pair.
pub open spec fn ext_step(
    p: Seq<char>,
    st: (Option<Seq<char>>, Seq<(Seq<char>, Seq<char>)>),
    line: Seq<char>,
) -> Result<(Option<Seq<char>>, Seq<(Seq<char>, Seq<char>)>), Fault> {
    if !pattern_valid(p) {
        Err(Fault::InvalidPattern)
    } else {
        match captures_of(p, line) {
            None => Ok(st),
            Some((var, val)) => if var == "score"@ {
                if float_text_ok(val) {
                    Ok((Some(val), st.1))
                } else {
                    Err(Fault::ExtractionFailure)
                }
            } else {
                Ok((st.0, upsert(st.1, var, val)))
            },
        }
    }
}

/// The whole diagnostic output folded line by line, in order.
pub open spec fn ext_fold(p: Seq<char>, lines: Seq<Seq<char>>) -> Result<
    (Option<Seq<char>>, Seq<(Seq<char>, Seq<char>)>),
    Fault,
>
    decreases lines.len(),
{
    if lines.len() == 0 {
        Ok((None, Seq::empty()))
    } else {
        match ext_fold(p, lines.drop_last()) {
            Err(e) => Err(e),
            Ok(st) => ext_step(p, st, lines.last()),
        }
    }
}

proof fn lemma_ext_fold_err_persists(p: Seq<char>, ls: Seq<Seq<char>>, m: int)
    requires
        0 <= m <= ls.len(),
        ext_fold(p, ls.take(m)) is Err,
    ensures
        ext_fold(p, ls) == ext_fold(p, ls.take(m)),
    decreases ls.len() - m,
{
    if m < ls.len() {
        assert(ls.take(m + 1).drop_last() =~= ls.take(m));
        assert(ls.take(m + 1).last() == ls[m]);
        lemma_ext_fold_err_persists(p, ls, m + 1);
    } else {
        assert(ls.take(m) =~= ls);
    }
}

/// No two auxiliary pairs share a key.
pub open spec fn keys_unique(d: Seq<(Seq<char>, Seq<char>)>) -> bool {
    forall|i: int, j: int| 0 <= i < j < d.len() ==> d[i].0 != d[j].0
}

/// Law: an upsert never creates a duplicate key: a line whose `VARIABLE`
/// was already seen replaces the stored value in place.
pub proof fn lemma_upsert_keys_unique(d: Seq<(Seq<char>, Seq<char>)>, k: Seq<char>, v: Seq<char>)
    requires
        keys_unique(d),
    ensures
        keys_unique(upsert(d, k, v)),
{
    lemma_find_key_props(d, k);
    let i = find_key(d, k);
    if i == -1 {
        let d2 = d.push((k, v));
        assert forall|a: int, b: int| 0 <= a < b < d2.len() implies d2[a].0 != d2[b].0 by {
            if b == d.len() {
                assert(d2[a] == d[a]);
            }
        }
    } else {
        let d2 = d.update(i, (k, v));
        assert forall|a: int, b: int| 0 <= a < b < d2.len() implies d2[a].0 != d2[b].0 by {
            if a != i {
                assert(d2[a] == d[a]);
            }
            if b != i {
                assert(d2[b] == d[b]);
            }
        }
    }
}

/// Law: however many lines share a `VARIABLE`, the extracted data list
/// carries each key once.
pub proof fn lemma_ext_fold_keys_unique(p: Seq<char>, lines: Seq<Seq<char>>)
    ensures
        (match ext_fold(p, lines) {
            Ok(st) => keys_unique(st.1),
            Err(_) => true,
        }),
    decreases lines.len(),
{
    if lines.len() > 0 {
        lemma_ext_fold_keys_unique(p, lines.drop_last());
        match ext_fold(p, lines.drop_last()) {
            Err(_) => {},
            Ok(st) => {
                if pattern_valid(p) {
                    match captures_of(p, lines.last()) {
                        None => {},
                        Some((var, val)) => {
                            if var != "score"@ {
                                lemma_upsert_keys_unique(st.1, var, val);
                            }
                        },
                    }
                }
            },
        }
    }
}

/// The extraction result of one run: the raw score text, if a score line
/// appeared, and the auxiliary pairs in first-seen key order.
pub struct Extraction {
    pub score_text: Option<String>,
    pub data: Vec<(String, String)>,
}

/// Replaces the value of `k` in place, or appends the new pair.
fn upsert_exec(data: &mut Vec<(String, String)>, k: String, v: String)
    ensures
        data_view(final(data)@) == upsert(data_view(old(data)@), k@, v@),
{
    let ghost d0 = data_view(data@);
    let mut j: usize = 0;
    let mut found = false;
    while j < data.len() && !found
        invariant
            j <= data@.len(),
            data@ == old(data)@,
            d0 == data_view(data@),
            !found ==> forall|i: int| 0 <= i < j ==> d0[i].0 != k@,
            found ==> j < d0.len() && d0[j as int].0 == k@ && forall|i: int|
                0 <= i < j ==> d0[i].0 != k@,
        decreases data@.len() - j + (if found {
            0int
        } else {
            1int
        }),
    {
        proof {
            assert(d0[j as int] == (data@[j as int].0@, data@[j as int].1@));
        }
        if str_eq(data[j].0.as_str(), k.as_str()) {
            found = true;
        } else {
            j = j + 1;
        }
    }
    proof {
        lemma_find_key_props(d0, k@);
        if found {
            assert(find_key(d0, k@) == j as int) by {
                let f = find_key(d0, k@);
                if f != j as int {
                    if f == -1 {
                    } else if f < j as int {
                        assert(d0[f].0 != k@);
                    } else {
                        assert(d0[j as int].0 != k@);
                    }
                }
            }
        } else {
            assert(find_key(d0, k@) == -1) by {
                let f = find_key(d0, k@);
                if f != -1 {
                    assert(d0[f].0 == k@);
                }
            }
        }
    }
    if found {
        data.set(j, (k, v));
        proof {
            assert(data_view(data@) =~= upsert(d0, k@, v@));
        }
    } else {
        data.push((k, v));
        proof {
            assert(data_view(data@) =~= upsert(d0, k@, v@));
        }
    }
}

/// Extracts the score text and the auxiliary pairs from the captured
/// diagnostic lines, folding them in order: exactly [`ext_fold`].
pub fn extract_metrics(pattern: &str, lines: &Vec<String>) -> (r: Result<Extraction, Fault>)
    ensures
        (match r {
            Ok(ex) => ext_fold(pattern@, lines_view(lines@)) == Ok::<
                (Option<Seq<char>>, Seq<(Seq<char>, Seq<char>)>),
                Fault,
            >((opt_view(ex.score_text), data_view(ex.data@))) && keys_unique(data_view(ex.data@)),
            Err(e) => ext_fold(pattern@, lines_view(lines@)) == Err::<
                (Option<Seq<char>>, Seq<(Seq<char>, Seq<char>)>),
                Fault,
            >(e),
        }),
{
    let ghost lv = lines_view(lines@);
    let mut score_text: Option<String> = None;
    let mut data: Vec<(String, String)> = Vec::new();
    let mut i: usize = 0;
    proof {
        assert(lv.take(0) =~= Seq::<Seq<char>>::empty());
        assert(data_view(data@) =~= Seq::<(Seq<char>, Seq<char>)>::empty());
    }
    while i < lines.len()
        invariant
            i <= lines@.len(),
            lv == lines_view(lines@),
            lv.len() == lines@.len(),
            forall|k: int| 0 <= k < lv.len() ==> lv[k] == #[trigger] lines@[k]@,
            ext_fold(pattern@, lv.take(i as int)) == Ok::<
                (Option<Seq<char>>, Seq<(Seq<char>, Seq<char>)>),
                Fault,
            >((opt_view(score_text), data_view(data@))),
        decreases lines@.len() - i,
    {
        let ghost st = (opt_view(score_text), data_view(data@));
        proof {
            assert(lv.take(i + 1).drop_last() =~= lv.take(i as int));
            assert(lv.take(i + 1).last() == lv[i as int]);
        }
        match match_line(pattern, lines[i].as_str()) {
            Err(_) => {
                proof {
                    assert(ext_fold(pattern@, lv.take(i + 1)) == Err::<
                        (Option<Seq<char>>, Seq<(Seq<char>, Seq<char>)>),
                        Fault,
                    >(Fault::InvalidPattern));
                    lemma_ext_fold_err_persists(pattern@, lv, i + 1);
                    assert(lv.take(lv.len() as int) =~= lv);
                }
                return Err(Fault::InvalidPattern);
            },
            Ok(None) => {
                proof {
                    assert(ext_step(pattern@, st, lv[i as int]) == Ok::<
                        (Option<Seq<char>>, Seq<(Seq<char>, Seq<char>)>),
                        Fault,
                    >(st));
                }
            },
            Ok(Some((var, val))) => {
                if str_eq(var.as_str(), "score") {
                    if float_text_check(val.as_str()) {
                        score_text = Some(val);
                    } else {
                        proof {
                            lemma_ext_fold_err_persists(pattern@, lv, i + 1);
                            assert(lv.take(lv.len() as int) =~= lv);
                        }
                        return Err(Fault::ExtractionFailure);
                    }
                } else {
                    upsert_exec(&mut data, var, val);
                }
            },
        }
        i = i + 1;
    }
    proof {
        assert(lv.take(i as int) =~= lv);
        lemma_ext_fold_keys_unique(pattern@, lv);
    }
    Ok(Extraction { score_text, data })
}

} // verus!
