//! Character-level scanning helpers.
//!
//! The playlist format is line oriented, with tags recognised by substring
//! match and numeric payloads extracted by stripping a line down to its
//! digit characters.  Everything here works on the character sequence of
//! the input: each executable helper is pinned to a specification function
//! over `Seq<char>`, and those specification functions are what the parser
//! model is written in.

use vstd::prelude::*;

verus! {

/// The characters of `s`, in order.
pub fn chars_of(s: &str) -> (v: Vec<char>)
    ensures
        v@ == s@,
{
    let n: usize = s.unicode_len();
    let mut v: Vec<char> = Vec::new();
    for i in 0..n
        invariant
            n == s@.len(),
            v@ =~= s@.take(i as int),
    {
        let c = s.get_char(i);
        v.push(c);
        proof {
            assert(v@ =~= s@.take(i + 1));
        }
    }
    proof {
        assert(v@ =~= s@);
    }
    v
}

/// `n` occurs as a contiguous run somewhere in `h`.
pub open spec fn has_sub(h: Seq<char>, n: Seq<char>) -> bool {
    exists|k: int| 0 <= k && k + n.len() <= h.len() && #[trigger] h.subrange(k, k + n.len()) == n
}

/// Whether the literal `lit` occurs inside `v[start..end]`.
pub fn contains_range(v: &Vec<char>, start: usize, end: usize, lit: &str) -> (r: bool)
    requires
        start <= end,
        end <= v@.len(),
    ensures
        r == has_sub(v@.subrange(start as int, end as int), lit@),
{
    let ghost h = v@.subrange(start as int, end as int);
    let n: usize = lit.unicode_len();
    let m: usize = end - start;
    if n > m {
        proof {
            assert(!has_sub(h, lit@)) by {
                if has_sub(h, lit@) {
                    let k = choose|k: int|
                        0 <= k && k + lit@.len() <= h.len() && #[trigger] h.subrange(
                            k,
                            k + lit@.len(),
                        ) == lit@;
                    assert(k + n > m);
                }
            }
        }
        return false;
    }
    let mut k: usize = 0;
    while k <= m - n
        invariant
            n <= m,
            m == end - start,
            start <= end <= v@.len(),
            n == lit@.len(),
            h == v@.subrange(start as int, end as int),
            k <= m - n + 1,
            forall|kk: int| 0 <= kk < k ==> #[trigger] h.subrange(kk, kk + n) != lit@,
        decreases m - n - k + 1,
    {
        let mut j: usize = 0;
        let mut ok: bool = true;
        while j < n && ok
            invariant
                n <= m,
                m == end - start,
                start <= end <= v@.len(),
                n == lit@.len(),
                h == v@.subrange(start as int, end as int),
                k <= m - n,
                j <= n,
                ok ==> forall|t: int| 0 <= t < j ==> h[k + t] == lit@[t],
                !ok ==> j < n && h[k + j] != lit@[j as int],
            decreases n - j + (if ok { 1int } else { 0int }),
        {
            if v[start + k + j] != lit.get_char(j) {
                proof {
                    assert(h[k + j] == v@[start + k + j]);
                }
                ok = false;
            } else {
                proof {
                    assert(h[k + j] == v@[start + k + j]);
                }
                j += 1;
            }
        }
        if ok {
            proof {
                assert(h.subrange(k as int, k + n) =~= lit@);
                assert(0 <= k && k + lit@.len() <= h.len() && h.subrange(
                    k as int,
                    k + lit@.len(),
                ) == lit@);
            }
            return true;
        }
        proof {
            assert(h.subrange(k as int, k + n) != lit@) by {
                if h.subrange(k as int, k + n) == lit@ {
                    assert(h.subrange(k as int, k + n)[j as int] == lit@[j as int]);
                }
            }
        }
        k += 1;
    }
    proof {
        assert(!has_sub(h, lit@)) by {
            if has_sub(h, lit@) {
                let kk = choose|kk: int|
                    0 <= kk && kk + lit@.len() <= h.len() && #[trigger] h.subrange(
                        kk,
                        kk + lit@.len(),
                    ) == lit@;
                assert(kk < k);
            }
        }
    }
    false
}

/// Whether `v[start..end]` is exactly the literal `lit`.
pub fn range_eq_lit(v: &Vec<char>, start: usize, end: usize, lit: &str) -> (r: bool)
    requires
        start <= end,
        end <= v@.len(),
    ensures
        r == (v@.subrange(start as int, end as int) == lit@),
{
    let ghost h = v@.subrange(start as int, end as int);
    let n: usize = lit.unicode_len();
    if n != end - start {
        proof {
            assert(h != lit@) by {
                if h == lit@ {
                    assert(h.len() == lit@.len());
                }
            }
        }
        return false;
    }
    for j in 0..n
        invariant
            n == end - start,
            start <= end <= v@.len(),
            n == lit@.len(),
            h == v@.subrange(start as int, end as int),
            forall|t: int| 0 <= t < j ==> h[t] == lit@[t],
    {
        if v[start + j] != lit.get_char(j) {
            proof {
                assert(h[j as int] == v@[start + j]);
                assert(h != lit@) by {
                    if h == lit@ {
                        assert(h[j as int] == lit@[j as int]);
                    }
                }
            }
            return false;
        }
        proof {
            assert(h[j as int] == v@[start + j]);
        }
    }
    proof {
        assert(h =~= lit@);
    }
    true
}

/// An ASCII decimal digit.
pub open spec fn is_digit(c: char) -> bool {
    48 <= c as u32 && c as u32 <= 57
}

/// A character kept when extracting a fractional-seconds payload.
pub open spec fn is_frac_char(c: char) -> bool {
    is_digit(c) || c == '.'
}

/// The digit characters of `s`, in order.
pub open spec fn filter_digits(s: Seq<char>) -> Seq<char>
    decreases s.len(),
{
    if s.len() == 0 {
        Seq::empty()
    } else if is_digit(s.last()) {
        filter_digits(s.drop_last()).push(s.last())
    } else {
        filter_digits(s.drop_last())
    }
}

/// The digit and `.` characters of `s`, in order.
pub open spec fn filter_frac(s: Seq<char>) -> Seq<char>
    decreases s.len(),
{
    if s.len() == 0 {
        Seq::empty()
    } else if is_frac_char(s.last()) {
        filter_frac(s.drop_last()).push(s.last())
    } else {
        filter_frac(s.drop_last())
    }
}

/// The digit characters of `v[start..end]`, in order.
pub fn extract_digits(v: &Vec<char>, start: usize, end: usize) -> (d: Vec<char>)
    requires
        start <= end,
        end <= v@.len(),
    ensures
        d@ == filter_digits(v@.subrange(start as int, end as int)),
        all_digits(d@),
{
    let mut d: Vec<char> = Vec::new();
    for i in start..end
        invariant
            start <= i <= end <= v@.len(),
            d@ == filter_digits(v@.subrange(start as int, i as int)),
            all_digits(d@),
    {
        let c = v[i];
        proof {
            assert(v@.subrange(start as int, i + 1).drop_last() =~= v@.subrange(
                start as int,
                i as int,
            ));
            assert(v@.subrange(start as int, i + 1).last() == c);
        }
        let u: u32 = c as u32;
        if 48 <= u && u <= 57 {
            d.push(c);
        }
    }
    d
}

/// The digit and `.` characters of `v[start..end]`, in order.
pub fn extract_frac(v: &Vec<char>, start: usize, end: usize) -> (d: Vec<char>)
    requires
        start <= end,
        end <= v@.len(),
    ensures
        d@ == filter_frac(v@.subrange(start as int, end as int)),
{
    let mut d: Vec<char> = Vec::new();
    for i in start..end
        invariant
            start <= i <= end <= v@.len(),
            d@ == filter_frac(v@.subrange(start as int, i as int)),
    {
        let c = v[i];
        proof {
            assert(v@.subrange(start as int, i + 1).drop_last() =~= v@.subrange(
                start as int,
                i as int,
            ));
            assert(v@.subrange(start as int, i + 1).last() == c);
        }
        let u: u32 = c as u32;
        if (48 <= u && u <= 57) || c == '.' {
            d.push(c);
        }
    }
    d
}

/// Numeric value of a digit character.
pub open spec fn digit_val(c: char) -> int {
    c as u32 - 48
}

/// Value of a digit string read in base ten.
pub open spec fn dec_val(s: Seq<char>) -> int
    decreases s.len(),
{
    if s.len() == 0 {
        0
    } else {
        dec_val(s.drop_last()) * 10 + digit_val(s.last())
    }
}

/// Every character of `s` is an ASCII decimal digit.
pub open spec fn all_digits(s: Seq<char>) -> bool {
    forall|i: int| 0 <= i < s.len() ==> is_digit(#[trigger] s[i])
}

/// What parsing a digit string as an unsigned 64-bit number yields: the
/// base-ten value when the string is non-empty, all digits, and the value
/// fits; nothing otherwise.
pub open spec fn parse_u64_digits(s: Seq<char>) -> Option<u64> {
    if s.len() > 0 && all_digits(s) && dec_val(s) <= u64::MAX {
        Some(dec_val(s) as u64)
    } else {
        None
    }
}

/// What the standard unsigned decimal parse yields: an optional leading
/// `+`, then one or more digits whose value fits.
pub open spec fn parse_u64_plain(s: Seq<char>) -> Option<u64> {
    if s.len() > 0 && s[0] == '+' {
        parse_u64_digits(s.drop_first())
    } else {
        parse_u64_digits(s)
    }
}

/// The value of an all-digit string is non-negative.
pub proof fn lemma_dec_val_nonneg(s: Seq<char>)
    requires
        all_digits(s),
    ensures
        dec_val(s) >= 0,
    decreases s.len(),
{
    if s.len() > 0 {
        assert(all_digits(s.drop_last())) by {
            assert(forall|i: int|
                0 <= i < s.len() - 1 ==> #[trigger] s.drop_last()[i] == s[i]);
        }
        lemma_dec_val_nonneg(s.drop_last());
    }
}

/// Extending an all-digit string never lowers its value.
pub proof fn lemma_dec_val_prefix(s: Seq<char>, i: int)
    requires
        all_digits(s),
        0 <= i <= s.len(),
    ensures
        dec_val(s.take(i)) <= dec_val(s),
    decreases s.len() - i,
{
    if i == s.len() {
        assert(s.take(i) =~= s);
    } else {
        assert(s.take(i + 1).drop_last() =~= s.take(i));
        assert(s.take(i + 1).last() == s[i]);
        assert(all_digits(s.take(i))) by {
            assert(forall|t: int| 0 <= t < i ==> #[trigger] s.take(i)[t] == s[t]);
        }
        lemma_dec_val_nonneg(s.take(i));
        assert(dec_val(s.take(i + 1)) == dec_val(s.take(i)) * 10 + digit_val(s[i]));
        assert(dec_val(s.take(i)) * 10 >= dec_val(s.take(i))) by (nonlinear_arith)
            requires dec_val(s.take(i)) >= 0;
        lemma_dec_val_prefix(s, i + 1);
    }
}

/// Parse an all-digit string as an unsigned 64-bit number, refusing empty
/// strings and values that do not fit.
pub fn parse_u64_from_digits(d: &Vec<char>) -> (r: Option<u64>)
    requires
        all_digits(d@),
    ensures
        r == parse_u64_digits(d@),
{
    if d.len() == 0 {
        return None;
    }
    let mut acc: u128 = 0;
    let mut i: usize = 0;
    while i < d.len()
        invariant
            i <= d@.len(),
            all_digits(d@),
            acc == dec_val(d@.take(i as int)),
            acc <= u64::MAX,
        decreases d@.len() - i,
    {
        let c = d[i];
        proof {
            assert(is_digit(d@[i as int]));
        }
        let dv: u32 = c as u32 - 48;
        acc = acc * 10 + dv as u128;
        proof {
            assert(d@.take(i + 1).drop_last() =~= d@.take(i as int));
            assert(d@.take(i + 1).last() == d@[i as int]);
        }
        i += 1;
        if acc > u64::MAX as u128 {
            proof {
                lemma_dec_val_prefix(d@, i as int);
            }
            return None;
        }
    }
    proof {
        assert(d@.take(d@.len() as int) =~= d@);
    }
    Some(acc as u64)
}

/// Parse `v[start..end]` as the standard unsigned decimal parse does.
pub fn parse_u64_range(v: &Vec<char>, start: usize, end: usize) -> (r: Option<u64>)
    requires
        start <= end,
        end <= v@.len(),
    ensures
        r == parse_u64_plain(v@.subrange(start as int, end as int)),
{
    let ghost whole = v@.subrange(start as int, end as int);
    let has_plus: bool = start < end && v[start] == '+';
    let lo: usize = if has_plus {
        start + 1
    } else {
        start
    };
    let ghost body = v@.subrange(lo as int, end as int);
    proof {
        if has_plus {
            assert(whole[0] == '+');
            assert(whole.drop_first() =~= body);
        } else {
            if whole.len() > 0 {
                assert(whole[0] == v@[start as int]);
            }
        }
        assert(parse_u64_plain(whole) == parse_u64_digits(body));
    }
    let mut digits: Vec<char> = Vec::new();
    for i in lo..end
        invariant
            start <= lo <= i <= end <= v@.len(),
            whole == v@.subrange(start as int, end as int),
            body == v@.subrange(lo as int, end as int),
            parse_u64_plain(whole) == parse_u64_digits(body),
            digits@ =~= body.take(i - lo),
            all_digits(digits@),
    {
        let c = v[i];
        let u: u32 = c as u32;
        if !(48 <= u && u <= 57) {
            proof {
                assert(body[i - lo] == v@[i as int]);
                assert(!all_digits(body));
            }
            return None;
        }
        digits.push(c);
        proof {
            assert(digits@ =~= body.take(i + 1 - lo));
        }
    }
    proof {
        assert(digits@ =~= body);
    }
    parse_u64_from_digits(&digits)
}

/// The suffix of `l` after its last `:`, or all of `l` when it has none.
pub open spec fn after_last_colon(l: Seq<char>) -> Seq<char>
    decreases l.len(),
{
    if l.len() == 0 {
        l
    } else if l.last() == ':' {
        Seq::empty()
    } else {
        after_last_colon(l.drop_last()).push(l.last())
    }
}

/// A string without `:` is its own suffix after the last `:`.
proof fn lemma_alc_no_colon(l: Seq<char>)
    requires
        forall|i: int| 0 <= i < l.len() ==> l[i] != ':',
    ensures
        after_last_colon(l) == l,
    decreases l.len(),
{
    if l.len() > 0 {
        assert(l.last() != ':');
        assert(forall|i: int|
            0 <= i < l.len() - 1 ==> #[trigger] l.drop_last()[i] == l[i]);
        lemma_alc_no_colon(l.drop_last());
        assert(l.drop_last().push(l.last()) =~= l);
    }
}

/// When the last `:` of `l` stands at `k`, the suffix is everything after it.
proof fn lemma_alc_found(l: Seq<char>, k: int)
    requires
        0 <= k < l.len(),
        l[k] == ':',
        forall|i: int| k < i < l.len() ==> l[i] != ':',
    ensures
        after_last_colon(l) == l.skip(k + 1),
    decreases l.len(),
{
    if k == l.len() - 1 {
        assert(l.last() == ':');
        assert(after_last_colon(l) =~= l.skip(k + 1));
    } else {
        assert(l.last() != ':');
        assert(forall|i: int|
            0 <= i < l.len() - 1 ==> #[trigger] l.drop_last()[i] == l[i]);
        lemma_alc_found(l.drop_last(), k);
        assert(l.drop_last().skip(k + 1).push(l.last()) =~= l.skip(k + 1));
    }
}

/// The start of the suffix of `v[start..end]` after its last `:` (the end
/// of that suffix is `end` itself).
pub fn suffix_after_last_colon(v: &Vec<char>, start: usize, end: usize) -> (lo: usize)
    requires
        start <= end,
        end <= v@.len(),
    ensures
        start <= lo <= end,
        v@.subrange(lo as int, end as int) == after_last_colon(
            v@.subrange(start as int, end as int),
        ),
{
    let ghost l = v@.subrange(start as int, end as int);
    let mut j: usize = end;
    while j > start
        invariant
            start <= j <= end <= v@.len(),
            l == v@.subrange(start as int, end as int),
            forall|i: int| j <= i < end ==> v@[i] != ':',
        decreases j - start,
    {
        if v[j - 1] == ':' {
            proof {
                let k = j - 1 - start;
                assert(l[k] == ':');
                assert(forall|i: int| k < i < l.len() ==> l[i] != ':') by {
                    assert(forall|i: int|
                        k < i < l.len() ==> #[trigger] l[i] == v@[start + i]);
                }
                lemma_alc_found(l, k);
                assert(v@.subrange(j as int, end as int) =~= l.skip(k + 1));
            }
            return j;
        }
        j -= 1;
    }
    proof {
        assert(forall|i: int| 0 <= i < l.len() ==> #[trigger] l[i] == v@[start + i]);
        lemma_alc_no_colon(l);
    }
    start
}

/// Index of the first occurrence of `c` in `l`, or `l.len()` when absent.
pub open spec fn first_occ(l: Seq<char>, c: char) -> int
    decreases l.len(),
{
    if l.len() == 0 {
        0
    } else if l[0] == c {
        0
    } else {
        1 + first_occ(l.drop_first(), c)
    }
}

/// `first_occ` points at the first occurrence, or past the end.
pub proof fn lemma_first_occ(l: Seq<char>, c: char)
    ensures
        0 <= first_occ(l, c) <= l.len(),
        first_occ(l, c) < l.len() ==> l[first_occ(l, c)] == c,
        forall|i: int| 0 <= i < first_occ(l, c) ==> l[i] != c,
    decreases l.len(),
{
    if l.len() > 0 && l[0] != c {
        lemma_first_occ(l.drop_first(), c);
        assert forall|i: int| 0 <= i < first_occ(l, c) implies l[i] != c by {
            if i > 0 {
                assert(l.drop_first()[i - 1] == l[i]);
            }
        }
    }
}

/// A position with the first-occurrence properties is `first_occ`.
pub proof fn lemma_first_occ_is(l: Seq<char>, c: char, k: int)
    requires
        0 <= k <= l.len(),
        k < l.len() ==> l[k] == c,
        forall|i: int| 0 <= i < k ==> l[i] != c,
    ensures
        first_occ(l, c) == k,
{
    lemma_first_occ(l, c);
    if first_occ(l, c) < k {
        assert(l[first_occ(l, c)] == c);
    } else if first_occ(l, c) > k {
        assert(l[k] == c);
    }
}

/// Position just before the first `c` in `v[start..end]`: the returned
/// `e` satisfies `e - start == first_occ(v[start..end], c)`.
pub fn scan_to(v: &Vec<char>, start: usize, end: usize, c: char) -> (e: usize)
    requires
        start <= end,
        end <= v@.len(),
    ensures
        start <= e <= end,
        e - start == first_occ(v@.subrange(start as int, end as int), c),
        e < end ==> v@[e as int] == c,
{
    let ghost l = v@.subrange(start as int, end as int);
    proof {
        assert(forall|i: int| 0 <= i < l.len() ==> #[trigger] l[i] == v@[start + i]);
    }
    let mut j: usize = start;
    while j < end
        invariant
            start <= j <= end <= v@.len(),
            l == v@.subrange(start as int, end as int),
            forall|i: int| start <= i < j ==> v@[i] != c,
        decreases end - j,
    {
        if v[j] == c {
            proof {
                lemma_first_occ_is(l, c, j - start);
            }
            return j;
        }
        j += 1;
    }
    proof {
        lemma_first_occ_is(l, c, end - start);
    }
    end
}

/// A line with a trailing carriage return loses it.
pub open spec fn chop_cr(l: Seq<char>) -> Seq<char> {
    if l.len() > 0 && l.last() == '\r' {
        l.drop_last()
    } else {
        l
    }
}

/// The lines of `t`, as the standard line iterator yields them: split at
/// each newline, with a carriage return directly before a newline removed,
/// and no empty final line after a trailing newline.
pub open spec fn spec_lines(t: Seq<char>) -> Seq<Seq<char>>
    decreases t.len(),
{
    if t.len() == 0 {
        Seq::empty()
    } else {
        let i = first_occ(t, '\n');
        if 0 <= i < t.len() {
            seq![chop_cr(t.take(i))] + spec_lines(t.skip(i + 1))
        } else {
            seq![t]
        }
    }
}

/// Split `v` into its lines, returned as index ranges into `v`.
pub fn split_lines(v: &Vec<char>) -> (bs: Vec<(usize, usize)>)
    ensures
        bs@.len() == spec_lines(v@).len(),
        forall|k: int|
            0 <= k < bs@.len() ==> (#[trigger] bs@[k]).0 <= bs@[k].1 <= v@.len()
                && v@.subrange(bs@[k].0 as int, bs@[k].1 as int) == spec_lines(v@)[k],
{
    let len: usize = v.len();
    let mut bs: Vec<(usize, usize)> = Vec::new();
    let mut pos: usize = 0;
    proof {
        assert(v@.skip(0) =~= v@);
        assert(bs@.map_values(|b: (usize, usize)| v@.subrange(b.0 as int, b.1 as int))
            =~~= Seq::<Seq<char>>::empty());
    }
    while pos < len
        invariant
            pos <= len,
            len == v@.len(),
            forall|k: int|
                0 <= k < bs@.len() ==> (#[trigger] bs@[k]).0 <= bs@[k].1 <= v@.len(),
            spec_lines(v@) =~~= bs@.map_values(
                |b: (usize, usize)| v@.subrange(b.0 as int, b.1 as int),
            ) + spec_lines(v@.skip(pos as int)),
        decreases len - pos,
    {
        let ghost rest = v@.skip(pos as int);
        let e: usize = scan_to(v, pos, len, '\n');
        proof {
            assert(rest =~= v@.subrange(pos as int, len as int));
            lemma_first_occ(rest, '\n');
        }
        if e == len {
            proof {
                assert(first_occ(rest, '\n') == rest.len());
                assert(spec_lines(rest) =~~= seq![rest]);
            }
            bs.push((pos, len));
            proof {
                assert(v@.subrange(pos as int, len as int) =~= rest);
                assert(spec_lines(v@) =~~= bs@.map_values(
                    |b: (usize, usize)| v@.subrange(b.0 as int, b.1 as int),
                ) + spec_lines(v@.skip(len as int)));
            }
            pos = len;
        } else {
            let line_end: usize = if e > pos && v[e - 1] == '\r' {
                e - 1
            } else {
                e
            };
            proof {
                let i = e - pos;
                assert(0 <= i < rest.len());
                assert(spec_lines(rest) == seq![chop_cr(rest.take(i))] + spec_lines(
                    rest.skip(i + 1),
                ));
                assert(rest.take(i) =~= v@.subrange(pos as int, e as int));
                if e > pos && v@[e - 1] == '\r' {
                    assert(rest.take(i).len() > 0 && rest.take(i).last() == '\r');
                    assert(chop_cr(rest.take(i)) =~= v@.subrange(pos as int, line_end as int));
                } else {
                    if rest.take(i).len() > 0 {
                        assert(rest.take(i).last() == v@[e - 1]);
                    }
                    assert(chop_cr(rest.take(i)) =~= v@.subrange(pos as int, line_end as int));
                }
                assert(rest.skip(i + 1) =~= v@.skip(e + 1));
            }
            bs.push((pos, line_end));
            proof {
                assert(spec_lines(v@) =~~= bs@.map_values(
                    |b: (usize, usize)| v@.subrange(b.0 as int, b.1 as int),
                ) + spec_lines(v@.skip(e + 1)));
            }
            pos = e + 1;
        }
    }
    proof {
        assert(v@.skip(pos as int) =~= Seq::<char>::empty());
        assert(spec_lines(v@.skip(pos as int)) =~~= Seq::<Seq<char>>::empty());
        assert(spec_lines(v@) =~~= bs@.map_values(
            |b: (usize, usize)| v@.subrange(b.0 as int, b.1 as int),
        ));
    }
    bs
}

} // verus!
