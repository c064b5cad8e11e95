//! Reading literal tokens: decimal integers with the rules of `i64`'s
//! `FromStr`, and the contents of string literals with escapes processed.
use vstd::prelude::*;
use crate::text::push_char;
use crate::lexer::chars_of;

verus! {

/// Whether every character of `ds` is an ASCII digit.
pub open spec fn all_digits(ds: Seq<char>) -> bool {
    forall|k: int| 0 <= k < ds.len() ==> '0' <= #[trigger] ds[k] <= '9'
}

/// The value of an ASCII digit.
pub open spec fn digit_value(c: char) -> int {
    (c as u32) - ('0' as u32)
}

/// The decimal value of a sequence of digits (zero when empty).
pub open spec fn digits_value(ds: Seq<char>) -> int
    decreases ds.len(),
{
    if ds.len() == 0 {
        0
    } else {
        digits_value(ds.drop_last()) * 10 + digit_value(ds.last())
    }
}

/// The integer written by `s`: an optional `+` or `-` and at least one
/// digit, as `str::parse::<i64>` reads it before checking the range.
pub open spec fn int_text_value(s: Seq<char>) -> Option<int> {
    if s.len() > 0 && (s[0] == '+' || s[0] == '-') {
        let d = s.drop_first();
        if d.len() > 0 && all_digits(d) {
            Some(if s[0] == '-' { -digits_value(d) } else { digits_value(d) })
        } else {
            None
        }
    } else if s.len() > 0 && all_digits(s) {
        Some(digits_value(s))
    } else {
        None
    }
}

/// What `str::parse::<i64>` gives for `s`: the value when the text is an
/// integer in the range of `i64`, else nothing.
pub open spec fn parse_i64_spec(s: Seq<char>) -> Option<i64> {
    match int_text_value(s) {
        Some(v) => if i64::MIN <= v <= i64::MAX { Some(v as i64) } else { None },
        None => None,
    }
}

/// Digit values are never negative, and each digit adds to a prefix.
pub proof fn lemma_digits_prefix(ds: Seq<char>, k: int)
    requires
        all_digits(ds),
        0 <= k <= ds.len(),
    ensures
        digits_value(ds.subrange(0, k)) <= digits_value(ds),
        0 <= digits_value(ds.subrange(0, k)),
    decreases ds.len(),
{
    if ds.len() > 0 {
        if k == ds.len() {
            assert(ds.subrange(0, k) =~= ds);
            lemma_digits_prefix(ds.drop_last(), k - 1);
            assert(ds.drop_last().subrange(0, k - 1) =~= ds.drop_last());
        } else {
            lemma_digits_prefix(ds.drop_last(), k);
            assert(ds.drop_last().subrange(0, k) =~= ds.subrange(0, k));
            lemma_digits_prefix(ds.drop_last(), ds.len() - 1);
            assert(ds.drop_last().subrange(0, ds.len() - 1) =~= ds.drop_last());
        }
    } else {
        assert(ds.subrange(0, k) =~= ds);
    }
}

/// Reads a decimal integer as `str::parse::<i64>` does.
pub fn parse_i64(s: &str) -> (r: Option<i64>)
    ensures
        r == parse_i64_spec(s@),
{
    let cs = chars_of(s);
    let n = cs.len();
    if n == 0 {
        return None;
    }
    let neg = cs[0] == '-';
    let first: usize = if cs[0] == '+' || cs[0] == '-' { 1 } else { 0 };
    if first == n {
        return None;
    }
    let ghost d = cs@.subrange(first as int, n as int);
    proof {
        if first == 1 {
            assert(d =~= cs@.drop_first());
        } else {
            assert(d =~= cs@);
        }
    }
    let limit: i128 = if neg { 9223372036854775808 } else { 9223372036854775807 };
    let mut acc: i128 = 0;
    let mut i: usize = first;
    while i < n
        invariant
            first <= i <= n,
            n == cs@.len(),
            cs@ == s@,
            n > 0,
            first < n,
            first == (if cs@[0] == '+' || cs@[0] == '-' { 1usize } else { 0usize }),
            neg == (cs@[0] == '-'),
            first == 1 ==> d == cs@.drop_first(),
            first == 0 ==> d == cs@,
            d == cs@.subrange(first as int, n as int),
            0 <= acc <= limit,
            limit == (if neg { 9223372036854775808i128 } else { 9223372036854775807i128 }),
            all_digits(cs@.subrange(first as int, i as int)),
            acc == digits_value(cs@.subrange(first as int, i as int)),
        decreases n - i,
    {
        let c = cs[i];
        if !('0' <= c && c <= '9') {
            proof {
                assert(d[i - first] == c);
                assert(!all_digits(d));
            }
            return None;
        }
        let dv = (c as u32 - '0' as u32) as i128;
        proof {
            let pre = cs@.subrange(first as int, i + 1);
            assert(pre.drop_last() =~= cs@.subrange(first as int, i as int));
            assert(pre.last() == c);
            assert(all_digits(pre));
        }
        if acc > (limit - dv) / 10 {
            proof {
                assert(acc * 10 + dv > limit) by (nonlinear_arith)
                    requires acc > (limit - dv) / 10, 0 <= dv <= 9, limit > 0;
                let rest = cs@.subrange(first as int, n as int);
                let pre = cs@.subrange(first as int, i + 1);
                assert(digits_value(pre) == acc * 10 + dv);
                if all_digits(rest) {
                    lemma_digits_prefix(rest, i + 1 - first);
                    assert(rest.subrange(0, i + 1 - first) =~= pre);
                }
            }
            return None;
        }
        proof {
            assert(acc * 10 + dv <= limit) by (nonlinear_arith)
                requires acc <= (limit - dv) / 10, 0 <= dv <= 9, limit > 0, acc >= 0;
        }
        acc = acc * 10 + dv;
        i = i + 1;
    }
    proof {
        assert(cs@.subrange(first as int, i as int) =~= d);
    }
    if neg {
        Some((0 - acc) as i64)
    } else {
        Some(acc as i64)
    }
}

/// The contents of a string literal between its quotes: the surrounding
/// quotes are dropped when the text has at least two characters and starts
/// with one (the closing one only when present).
pub open spec fn strip_quotes(raw: Seq<char>) -> Seq<char> {
    if raw.len() >= 2 && raw[0] == '"' {
        if raw.last() == '"' { raw.subrange(1, raw.len() - 1) } else { raw.drop_first() }
    } else {
        raw
    }
}

/// The characters that an escaped `e` stands for.
pub open spec fn escaped(e: char) -> Seq<char> {
    if e == 'n' { seq!['\n'] }
    else if e == 't' { seq!['\t'] }
    else if e == '\\' { seq!['\\'] }
    else if e == '"' { seq!['"'] }
    else { seq!['\\', e] }
}

/// The text of `cs` from `i` with escape sequences processed.
pub open spec fn unescape_from(cs: Seq<char>, i: int) -> Seq<char>
    decreases cs.len() - i,
{
    if i < 0 || i >= cs.len() {
        seq![]
    } else if cs[i] == '\\' {
        if i + 1 < cs.len() {
            escaped(cs[i + 1]) + unescape_from(cs, i + 2)
        } else {
            seq!['\\']
        }
    } else {
        seq![cs[i]] + unescape_from(cs, i + 1)
    }
}

/// The value of a string literal token.
pub open spec fn string_value(raw: Seq<char>) -> Seq<char> {
    unescape_from(strip_quotes(raw), 0)
}

/// Unescape a string literal, stripping surrounding quotes.
pub fn unescape_string(raw: &str) -> (r: String)
    ensures
        r@ == string_value(raw@),
{
    let all = chars_of(raw);
    let n = all.len();
    let (lo, hi): (usize, usize) = if n >= 2 && all[0] == '"' {
        if all[n - 1] == '"' { (1, n - 1) } else { (1, n) }
    } else {
        (0, n)
    };
    let ghost inner = all@.subrange(lo as int, hi as int);
    proof {
        assert(inner =~= strip_quotes(raw@));
    }
    let mut result = String::new();
    let mut i: usize = lo;
    proof { assert(result@ + unescape_from(inner, 0) =~= unescape_from(inner, 0)); }
    while i < hi
        invariant
            lo <= i <= hi + 1,
            hi <= all@.len(),
            inner == all@.subrange(lo as int, hi as int),
            i <= hi ==> result@ + unescape_from(inner, i - lo) == unescape_from(inner, 0),
            i > hi ==> result@ == unescape_from(inner, 0),
        decreases hi + 1 - i,
    {
        let c = all[i];
        let ghost k = i - lo;
        assert(inner[k] == c);
        if c == '\\' {
            if i + 1 < hi {
                let e = all[i + 1];
                assert(inner[k + 1] == e);
                let ghost pre = result@;
                if e == 'n' {
                    push_char(&mut result, '\n');
                } else if e == 't' {
                    push_char(&mut result, '\t');
                } else if e == '\\' {
                    push_char(&mut result, '\\');
                } else if e == '"' {
                    push_char(&mut result, '"');
                } else {
                    push_char(&mut result, '\\');
                    push_char(&mut result, e);
                }
                proof {
                    assert(result@ =~= pre + escaped(e));
                    assert(pre + (escaped(e) + unescape_from(inner, k + 2)) =~= result@ + unescape_from(inner, k + 2));
                }
                i = i + 2;
            } else {
                let ghost pre = result@;
                push_char(&mut result, '\\');
                proof {
                    assert(unescape_from(inner, k) == seq!['\\']);
                    assert(result@ =~= pre + seq!['\\']);
                    assert(unescape_from(inner, k + 1) =~= Seq::<char>::empty());
                    assert(result@ + unescape_from(inner, k + 1) =~= result@);
                }
                i = i + 1;
            }
        } else {
            let ghost pre = result@;
            push_char(&mut result, c);
            proof {
                assert(pre + (seq![c] + unescape_from(inner, k + 1)) =~= result@ + unescape_from(inner, k + 1));
            }
            i = i + 1;
        }
    }
    proof {
        if i <= hi {
            assert(unescape_from(inner, i - lo) =~= Seq::<char>::empty());
            assert(result@ + Seq::<char>::empty() =~= result@);
        }
    }
    result
}

} // verus!
