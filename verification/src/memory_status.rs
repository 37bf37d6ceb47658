use vstd::prelude::*;

use crate::grammar::chars_of;
use crate::text::{decimal, lemma_decimal_value};
use crate::xml::{all_digits, digits_value, is_digit, lemma_digits_value_mono, sign_stripped};

verus! {

/// `char::is_whitespace`: the characters with Unicode's `White_Space` property.
pub open spec fn is_white(c: char) -> bool {
    ||| c == '\t'
    ||| c == '\n'
    ||| c == '\u{0B}'
    ||| c == '\u{0C}'
    ||| c == '\r'
    ||| c == ' '
    ||| c == '\u{85}'
    ||| c == '\u{A0}'
    ||| c == '\u{1680}'
    ||| ('\u{2000}' <= c && c <= '\u{200A}')
    ||| c == '\u{2028}'
    ||| c == '\u{2029}'
    ||| c == '\u{202F}'
    ||| c == '\u{205F}'
    ||| c == '\u{3000}'
}

fn white(c: char) -> (r: bool)
    ensures
        r == is_white(c),
{
    c == '\t' || c == '\n' || c == '\u{0B}' || c == '\u{0C}' || c == '\r' || c == ' '
        || c == '\u{85}' || c == '\u{A0}' || c == '\u{1680}' || ('\u{2000}' <= c && c
        <= '\u{200A}') || c == '\u{2028}' || c == '\u{2029}' || c == '\u{202F}' || c
        == '\u{205F}' || c == '\u{3000}'
}

/// The position of the first line feed at or after `i`, or the length of the text.
pub open spec fn line_end(s: Seq<char>, i: int) -> int
    decreases s.len() - i,
{
    if i >= s.len() {
        s.len() as int
    } else if s[i] == '\n' {
        i
    } else {
        line_end(s, i + 1)
    }
}

pub proof fn lemma_line_end(s: Seq<char>, i: int)
    requires
        0 <= i,
    ensures
        i <= line_end(s, i) || s.len() < i,
        line_end(s, i) <= s.len() || s.len() < i,
        i <= s.len() ==> i <= line_end(s, i) <= s.len(),
        i <= s.len() ==> forall|k: int| i <= k < line_end(s, i) ==> s[k] != '\n',
        line_end(s, i) < s.len() ==> s[line_end(s, i)] == '\n',
    decreases s.len() - i,
{
    if i < s.len() && s[i] != '\n' {
        lemma_line_end(s, i + 1);
    }
}

/// The label that opens the line holding the resident set size.
pub open spec fn rss_label() -> Seq<char> {
    seq!['V', 'm', 'R', 'S', 'S', ':']
}

/// The line that starts at `i` opens with the label.
pub open spec fn opens_with_label(s: Seq<char>, i: int) -> bool {
    i + 6 <= s.len() && s.subrange(i, i + 6) == rss_label()
}

/// Of the lines from the one that starts at `i` on, the first that opens with `VmRSS:`: what
/// follows the label on it.
pub open spec fn rss_rest(s: Seq<char>, i: int) -> Option<Seq<char>>
    decreases s.len() + 1 - i,
{
    if i < 0 || i >= s.len() {
        None
    } else if opens_with_label(s, i) {
        Some(s.subrange(i + 6, line_end(s, i + 6)))
    } else {
        proof {
            lemma_line_end(s, i);
        }
        rss_rest(s, line_end(s, i) + 1)
    }
}

/// The first position at or after `i` that holds no white space, or the length.
pub open spec fn skip_white(r: Seq<char>, i: int) -> int
    decreases r.len() - i,
{
    if i >= r.len() {
        r.len() as int
    } else if is_white(r[i]) {
        skip_white(r, i + 1)
    } else {
        i
    }
}

/// The first position at or after `i` that holds white space, or the length.
pub open spec fn word_end(r: Seq<char>, i: int) -> int
    decreases r.len() - i,
{
    if i >= r.len() {
        r.len() as int
    } else if is_white(r[i]) {
        i
    } else {
        word_end(r, i + 1)
    }
}

proof fn lemma_skip_white(r: Seq<char>, i: int)
    requires
        0 <= i <= r.len(),
    ensures
        i <= skip_white(r, i) <= r.len(),
        forall|k: int| i <= k < skip_white(r, i) ==> is_white(r[k]),
        skip_white(r, i) < r.len() ==> !is_white(r[skip_white(r, i)]),
    decreases r.len() - i,
{
    if i < r.len() && is_white(r[i]) {
        lemma_skip_white(r, i + 1);
    }
}

proof fn lemma_word_end(r: Seq<char>, i: int)
    requires
        0 <= i <= r.len(),
    ensures
        i <= word_end(r, i) <= r.len(),
        forall|k: int| i <= k < word_end(r, i) ==> !is_white(r[k]),
        word_end(r, i) < r.len() ==> is_white(r[word_end(r, i)]),
    decreases r.len() - i,
{
    if i < r.len() && !is_white(r[i]) {
        lemma_word_end(r, i + 1);
    }
}

/// The first word of a text, as `split_whitespace().next()` gives it.
pub open spec fn first_word(r: Seq<char>) -> Option<Seq<char>> {
    let a = skip_white(r, 0);
    if a >= r.len() {
        None
    } else {
        Some(r.subrange(a, word_end(r, a)))
    }
}

/// What `str::parse::<u64>` gives: the value of one or more decimal digits, after at most one
/// `+`, when it fits in `u64`.
pub open spec fn parse_u64_spec(s: Seq<char>) -> Option<u64> {
    let d = sign_stripped(s);
    if d.len() > 0 && all_digits(d) && digits_value(d) <= u64::MAX {
        Some(digits_value(d) as u64)
    } else {
        None
    }
}

/// The resident set size in kilobytes that a process status text states: the first word after
/// `VmRSS:` on the first line that opens with that label, read as a `u64`.
pub open spec fn vm_rss_kb(status: Seq<char>) -> Option<u64> {
    match rss_rest(status, 0) {
        None => None,
        Some(rest) => match first_word(rest) {
            None => None,
            Some(word) => parse_u64_spec(word),
        },
    }
}

/// Reads the characters `lo..hi` as `str::parse::<u64>` does.
fn parse_u64_chars(cs: &Vec<char>, lo: usize, hi: usize) -> (r: Option<u64>)
    requires
        lo <= hi <= cs.len(),
    ensures
        r == parse_u64_spec(cs@.subrange(lo as int, hi as int)),
{
    let ghost s = cs@.subrange(lo as int, hi as int);
    let mut start: usize = lo;
    if lo < hi && cs[lo] == '+' {
        start = lo + 1;
    }
    let ghost d = sign_stripped(s);
    assert(d =~= cs@.subrange(start as int, hi as int));
    if start >= hi {
        return None;
    }
    let mut value: u64 = 0;
    let mut i: usize = start;
    while i < hi
        invariant
            hi <= cs.len(),
            start <= i <= hi,
            start < hi,
            s == cs@.subrange(lo as int, hi as int),
            d == cs@.subrange(start as int, hi as int),
            d == sign_stripped(s),
            forall|j: int| 0 <= j < i - start ==> is_digit(#[trigger] d[j]),
            value == digits_value(d.take(i - start)),
        decreases hi - i,
    {
        let c = cs[i];
        assert(c == d[i - start]);
        if !('0' <= c && c <= '9') {
            assert(!is_digit(d[i - start]));
            assert(!all_digits(d));
            return None;
        }
        let digit = (c as u32 - '0' as u32) as u64;
        assert(d.take(i - start + 1).drop_last() =~= d.take(i - start));
        assert(digits_value(d.take(i - start + 1)) == value * 10 + digit);
        if value > (u64::MAX - digit) / 10 {
            proof {
                assert(value * 10 + digit > u64::MAX) by (nonlinear_arith)
                    requires
                        value > (u64::MAX - digit) / 10,
                        digit <= 9,
                ;
                assert forall|j: int| 0 <= j < i - start + 1 implies is_digit(#[trigger] d[j]) by {}
                if all_digits(d) {
                    lemma_digits_value_mono(d, i - start + 1);
                }
            }
            return None;
        }
        assert(value * 10 + digit <= u64::MAX) by (nonlinear_arith)
            requires
                value <= (u64::MAX - digit) / 10,
                digit <= 9,
        ;
        value = value * 10 + digit;
        i = i + 1;
    }
    assert(d.take(hi - start) =~= d);
    Some(value)
}

/// The resident set size in kilobytes that a process status text (`/proc/self/status`)
/// states on its `VmRSS:` line, or `None` when no line opens with that label, or the first
/// such line holds no word after it, or that word is no `u64`.
pub fn parse_vm_rss_kb(status: &str) -> (r: Option<u64>)
    ensures
        r == vm_rss_kb(status@),
{
    let cs = chars_of(status);
    let n = cs.len();
    let ghost s = status@;
    let mut i: usize = 0;
    while i < n
        invariant
            n == cs.len(),
            cs@ == s,
            s == status@,
            i <= n,
            rss_rest(s, 0) == rss_rest(s, i as int),
        decreases n - i,
    {
        if n - i >= 6 && cs[i] == 'V' && cs[i + 1] == 'm' && cs[i + 2] == 'R' && cs[i + 3] == 'S'
            && cs[i + 4] == 'S' && cs[i + 5] == ':' {
            assert(opens_with_label(s, i as int)) by {
                assert(s.subrange(i as int, i + 6) =~= rss_label());
            }
            let mut e: usize = i + 6;
            while e < n && cs[e] != '\n'
                invariant
                    n == cs.len(),
                    cs@ == s,
                    i + 6 <= e <= n,
                    line_end(s, i + 6) == line_end(s, e as int),
                decreases n - e,
            {
                e = e + 1;
            }
            assert(line_end(s, e as int) == e);
            let ghost rest = s.subrange(i + 6, e as int);
            assert(rss_rest(s, i as int) == Some(rest));
            let mut a: usize = i + 6;
            while a < e && white(cs[a])
                invariant
                    n == cs.len(),
                    cs@ == s,
                    i + 6 <= a <= e <= n,
                    rest == s.subrange(i + 6, e as int),
                    skip_white(rest, 0) == skip_white(rest, a - (i + 6)),
                decreases e - a,
            {
                assert(rest[a - (i + 6)] == cs[a as int]);
                a = a + 1;
            }
            if a >= e {
                assert(skip_white(rest, a - (i + 6)) == rest.len());
                assert(first_word(rest) is None);
                assert(vm_rss_kb(s) is None);
                return None;
            }
            assert(rest[a - (i + 6)] == cs[a as int]);
            assert(skip_white(rest, a - (i + 6)) == a - (i + 6));
            let mut b: usize = a;
            while b < e && !white(cs[b])
                invariant
                    n == cs.len(),
                    cs@ == s,
                    i + 6 <= a <= b <= e <= n,
                    rest == s.subrange(i + 6, e as int),
                    word_end(rest, a - (i + 6)) == word_end(rest, b - (i + 6)),
                decreases e - b,
            {
                assert(rest[b - (i + 6)] == cs[b as int]);
                b = b + 1;
            }
            if b < e {
                assert(rest[b - (i + 6)] == cs[b as int]);
            }
            assert(word_end(rest, b - (i + 6)) == b - (i + 6));
            assert(first_word(rest) == Some(s.subrange(a as int, b as int))) by {
                assert(rest.subrange(a - (i + 6), b - (i + 6)) =~= s.subrange(a as int, b as int));
            }
            assert(vm_rss_kb(s) == parse_u64_spec(cs@.subrange(a as int, b as int)));
            return parse_u64_chars(&cs, a, b);
        }
        assert(!opens_with_label(s, i as int)) by {
            if opens_with_label(s, i as int) {
                let w = s.subrange(i as int, i + 6);
                assert(w[0] == 'V' && w[1] == 'm' && w[2] == 'R');
                assert(w[3] == 'S' && w[4] == 'S' && w[5] == ':');
            }
        }
        let mut e: usize = i;
        while e < n && cs[e] != '\n'
            invariant
                n == cs.len(),
                cs@ == s,
                i <= e <= n,
                line_end(s, i as int) == line_end(s, e as int),
            decreases n - e,
        {
            e = e + 1;
        }
        assert(line_end(s, e as int) == e);
        if e >= n {
            assert(rss_rest(s, e + 1) is None);
            assert(rss_rest(s, i as int) is None);
            assert(vm_rss_kb(s) is None);
            return None;
        }
        i = e + 1;
    }
    None
}

/// The resident set size in bytes that a process status text states: the kilobytes of
/// `parse_vm_rss_kb` times 1024. The product must fit in a `u64`.
pub fn parse_vm_rss_bytes(status: &str) -> (r: Option<u64>)
    requires
        vm_rss_kb(status@) matches Some(k) ==> k * 1024 <= u64::MAX,
    ensures
        r == (match vm_rss_kb(status@) {
            Some(k) => Some((k * 1024) as u64),
            None => None,
        }),
{
    match parse_vm_rss_kb(status) {
        Some(kb) => Some(kb * 1024),
        None => None,
    }
}

/// A status text that opens with `VmRSS:`, a space, the decimal digits of `n` and ` kB`
/// states `n` kilobytes, whatever follows.
pub proof fn lemma_rss_line(n: u64, tail: Seq<char>)
    ensures
        vm_rss_kb(rss_label() + seq![' '] + decimal(n as nat) + seq![' ', 'k', 'B'] + tail) == Some(n),
{
    let d = decimal(n as nat);
    lemma_decimal_value(n as nat);
    let s = rss_label() + seq![' '] + d + seq![' ', 'k', 'B'] + tail;
    let m = d.len() as int;
    assert(s.subrange(0, 6) =~= rss_label());
    assert(opens_with_label(s, 0));
    assert forall|k: int| 0 <= k < m implies s[7 + k] == d[k] by {}
    assert(s[6] == ' ');
    assert(s[7 + m] == ' ');
    lemma_line_end(s, 6);
    let e = line_end(s, 6);
    assert forall|k: int| 6 <= k < 10 + m implies s[k] != '\n' by {
        if 7 <= k < 7 + m {
            assert(s[k] == d[k - 7]);
            assert(is_digit(d[k - 7]));
        }
    }
    assert(e >= 10 + m) by {
        if e < 10 + m {
            assert(s[e] == '\n');
        }
    }
    assert(rss_rest(s, 0) == Some(s.subrange(6, e)));
    let rest = s.subrange(6, e);
    assert(rest[0] == ' ');
    assert(rest[1] == d[0]);
    assert(is_digit(d[0]));
    assert(!is_white(rest[1]));
    assert(skip_white(rest, 1) == 1);
    assert(skip_white(rest, 0) == 1);
    lemma_word_end(rest, 1);
    let we = word_end(rest, 1);
    assert forall|k: int| 1 <= k < 1 + m implies !is_white(#[trigger] rest[k]) by {
        assert(rest[k] == d[k - 1]);
        assert(is_digit(d[k - 1]));
    }
    assert(rest[1 + m] == ' ');
    assert(we == 1 + m) by {
        if we < 1 + m {
            assert(!is_white(rest[we]));
        }
    }
    let word = rest.subrange(1, we);
    assert(word =~= d);
    assert(first_word(rest) == Some(d));
    assert(d[0] != '+');
    assert(sign_stripped(d) == d);
    assert(all_digits(d));
}

} // verus!
