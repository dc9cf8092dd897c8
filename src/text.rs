use vstd::prelude::*;

use crate::record::strings_view;

verus! {

/// Unicode's White_Space property, the set that `char::is_whitespace` tests.
pub open spec fn is_whitespace(c: char) -> bool {
    let u = c as u32;
    (0x09 <= u <= 0x0D) || u == 0x20 || u == 0x85 || u == 0xA0 || u == 0x1680 || (0x2000 <= u
        <= 0x200A) || u == 0x2028 || u == 0x2029 || u == 0x202F || u == 0x205F || u == 0x3000
}

/// `s` without its leading whitespace.
pub open spec fn trim_start(s: Seq<char>) -> Seq<char>
    decreases s.len(),
{
    if s.len() > 0 && is_whitespace(s[0]) {
        trim_start(s.drop_first())
    } else {
        s
    }
}

/// `s` without its trailing whitespace.
pub open spec fn trim_end(s: Seq<char>) -> Seq<char>
    decreases s.len(),
{
    if s.len() > 0 && is_whitespace(s.last()) {
        trim_end(s.drop_last())
    } else {
        s
    }
}

/// `s` without leading and trailing whitespace.
pub open spec fn trim(s: Seq<char>) -> Seq<char> {
    trim_end(trim_start(s))
}

/// The first index at or after `i` that holds `c`, or the length of `s` where there is none.
pub open spec fn find_from(s: Seq<char>, i: int, c: char) -> int
    decreases s.len() - i,
{
    if i >= s.len() {
        s.len() as int
    } else if s[i] == c {
        i
    } else {
        find_from(s, i + 1, c)
    }
}

/// `find_from` lies between `i` and the end, finds `c` where it stops before the end, and
/// passes no `c` on its way.
pub proof fn lemma_find_from(s: Seq<char>, i: int, c: char)
    requires
        0 <= i <= s.len(),
    ensures
        i <= find_from(s, i, c) <= s.len(),
        find_from(s, i, c) < s.len() ==> s[find_from(s, i, c)] == c,
        forall|j: int| i <= j < find_from(s, i, c) ==> s[j] != c,
    decreases s.len() - i,
{
    if i < s.len() && s[i] != c {
        lemma_find_from(s, i + 1, c);
    }
}

/// The line that starts at `i` and ends before the newline at `e` (or at the end of the text):
/// a carriage return before that newline is not part of it.
pub open spec fn line_at(s: Seq<char>, i: int, e: int) -> Seq<char> {
    let l = s.subrange(i, e);
    if e < s.len() && l.len() > 0 && l.last() == '\r' {
        l.drop_last()
    } else {
        l
    }
}

/// The lines of `s` from index `i` on, as `str::lines` gives them: split at each newline, a
/// final newline ends the last line without starting another.
pub open spec fn lines_from(s: Seq<char>, i: int) -> Seq<Seq<char>>
    decreases s.len() + 1 - i via lines_from_decreases
{
    if i < 0 || i >= s.len() {
        Seq::empty()
    } else {
        let e = find_from(s, i, '\n');
        seq![line_at(s, i, e)] + lines_from(s, e + 1)
    }
}

#[via_fn]
proof fn lines_from_decreases(s: Seq<char>, i: int) {
    if 0 <= i < s.len() {
        lemma_find_from(s, i, '\n');
    }
}

/// The lines of the text `s`.
pub open spec fn lines(s: Seq<char>) -> Seq<Seq<char>> {
    lines_from(s, 0)
}

/// The whitespace-separated words of `s` from index `i` on, where `cur` holds the characters of
/// a word that was begun before `i`.
pub open spec fn words_from(s: Seq<char>, i: int, cur: Seq<char>) -> Seq<Seq<char>>
    decreases s.len() - i,
{
    if i < 0 || i >= s.len() {
        if cur.len() == 0 {
            Seq::empty()
        } else {
            seq![cur]
        }
    } else if is_whitespace(s[i]) {
        if cur.len() == 0 {
            words_from(s, i + 1, cur)
        } else {
            seq![cur] + words_from(s, i + 1, Seq::empty())
        }
    } else {
        words_from(s, i + 1, cur.push(s[i]))
    }
}

/// The non-empty runs of non-whitespace characters of `s`, in order.
pub open spec fn words(s: Seq<char>) -> Seq<Seq<char>> {
    words_from(s, 0, Seq::empty())
}

/// Whether `c` is an ASCII decimal digit.
pub open spec fn is_digit(c: char) -> bool {
    '0' <= c <= '9'
}

/// The number that the decimal digits `d` write.
pub open spec fn digits_value(d: Seq<char>) -> int
    decreases d.len(),
{
    if d.len() == 0 {
        0
    } else {
        digits_value(d.drop_last()) * 10 + (d.last() as int - '0' as int)
    }
}

/// The digits of an unsigned decimal number: a `+` sign may stand before them.
pub open spec fn unsigned_digits(s: Seq<char>) -> Seq<char> {
    if s.len() > 0 && s[0] == '+' {
        s.drop_first()
    } else {
        s
    }
}

/// What `str::parse::<u32>` gives: the value, where `s` is one or more digits after an optional
/// `+` and the value fits in 32 bits; `None` otherwise.
pub open spec fn parse_u32(s: Seq<char>) -> Option<u32> {
    let d = unsigned_digits(s);
    if d.len() > 0 && (forall|k: int| 0 <= k < d.len() ==> is_digit(#[trigger] d[k]))
        && digits_value(d) <= u32::MAX {
        Some(digits_value(d) as u32)
    } else {
        None
    }
}

/// Whether `c` is whitespace, as `char::is_whitespace` tells.
pub fn is_ws(c: char) -> (r: bool)
    ensures
        r == is_whitespace(c),
{
    let u = c as u32;
    (0x09 <= u && u <= 0x0D) || u == 0x20 || u == 0x85 || u == 0xA0 || u == 0x1680 || (0x2000
        <= u && u <= 0x200A) || u == 0x2028 || u == 0x2029 || u == 0x202F || u == 0x205F || u
        == 0x3000
}


/// Relies on `String::push`: appends the one character to the end of the string.
pub assume_specification[ String::push ](s: &mut String, ch: char)
    ensures
        final(s)@ == old(s)@.push(ch),
;

/// The characters of `text`, one element each.
pub fn chars_of(text: &str) -> (r: Vec<char>)
    ensures
        r@ == text@,
{
    let mut r: Vec<char> = Vec::new();
    for c in it: text.chars()
        invariant
            r@ == it.seq().take(it.index() as int),
    {
        r.push(c);
    }
    r
}

proof fn lemma_find_suffix(s: Seq<char>, lo: int, k: int, c: char)
    requires
        0 <= lo <= s.len(),
        0 <= k <= s.len() - lo,
    ensures
        find_from(s.subrange(lo, s.len() as int), k, c) + lo == find_from(s, lo + k, c),
    decreases s.len() - lo - k,
{
    if k < s.len() - lo {
        lemma_find_suffix(s, lo, k + 1, c);
    }
}

/// The index of the first `c` in `s[lo..hi]`, or `hi` where there is none.
pub fn find_in(s: &Vec<char>, lo: usize, hi: usize, c: char) -> (r: usize)
    requires
        lo <= hi <= s.len(),
    ensures
        r == lo + find_from(s@.subrange(lo as int, hi as int), 0, c),
        lo <= r <= hi,
{
    let ghost sub = s@.subrange(lo as int, hi as int);
    let mut j = lo;
    while j < hi && s[j] != c
        invariant
            lo <= j <= hi <= s.len(),
            sub == s@.subrange(lo as int, hi as int),
            find_from(sub, 0, c) == find_from(sub, j - lo, c),
        decreases hi - j,
    {
        j += 1;
    }
    j
}

/// The index of the first `c` at or after `i` in `s`, or the length of `s`.
pub fn find_after(s: &Vec<char>, i: usize, c: char) -> (r: usize)
    requires
        i <= s.len(),
    ensures
        r == find_from(s@, i as int, c),
{
    let r = find_in(s, i, s.len(), c);
    proof {
        lemma_find_suffix(s@, i as int, 0, c);
    }
    r
}

/// The bounds of `s[lo..hi]` without its leading and trailing whitespace.
pub fn trim_range(s: &Vec<char>, lo: usize, hi: usize) -> (r: (usize, usize))
    requires
        lo <= hi <= s.len(),
    ensures
        lo <= r.0 <= r.1 <= hi,
        s@.subrange(r.0 as int, r.1 as int) == trim(s@.subrange(lo as int, hi as int)),
{
    let mut a = lo;
    while a < hi && is_ws(s[a])
        invariant
            lo <= a <= hi <= s.len(),
            trim_start(s@.subrange(lo as int, hi as int)) == trim_start(
                s@.subrange(a as int, hi as int),
            ),
        decreases hi - a,
    {
        assert(s@.subrange(a + 1, hi as int) =~= s@.subrange(a as int, hi as int).drop_first());
        a += 1;
    }
    let mut b = hi;
    while b > a && is_ws(s[b - 1])
        invariant
            lo <= a <= b <= hi <= s.len(),
            trim_start(s@.subrange(lo as int, hi as int)) == s@.subrange(a as int, hi as int),
            trim_end(s@.subrange(a as int, hi as int)) == trim_end(s@.subrange(a as int, b as int)),
        decreases b - a,
    {
        assert(s@.subrange(a as int, b - 1) =~= s@.subrange(a as int, b as int).drop_last());
        b -= 1;
    }
    (a, b)
}

/// Whether `s[lo..hi]` is exactly the text `lit`.
pub fn range_is(s: &Vec<char>, lo: usize, hi: usize, lit: &str) -> (r: bool)
    requires
        lo <= hi <= s.len(),
    ensures
        r == (s@.subrange(lo as int, hi as int) == lit@),
{
    let n = lit.unicode_len();
    if hi - lo != n {
        return false;
    }
    let mut k: usize = 0;
    while k < n
        invariant
            k <= n == hi - lo,
            lo <= hi <= s.len(),
            n == lit@.len(),
            forall|j: int| 0 <= j < k ==> s@[lo + j] == lit@[j],
        decreases n - k,
    {
        if s[lo + k] != lit.get_char(k) {
            return false;
        }
        k += 1;
    }
    assert(s@.subrange(lo as int, hi as int) =~= lit@);
    true
}

/// The string made of the characters `s[lo..hi]`.
pub fn string_of(s: &Vec<char>, lo: usize, hi: usize) -> (r: String)
    requires
        lo <= hi <= s.len(),
    ensures
        r@ == s@.subrange(lo as int, hi as int),
{
    let mut r = String::new();
    let mut k = lo;
    while k < hi
        invariant
            lo <= k <= hi <= s.len(),
            r@ == s@.subrange(lo as int, k as int),
        decreases hi - k,
    {
        r.push(s[k]);
        assert(r@ =~= s@.subrange(lo as int, k + 1));
        k += 1;
    }
    r
}


/// The whitespace-separated words of `s[lo..hi]`, each as a string of its own.
pub fn words_in(s: &Vec<char>, lo: usize, hi: usize) -> (r: Vec<String>)
    requires
        lo <= hi <= s.len(),
    ensures
        strings_view(r@) == words(s@.subrange(lo as int, hi as int)),
{
    let ghost sub = s@.subrange(lo as int, hi as int);
    let mut r: Vec<String> = Vec::new();
    let mut cur = String::new();
    let mut cur_len: usize = 0;
    let mut k = lo;
    while k < hi
        invariant
            lo <= k <= hi <= s.len(),
            cur_len == cur@.len() <= k - lo,
            sub == s@.subrange(lo as int, hi as int),
            words(sub) == strings_view(r@) + words_from(sub, k - lo, cur@),
        decreases hi - k,
    {
        let c = s[k];
        let ghost before = r@;
        if is_ws(c) {
            if cur_len > 0 {
                proof {
                    assert(strings_view(before.push(cur)) =~= strings_view(before) + seq![cur@]);
                    assert(words_from(sub, k - lo, cur@) == seq![cur@] + words_from(
                        sub,
                        k - lo + 1,
                        Seq::empty(),
                    ));
                    assert(strings_view(before) + (seq![cur@] + words_from(
                        sub,
                        k - lo + 1,
                        Seq::empty(),
                    )) =~= strings_view(before) + seq![cur@] + words_from(
                        sub,
                        k - lo + 1,
                        Seq::empty(),
                    ));
                }
                r.push(cur);
                cur = String::new();
                cur_len = 0;
            }
        } else {
            cur.push(c);
            cur_len += 1;
        }
        k += 1;
    }
    if cur_len > 0 {
        let ghost before = r@;
        proof {
            assert(strings_view(before.push(cur)) =~= strings_view(before) + seq![cur@]);
        }
        r.push(cur);
    } else {
        assert(strings_view(r@) + Seq::<Seq<char>>::empty() =~= strings_view(r@));
    }
    r
}

proof fn lemma_digits_value_nonneg(d: Seq<char>)
    requires
        forall|j: int| 0 <= j < d.len() ==> is_digit(#[trigger] d[j]),
    ensures
        digits_value(d) >= 0,
    decreases d.len(),
{
    if d.len() > 0 {
        lemma_digits_value_nonneg(d.drop_last());
    }
}

proof fn lemma_digits_value_grows(d: Seq<char>, k: int)
    requires
        0 <= k <= d.len(),
        forall|j: int| 0 <= j < d.len() ==> is_digit(#[trigger] d[j]),
    ensures
        digits_value(d.take(k)) <= digits_value(d),
    decreases d.len() - k,
{
    if k < d.len() {
        lemma_digits_value_grows(d, k + 1);
        assert(d.take(k + 1).drop_last() =~= d.take(k));
        lemma_digits_value_nonneg(d.take(k));
    } else {
        assert(d.take(k) =~= d);
    }
}

/// The value of the decimal number `s[lo..hi]`, as `str::parse::<u32>` reads it.
pub fn parse_u32_in(s: &Vec<char>, lo: usize, hi: usize) -> (r: Option<u32>)
    requires
        lo <= hi <= s.len(),
    ensures
        r == parse_u32(s@.subrange(lo as int, hi as int)),
{
    let ghost sub = s@.subrange(lo as int, hi as int);
    let mut a = lo;
    if a < hi && s[a] == '+' {
        a += 1;
    }
    let ghost d = s@.subrange(a as int, hi as int);
    assert(d =~= unsigned_digits(sub));
    if a == hi {
        return None;
    }
    let mut v: u64 = 0;
    let mut k = a;
    while k < hi
        invariant
            lo <= a <= k <= hi <= s.len(),
            sub == s@.subrange(lo as int, hi as int),
            d == s@.subrange(a as int, hi as int),
            d == unsigned_digits(sub),
            forall|j: int| a <= j < k ==> is_digit(#[trigger] s@[j]),
            v == digits_value(d.take(k - a)),
            v <= u32::MAX,
        decreases hi - k,
    {
        let c = s[k];
        if !('0' <= c && c <= '9') {
            assert(!is_digit(d[k - a]));
            return None;
        }
        assert(d.take(k - a + 1).drop_last() =~= d.take(k - a));
        v = v * 10 + (c as u64 - '0' as u64);
        k += 1;
        if v > 0xFFFF_FFFF {
            proof {
                if forall|j: int| 0 <= j < d.len() ==> is_digit(#[trigger] d[j]) {
                    lemma_digits_value_grows(d, k - a);
                }
            }
            return None;
        }
    }
    assert(d.take(k - a) =~= d);
    Some(v as u32)
}

} // verus!
