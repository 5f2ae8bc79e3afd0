//! Operations on text, taken as a sequence of characters.
use vstd::prelude::*;

verus! {

/// `String::push` appends the given character.
pub assume_specification[ String::push ](s: &mut String, c: char)
    ensures
        final(s)@ == old(s)@.push(c),
;

/// The characters of an optional string.
pub open spec fn optional_text(s: Option<String>) -> Option<Seq<char>> {
    match s {
        Some(t) => Some(t@),
        None => None,
    }
}

/// The characters with the Unicode property `White_Space`.
pub open spec fn is_white(c: char) -> bool {
    let n = c as u32;
    ||| 0x09 <= n <= 0x0d
    ||| n == 0x20
    ||| n == 0x85
    ||| n == 0xa0
    ||| n == 0x1680
    ||| 0x2000 <= n <= 0x200a
    ||| n == 0x2028
    ||| n == 0x2029
    ||| n == 0x202f
    ||| n == 0x205f
    ||| n == 0x3000
}

/// `s` without its leading white space.
pub open spec fn skip_white(s: Seq<char>) -> Seq<char>
    decreases s.len(),
{
    if s.len() > 0 && is_white(s[0]) {
        skip_white(s.drop_first())
    } else {
        s
    }
}

/// `s` without its trailing white space.
pub open spec fn drop_white(s: Seq<char>) -> Seq<char>
    decreases s.len(),
{
    if s.len() > 0 && is_white(s.last()) {
        drop_white(s.drop_last())
    } else {
        s
    }
}

/// `s` without the white space at its two ends.
pub open spec fn trim(s: Seq<char>) -> Seq<char> {
    drop_white(skip_white(s))
}

/// The lower-case form of an ASCII letter; any other character as it is.
pub open spec fn lower_char(c: char) -> char {
    if 'A' <= c <= 'Z' {
        ((c as u32) + 32) as char
    } else {
        c
    }
}

/// `s` with its ASCII letters in lower case.
pub open spec fn lower(s: Seq<char>) -> Seq<char> {
    Seq::new(s.len(), |i: int| lower_char(s[i]))
}

/// Whether `pat` occurs somewhere in `s`.
pub open spec fn has_substring(s: Seq<char>, pat: Seq<char>) -> bool {
    exists|i: int| 0 <= i <= s.len() - pat.len() && #[trigger] s.subrange(i, i + pat.len()) == pat
}

/// `s` with every occurrence of `pat` replaced, from left to right, without overlaps.
pub open spec fn replaced(s: Seq<char>, pat: Seq<char>, rep: Seq<char>) -> Seq<char>
    decreases s.len(),
{
    if pat.len() == 0 || s.len() < pat.len() {
        s
    } else if pat.is_prefix_of(s) {
        rep + replaced(s.skip(pat.len() as int), pat, rep)
    } else {
        seq![s[0]] + replaced(s.skip(1), pat, rep)
    }
}

/// The character of the decimal digit `d`.
pub open spec fn digit_char(d: nat) -> char {
    (('0' as u32) + d) as char
}

/// `n` in decimal.
pub open spec fn decimal(n: nat) -> Seq<char>
    decreases n,
{
    if n < 10 {
        seq![digit_char(n)]
    } else {
        decimal(n / 10).push(digit_char(n % 10))
    }
}

/// `s`, with zeros put in front until it has `width` characters.
pub open spec fn zero_padded(s: Seq<char>, width: nat) -> Seq<char> {
    if s.len() < width {
        Seq::new((width - s.len()) as nat, |i: int| '0') + s
    } else {
        s
    }
}

/// Whether `c` is one of the ten decimal digits.
pub open spec fn is_digit(c: char) -> bool {
    '0' <= c <= '9'
}

/// Whether `s` consists of one or more decimal digits.
pub open spec fn is_digits(s: Seq<char>) -> bool {
    s.len() > 0 && forall|i: int| 0 <= i < s.len() ==> is_digit(#[trigger] s[i])
}

/// The number that the digits of `s` write in decimal.
pub open spec fn digits_value(s: Seq<char>) -> nat
    decreases s.len(),
{
    if s.len() == 0 {
        0
    } else {
        digits_value(s.drop_last()) * 10 + ((s.last() as u32 - '0' as u32) as nat)
    }
}

/// The integer that `s` writes: an optional sign, then digits and nothing else.
pub open spec fn integer_value(s: Seq<char>) -> Option<int> {
    if is_digits(s) {
        Some(digits_value(s) as int)
    } else if s.len() > 0 && s[0] == '+' && is_digits(s.skip(1)) {
        Some(digits_value(s.skip(1)) as int)
    } else if s.len() > 0 && s[0] == '-' && is_digits(s.skip(1)) {
        Some(-digits_value(s.skip(1)))
    } else {
        None
    }
}

/// The integer that `s` writes, where it is one that an `i32` can hold.
pub open spec fn i32_value(s: Seq<char>) -> Option<i32> {
    match integer_value(s) {
        Some(v) => if i32::MIN <= v <= i32::MAX {
            Some(v as i32)
        } else {
            None
        },
        None => None,
    }
}

proof fn lemma_skip_white(s: Seq<char>) -> (n: int)
    ensures
        0 <= n <= s.len(),
        skip_white(s) == s.skip(n),
        forall|i: int| 0 <= i < n ==> is_white(#[trigger] s[i]),
        skip_white(s).len() > 0 ==> !is_white(skip_white(s)[0]),
    decreases s.len(),
{
    if s.len() > 0 && is_white(s[0]) {
        let rest = s.drop_first();
        let m = lemma_skip_white(rest);
        assert(rest.skip(m) == s.skip(m + 1));
        assert forall|i: int| 0 <= i < m + 1 implies is_white(#[trigger] s[i]) by {
            if i > 0 {
                assert(rest[i - 1] == s[i]);
            }
        }
        m + 1
    } else {
        assert(s.skip(0) == s);
        0
    }
}

proof fn lemma_drop_white(s: Seq<char>) -> (n: int)
    ensures
        0 <= n <= s.len(),
        drop_white(s) == s.take(n),
        forall|i: int| n <= i < s.len() ==> is_white(#[trigger] s[i]),
        drop_white(s).len() > 0 ==> !is_white(drop_white(s).last()),
    decreases s.len(),
{
    if s.len() > 0 && is_white(s.last()) {
        let rest = s.drop_last();
        let m = lemma_drop_white(rest);
        assert(rest.take(m) == s.take(m));
        assert forall|i: int| m <= i < s.len() implies is_white(#[trigger] s[i]) by {
            if i < rest.len() {
                assert(rest[i] == s[i]);
            }
        }
        m
    } else {
        assert(s.take(s.len() as int) == s);
        s.len() as int
    }
}

/// What trimming leaves is a part of the text; before and behind it is white space alone, and it
/// has none at its own ends.
pub proof fn lemma_trim_is_part(s: Seq<char>) -> (bounds: (int, int))
    ensures
        0 <= bounds.0 <= bounds.1 <= s.len(),
        trim(s) == s.subrange(bounds.0, bounds.1),
        forall|i: int| 0 <= i < bounds.0 ==> is_white(#[trigger] s[i]),
        forall|i: int| bounds.1 <= i < s.len() ==> is_white(#[trigger] s[i]),
        trim(s).len() > 0 ==> !is_white(trim(s)[0]) && !is_white(trim(s).last()),
{
    let lo = lemma_skip_white(s);
    let rest = s.skip(lo);
    let n = lemma_drop_white(rest);
    assert(rest.take(n) == s.subrange(lo, lo + n));
    assert forall|i: int| lo + n <= i < s.len() implies is_white(#[trigger] s[i]) by {
        assert(rest[i - lo] == s[i]);
    }
    (lo, lo + n)
}

/// A text without white space at its ends is left as it is.
pub proof fn lemma_trim_keeps(s: Seq<char>)
    requires
        s.len() > 0 ==> !is_white(s[0]) && !is_white(s.last()),
    ensures
        trim(s) == s,
{
}

/// Trimming a second time changes nothing.
pub proof fn lemma_trim_twice(s: Seq<char>)
    ensures
        trim(trim(s)) == trim(s),
{
    let _ = lemma_trim_is_part(s);
    lemma_trim_keeps(trim(s));
}

/// Tests a character for white space.
pub fn is_white_char(c: char) -> (r: bool)
    ensures
        r == is_white(c),
{
    let n: u32 = c as u32;
    (0x09 <= n && n <= 0x0d) || n == 0x20 || n == 0x85 || n == 0xa0 || n == 0x1680 || (0x2000 <= n
        && n <= 0x200a) || n == 0x2028 || n == 0x2029 || n == 0x202f || n == 0x205f || n == 0x3000
}

/// The characters of a string.
pub fn chars_of(s: &str) -> (r: Vec<char>)
    ensures
        r@ == s@,
{
    let mut out: Vec<char> = Vec::new();
    for c in it: s.chars()
        invariant
            it.seq() == s@,
            out@ == s@.take(it.index()),
    {
        assert(s@.take(it.index() + 1) == s@.take(it.index()).push(c));
        out.push(c);
    }
    assert(s@.take(s@.len() as int) == s@);
    out
}

/// The string of the given characters.
pub fn string_of(chars: &[char]) -> (r: String)
    ensures
        r@ == chars@,
{
    let mut out: String = String::new();
    let mut i: usize = 0;
    while i < chars.len()
        invariant
            i <= chars@.len(),
            out@ == chars@.take(i as int),
        decreases chars@.len() - i,
    {
        assert(chars@.take(i + 1) == chars@.take(i as int).push(chars@[i as int]));
        out.push(chars[i]);
        i += 1;
    }
    assert(chars@.take(chars@.len() as int) == chars@);
    out
}

/// The bounds of what stays of the characters once their white space is trimmed.
fn trim_bounds(chars: &[char]) -> (r: (usize, usize))
    ensures
        r.0 <= r.1 <= chars@.len(),
        trim(chars@) == chars@.subrange(r.0 as int, r.1 as int),
{
    let mut lo: usize = 0;
    assert(chars@.skip(0) == chars@);
    while lo < chars.len() && is_white_char(chars[lo])
        invariant
            lo <= chars@.len(),
            skip_white(chars@) == skip_white(chars@.skip(lo as int)),
        decreases chars@.len() - lo,
    {
        assert(chars@.skip(lo as int).drop_first() == chars@.skip(lo + 1));
        lo += 1;
    }
    let mut hi: usize = chars.len();
    assert(skip_white(chars@) == chars@.skip(lo as int));
    assert(chars@.skip(lo as int) == chars@.subrange(lo as int, hi as int));
    while lo < hi && is_white_char(chars[hi - 1])
        invariant
            lo <= hi <= chars@.len(),
            trim(chars@) == drop_white(chars@.subrange(lo as int, hi as int)),
        decreases hi,
    {
        assert(chars@.subrange(lo as int, hi as int).drop_last() == chars@.subrange(
            lo as int,
            hi - 1,
        ));
        hi -= 1;
    }
    (lo, hi)
}

/// The characters without the white space at their two ends.
pub fn trimmed(chars: &[char]) -> (r: Vec<char>)
    ensures
        r@ == trim(chars@),
{
    let (lo, hi) = trim_bounds(chars);
    vstd::slice::slice_to_vec(vstd::slice::slice_subrange(chars, lo, hi))
}

/// The characters with ASCII letters in lower case.
pub fn lowered(chars: &[char]) -> (r: Vec<char>)
    ensures
        r@ == lower(chars@),
{
    let mut out: Vec<char> = Vec::new();
    let mut i: usize = 0;
    while i < chars.len()
        invariant
            i <= chars@.len(),
            out@ == lower(chars@).take(i as int),
        decreases chars@.len() - i,
    {
        let c: char = chars[i];
        let l: char = if 'A' <= c && c <= 'Z' {
            ((c as u8) + 32) as char
        } else {
            c
        };
        assert(lower(chars@).take(i + 1) == lower(chars@).take(i as int).push(lower_char(c)));
        out.push(l);
        i += 1;
    }
    assert(lower(chars@).take(chars@.len() as int) == lower(chars@));
    out
}

/// Compares characters with those of a string.
pub fn same_text(chars: &[char], s: &str) -> (r: bool)
    ensures
        r == (chars@ == s@),
{
    let other: Vec<char> = chars_of(s);
    assert(chars@.subrange(0, chars@.len() as int) == chars@);
    chars.len() == other.len() && occurs_at(chars, 0, other.as_slice())
}

/// Tests whether `pat` stands in `chars` at position `at`.
pub fn occurs_at(chars: &[char], at: usize, pat: &[char]) -> (r: bool)
    requires
        at <= chars@.len(),
    ensures
        r == (at + pat@.len() <= chars@.len() && chars@.subrange(at as int, at + pat@.len())
            == pat@),
{
    let total: usize = chars.len();
    if pat.len() > total - at {
        return false;
    }
    let mut i: usize = 0;
    while i < pat.len()
        invariant
            i <= pat@.len(),
            total == chars@.len(),
            at + pat@.len() <= chars@.len(),
            forall|j: int| 0 <= j < i ==> #[trigger] pat@[j] == chars@[at + j],
        decreases pat@.len() - i,
    {
        if chars[at + i] != pat[i] {
            assert(chars@.subrange(at as int, at + pat@.len())[i as int] != pat@[i as int]);
            return false;
        }
        i += 1;
    }
    assert(chars@.subrange(at as int, at + pat@.len()) == pat@);
    true
}

/// Tests whether the characters begin with `pat`.
pub fn begins_with(chars: &[char], pat: &str) -> (r: bool)
    ensures
        r == pat@.is_prefix_of(chars@),
{
    let pat_chars: Vec<char> = chars_of(pat);
    let r: bool = occurs_at(chars, 0, pat_chars.as_slice());
    assert(r == pat@.is_prefix_of(chars@)) by {
        if pat@.len() <= chars@.len() {
            assert(chars@.subrange(0, pat@.len() as int) == chars@.take(pat@.len() as int));
            if pat@.is_prefix_of(chars@) {
                assert(chars@.take(pat@.len() as int) == pat@);
            } else if r {
                assert forall|i: int| 0 <= i < pat@.len() implies pat@[i] == chars@[i] by {
                    assert(chars@.take(pat@.len() as int)[i] == pat@[i]);
                }
            }
        }
    }
    r
}

/// Tests whether the characters end with `pat`.
pub fn finishes_with(chars: &[char], pat: &str) -> (r: bool)
    ensures
        r == pat@.is_suffix_of(chars@),
{
    let pat_chars: Vec<char> = chars_of(pat);
    if pat_chars.len() > chars.len() {
        return false;
    }
    let at: usize = chars.len() - pat_chars.len();
    let r: bool = occurs_at(chars, at, pat_chars.as_slice());
    assert(r == pat@.is_suffix_of(chars@)) by {
        let tail = chars@.subrange(at as int, at + pat@.len());
        if pat@.is_suffix_of(chars@) {
            assert(tail == pat@);
        } else if r {
            assert forall|i: int| 0 <= i < pat@.len() implies pat@[i] == chars@[at + i] by {
                assert(tail[i] == pat@[i]);
            }
        }
    }
    r
}

/// Tests whether `pat` occurs somewhere in the characters.
pub fn contains_text(chars: &[char], pat: &str) -> (r: bool)
    ensures
        r == has_substring(chars@, pat@),
{
    let pat_chars: Vec<char> = chars_of(pat);
    if pat_chars.len() > chars.len() {
        return false;
    }
    let last: usize = chars.len() - pat_chars.len();
    let mut at: usize = 0;
    loop
        invariant
            pat_chars@ == pat@,
            last == chars@.len() - pat@.len(),
            at <= last,
            forall|j: int| 0 <= j < at ==> #[trigger] chars@.subrange(j, j + pat@.len()) != pat@,
        decreases last - at,
    {
        if occurs_at(chars, at, pat_chars.as_slice()) {
            return true;
        }
        if at == last {
            return false;
        }
        at += 1;
    }
}

/// The characters with every occurrence of `pat` replaced by `rep`.
pub fn with_replaced(chars: &[char], pat: &str, rep: &str) -> (r: Vec<char>)
    requires
        pat@.len() > 0,
    ensures
        r@ == replaced(chars@, pat@, rep@),
{
    let pat_chars: Vec<char> = chars_of(pat);
    let rep_chars: Vec<char> = chars_of(rep);
    let total: usize = chars.len();
    let mut out: Vec<char> = Vec::new();
    let mut at: usize = 0;
    assert(chars@.skip(0) == chars@);
    while at < total
        invariant
            total == chars@.len(),
            at <= total,
            pat@.len() > 0,
            pat_chars@ == pat@,
            rep_chars@ == rep@,
            replaced(chars@, pat@, rep@) == out@ + replaced(chars@.skip(at as int), pat@, rep@),
        decreases total - at,
    {
        let ghost rest = chars@.skip(at as int);
        let ghost before = out@;
        if occurs_at(chars, at, pat_chars.as_slice()) {
            proof {
                let n = pat@.len() as int;
                assert(rest.take(n) == chars@.subrange(at as int, at + n));
                assert forall|i: int| 0 <= i < n implies pat@[i] == rest[i] by {
                    assert(rest.take(n)[i] == pat@[i]);
                }
                assert(pat@.is_prefix_of(rest));
                assert(rest.skip(n) == chars@.skip(at + n));
                assert(before + (rep@ + replaced(rest.skip(n), pat@, rep@)) == (before + rep@)
                    + replaced(rest.skip(n), pat@, rep@));
            }
            append_chars(&mut out, rep_chars.as_slice());
            at += pat_chars.len();
        } else {
            proof {
                assert(!pat@.is_prefix_of(rest)) by {
                    if pat@.is_prefix_of(rest) {
                        assert(chars@.subrange(at as int, at + pat@.len()) == pat@);
                    }
                }
                if rest.len() < pat@.len() {
                    assert(replaced(rest, pat@, rep@) == rest);
                    assert(replaced(rest.skip(1), pat@, rep@) == rest.skip(1));
                    assert(rest == seq![rest[0]] + rest.skip(1));
                }
                assert(rest.skip(1) == chars@.skip(at + 1));
                assert(before + (seq![rest[0]] + replaced(rest.skip(1), pat@, rep@))
                    == before.push(rest[0]) + replaced(rest.skip(1), pat@, rep@));
            }
            out.push(chars[at]);
            at += 1;
        }
    }
    assert(chars@.skip(total as int) == Seq::<char>::empty());
    assert(out@ + Seq::<char>::empty() == out@);
    out
}

/// Appends characters.
fn append_chars(out: &mut Vec<char>, more: &[char])
    ensures
        final(out)@ == old(out)@ + more@,
{
    let ghost start = out@;
    let mut i: usize = 0;
    assert(start + more@.take(0) == start);
    while i < more.len()
        invariant
            i <= more@.len(),
            out@ == start + more@.take(i as int),
        decreases more@.len() - i,
    {
        assert(start + more@.take(i + 1) == (start + more@.take(i as int)).push(more@[i as int]));
        out.push(more[i]);
        i += 1;
    }
    assert(more@.take(more@.len() as int) == more@);
}

/// A number in decimal.
pub fn decimal_text(n: u64) -> (r: String)
    ensures
        r@ == decimal(n as nat),
    decreases n,
{
    let mut out: String = if n < 10 {
        String::new()
    } else {
        decimal_text(n / 10)
    };
    let ghost before = out@;
    let digit: u8 = (n % 10) as u8;
    out.push((48 + digit) as char);
    proof {
        assert((48 + digit) as char == digit_char((n % 10) as nat));
        if n < 10 {
            assert(before.push(digit_char(n as nat)) == seq![digit_char(n as nat)]);
        }
    }
    out
}

/// A number in decimal, with zeros in front to fill `width` characters.
pub fn padded_decimal_text(n: u64, width: usize) -> (r: String)
    ensures
        r@ == zero_padded(decimal(n as nat), width as nat),
{
    let digits: Vec<char> = chars_of(decimal_text(n).as_str());
    let mut out: String = String::new();
    let mut len: usize = digits.len();
    let ghost zeros = Seq::new((width - digits@.len()) as nat, |i: int| '0');
    while len < width
        invariant
            digits@.len() <= len,
            len <= width || len == digits@.len(),
            digits@.len() < width ==> zeros == Seq::new((width - digits@.len()) as nat, |i: int| '0'),
            digits@.len() < width ==> out@ == zeros.take(len - digits@.len()),
            len == digits@.len() ==> out@ == Seq::<char>::empty(),
        decreases width - len,
    {
        assert(zeros.take(len + 1 - digits@.len()) == zeros.take(len - digits@.len()).push('0'));
        out.push('0');
        len += 1;
    }
    if digits.len() < width {
        assert(zeros.take(width - digits@.len()) == zeros);
    }
    let text: String = string_of(digits.as_slice());
    assert(out@ + text@ == zero_padded(digits@, width as nat));
    out.append(text.as_str());
    out
}

proof fn lemma_digits_value_take(s: Seq<char>, i: int)
    requires
        0 <= i < s.len(),
    ensures
        digits_value(s.take(i + 1)) == digits_value(s.take(i)) * 10 + ((s[i] as u32 - '0' as u32) as nat),
{
    assert(s.take(i + 1).drop_last() == s.take(i));
}

/// The value of a run of digits, where it is at most `limit`.
fn digits_up_to(chars: &[char], limit: u64) -> (r: Option<u64>)
    requires
        limit <= 0x8000_0000,
    ensures
        r matches Some(v) ==> is_digits(chars@) && digits_value(chars@) == v && v <= limit,
        r is None ==> !is_digits(chars@) || digits_value(chars@) > limit,
{
    if chars.len() == 0 {
        return None;
    }
    let mut value: u64 = 0;
    let mut over: bool = false;
    let mut i: usize = 0;
    while i < chars.len()
        invariant
            i <= chars@.len(),
            limit <= 0x8000_0000,
            forall|j: int| 0 <= j < i ==> is_digit(#[trigger] chars@[j]),
            !over ==> value <= limit && value == digits_value(chars@.take(i as int)),
            over ==> digits_value(chars@.take(i as int)) > limit,
        decreases chars@.len() - i,
    {
        let c: char = chars[i];
        if c < '0' || c > '9' {
            assert(!is_digit(chars@[i as int]));
            return None;
        }
        proof {
            lemma_digits_value_take(chars@, i as int);
        }
        if !over {
            value = value * 10 + ((c as u32 - '0' as u32) as u64);
            if value > limit {
                over = true;
            }
        }
        i += 1;
    }
    assert(chars@.take(chars@.len() as int) == chars@);
    if over {
        None
    } else {
        Some(value)
    }
}

/// Reads the characters as a signed decimal integer.
pub fn read_i32(chars: &[char]) -> (r: Option<i32>)
    ensures
        r == i32_value(chars@),
{
    if chars.len() == 0 {
        return None;
    }
    let negative: bool = chars[0] == '-';
    let from: usize = if negative || chars[0] == '+' {
        1
    } else {
        0
    };
    let limit: u64 = if negative {
        0x8000_0000
    } else {
        0x7fff_ffff
    };
    let digits = vstd::slice::slice_subrange(chars, from, chars.len());
    proof {
        if from == 1 {
            assert(digits@ == chars@.skip(1));
            assert(!is_digit(chars@[0]));
        } else {
            assert(digits@ == chars@);
        }
    }
    match digits_up_to(digits, limit) {
        Some(v) => {
            if negative {
                Some((-(v as i64)) as i32)
            } else {
                Some(v as i32)
            }
        },
        None => None,
    }
}

/// A number in decimal consists of digits, and they write that number.
pub proof fn lemma_decimal_reads_back(n: nat)
    ensures
        is_digits(decimal(n)),
        digits_value(decimal(n)) == n,
    decreases n,
{
    reveal_with_fuel(digits_value, 2);
    if n < 10 {
        assert(decimal(n).drop_last() == Seq::<char>::empty());
    } else {
        lemma_decimal_reads_back(n / 10);
        assert(decimal(n).drop_last() == decimal(n / 10));
        assert forall|i: int| 0 <= i < decimal(n).len() implies is_digit(#[trigger] decimal(n)[i]) by {
            if i < decimal(n).len() - 1 {
                assert(decimal(n)[i] == decimal(n / 10)[i]);
            }
        }
    }
}

proof fn lemma_zeros_in_front(zeros: Seq<char>, s: Seq<char>)
    requires
        forall|i: int| 0 <= i < zeros.len() ==> #[trigger] zeros[i] == '0',
    ensures
        digits_value(zeros + s) == digits_value(s),
    decreases zeros.len() + s.len(),
{
    if s.len() > 0 {
        assert((zeros + s).drop_last() == zeros + s.drop_last());
        lemma_zeros_in_front(zeros, s.drop_last());
    } else if zeros.len() > 0 {
        assert(zeros + s == zeros);
        assert(zeros.drop_last() + s == zeros.drop_last());
        lemma_zeros_in_front(zeros.drop_last(), s);
    } else {
        assert(zeros + s == s);
    }
}

/// Zeros in front change nothing of the number that is written.
pub proof fn lemma_zero_padded_reads_back(n: nat, width: nat)
    ensures
        is_digits(zero_padded(decimal(n), width)),
        digits_value(zero_padded(decimal(n), width)) == n,
{
    lemma_decimal_reads_back(n);
    let s = decimal(n);
    if s.len() < width {
        let zeros = Seq::new((width - s.len()) as nat, |i: int| '0');
        lemma_zeros_in_front(zeros, s);
        assert forall|i: int| 0 <= i < width implies is_digit(#[trigger] zero_padded(s, width)[i]) by {
            if i >= zeros.len() {
                assert(zero_padded(s, width)[i] == s[i - zeros.len()]);
            }
        }
    }
}

/// Whether `s` is made of white space alone.
pub open spec fn all_white(s: Seq<char>) -> bool {
    forall|i: int| 0 <= i < s.len() ==> is_white(#[trigger] s[i])
}

/// White space around a text is trimmed, all of it and nothing else: what is left is the text
/// between, which has none at its ends.
pub proof fn law_trim_takes_white_space_off(before: Seq<char>, middle: Seq<char>, after: Seq<char>)
    requires
        all_white(before),
        all_white(after),
        middle.len() > 0 ==> !is_white(middle[0]) && !is_white(middle.last()),
    ensures
        trim(before + middle + after) == middle,
{
    let s = before + middle + after;
    let (lo, hi) = lemma_trim_is_part(s);
    let m = before.len() as int;
    let n = (before.len() + middle.len()) as int;
    if middle.len() > 0 {
        assert(s[m] == middle[0]);
        assert(s[n - 1] == middle.last());
        assert(lo <= m < hi);
        assert(lo < n <= hi);
        assert(trim(s)[0] == s[lo]);
        assert(trim(s).last() == s[hi - 1]);
        if lo < m {
            assert(s[lo] == before[lo]);
        }
        if hi > n {
            assert(s[hi - 1] == after[hi - 1 - n]);
        }
        assert(s.subrange(m, n) == middle);
    } else if trim(s).len() > 0 {
        assert(trim(s)[0] == s[lo]);
        if lo < m {
            assert(s[lo] == before[lo]);
        } else {
            assert(s[lo] == after[lo - m]);
        }
    }
}

/// A text in lower case is as long as the text; the letters A to Z become a to z, and everything
/// else stays.
pub proof fn law_lower_changes_letters_alone(s: Seq<char>, i: int)
    requires
        0 <= i < s.len(),
    ensures
        lower(s).len() == s.len(),
        65 <= s[i] as u32 <= 90 ==> lower(s)[i] as u32 == s[i] as u32 + 32,
        !(65 <= s[i] as u32 <= 90) ==> lower(s)[i] == s[i],
{
}

/// A number in decimal ends with its last digit, in front of which stands the rest of it; a number
/// of one digit is that digit.
pub proof fn law_decimal_is_written_digit_by_digit(n: nat, d: nat)
    requires
        d < 10,
    ensures
        decimal(d).len() == 1,
        decimal(d)[0] as u32 == 48 + d,
        n > 0 ==> decimal(10 * n + d) == decimal(n) + decimal(d),
{
    if n > 0 {
        assert((10 * n + d) / 10 == n);
        assert((10 * n + d) % 10 == d);
        assert(decimal(n) + decimal(d) == decimal(n).push(digit_char(d)));
    }
}

/// Zeros are put in front of a text that is too short, as many as are missing; a text that is long
/// enough stays.
pub proof fn law_zeros_fill_up(s: Seq<char>, width: nat, i: int)
    ensures
        zero_padded(s, width).len() == if s.len() < width {
            width
        } else {
            s.len()
        },
        zero_padded(s, width).skip(zero_padded(s, width).len() - s.len()) == s,
        0 <= i < width - s.len() ==> zero_padded(s, width)[i] == '0',
{
    assert(zero_padded(s, width).skip(zero_padded(s, width).len() - s.len()) =~= s);
}

/// Digits count from the right: each digit more makes the number ten times as large, and counts
/// itself.
pub proof fn law_digits_count_by_tens(s: Seq<char>, c: char)
    requires
        48 <= c as u32 <= 57,
    ensures
        is_digits(seq![c]),
        digits_value(seq![c]) == c as u32 - 48,
        is_digits(s) ==> is_digits(s.push(c)),
        digits_value(s.push(c)) == 10 * digits_value(s) + (c as u32 - 48),
{
    assert(s.push(c).drop_last() == s);
    assert(seq![c].drop_last() == Seq::<char>::empty());
    assert(digits_value(Seq::<char>::empty()) == 0);
    assert forall|i: int| is_digits(s) && 0 <= i < s.push(c).len() implies is_digit(
        #[trigger] s.push(c)[i],
    ) by {
        if i < s.len() {
            assert(s.push(c)[i] == s[i]);
        }
    }
}

/// Digits are the number that they write, with `+` before them or without; with `-` they are what
/// is as far below zero. A number that an `i32` cannot hold is none.
pub proof fn law_signs_are_read(s: Seq<char>)
    requires
        is_digits(s),
    ensures
        i32_value(s) == (if digits_value(s) <= 2147483647 {
            Some(digits_value(s) as i32)
        } else {
            None
        }),
        i32_value(seq!['+'] + s) == i32_value(s),
        i32_value(seq!['-'] + s) == (if digits_value(s) <= 2147483648 {
            Some((-digits_value(s)) as i32)
        } else {
            None
        }),
{
    let plus = seq!['+'] + s;
    let minus = seq!['-'] + s;
    assert(plus.skip(1) == s);
    assert(minus.skip(1) == s);
    assert(!is_digit(plus[0]));
    assert(!is_digit(minus[0]));
}

/// Nothing is an integer but digits, with a sign before them or without.
pub proof fn law_only_digits_are_integers(s: Seq<char>, i: int)
    requires
        i32_value(s) is Some,
        0 <= i < s.len(),
    ensures
        48 <= s[i] as u32 <= 57 || (i == 0 && s.len() > 1 && (s[0] == '+' || s[0] == '-')),
{
    if i > 0 {
        assert(s.skip(1)[i - 1] == s[i]);
    }
}

/// A text occurs in another exactly where the other is what stands before it, the text, and what
/// stands behind it.
pub proof fn law_substring_stands_between(before: Seq<char>, pat: Seq<char>, after: Seq<char>)
    ensures
        has_substring(before + pat + after, pat),
        forall|s: Seq<char>| #[trigger]
            has_substring(s, pat) ==> exists|a: Seq<char>, b: Seq<char>| s == #[trigger] (a + pat
                + b),
{
    let s = before + pat + after;
    let k = before.len() as int;
    assert(s.subrange(k, k + pat.len()) == pat);
    assert forall|s: Seq<char>| #[trigger] has_substring(s, pat) implies exists|
        a: Seq<char>,
        b: Seq<char>,
    | s == #[trigger] (a + pat + b) by {
        let i = choose|i: int|
            0 <= i <= s.len() - pat.len() && #[trigger] s.subrange(i, i + pat.len()) == pat;
        let a = s.take(i);
        let b = s.skip((i + pat.len()) as int);
        assert(s == a + pat + b);
    }
}

/// The characters of a string that is there are its characters.
pub proof fn law_optional_text_is_the_text(s: String)
    ensures
        optional_text(Some(s)) == Some(s@),
        optional_text(None) is None,
{
}

} // verus!
