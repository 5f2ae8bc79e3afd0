//! Turning a chapter into text to be spoken.
use crate::text::{
    all_white, chars_of, has_substring, is_white, lemma_trim_is_part, lemma_trim_twice, replaced,
    string_of, trim, trimmed, with_replaced,
};
use vstd::prelude::*;
use vstd::string::*;

verus! {

/// The regular expression for a tag: `<`, anything but `>`, `>`.
pub const TAG_PATTERN: &'static str = r"<[^>]+>";

/// The regular expression for two or more line feeds.
pub const NEWLINES_PATTERN: &'static str = r"\n{2,}";

/// The regular expression for tabs, form feeds and vertical tabs.
pub const TABS_PATTERN: &'static str = r"[\t\f\v]+";

/// The regular expression for two or more spaces.
pub const SPACES_PATTERN: &'static str = r" {2,}";

/// What the four regular expressions look for.
pub enum Mark {
    Tag,
    Newlines,
    Tabs,
    Spaces,
}

/// The line feed.
pub open spec fn is_newline(c: char) -> bool {
    c == '\n'
}

/// The tab, the form feed and the vertical tab.
pub open spec fn is_tab(c: char) -> bool {
    c == '\t' || c == '\u{c}' || c == '\u{b}'
}

/// The space.
pub open spec fn is_space(c: char) -> bool {
    c == ' '
}

/// Whether `c` can stand in a run of the given marks; of a tag, between its brackets.
pub open spec fn in_run(mark: Mark, c: char) -> bool {
    match mark {
        Mark::Tag => c != '>',
        Mark::Newlines => is_newline(c),
        Mark::Tabs => is_tab(c),
        Mark::Spaces => is_space(c),
    }
}

/// How many characters at the start of `s` can stand in a run of the given marks.
pub open spec fn run_len(mark: Mark, s: Seq<char>) -> int
    decreases s.len(),
{
    if s.len() > 0 && in_run(mark, s[0]) {
        1 + run_len(mark, s.skip(1))
    } else {
        0
    }
}

/// The length of the mark that `s` begins with, or 0 where it begins with none. A run of line
/// feeds or of spaces counts from two on.
pub open spec fn mark_len(mark: Mark, s: Seq<char>) -> int {
    match mark {
        Mark::Tag => {
            let inside = run_len(mark, s.skip(1));
            if s.len() > 0 && s[0] == '<' && inside > 0 && inside + 1 < s.len() {
                inside + 2
            } else {
                0
            }
        },
        Mark::Tabs => run_len(mark, s),
        _ => if run_len(mark, s) >= 2 {
            run_len(mark, s)
        } else {
            0
        },
    }
}

/// `s` with every mark replaced, from left to right.
pub open spec fn marks_replaced(mark: Mark, s: Seq<char>, rep: Seq<char>) -> Seq<char>
    decreases s.len(),
{
    if s.len() == 0 {
        s
    } else if 0 < mark_len(mark, s) <= s.len() {
        rep + marks_replaced(mark, s.skip(mark_len(mark, s)), rep)
    } else {
        seq![s[0]] + marks_replaced(mark, s.skip(1), rep)
    }
}

/// A chapter before it is cleaned: the title, a full stop, a new line, the content.
pub open spec fn announced(title: Seq<char>, content: Seq<char>) -> Seq<char> {
    title + "。\n"@ + content
}

/// A text in which ideographic spaces, escaped spaces and tags have become spaces.
pub open spec fn untagged(s: Seq<char>) -> Seq<char> {
    marks_replaced(
        Mark::Tag,
        replaced(replaced(s, "\u{3000}"@, " "@), "&nbsp;"@, " "@),
        " "@,
    )
}

/// A text in which white space is evened out: no carriage return, no empty line, no tab, no two
/// spaces in a row, and none at the two ends.
pub open spec fn evened(s: Seq<char>) -> Seq<char> {
    trim(
        marks_replaced(
            Mark::Spaces,
            marks_replaced(
                Mark::Tabs,
                marks_replaced(Mark::Newlines, replaced(s, "\r"@, "\n"@), "\n"@),
                " "@,
            ),
            " "@,
        ),
    )
}

/// A text that is cleaned.
pub open spec fn cleaned(s: Seq<char>) -> Seq<char> {
    evened(untagged(s))
}

/// What is spoken of a chapter.
pub open spec fn sanitized(title: Seq<char>, content: Seq<char>) -> Seq<char> {
    cleaned(announced(title, content))
}

/// `regex::Regex::new` and `regex::Regex::replace_all`: the text with every match of the pattern
/// replaced, from left to right and not overlapping, each as long as its repetition can be. Stated
/// of the four patterns of this module, which compile, and of a replacement without `$`, which
/// stands for itself.
#[verifier::external_body]
fn replace_all(pattern: &str, text: &str, rep: &str) -> (r: String)
    requires
        pattern@ == TAG_PATTERN@ || pattern@ == NEWLINES_PATTERN@ || pattern@ == TABS_PATTERN@
            || pattern@ == SPACES_PATTERN@,
        !rep@.contains('$'),
    ensures
        pattern@ == TAG_PATTERN@ ==> r@ == marks_replaced(Mark::Tag, text@, rep@),
        pattern@ == NEWLINES_PATTERN@ ==> r@ == marks_replaced(Mark::Newlines, text@, rep@),
        pattern@ == TABS_PATTERN@ ==> r@ == marks_replaced(Mark::Tabs, text@, rep@),
        pattern@ == SPACES_PATTERN@ ==> r@ == marks_replaced(Mark::Spaces, text@, rep@),
{
    let expression = regex::Regex::new(pattern).expect("the pattern is a regular expression");
    expression.replace_all(text, rep).to_string()
}

/// Joins the title and the content of a chapter and cleans them: tags, escaped and ideographic
/// spaces become spaces, and white space is evened out.
pub fn sanitize_for_tts(title: &str, content: &str) -> (r: String)
    ensures
        r@ == sanitized(title@, content@),
{
    proof {
        reveal_strlit("\u{3000}");
        reveal_strlit("&nbsp;");
        reveal_strlit("\r");
        reveal_strlit(" ");
        reveal_strlit("\n");
        assert(!" "@.contains('$'));
        assert(!"\n"@.contains('$'));
    }
    let mut combined: String = title.to_string();
    combined.append("。\n");
    combined.append(content);
    let chars: Vec<char> = chars_of(combined.as_str());
    let chars: Vec<char> = with_replaced(chars.as_slice(), "\u{3000}", " ");
    let chars: Vec<char> = with_replaced(chars.as_slice(), "&nbsp;", " ");
    let plain: String = replace_all(TAG_PATTERN, string_of(chars.as_slice()).as_str(), " ");
    let chars: Vec<char> = with_replaced(chars_of(plain.as_str()).as_slice(), "\r", "\n");
    let lines: String = replace_all(NEWLINES_PATTERN, string_of(chars.as_slice()).as_str(), "\n");
    let untabbed: String = replace_all(TABS_PATTERN, lines.as_str(), " ");
    let spaced: String = replace_all(SPACES_PATTERN, untabbed.as_str(), " ");
    string_of(trimmed(chars_of(spaced.as_str()).as_slice()).as_slice())
}

/// Whether `c` does not occur in `s`.
pub open spec fn free_of(s: Seq<char>, c: char) -> bool {
    forall|i: int| 0 <= i < s.len() ==> #[trigger] s[i] != c
}

/// Whether a tag occurs in `s`: somewhere `<`, directly behind it something other than `>`, and
/// later on `>`.
pub open spec fn has_tag(s: Seq<char>) -> bool {
    exists|i: int, j: int| is_tag_at(s, i, j)
}

/// Whether the tag that begins at `i` has its closing bracket at `j` or before.
pub open spec fn is_tag_at(s: Seq<char>, i: int, j: int) -> bool {
    0 <= i && i + 2 <= j < s.len() && s[i] == '<' && s[i + 1] != '>' && s[j] == '>'
}

proof fn lemma_run_len(mark: Mark, s: Seq<char>)
    ensures
        0 <= run_len(mark, s) <= s.len(),
        forall|i: int| 0 <= i < run_len(mark, s) ==> in_run(mark, #[trigger] s[i]),
        run_len(mark, s) < s.len() ==> !in_run(mark, s[run_len(mark, s)]),
    decreases s.len(),
{
    if s.len() > 0 && in_run(mark, s[0]) {
        let rest = s.skip(1);
        lemma_run_len(mark, rest);
        let n = run_len(mark, rest);
        assert forall|i: int| 0 <= i < n + 1 implies in_run(mark, #[trigger] s[i]) by {
            if i > 0 {
                assert(rest[i - 1] == s[i]);
            }
        }
        if n < rest.len() {
            assert(rest[n] == s[n + 1]);
        }
    }
}

proof fn lemma_mark_len(mark: Mark, s: Seq<char>)
    ensures
        0 <= mark_len(mark, s) <= s.len(),
{
    lemma_run_len(mark, s);
    if s.len() > 0 {
        lemma_run_len(mark, s.skip(1));
    }
}

proof fn lemma_free_of_add(a: Seq<char>, b: Seq<char>, c: char)
    requires
        free_of(a, c),
        free_of(b, c),
    ensures
        free_of(a + b, c),
{
}

proof fn lemma_free_of_skip(s: Seq<char>, n: int, c: char)
    requires
        free_of(s, c),
        0 <= n <= s.len(),
    ensures
        free_of(s.skip(n), c),
{
    assert forall|i: int| 0 <= i < s.skip(n).len() implies #[trigger] s.skip(n)[i] != c by {
        assert(s.skip(n)[i] == s[n + i]);
    }
}

/// Replacing marks brings in no character that neither the text nor the replacement has.
proof fn lemma_marks_bring_nothing_in(mark: Mark, s: Seq<char>, rep: Seq<char>, c: char)
    requires
        free_of(s, c),
        free_of(rep, c),
    ensures
        free_of(marks_replaced(mark, s, rep), c),
    decreases s.len(),
{
    if s.len() > 0 {
        lemma_mark_len(mark, s);
        let n = if mark_len(mark, s) > 0 {
            mark_len(mark, s)
        } else {
            1
        };
        lemma_free_of_skip(s, n, c);
        lemma_marks_bring_nothing_in(mark, s.skip(n), rep, c);
        lemma_free_of_add(rep, marks_replaced(mark, s.skip(n), rep), c);
        assert(s[0] != c);
        lemma_free_of_add(seq![s[0]], marks_replaced(mark, s.skip(n), rep), c);
    }
}

/// Replacing a word brings in no character that neither the text nor the replacement has.
proof fn lemma_words_bring_nothing_in(s: Seq<char>, pat: Seq<char>, rep: Seq<char>, c: char)
    requires
        free_of(s, c),
        free_of(rep, c),
    ensures
        free_of(replaced(s, pat, rep), c),
    decreases s.len(),
{
    if pat.len() > 0 && s.len() >= pat.len() {
        let n = if pat.is_prefix_of(s) {
            pat.len() as int
        } else {
            1
        };
        lemma_free_of_skip(s, n, c);
        lemma_words_bring_nothing_in(s.skip(n), pat, rep, c);
        lemma_free_of_add(rep, replaced(s.skip(n), pat, rep), c);
        assert(s[0] != c);
        lemma_free_of_add(seq![s[0]], replaced(s.skip(n), pat, rep), c);
    }
}

/// A character that is replaced wherever it stands does not stay.
proof fn lemma_replaced_char_is_gone(s: Seq<char>, c: char, rep: Seq<char>)
    requires
        free_of(rep, c),
    ensures
        free_of(replaced(s, seq![c], rep), c),
    decreases s.len(),
{
    let pat = seq![c];
    if s.len() > 0 {
        lemma_replaced_char_is_gone(s.skip(1), c, rep);
        lemma_free_of_add(rep, replaced(s.skip(1), pat, rep), c);
        if !pat.is_prefix_of(s) {
            assert(s[0] != c);
            lemma_free_of_add(seq![s[0]], replaced(s.skip(1), pat, rep), c);
        }
    }
}

/// Tabs are replaced wherever they stand.
proof fn lemma_tabs_are_gone(s: Seq<char>, rep: Seq<char>, c: char)
    requires
        is_tab(c),
        free_of(rep, c),
    ensures
        free_of(marks_replaced(Mark::Tabs, s, rep), c),
    decreases s.len(),
{
    if s.len() > 0 {
        lemma_mark_len(Mark::Tabs, s);
        let n = mark_len(Mark::Tabs, s);
        if n > 0 {
            lemma_tabs_are_gone(s.skip(n), rep, c);
            lemma_free_of_add(rep, marks_replaced(Mark::Tabs, s.skip(n), rep), c);
        } else {
            lemma_run_len(Mark::Tabs, s);
            assert(s[0] != c);
            lemma_tabs_are_gone(s.skip(1), rep, c);
            lemma_free_of_add(seq![s[0]], marks_replaced(Mark::Tabs, s.skip(1), rep), c);
        }
    }
}

/// Whether `s` begins with `w`.
spec fn begins(s: Seq<char>, w: Seq<char>) -> bool {
    w.len() <= s.len() && s.take(w.len() as int) == w
}

proof fn lemma_begins_step(c: char, rest: Seq<char>, w: Seq<char>)
    requires
        w.len() > 0,
    ensures
        begins(seq![c] + rest, w) <==> c == w[0] && begins(rest, w.skip(1)),
{
    let s = seq![c] + rest;
    if begins(s, w) {
        assert(s.take(w.len() as int)[0] == w[0]);
        assert(rest.take(w.len() - 1) == w.skip(1)) by {
            assert forall|i: int| 0 <= i < w.len() - 1 implies rest[i] == w[i + 1] by {
                assert(s.take(w.len() as int)[i + 1] == w[i + 1]);
            }
        }
    }
    if c == w[0] && begins(rest, w.skip(1)) {
        assert(s.take(w.len() as int) == w) by {
            assert forall|i: int| 0 <= i < w.len() implies s[i] == w[i] by {
                if i > 0 {
                    assert(rest.take(w.len() - 1)[i - 1] == w.skip(1)[i - 1]);
                }
            }
        }
    }
}

/// Where a word occurs in `s`, it occurs at the start or in the rest.
proof fn lemma_substring_step(s: Seq<char>, w: Seq<char>)
    requires
        s.len() > 0,
    ensures
        has_substring(s, w) <==> begins(s, w) || has_substring(s.skip(1), w),
{
    let rest = s.skip(1);
    let n = w.len() as int;
    if has_substring(s, w) {
        let k = choose|k: int|
            0 <= k <= s.len() - w.len() && #[trigger] s.subrange(k, k + w.len()) == w;
        if k == 0 {
            assert(s.take(n) == s.subrange(0, n));
        } else {
            assert(rest.subrange(k - 1, k - 1 + n) == s.subrange(k, k + n));
        }
    }
    if begins(s, w) {
        assert(s.subrange(0, 0 + n) == s.take(n));
    }
    if has_substring(rest, w) {
        let k = choose|k: int|
            0 <= k <= rest.len() - w.len() && #[trigger] rest.subrange(k, k + w.len()) == w;
        assert(s.subrange(k + 1, k + 1 + n) == rest.subrange(k, k + n));
    }
}

/// A word without the replacing character that begins a text once marks are replaced began it
/// before.
proof fn lemma_start_was_there(mark: Mark, s: Seq<char>, rep: Seq<char>, w: Seq<char>)
    requires
        rep.len() == 1,
        free_of(w, rep[0]),
        begins(marks_replaced(mark, s, rep), w),
    ensures
        begins(s, w),
    decreases w.len(),
{
    if w.len() == 0 {
        assert(s.take(0) == w);
    } else {
        let out = marks_replaced(mark, s, rep);
        assert(out.take(w.len() as int)[0] == w[0]);
        assert(s.len() > 0);
        assert(w[0] != rep[0]);
        let rest = s.skip(1);
        assert(out == seq![s[0]] + marks_replaced(mark, rest, rep));
        lemma_begins_step(s[0], marks_replaced(mark, rest, rep), w);
        lemma_free_of_skip(w, 1, rep[0]);
        lemma_start_was_there(mark, rest, rep, w.skip(1));
        lemma_begins_step(s[0], rest, w);
        assert(seq![s[0]] + rest == s);
    }
}

/// A word without the replacing character that occurs once marks are replaced occurred before.
proof fn lemma_word_was_there(mark: Mark, s: Seq<char>, rep: Seq<char>, w: Seq<char>)
    requires
        rep.len() == 1,
        w.len() > 0,
        free_of(w, rep[0]),
        has_substring(marks_replaced(mark, s, rep), w),
    ensures
        has_substring(s, w),
    decreases s.len(),
{
    let out = marks_replaced(mark, s, rep);
    assert(s.len() > 0);
    lemma_mark_len(mark, s);
    lemma_substring_step(out, w);
    lemma_substring_step(s, w);
    if begins(out, w) {
        lemma_start_was_there(mark, s, rep, w);
    } else if mark_len(mark, s) > 0 {
        let n = mark_len(mark, s);
        assert(out.skip(1) == marks_replaced(mark, s.skip(n), rep));
        lemma_word_was_there(mark, s.skip(n), rep, w);
        lemma_substring_of_part(s, n, s.len() as int, w);
        assert(s.skip(n) == s.subrange(n, s.len() as int));
    } else {
        assert(out.skip(1) == marks_replaced(mark, s.skip(1), rep));
        lemma_word_was_there(mark, s.skip(1), rep, w);
    }
}

/// What occurs in a part of a text occurs in the text.
proof fn lemma_substring_of_part(s: Seq<char>, lo: int, hi: int, w: Seq<char>)
    requires
        0 <= lo <= hi <= s.len(),
    ensures
        has_substring(s.subrange(lo, hi), w) ==> has_substring(s, w),
{
    let part = s.subrange(lo, hi);
    if has_substring(part, w) {
        let k = choose|k: int|
            0 <= k <= part.len() - w.len() && #[trigger] part.subrange(k, k + w.len()) == w;
        assert(s.subrange(lo + k, lo + k + w.len()) == part.subrange(k, k + w.len()));
    }
}

/// A word without the replacing character that begins a text once another is replaced began it
/// before.
proof fn lemma_start_was_there_before_words(
    s: Seq<char>,
    pat: Seq<char>,
    rep: Seq<char>,
    w: Seq<char>,
)
    requires
        rep.len() == 1,
        free_of(w, rep[0]),
        begins(replaced(s, pat, rep), w),
    ensures
        begins(s, w),
    decreases w.len(),
{
    if w.len() == 0 {
        assert(s.take(0) == w);
    } else if pat.len() > 0 && s.len() >= pat.len() {
        let out = replaced(s, pat, rep);
        assert(out.take(w.len() as int)[0] == w[0]);
        assert(w[0] != rep[0]);
        let rest = s.skip(1);
        assert(out == seq![s[0]] + replaced(rest, pat, rep));
        lemma_begins_step(s[0], replaced(rest, pat, rep), w);
        lemma_free_of_skip(w, 1, rep[0]);
        lemma_start_was_there_before_words(rest, pat, rep, w.skip(1));
        lemma_begins_step(s[0], rest, w);
        assert(seq![s[0]] + rest == s);
    }
}

/// A word without the replacing character that occurs once another is replaced occurred before.
proof fn lemma_word_was_there_before_words(
    s: Seq<char>,
    pat: Seq<char>,
    rep: Seq<char>,
    w: Seq<char>,
)
    requires
        rep.len() == 1,
        w.len() > 0,
        free_of(w, rep[0]),
        has_substring(replaced(s, pat, rep), w),
    ensures
        has_substring(s, w),
    decreases s.len(),
{
    if pat.len() > 0 && s.len() >= pat.len() {
        let out = replaced(s, pat, rep);
        lemma_substring_step(out, w);
        lemma_substring_step(s, w);
        if begins(out, w) {
            lemma_start_was_there_before_words(s, pat, rep, w);
        } else if pat.is_prefix_of(s) {
            let n = pat.len() as int;
            assert(out.skip(1) == replaced(s.skip(n), pat, rep));
            lemma_word_was_there_before_words(s.skip(n), pat, rep, w);
            lemma_substring_of_part(s, n, s.len() as int, w);
            assert(s.skip(n) == s.subrange(n, s.len() as int));
        } else {
            assert(out.skip(1) == replaced(s.skip(1), pat, rep));
            lemma_word_was_there_before_words(s.skip(1), pat, rep, w);
        }
    }
}

/// A word that is replaced by a character that it does not hold does not stay.
proof fn lemma_replaced_word_is_gone(s: Seq<char>, pat: Seq<char>, rep: Seq<char>)
    requires
        rep.len() == 1,
        pat.len() > 0,
        free_of(pat, rep[0]),
    ensures
        !has_substring(replaced(s, pat, rep), pat),
    decreases s.len(),
{
    if s.len() >= pat.len() {
        let out = replaced(s, pat, rep);
        lemma_substring_step(out, pat);
        if pat.is_prefix_of(s) {
            let n = pat.len() as int;
            lemma_replaced_word_is_gone(s.skip(n), pat, rep);
            assert(out.skip(1) == replaced(s.skip(n), pat, rep));
            if begins(out, pat) {
                assert(out.take(n)[0] == pat[0]);
            }
        } else {
            lemma_replaced_word_is_gone(s.skip(1), pat, rep);
            assert(out.skip(1) == replaced(s.skip(1), pat, rep));
            if begins(out, pat) {
                lemma_start_was_there_before_words(s, pat, rep, pat);
                assert forall|i: int| 0 <= i < pat.len() implies pat[i] == s[i] by {
                    assert(s.take(pat.len() as int)[i] == pat[i]);
                }
                assert(pat.is_prefix_of(s));
            }
        }
    }
}

/// Two of the characters that make up a run do not stay side by side.
proof fn lemma_runs_are_gone(mark: Mark, s: Seq<char>, c: char)
    requires
        mark is Newlines && c == '\n' || mark is Spaces && c == ' ',
    ensures
        !has_substring(marks_replaced(mark, s, seq![c]), seq![c, c]),
    decreases s.len(),
{
    let pair = seq![c, c];
    let rep = seq![c];
    let out = marks_replaced(mark, s, rep);
    if s.len() > 0 {
        lemma_mark_len(mark, s);
        lemma_run_len(mark, s);
        lemma_substring_step(out, pair);
        let n = if mark_len(mark, s) > 0 {
            mark_len(mark, s)
        } else {
            1
        };
        let rest = s.skip(n);
        let later = marks_replaced(mark, rest, rep);
        lemma_runs_are_gone(mark, rest, c);
        assert(out.skip(1) == later);
        if begins(out, pair) {
            assert(out.take(2)[0] == c);
            assert(out.take(2)[1] == c);
            assert(later[0] == c);
            assert(rest.len() > 0);
            lemma_run_len(mark, rest);
            assert(rest[0] == s[n]);
            if in_run(mark, rest[0]) {
                assert(in_run(mark, s[0]));
                lemma_run_len(mark, s.skip(1));
                assert(run_len(mark, s) == 1);
            }
        }
    }
}

proof fn lemma_tag_of_part(s: Seq<char>, lo: int, hi: int)
    requires
        0 <= lo <= hi <= s.len(),
    ensures
        has_tag(s.subrange(lo, hi)) ==> has_tag(s),
{
    let part = s.subrange(lo, hi);
    if has_tag(part) {
        let (i, j) = choose|i: int, j: int| is_tag_at(part, i, j);
        assert(is_tag_at(s, lo + i, lo + j));
    }
}

/// A tag that is put together by one more character at the start begins there.
proof fn lemma_tag_step(c: char, rest: Seq<char>)
    ensures
        has_tag(seq![c] + rest) <==> has_tag(rest) || (c == '<' && rest.len() > 0 && rest[0] != '>'
            && !free_of(rest, '>')),
{
    let s = seq![c] + rest;
    assert(s.subrange(1, s.len() as int) == rest);
    lemma_tag_of_part(s, 1, s.len() as int);
    if has_tag(s) && !has_tag(rest) {
        let (i, j) = choose|i: int, j: int| is_tag_at(s, i, j);
        if i > 0 {
            assert(is_tag_at(rest, i - 1, j - 1));
        }
        assert(rest[j - 1] == '>');
    }
    if c == '<' && rest.len() > 0 && rest[0] != '>' && !free_of(rest, '>') {
        let k = choose|k: int| 0 <= k < rest.len() && rest[k] == '>';
        assert(is_tag_at(s, 0, k + 1));
    }
}

/// Once tags are replaced none stays.
proof fn lemma_tags_are_gone(s: Seq<char>, rep: Seq<char>)
    requires
        rep.len() == 1,
        rep[0] != '<' && rep[0] != '>',
    ensures
        !has_tag(marks_replaced(Mark::Tag, s, rep)),
    decreases s.len(),
{
    let out = marks_replaced(Mark::Tag, s, rep);
    if s.len() > 0 {
        lemma_mark_len(Mark::Tag, s);
        let n = mark_len(Mark::Tag, s);
        if n > 0 {
            lemma_tags_are_gone(s.skip(n), rep);
            let later = marks_replaced(Mark::Tag, s.skip(n), rep);
            lemma_tag_step(rep[0], later);
            assert(out == seq![rep[0]] + later);
        } else {
            let rest = s.skip(1);
            let later = marks_replaced(Mark::Tag, rest, rep);
            lemma_tags_are_gone(rest, rep);
            lemma_tag_step(s[0], later);
            lemma_run_len(Mark::Tag, rest);
            if s[0] == '<' && rest.len() > 0 && rest[0] != '>' {
                assert(run_len(Mark::Tag, rest) == rest.len());
                assert(free_of(rest, '>'));
                lemma_marks_bring_nothing_in(Mark::Tag, rest, rep, '>');
            }
            if s[0] == '<' && rest.len() > 0 && rest[0] == '>' {
                assert(later[0] == '>');
            }
        }
    }
}

/// Replacing runs of white space puts no tag together.
proof fn lemma_no_tag_is_put_together(mark: Mark, s: Seq<char>, rep: Seq<char>)
    requires
        !(mark is Tag),
        rep.len() == 1,
        rep[0] != '<' && rep[0] != '>',
        !has_tag(s),
    ensures
        !has_tag(marks_replaced(mark, s, rep)),
    decreases s.len(),
{
    let out = marks_replaced(mark, s, rep);
    if s.len() > 0 {
        lemma_mark_len(mark, s);
        let n = mark_len(mark, s);
        if n > 0 {
            assert(s.skip(n) == s.subrange(n, s.len() as int));
            lemma_tag_of_part(s, n, s.len() as int);
            lemma_no_tag_is_put_together(mark, s.skip(n), rep);
            let later = marks_replaced(mark, s.skip(n), rep);
            lemma_tag_step(rep[0], later);
            assert(out == seq![rep[0]] + later);
        } else {
            let rest = s.skip(1);
            let later = marks_replaced(mark, rest, rep);
            assert(seq![s[0]] + rest == s);
            lemma_tag_step(s[0], rest);
            lemma_no_tag_is_put_together(mark, rest, rep);
            lemma_tag_step(s[0], later);
            if s[0] == '<' && rest.len() > 0 {
                if rest[0] == '>' {
                    assert(run_len(mark, rest) == 0);
                    assert(later[0] == '>');
                } else {
                    assert(free_of(rest, '>'));
                    lemma_marks_bring_nothing_in(mark, rest, rep, '>');
                }
            }
        }
    }
}

/// Replacing a character by another puts no tag together, where neither is a bracket.
proof fn lemma_no_tag_from_char(s: Seq<char>, c: char, rep: Seq<char>)
    requires
        rep.len() == 1,
        rep[0] != '<' && rep[0] != '>',
        c != '<' && c != '>',
        !has_tag(s),
    ensures
        !has_tag(replaced(s, seq![c], rep)),
    decreases s.len(),
{
    let pat = seq![c];
    let out = replaced(s, pat, rep);
    if s.len() > 0 {
        let rest = s.skip(1);
        let later = replaced(rest, pat, rep);
        assert(seq![s[0]] + rest == s);
        lemma_tag_step(s[0], rest);
        lemma_no_tag_from_char(rest, c, rep);
        if pat.is_prefix_of(s) {
            lemma_tag_step(rep[0], later);
            assert(out == seq![rep[0]] + later);
        } else {
            lemma_tag_step(s[0], later);
            if s[0] == '<' && rest.len() > 0 {
                if rest[0] == '>' {
                    assert(!pat.is_prefix_of(rest));
                    assert(later[0] == '>');
                } else {
                    assert(free_of(rest, '>'));
                    lemma_words_bring_nothing_in(rest, pat, rep, '>');
                }
            }
        }
    }
}

/// What is spoken of a chapter has no tag, no escaped space and no character that was to become a
/// space or a line feed; no two spaces and no two line feeds stand side by side; and there is no
/// white space at its ends.
#[verifier::rlimit(50)]
pub proof fn law_sanitized_text_is_clean(title: Seq<char>, content: Seq<char>)
    ensures
        ({
            let out = sanitized(title, content);
            &&& trim(out) == out
            &&& !has_tag(out)
            &&& !has_substring(out, "&nbsp;"@)
            &&& !has_substring(out, "  "@)
            &&& !has_substring(out, "\n\n"@)
            &&& free_of(out, '\u{3000}')
            &&& free_of(out, '\r')
            &&& free_of(out, '\t')
            &&& free_of(out, '\u{c}')
            &&& free_of(out, '\u{b}')
        }),
{
    reveal_strlit("\u{3000}");
    reveal_strlit("&nbsp;");
    reveal_strlit("\r");
    reveal_strlit(" ");
    reveal_strlit("\n");
    reveal_strlit("  ");
    reveal_strlit("\n\n");
    let space = " "@;
    let feed = "\n"@;
    let escaped = "&nbsp;"@;
    assert("\u{3000}"@ == seq!['\u{3000}']);
    assert("\r"@ == seq!['\r']);
    assert(space == seq![' ']);
    assert(feed == seq!['\n']);
    assert("  "@ == seq![' ', ' ']);
    assert("\n\n"@ == seq!['\n', '\n']);

    let s0 = announced(title, content);
    let s1 = replaced(s0, "\u{3000}"@, space);
    let s2 = replaced(s1, escaped, space);
    let s3 = marks_replaced(Mark::Tag, s2, space);
    let s4 = replaced(s3, "\r"@, feed);
    let s5 = marks_replaced(Mark::Newlines, s4, feed);
    let s6 = marks_replaced(Mark::Tabs, s5, space);
    let s7 = marks_replaced(Mark::Spaces, s6, space);
    let out = sanitized(title, content);
    assert(out == trim(s7));
    lemma_trim_twice(s7);
    let (lo, hi) = lemma_trim_is_part(s7);

    // Tags.
    lemma_tags_are_gone(s2, space);
    lemma_no_tag_from_char(s3, '\r', feed);
    lemma_no_tag_is_put_together(Mark::Newlines, s4, feed);
    lemma_no_tag_is_put_together(Mark::Tabs, s5, space);
    lemma_no_tag_is_put_together(Mark::Spaces, s6, space);
    lemma_tag_of_part(s7, lo, hi);

    // Escaped spaces.
    lemma_replaced_word_is_gone(s1, escaped, space);
    if has_substring(out, escaped) {
        lemma_substring_of_part(s7, lo, hi, escaped);
        lemma_word_was_there(Mark::Spaces, s6, space, escaped);
        lemma_word_was_there(Mark::Tabs, s5, space, escaped);
        lemma_word_was_there(Mark::Newlines, s4, feed, escaped);
        lemma_word_was_there_before_words(s3, "\r"@, feed, escaped);
        lemma_word_was_there(Mark::Tag, s2, space, escaped);
    }
    // Runs.

    lemma_runs_are_gone(Mark::Spaces, s6, ' ');
    lemma_substring_of_part(s7, lo, hi, "  "@);
    lemma_runs_are_gone(Mark::Newlines, s4, '\n');
    if has_substring(out, "\n\n"@) {
        lemma_substring_of_part(s7, lo, hi, "\n\n"@);
        lemma_word_was_there(Mark::Spaces, s6, space, "\n\n"@);
        lemma_word_was_there(Mark::Tabs, s5, space, "\n\n"@);
    }
    // Single characters.

    lemma_replaced_char_is_gone(s0, '\u{3000}', space);
    lemma_words_bring_nothing_in(s1, escaped, space, '\u{3000}');
    lemma_marks_bring_nothing_in(Mark::Tag, s2, space, '\u{3000}');
    lemma_words_bring_nothing_in(s3, "\r"@, feed, '\u{3000}');
    lemma_marks_bring_nothing_in(Mark::Newlines, s4, feed, '\u{3000}');
    lemma_marks_bring_nothing_in(Mark::Tabs, s5, space, '\u{3000}');
    lemma_marks_bring_nothing_in(Mark::Spaces, s6, space, '\u{3000}');

    lemma_replaced_char_is_gone(s3, '\r', feed);
    lemma_marks_bring_nothing_in(Mark::Newlines, s4, feed, '\r');
    lemma_marks_bring_nothing_in(Mark::Tabs, s5, space, '\r');
    lemma_marks_bring_nothing_in(Mark::Spaces, s6, space, '\r');

    lemma_tabs_are_gone(s5, space, '\t');
    lemma_marks_bring_nothing_in(Mark::Spaces, s6, space, '\t');
    lemma_tabs_are_gone(s5, space, '\u{c}');
    lemma_marks_bring_nothing_in(Mark::Spaces, s6, space, '\u{c}');
    lemma_tabs_are_gone(s5, space, '\u{b}');
    lemma_marks_bring_nothing_in(Mark::Spaces, s6, space, '\u{b}');
    assert forall|c: char| free_of(s7, c) implies #[trigger] free_of(out, c) by {
        assert forall|i: int| 0 <= i < out.len() implies #[trigger] out[i] != c by {
            assert(out[i] == s7[lo + i]);
        }
    }
}

/// What is spoken of a chapter is its title, a full stop, a new line and its content, all of them
/// whole, as they are cleaned.
pub proof fn law_title_and_content_are_spoken(title: Seq<char>, content: Seq<char>)
    ensures
        sanitized(title, content) == cleaned(title + "。\n"@ + content),
{
}

/// `s` with `c` wherever `d` stood.
spec fn recoded(s: Seq<char>, c: char, d: char) -> Seq<char> {
    Seq::new(
        s.len(),
        |i: int|
            if s[i] == c {
                d
            } else {
                s[i]
            },
    )
}

proof fn lemma_char_is_recoded(s: Seq<char>, c: char, d: char)
    ensures
        replaced(s, seq![c], seq![d]) == recoded(s, c, d),
    decreases s.len(),
{
    let out = recoded(s, c, d);
    if s.len() > 0 {
        lemma_char_is_recoded(s.skip(1), c, d);
        assert(recoded(s.skip(1), c, d) == out.skip(1));
        assert(out == seq![out[0]] + out.skip(1));
        if s[0] == c {
            assert(seq![c].is_prefix_of(s));
        } else {
            assert(!seq![c].is_prefix_of(s)) by {
                if seq![c].is_prefix_of(s) {
                    assert(seq![c][0] == s[0]);
                }
            }
        }
    } else {
        assert(out == s);
    }
}

proof fn lemma_recoded_add(a: Seq<char>, b: Seq<char>, c: char, d: char)
    ensures
        recoded(a + b, c, d) == recoded(a, c, d) + recoded(b, c, d),
{
}

/// A word is replaced apart on the two sides of a character that it does not hold.
#[verifier::rlimit(50)]
proof fn lemma_word_split(a: Seq<char>, c: char, b: Seq<char>, pat: Seq<char>, rep: Seq<char>)
    requires
        pat.len() > 0,
        free_of(pat, c),
    ensures
        replaced(a + seq![c] + b, pat, rep) == replaced(a, pat, rep) + seq![c] + replaced(
            b,
            pat,
            rep,
        ),
    decreases a.len(),
{
    let s = a + seq![c] + b;
    let n = pat.len() as int;
    if a.len() == 0 {
        assert(s.skip(1) == b);
        assert(!pat.is_prefix_of(s)) by {
            if pat.is_prefix_of(s) {
                assert(pat[0] == s[0]);
            }
        }
        assert(replaced(a, pat, rep) + seq![c] == seq![c]);
        if s.len() < n {
            assert(s == seq![c] + b);
        }
    } else if n <= a.len() && pat.is_prefix_of(a) {
        assert(pat.is_prefix_of(s)) by {
            assert forall|i: int| 0 <= i < n implies pat[i] == s[i] by {
                assert(pat[i] == a[i]);
            }
        }
        assert(s.skip(n) == a.skip(n) + seq![c] + b);
        lemma_word_split(a.skip(n), c, b, pat, rep);
        let x = replaced(a.skip(n), pat, rep);
        let y = replaced(b, pat, rep);
        assert(rep + (x + seq![c] + y) == rep + x + seq![c] + y);
    } else {
        assert(!pat.is_prefix_of(s)) by {
            if pat.is_prefix_of(s) {
                if n <= a.len() {
                    assert forall|i: int| 0 <= i < n implies pat[i] == a[i] by {
                        assert(pat[i] == s[i]);
                    }
                } else {
                    assert(pat[a.len() as int] == s[a.len() as int]);
                }
            }
        }
        assert(s.skip(1) == a.skip(1) + seq![c] + b);
        lemma_word_split(a.skip(1), c, b, pat, rep);
        let x = replaced(a.skip(1), pat, rep);
        let y = replaced(b, pat, rep);
        assert(seq![a[0]] + (x + seq![c] + y) == seq![a[0]] + x + seq![c] + y);
        if a.len() < n {
            assert(a.skip(1).len() < n);
            assert(seq![a[0]] + a.skip(1) == a);
        }
        if s.len() < n {
            assert(b.len() < n);
        }
    }
}

/// A word whose first character does not come again in it is replaced where it stands.
#[verifier::rlimit(50)]
proof fn lemma_word_is_replaced(a: Seq<char>, b: Seq<char>, pat: Seq<char>, rep: Seq<char>)
    requires
        pat.len() > 0,
        forall|i: int| 0 < i < pat.len() ==> #[trigger] pat[i] != pat[0],
    ensures
        replaced(a + pat + b, pat, rep) == replaced(a, pat, rep) + rep + replaced(b, pat, rep),
    decreases a.len(),
{
    let s = a + pat + b;
    let n = pat.len() as int;
    if a.len() == 0 {
        assert(s == pat + b);
        assert(pat.is_prefix_of(s));
        assert(s.skip(n) == b);
        assert(replaced(a, pat, rep) + rep == rep);
    } else if n <= a.len() && pat.is_prefix_of(a) {
        assert(pat.is_prefix_of(s)) by {
            assert forall|i: int| 0 <= i < n implies pat[i] == s[i] by {
                assert(pat[i] == a[i]);
            }
        }
        assert(s.skip(n) == a.skip(n) + pat + b);
        lemma_word_is_replaced(a.skip(n), b, pat, rep);
        let x = replaced(a.skip(n), pat, rep);
        let y = replaced(b, pat, rep);
        assert(rep + (x + rep + y) == rep + x + rep + y);
    } else {
        assert(!pat.is_prefix_of(s)) by {
            if pat.is_prefix_of(s) {
                if n <= a.len() {
                    assert forall|i: int| 0 <= i < n implies pat[i] == a[i] by {
                        assert(pat[i] == s[i]);
                    }
                } else {
                    let k = a.len() as int;
                    assert(pat[k] == s[k]);
                    assert(s[k] == pat[0]);
                }
            }
        }
        assert(s.skip(1) == a.skip(1) + pat + b);
        lemma_word_is_replaced(a.skip(1), b, pat, rep);
        let x = replaced(a.skip(1), pat, rep);
        let y = replaced(b, pat, rep);
        assert(seq![a[0]] + (x + rep + y) == seq![a[0]] + x + rep + y);
        if a.len() < n {
            assert(a.skip(1).len() < n);
            assert(seq![a[0]] + a.skip(1) == a);
        }
    }
}

proof fn lemma_run_is(mark: Mark, x: Seq<char>, rest: Seq<char>)
    requires
        forall|i: int| 0 <= i < x.len() ==> in_run(mark, #[trigger] x[i]),
        rest.len() > 0 ==> !in_run(mark, rest[0]),
    ensures
        run_len(mark, x + rest) == x.len(),
    decreases x.len(),
{
    let s = x + rest;
    if x.len() > 0 {
        assert(in_run(mark, x[0]));
        assert forall|i: int| 0 <= i < x.skip(1).len() implies in_run(
            mark,
            #[trigger] x.skip(1)[i],
        ) by {
            assert(x.skip(1)[i] == x[i + 1]);
        }
        lemma_run_is(mark, x.skip(1), rest);
        assert(s.skip(1) == x.skip(1) + rest);
    } else {
        assert(s == rest);
    }
}

/// Whether no tag begins in `a`, whatever follows: behind each `<` stands `>`.
pub open spec fn begins_no_tag(a: Seq<char>) -> bool {
    forall|i: int| 0 <= i < a.len() && #[trigger] a[i] == '<' ==> i + 1 < a.len() && a[i + 1] == '>'
}

proof fn lemma_tags_behind(a: Seq<char>, b: Seq<char>, rep: Seq<char>)
    requires
        begins_no_tag(a),
    ensures
        marks_replaced(Mark::Tag, a + b, rep) == a + marks_replaced(Mark::Tag, b, rep),
    decreases a.len(),
{
    let s = a + b;
    if a.len() > 0 {
        let rest = a.skip(1);
        assert(s.skip(1) == rest + b);
        if a[0] == '<' {
            assert(s.skip(1)[0] == '>');
            assert(run_len(Mark::Tag, s.skip(1)) == 0);
        }
        assert(mark_len(Mark::Tag, s) == 0);
        assert forall|i: int| 0 <= i < rest.len() && #[trigger] rest[i] == '<' implies i + 1
            < rest.len() && rest[i + 1] == '>' by {
            assert(a[i + 1] == '<');
            assert(rest[i + 1] == a[i + 2]);
        }
        lemma_tags_behind(rest, b, rep);
        assert(a == seq![a[0]] + rest);
        let later = marks_replaced(Mark::Tag, b, rep);
        assert(seq![a[0]] + (rest + later) == a + later);
    } else {
        assert(s == b);
        assert(a + marks_replaced(Mark::Tag, b, rep) == marks_replaced(Mark::Tag, b, rep));
    }
}

proof fn lemma_tag_is_replaced(x: Seq<char>, b: Seq<char>, rep: Seq<char>)
    requires
        x.len() > 0,
        free_of(x, '>'),
    ensures
        marks_replaced(Mark::Tag, seq!['<'] + x + seq!['>'] + b, rep) == rep + marks_replaced(
            Mark::Tag,
            b,
            rep,
        ),
{
    let s = seq!['<'] + x + seq!['>'] + b;
    let n = x.len() as int;
    let rest = seq!['>'] + b;
    assert(s.skip(1) == x + rest);
    assert forall|i: int| 0 <= i < x.len() implies in_run(Mark::Tag, #[trigger] x[i]) by {
        assert(x[i] != '>');
    }
    lemma_run_is(Mark::Tag, x, rest);
    assert(mark_len(Mark::Tag, s) == n + 2);
    assert(s.skip(n + 2) == b);
}

/// Whether tags that are replaced leave `x` and `y` alone in the same place, or leave neither.
spec fn alike(s: Seq<char>, t: Seq<char>, x: Seq<char>, y: Seq<char>, u: Seq<char>, v: Seq<char>) -> bool {
    s == t || (s == u + x + v && t == u + y + v)
}

/// What holds no bracket is kept or swallowed by a tag, whatever it is.
#[verifier::rlimit(50)]
proof fn lemma_tags_leave_alike(
    a: Seq<char>,
    x: Seq<char>,
    y: Seq<char>,
    b: Seq<char>,
    rep: Seq<char>,
) -> (sides: (Seq<char>, Seq<char>))
    requires
        x.len() > 0,
        y.len() > 0,
        free_of(x, '<') && free_of(x, '>'),
        free_of(y, '<') && free_of(y, '>'),
    ensures
        alike(
            marks_replaced(Mark::Tag, a + x + b, rep),
            marks_replaced(Mark::Tag, a + y + b, rep),
            x,
            y,
            sides.0,
            sides.1,
        ),
    decreases a.len(),
{
    let s = a + x + b;
    let t = a + y + b;
    let none = Seq::<char>::empty();
    if a.len() == 0 {
        let v = marks_replaced(Mark::Tag, b, rep);
        assert(s == x + b && t == y + b);
        assert(begins_no_tag(x)) by {
            assert forall|i: int| 0 <= i < x.len() implies #[trigger] x[i] != '<' by {}
        }
        assert(begins_no_tag(y)) by {
            assert forall|i: int| 0 <= i < y.len() implies #[trigger] y[i] != '<' by {}
        }
        lemma_tags_behind(x, b, rep);
        lemma_tags_behind(y, b, rep);
        assert(none + x + v == x + v && none + y + v == y + v);
        (none, v)
    } else {
        let rest = a.skip(1);
        let p = run_len(Mark::Tag, rest);
        lemma_run_len(Mark::Tag, rest);
        assert(s.skip(1) == rest + x + b && t.skip(1) == rest + y + b);
        if p < rest.len() {
            // The first closing bracket behind the first character stands in `a`.
            lemma_run_of_part(rest, p, x + b);
            lemma_run_of_part(rest, p, y + b);
            assert(rest + (x + b) == s.skip(1) && rest + (y + b) == t.skip(1));
            if a[0] == '<' && p > 0 {
                let n = p + 2;
                assert(mark_len(Mark::Tag, s) == n && mark_len(Mark::Tag, t) == n);
                assert(s.skip(n) == a.skip(n) + x + b && t.skip(n) == a.skip(n) + y + b);
                let (u, v) = lemma_tags_leave_alike(a.skip(n), x, y, b, rep);
                assert(rep + (u + x + v) == rep + u + x + v && rep + (u + y + v) == rep + u + y + v);
                (rep + u, v)
            } else {
                assert(mark_len(Mark::Tag, s) == 0 && mark_len(Mark::Tag, t) == 0);
                let (u, v) = lemma_tags_leave_alike(rest, x, y, b, rep);
                let c = seq![a[0]];
                assert(c + (u + x + v) == c + u + x + v && c + (u + y + v) == c + u + y + v);
                (c + u, v)
            }
        } else {
            // It stands in `b`, or nowhere.
            let q = run_len(Mark::Tag, b);
            lemma_run_len(Mark::Tag, b);
            lemma_run_through(rest + x, b);
            lemma_run_through(rest + y, b);
            assert(rest + x + b == s.skip(1) && rest + y + b == t.skip(1));
            assert(free_of(rest, '>')) by {
                assert forall|i: int| 0 <= i < rest.len() implies #[trigger] rest[i] != '>' by {
                    assert(in_run(Mark::Tag, rest[i]));
                }
            }
            if a[0] == '<' && q < b.len() {
                let n = (rest.len() + x.len() + q + 2) as int;
                let m = (rest.len() + y.len() + q + 2) as int;
                assert(mark_len(Mark::Tag, s) == n && mark_len(Mark::Tag, t) == m);
                assert(s.skip(n) == b.skip(q + 1) && t.skip(m) == b.skip(q + 1));
                (none, none)
            } else {
                assert(mark_len(Mark::Tag, s) == 0 && mark_len(Mark::Tag, t) == 0);
                let (u, v) = lemma_tags_leave_alike(rest, x, y, b, rep);
                let c = seq![a[0]];
                assert(c + (u + x + v) == c + u + x + v && c + (u + y + v) == c + u + y + v);
                (c + u, v)
            }
        }
    }
}

proof fn lemma_run_of_part(a: Seq<char>, p: int, more: Seq<char>)
    requires
        p == run_len(Mark::Tag, a),
        p < a.len(),
    ensures
        run_len(Mark::Tag, a + more) == p,
{
    lemma_run_len(Mark::Tag, a);
    let x = a.take(p);
    let rest = a.skip(p) + more;
    assert(a + more == x + rest);
    assert(rest[0] == a[p]);
    assert forall|i: int| 0 <= i < x.len() implies in_run(Mark::Tag, #[trigger] x[i]) by {
        assert(x[i] == a[i]);
    }
    lemma_run_is(Mark::Tag, x, rest);
}

proof fn lemma_run_through(a: Seq<char>, b: Seq<char>)
    ensures
        free_of(a, '>') ==> run_len(Mark::Tag, a + b) == a.len() + run_len(Mark::Tag, b),
{
    if free_of(a, '>') {
        let q = run_len(Mark::Tag, b);
        lemma_run_len(Mark::Tag, b);
        let x = a + b.take(q);
        let rest = b.skip(q);
        assert(a + b == x + rest);
        assert forall|i: int| 0 <= i < x.len() implies in_run(Mark::Tag, #[trigger] x[i]) by {
            if i < a.len() {
                assert(x[i] == a[i]);
            } else {
                assert(x[i] == b[i - a.len()]);
            }
        }
        if rest.len() > 0 {
            assert(rest[0] == b[q]);
        }
        lemma_run_is(Mark::Tag, x, rest);
    }
}

/// A text in which ideographic and escaped spaces have become spaces.
spec fn unescaped(s: Seq<char>) -> Seq<char> {
    replaced(replaced(s, "\u{3000}"@, " "@), "&nbsp;"@, " "@)
}

proof fn lemma_literals()
    ensures
        "\u{3000}"@ == seq!['\u{3000}'],
        "\r"@ == seq!['\r'],
        " "@ == seq![' '],
        "\n"@ == seq!['\n'],
        "  "@ == seq![' ', ' '],
        "\n\n"@ == seq!['\n', '\n'],
        "&nbsp;"@ == seq!['&', 'n', 'b', 's', 'p', ';'],
{
    reveal_strlit("\u{3000}");
    reveal_strlit("\r");
    reveal_strlit(" ");
    reveal_strlit("\n");
    reveal_strlit("  ");
    reveal_strlit("\n\n");
    reveal_strlit("&nbsp;");
    assert("\u{3000}"@ == seq!['\u{3000}']);
    assert("\r"@ == seq!['\r']);
    assert(" "@ == seq![' ']);
    assert("\n"@ == seq!['\n']);
    assert("  "@ == seq![' ', ' ']);
    assert("\n\n"@ == seq!['\n', '\n']);
    assert("&nbsp;"@ == seq!['&', 'n', 'b', 's', 'p', ';']);
}

/// Whether `c` is none of the characters that stand for an ideographic or an escaped space.
spec fn is_plain(c: char) -> bool {
    c != '\u{3000}' && c != '&' && c != 'n' && c != 'b' && c != 's' && c != 'p' && c != ';'
}

proof fn lemma_unescaped_split(a: Seq<char>, c: char, b: Seq<char>)
    requires
        is_plain(c),
    ensures
        unescaped(a + seq![c] + b) == unescaped(a) + seq![c] + unescaped(b),
{
    lemma_literals();
    let wide = '\u{3000}';
    lemma_char_is_recoded(a + seq![c] + b, wide, ' ');
    lemma_char_is_recoded(a, wide, ' ');
    lemma_char_is_recoded(b, wide, ' ');
    lemma_recoded_add(a + seq![c], b, wide, ' ');
    lemma_recoded_add(a, seq![c], wide, ' ');
    assert(recoded(seq![c], wide, ' ') == seq![c]);
    assert(free_of("&nbsp;"@, c));
    lemma_word_split(recoded(a, wide, ' '), c, recoded(b, wide, ' '), "&nbsp;"@, " "@);
}

/// An ideographic space, and an escaped space, are as good as a space.
pub proof fn law_spaces_of_all_kinds_are_spaces(a: Seq<char>, b: Seq<char>)
    ensures
        cleaned(a + "\u{3000}"@ + b) == cleaned(a + " "@ + b),
        cleaned(a + "&nbsp;"@ + b) == cleaned(a + " "@ + b),
{
    lemma_literals();
    let wide = '\u{3000}';
    let x = recoded(a, wide, ' ');
    let y = recoded(b, wide, ' ');
    let escaped = "&nbsp;"@;
    lemma_char_is_recoded(a + "\u{3000}"@ + b, wide, ' ');
    lemma_char_is_recoded(a + escaped + b, wide, ' ');
    lemma_char_is_recoded(a + " "@ + b, wide, ' ');
    lemma_recoded_add(a + "\u{3000}"@, b, wide, ' ');
    lemma_recoded_add(a, "\u{3000}"@, wide, ' ');
    lemma_recoded_add(a + " "@, b, wide, ' ');
    lemma_recoded_add(a, " "@, wide, ' ');
    lemma_recoded_add(a + escaped, b, wide, ' ');
    lemma_recoded_add(a, escaped, wide, ' ');
    assert(recoded("\u{3000}"@, wide, ' ') == " "@);
    assert(recoded(" "@, wide, ' ') == " "@);
    assert(recoded(escaped, wide, ' ') == escaped);
    lemma_word_is_replaced(x, y, escaped, " "@);
    assert(free_of(escaped, ' '));
    lemma_word_split(x, ' ', y, escaped, " "@);
}

#[verifier::rlimit(50)]
proof fn lemma_words_begin_no_tag(a: Seq<char>, pat: Seq<char>, rep: Seq<char>)
    requires
        begins_no_tag(a),
        pat.len() > 0,
        free_of(pat, '<') && free_of(pat, '>'),
        free_of(rep, '<'),
    ensures
        begins_no_tag(replaced(a, pat, rep)),
        a.len() > 0 && a[0] == '>' ==> replaced(a, pat, rep).len() > 0 && replaced(a, pat, rep)[0]
            == '>',
    decreases a.len(),
{
    let out = replaced(a, pat, rep);
    if a.len() >= pat.len() {
        let n = if pat.is_prefix_of(a) {
            pat.len() as int
        } else {
            1
        };
        let rest = a.skip(n);
        assert forall|i: int| 0 <= i < rest.len() && #[trigger] rest[i] == '<' implies i + 1
            < rest.len() && rest[i + 1] == '>' by {
            assert(a[i + n] == '<');
            assert(rest[i + 1] == a[i + n + 1]);
        }
        lemma_words_begin_no_tag(rest, pat, rep);
        let later = replaced(rest, pat, rep);
        if pat.is_prefix_of(a) {
            assert(pat[0] == a[0]);
            assert(out == rep + later);
            assert forall|i: int| 0 <= i < out.len() && #[trigger] out[i] == '<' implies i + 1
                < out.len() && out[i + 1] == '>' by {
                if i < rep.len() {
                    assert(out[i] == rep[i]);
                } else {
                    assert(later[i - rep.len()] == '<');
                    assert(out[i + 1] == later[i + 1 - rep.len()]);
                }
            }
        } else {
            assert(out == seq![a[0]] + later);
            if a[0] == '<' {
                assert(rest[0] == a[1]);
            }
            assert forall|i: int| 0 <= i < out.len() && #[trigger] out[i] == '<' implies i + 1
                < out.len() && out[i + 1] == '>' by {
                if i > 0 {
                    assert(later[i - 1] == '<');
                    assert(out[i + 1] == later[i]);
                } else {
                    assert(out[1] == later[0]);
                }
            }
        }
    }
}

proof fn lemma_words_leave_something(s: Seq<char>, pat: Seq<char>, rep: Seq<char>)
    requires
        s.len() > 0,
        rep.len() > 0,
    ensures
        replaced(s, pat, rep).len() > 0,
{
}

/// A tag is as good as a space, however long it is: `<`, one or more characters other than `>`, and
/// `>`. It is the first tag where none begins before it.
#[verifier::rlimit(50)]
pub proof fn law_tags_are_spaces(a: Seq<char>, inside: Seq<char>, b: Seq<char>)
    requires
        begins_no_tag(a),
        inside.len() > 0,
        free_of(inside, '>'),
    ensures
        cleaned(a + seq!['<'] + inside + seq!['>'] + b) == cleaned(a + " "@ + b),
{
    lemma_literals();
    let space = " "@;
    let wide = '\u{3000}';
    let escaped = "&nbsp;"@;
    lemma_unescaped_split(a + seq!['<'] + inside, '>', b);
    lemma_unescaped_split(a, '<', inside);
    lemma_unescaped_split(a, ' ', b);
    let x = unescaped(a);
    let y = unescaped(inside);
    let z = unescaped(b);
    lemma_words_begin_no_tag(a, "\u{3000}"@, space);
    lemma_words_begin_no_tag(replaced(a, "\u{3000}"@, space), escaped, space);
    lemma_words_bring_nothing_in(inside, "\u{3000}"@, space, '>');
    lemma_words_bring_nothing_in(replaced(inside, "\u{3000}"@, space), escaped, space, '>');
    lemma_words_leave_something(inside, "\u{3000}"@, space);
    lemma_words_leave_something(replaced(inside, "\u{3000}"@, space), escaped, space);
    let tagged = seq!['<'] + y + seq!['>'] + z;
    assert(x + seq!['<'] + y + seq!['>'] + z == x + tagged);
    assert(x + space + z == x + (space + z));
    lemma_tags_behind(x, tagged, space);
    lemma_tags_behind(x, space + z, space);
    lemma_tag_is_replaced(y, z, space);
    assert(begins_no_tag(space));
    lemma_tags_behind(space, z, space);
}

proof fn lemma_run_len_recoded(s: Seq<char>, c: char, d: char)
    requires
        c != '>' && d != '>',
    ensures
        run_len(Mark::Tag, recoded(s, c, d)) == run_len(Mark::Tag, s),
    decreases s.len(),
{
    let t = recoded(s, c, d);
    if s.len() > 0 {
        assert(t.skip(1) == recoded(s.skip(1), c, d));
        lemma_run_len_recoded(s.skip(1), c, d);
    }
}

/// It is the same whether a character is recoded before tags are replaced or behind.
proof fn lemma_tags_recoded(s: Seq<char>, c: char, d: char, rep: Seq<char>)
    requires
        c != '<' && c != '>' && d != '<' && d != '>',
        free_of(rep, c),
    ensures
        recoded(marks_replaced(Mark::Tag, s, rep), c, d) == marks_replaced(
            Mark::Tag,
            recoded(s, c, d),
            rep,
        ),
    decreases s.len(),
{
    let t = recoded(s, c, d);
    if s.len() > 0 {
        lemma_mark_len(Mark::Tag, s);
        assert(t.skip(1) == recoded(s.skip(1), c, d));
        lemma_run_len_recoded(s.skip(1), c, d);
        assert(mark_len(Mark::Tag, t) == mark_len(Mark::Tag, s));
        let n = if mark_len(Mark::Tag, s) > 0 {
            mark_len(Mark::Tag, s)
        } else {
            1
        };
        assert(t.skip(n) == recoded(s.skip(n), c, d));
        lemma_tags_recoded(s.skip(n), c, d, rep);
        let later = marks_replaced(Mark::Tag, s.skip(n), rep);
        lemma_recoded_add(rep, later, c, d);
        lemma_recoded_add(seq![s[0]], later, c, d);
        assert(recoded(rep, c, d) == rep) by {
            assert forall|i: int| 0 <= i < rep.len() implies recoded(rep, c, d)[i] == rep[i] by {
                assert(rep[i] != c);
            }
        }
        assert(recoded(seq![s[0]], c, d) == seq![t[0]]);
    } else {
        assert(t == s);
    }
}

/// Runs of white space are replaced apart on the two sides of a character that is not part of one.
#[verifier::rlimit(50)]
proof fn lemma_runs_split(mark: Mark, a: Seq<char>, c: char, b: Seq<char>, rep: Seq<char>)
    requires
        !(mark is Tag),
        !in_run(mark, c),
    ensures
        marks_replaced(mark, a + seq![c] + b, rep) == marks_replaced(mark, a, rep) + seq![c]
            + marks_replaced(mark, b, rep),
    decreases a.len(),
{
    let s = a + seq![c] + b;
    let y = marks_replaced(mark, b, rep);
    if a.len() == 0 {
        assert(s.skip(1) == b);
        assert(run_len(mark, s) == 0);
        assert(marks_replaced(mark, a, rep) + seq![c] == seq![c]);
    } else {
        let p = run_len(mark, a);
        lemma_run_len(mark, a);
        let x = a.take(p);
        let rest = a.skip(p) + seq![c] + b;
        assert(s == x + rest);
        assert forall|i: int| 0 <= i < x.len() implies in_run(mark, #[trigger] x[i]) by {
            assert(x[i] == a[i]);
        }
        assert(!in_run(mark, rest[0])) by {
            if p < a.len() {
                assert(rest[0] == a[p]);
            } else {
                assert(rest[0] == c);
            }
        }
        lemma_run_is(mark, x, rest);
        assert(mark_len(mark, s) == mark_len(mark, a));
        let n = if mark_len(mark, a) > 0 {
            mark_len(mark, a)
        } else {
            1
        };
        assert(s.skip(n) == a.skip(n) + seq![c] + b);
        lemma_runs_split(mark, a.skip(n), c, b, rep);
        let z = marks_replaced(mark, a.skip(n), rep);
        assert(rep + (z + seq![c] + y) == rep + z + seq![c] + y);
        assert(seq![a[0]] + (z + seq![c] + y) == seq![a[0]] + z + seq![c] + y);
    }
}

/// Whether the marks are runs of `c` that become a single one.
spec fn collapses(mark: Mark, c: char) -> bool {
    mark is Newlines && c == '\n' || mark is Spaces && c == ' '
}

/// A character is kept, but for the first of two that collapse.
proof fn lemma_collapse_step(mark: Mark, x: char, c: char, w: Seq<char>)
    requires
        collapses(mark, x),
    ensures
        marks_replaced(mark, seq![c] + w, seq![x]) == (if c == x && w.len() > 0 && w[0] == x {
            marks_replaced(mark, w, seq![x])
        } else {
            seq![c] + marks_replaced(mark, w, seq![x])
        }),
{
    let s = seq![c] + w;
    let rep = seq![x];
    assert(s.skip(1) == w);
    lemma_run_len(mark, w);
    if c == x {
        let m = run_len(mark, w);
        assert(run_len(mark, s) == 1 + m);
        assert(s.skip(1 + m) == w.skip(m));
        if w.len() > 0 && w[0] == x {
            assert(m >= 1);
            assert(w.skip(1) == w.skip(1));
            if m == 1 {
                assert(mark_len(mark, w) == 0);
                assert(seq![w[0]] == rep);
            }
        } else {
            assert(m == 0);
        }
    } else {
        assert(run_len(mark, s) == 0);
    }
}

proof fn lemma_collapse_twice(mark: Mark, x: char, u: Seq<char>, v: Seq<char>)
    requires
        collapses(mark, x),
    ensures
        marks_replaced(mark, u + seq![x, x] + v, seq![x]) == marks_replaced(
            mark,
            u + seq![x] + v,
            seq![x],
        ),
    decreases u.len(),
{
    let s = u + seq![x, x] + v;
    let t = u + seq![x] + v;
    if u.len() == 0 {
        assert(s == seq![x] + t);
        assert(t[0] == x);
        lemma_collapse_step(mark, x, x, t);
    } else {
        let rest = u.skip(1);
        lemma_collapse_twice(mark, x, rest, v);
        let w = rest + seq![x, x] + v;
        let z = rest + seq![x] + v;
        assert(s == seq![u[0]] + w);
        assert(t == seq![u[0]] + z);
        assert(w[0] == z[0]) by {
            if rest.len() > 0 {
                assert(w[0] == rest[0] && z[0] == rest[0]);
            }
        }
        lemma_collapse_step(mark, x, u[0], w);
        lemma_collapse_step(mark, x, u[0], z);
    }
}

proof fn lemma_collapse_head(mark: Mark, x: char, w: Seq<char>)
    requires
        collapses(mark, x),
    ensures
        marks_replaced(mark, w, seq![x]).len() > 0 <==> w.len() > 0,
        w.len() > 0 ==> marks_replaced(mark, w, seq![x])[0] == w[0],
    decreases w.len(),
{
    if w.len() > 0 {
        let rest = w.skip(1);
        assert(w == seq![w[0]] + rest);
        lemma_collapse_step(mark, x, w[0], rest);
        lemma_collapse_head(mark, x, rest);
    }
}

/// What runs of spaces become of `s`.
spec fn spaced(s: Seq<char>) -> Seq<char> {
    marks_replaced(Mark::Spaces, s, seq![' '])
}

/// What runs of tabs become of `s`.
spec fn untabbed(s: Seq<char>) -> Seq<char> {
    marks_replaced(Mark::Tabs, s, seq![' '])
}

/// `s` with a space for each tab.
spec fn tabs_recoded(s: Seq<char>) -> Seq<char> {
    Seq::new(
        s.len(),
        |i: int|
            if is_tab(s[i]) {
                ' '
            } else {
                s[i]
            },
    )
}

proof fn lemma_spaced_alike(c: char, w: Seq<char>, z: Seq<char>)
    requires
        spaced(w) == spaced(z),
    ensures
        spaced(seq![c] + w) == spaced(seq![c] + z),
{
    lemma_collapse_head(Mark::Spaces, ' ', w);
    lemma_collapse_head(Mark::Spaces, ' ', z);
    lemma_collapse_step(Mark::Spaces, ' ', c, w);
    lemma_collapse_step(Mark::Spaces, ' ', c, z);
}

#[verifier::rlimit(50)]
proof fn lemma_tabs_are_spaces(s: Seq<char>)
    ensures
        spaced(untabbed(s)) == spaced(tabs_recoded(s)),
    decreases s.len(),
{
    let k = tabs_recoded(s);
    if s.len() > 0 {
        let rest = s.skip(1);
        lemma_tabs_are_spaces(rest);
        lemma_run_len(Mark::Tabs, s);
        lemma_run_len(Mark::Tabs, rest);
        assert(k == seq![k[0]] + tabs_recoded(rest));
        if is_tab(s[0]) {
            let n = run_len(Mark::Tabs, s);
            assert(run_len(Mark::Tabs, rest) == n - 1);
            if n == 1 {
                assert(untabbed(s) == seq![' '] + untabbed(rest));
                lemma_spaced_alike(' ', untabbed(rest), tabs_recoded(rest));
            } else {
                assert(s.skip(n) == rest.skip(n - 1));
                assert(untabbed(s) == untabbed(rest));
                assert(is_tab(rest[0]));
                assert(tabs_recoded(rest)[0] == ' ');
                lemma_collapse_step(Mark::Spaces, ' ', ' ', tabs_recoded(rest));
            }
        } else {
            assert(untabbed(s) == seq![s[0]] + untabbed(rest));
            lemma_spaced_alike(s[0], untabbed(rest), tabs_recoded(rest));
        }
    } else {
        assert(k == s);
    }
}

/// Cleaning, step by step.
proof fn lemma_cleaned_by_steps(s: Seq<char>)
    ensures
        cleaned(s) == trim(
            spaced(
                untabbed(
                    marks_replaced(
                        Mark::Newlines,
                        recoded(
                            marks_replaced(Mark::Tag, unescaped(s), seq![' ']),
                            '\r',
                            '\n',
                        ),
                        seq!['\n'],
                    ),
                ),
            ),
        ),
{
    lemma_literals();
    lemma_char_is_recoded(marks_replaced(Mark::Tag, unescaped(s), seq![' ']), '\r', '\n');
}

/// A carriage return is as good as a line feed, and two line feeds are as good as one.
#[verifier::rlimit(50)]
pub proof fn law_line_breaks_are_line_feeds(a: Seq<char>, b: Seq<char>)
    ensures
        cleaned(a + "\r"@ + b) == cleaned(a + "\n"@ + b),
        cleaned(a + "\n\n"@ + b) == cleaned(a + "\n"@ + b),
{
    lemma_literals();
    let space = seq![' '];
    let x = unescaped(a);
    let y = unescaped(b);
    lemma_cleaned_by_steps(a + "\r"@ + b);
    lemma_cleaned_by_steps(a + "\n"@ + b);
    lemma_cleaned_by_steps(a + "\n\n"@ + b);
    lemma_unescaped_split(a, '\r', b);
    lemma_unescaped_split(a, '\n', b);
    // Carriage returns.
    let s = x + seq!['\r'] + y;
    let t = x + seq!['\n'] + y;
    lemma_tags_recoded(s, '\r', '\n', space);
    lemma_tags_recoded(t, '\r', '\n', space);
    assert(recoded(s, '\r', '\n') == recoded(t, '\r', '\n'));
    // Two line feeds.
    let more = seq!['\n'] + b;
    assert(a + "\n\n"@ + b == a + seq!['\n'] + more);
    lemma_unescaped_split(a, '\n', more);
    lemma_unescaped_split(Seq::empty(), '\n', b);
    assert(Seq::<char>::empty() + seq!['\n'] + b == more);
    assert(unescaped(Seq::<char>::empty()) == Seq::<char>::empty());
    let pair = seq!['\n', '\n'];
    assert(unescaped(a + "\n\n"@ + b) == x + pair + y);
    let (u, v) = lemma_tags_leave_alike(x, pair, seq!['\n'], y, space);
    let p = recoded(u, '\r', '\n');
    let q = recoded(v, '\r', '\n');
    lemma_recoded_add(u + pair, v, '\r', '\n');
    lemma_recoded_add(u, pair, '\r', '\n');
    lemma_recoded_add(u + seq!['\n'], v, '\r', '\n');
    lemma_recoded_add(u, seq!['\n'], '\r', '\n');
    assert(recoded(pair, '\r', '\n') == pair);
    assert(recoded(seq!['\n'], '\r', '\n') == seq!['\n']);
    lemma_collapse_twice(Mark::Newlines, '\n', p, q);
}

/// A tab, a form feed and a vertical tab are as good as a space.
#[verifier::rlimit(50)]
pub proof fn law_tabs_are_spaces(a: Seq<char>, c: char, b: Seq<char>)
    requires
        c == '\t' || c == '\u{c}' || c == '\u{b}',
    ensures
        cleaned(a + seq![c] + b) == cleaned(a + " "@ + b),
{
    lemma_literals();
    let space = seq![' '];
    let tab = seq![c];
    let x = unescaped(a);
    let y = unescaped(b);
    lemma_cleaned_by_steps(a + tab + b);
    lemma_cleaned_by_steps(a + space + b);
    lemma_unescaped_split(a, c, b);
    lemma_unescaped_split(a, ' ', b);
    let (u, v) = lemma_tags_leave_alike(x, tab, space, y, space);
    let s = marks_replaced(Mark::Tag, x + tab + y, space);
    let t = marks_replaced(Mark::Tag, x + space + y, space);
    if s != t {
        let p = recoded(u, '\r', '\n');
        let q = recoded(v, '\r', '\n');
        lemma_recoded_add(u + tab, v, '\r', '\n');
        lemma_recoded_add(u, tab, '\r', '\n');
        lemma_recoded_add(u + space, v, '\r', '\n');
        lemma_recoded_add(u, space, '\r', '\n');
        assert(recoded(tab, '\r', '\n') == tab);
        assert(recoded(space, '\r', '\n') == space);
        lemma_runs_split(Mark::Newlines, p, c, q, seq!['\n']);
        lemma_runs_split(Mark::Newlines, p, ' ', q, seq!['\n']);
        let f = marks_replaced(Mark::Newlines, p, seq!['\n']);
        let g = marks_replaced(Mark::Newlines, q, seq!['\n']);
        lemma_tabs_are_spaces(f + tab + g);
        lemma_tabs_are_spaces(f + space + g);
        assert(tabs_recoded(f + tab + g) == tabs_recoded(f + space + g));
    }
}

/// Two spaces are as good as one.
#[verifier::rlimit(50)]
pub proof fn law_two_spaces_are_one(a: Seq<char>, b: Seq<char>)
    ensures
        cleaned(a + "  "@ + b) == cleaned(a + " "@ + b),
{
    lemma_literals();
    let space = seq![' '];
    let pair = seq![' ', ' '];
    let x = unescaped(a);
    let y = unescaped(b);
    let more = space + b;
    lemma_cleaned_by_steps(a + pair + b);
    lemma_cleaned_by_steps(a + space + b);
    assert(a + pair + b == a + space + more);
    lemma_unescaped_split(a, ' ', more);
    lemma_unescaped_split(a, ' ', b);
    lemma_unescaped_split(Seq::empty(), ' ', b);
    assert(Seq::<char>::empty() + space + b == more);
    assert(unescaped(Seq::<char>::empty()) == Seq::<char>::empty());
    assert(unescaped(a + pair + b) == x + pair + y);
    let (u, v) = lemma_tags_leave_alike(x, pair, space, y, space);
    let s = marks_replaced(Mark::Tag, x + pair + y, space);
    let t = marks_replaced(Mark::Tag, x + space + y, space);
    if s != t {
        let p = recoded(u, '\r', '\n');
        let q = recoded(v, '\r', '\n');
        lemma_recoded_add(u + pair, v, '\r', '\n');
        lemma_recoded_add(u, pair, '\r', '\n');
        lemma_recoded_add(u + space, v, '\r', '\n');
        lemma_recoded_add(u, space, '\r', '\n');
        assert(recoded(pair, '\r', '\n') == pair);
        assert(recoded(space, '\r', '\n') == space);
        let f = marks_replaced(Mark::Newlines, p, seq!['\n']);
        let g = marks_replaced(Mark::Newlines, q, seq!['\n']);
        lemma_pair_splits(Mark::Newlines, p, q, seq!['\n']);
        lemma_runs_split(Mark::Newlines, p, ' ', q, seq!['\n']);
        lemma_pair_splits(Mark::Tabs, f, g, space);
        lemma_runs_split(Mark::Tabs, f, ' ', g, space);
        lemma_collapse_twice(Mark::Spaces, ' ', untabbed(f), untabbed(g));
    }
}

proof fn lemma_pair_splits(mark: Mark, p: Seq<char>, q: Seq<char>, rep: Seq<char>)
    requires
        mark is Newlines || mark is Tabs,
    ensures
        marks_replaced(mark, p + seq![' ', ' '] + q, rep) == marks_replaced(mark, p, rep) + seq![
            ' ',
            ' ',
        ] + marks_replaced(mark, q, rep),
{
    let space = seq![' '];
    let none = Seq::<char>::empty();
    let more = space + q;
    assert(p + seq![' ', ' '] + q == p + space + more);
    assert(more == none + space + q);
    lemma_runs_split(mark, p, ' ', more, rep);
    lemma_runs_split(mark, none, ' ', q, rep);
    let x = marks_replaced(mark, p, rep);
    let y = marks_replaced(mark, q, rep);
    assert(marks_replaced(mark, none, rep) == none);
    assert(x + space + (none + space + y) == x + seq![' ', ' '] + y);
}

proof fn lemma_nothing_to_replace(s: Seq<char>, pat: Seq<char>, rep: Seq<char>)
    requires
        !has_substring(s, pat),
    ensures
        replaced(s, pat, rep) == s,
    decreases s.len(),
{
    if pat.len() > 0 && s.len() >= pat.len() {
        let rest = s.skip(1);
        lemma_substring_step(s, pat);
        assert(!pat.is_prefix_of(s)) by {
            if pat.is_prefix_of(s) {
                assert(s.take(pat.len() as int) == pat) by {
                    assert forall|i: int| 0 <= i < pat.len() implies s[i] == pat[i] by {}
                }
            }
        }
        lemma_nothing_to_replace(rest, pat, rep);
        assert(s == seq![s[0]] + rest);
    }
}

proof fn lemma_no_tags_to_replace(s: Seq<char>, rep: Seq<char>)
    requires
        !has_tag(s),
    ensures
        marks_replaced(Mark::Tag, s, rep) == s,
    decreases s.len(),
{
    if s.len() > 0 {
        let rest = s.skip(1);
        assert(s == seq![s[0]] + rest);
        lemma_tag_step(s[0], rest);
        lemma_no_tags_to_replace(rest, rep);
        lemma_run_len(Mark::Tag, rest);
        let n = run_len(Mark::Tag, rest);
        if s[0] == '<' && n > 0 && n + 1 < s.len() {
            assert(rest[n] == '>');
            assert(in_run(Mark::Tag, rest[0]));
            assert(!free_of(rest, '>'));
        }
        assert(mark_len(Mark::Tag, s) == 0);
    }
}

proof fn lemma_no_runs_to_replace(mark: Mark, c: char, s: Seq<char>)
    requires
        collapses(mark, c),
        !has_substring(s, seq![c, c]),
    ensures
        marks_replaced(mark, s, seq![c]) == s,
    decreases s.len(),
{
    if s.len() > 0 {
        let rest = s.skip(1);
        assert(s == seq![s[0]] + rest);
        lemma_substring_step(s, seq![c, c]);
        lemma_no_runs_to_replace(mark, c, rest);
        lemma_collapse_step(mark, c, s[0], rest);
        if s[0] == c && rest.len() > 0 && rest[0] == c {
            assert(s.take(2) == seq![c, c]);
            assert(begins(s, seq![c, c]));
        }
    }
}

proof fn lemma_no_tabs_to_replace(s: Seq<char>, rep: Seq<char>)
    requires
        forall|i: int| 0 <= i < s.len() ==> !is_tab(#[trigger] s[i]),
    ensures
        marks_replaced(Mark::Tabs, s, rep) == s,
    decreases s.len(),
{
    if s.len() > 0 {
        let rest = s.skip(1);
        assert(!is_tab(s[0]));
        assert forall|i: int| 0 <= i < rest.len() implies !is_tab(#[trigger] rest[i]) by {
            assert(rest[i] == s[i + 1]);
        }
        lemma_no_tabs_to_replace(rest, rep);
        assert(s == seq![s[0]] + rest);
        assert(run_len(Mark::Tabs, s) == 0);
    }
}

proof fn lemma_recoded_keeps(s: Seq<char>, c: char, d: char)
    requires
        free_of(s, c),
    ensures
        recoded(s, c, d) == s,
{
    assert forall|i: int| 0 <= i < s.len() implies recoded(s, c, d)[i] == s[i] by {
        assert(s[i] != c);
    }
}

/// Whether there is nothing in `s` to be cleaned, but for white space at its ends.
pub open spec fn is_clean(s: Seq<char>) -> bool {
    &&& !has_tag(s)
    &&& !has_substring(s, "&nbsp;"@)
    &&& !has_substring(s, "  "@)
    &&& !has_substring(s, "\n\n"@)
    &&& free_of(s, '\u{3000}')
    &&& free_of(s, '\r')
    &&& free_of(s, '\t')
    &&& free_of(s, '\u{c}')
    &&& free_of(s, '\u{b}')
}

/// A text in which there is nothing to be cleaned stays as it is, whatever its length; only white
/// space at its ends is taken off.
#[verifier::rlimit(50)]
pub proof fn law_clean_text_stays(s: Seq<char>)
    requires
        is_clean(s),
    ensures
        cleaned(s) == trim(s),
{
    lemma_literals();
    let wide = '\u{3000}';
    lemma_cleaned_by_steps(s);
    lemma_char_is_recoded(s, wide, ' ');
    lemma_recoded_keeps(s, wide, ' ');
    lemma_nothing_to_replace(s, "&nbsp;"@, " "@);
    lemma_no_tags_to_replace(s, seq![' ']);
    lemma_recoded_keeps(s, '\r', '\n');
    lemma_no_runs_to_replace(Mark::Newlines, '\n', s);
    assert forall|i: int| 0 <= i < s.len() implies !is_tab(#[trigger] s[i]) by {
        assert(s[i] != '\t' && s[i] != '\u{c}' && s[i] != '\u{b}');
    }
    lemma_no_tabs_to_replace(s, seq![' ']);
    lemma_no_runs_to_replace(Mark::Spaces, ' ', s);
}

/// A text without its white space.
pub open spec fn dark(s: Seq<char>) -> Seq<char> {
    s.filter(|c: char| !is_white(c))
}

proof fn lemma_dark_step(c: char, w: Seq<char>)
    ensures
        dark(seq![c] + w) == (if is_white(c) {
            dark(w)
        } else {
            seq![c] + dark(w)
        }),
{
    let p = |c: char| !is_white(c);
    Seq::filter_distributes_over_add(seq![c], w, p);
    reveal(Seq::filter);
    assert(seq![c].drop_last() == Seq::<char>::empty());
    assert(seq![c].drop_last().filter(p) == Seq::<char>::empty());
    if is_white(c) {
        assert(seq![c].filter(p) == Seq::<char>::empty());
        assert(Seq::<char>::empty() + dark(w) == dark(w));
    } else {
        assert(seq![c].filter(p) == seq![c]);
    }
}

proof fn lemma_dark_of_white(s: Seq<char>)
    requires
        all_white(s),
    ensures
        dark(s) == Seq::<char>::empty(),
    decreases s.len(),
{
    reveal(Seq::filter);
    if s.len() > 0 {
        assert(is_white(s[0]));
        let rest = s.skip(1);
        assert(s == seq![s[0]] + rest);
        assert forall|i: int| 0 <= i < rest.len() implies is_white(#[trigger] rest[i]) by {
            assert(rest[i] == s[i + 1]);
        }
        lemma_dark_step(s[0], rest);
        lemma_dark_of_white(rest);
    }
}

proof fn lemma_dark_add(a: Seq<char>, b: Seq<char>)
    ensures
        dark(a + b) == dark(a) + dark(b),
{
    Seq::filter_distributes_over_add(a, b, |c: char| !is_white(c));
}

proof fn lemma_dark_recoded(s: Seq<char>, c: char, d: char)
    requires
        is_white(c),
        is_white(d),
    ensures
        dark(recoded(s, c, d)) == dark(s),
    decreases s.len(),
{
    let t = recoded(s, c, d);
    if s.len() > 0 {
        let rest = s.skip(1);
        assert(s == seq![s[0]] + rest);
        assert(t == seq![t[0]] + recoded(rest, c, d));
        lemma_dark_recoded(rest, c, d);
        lemma_dark_step(s[0], rest);
        lemma_dark_step(t[0], recoded(rest, c, d));
    } else {
        assert(t == s);
    }
}

proof fn lemma_dark_runs(mark: Mark, s: Seq<char>, rep: Seq<char>)
    requires
        !(mark is Tag),
        all_white(rep),
    ensures
        dark(marks_replaced(mark, s, rep)) == dark(s),
    decreases s.len(),
{
    if s.len() > 0 {
        lemma_mark_len(mark, s);
        lemma_run_len(mark, s);
        let n = mark_len(mark, s);
        let none = Seq::<char>::empty();
        if n > 0 {
            let run = s.take(n);
            let rest = s.skip(n);
            assert(s == run + rest);
            assert forall|i: int| 0 <= i < run.len() implies is_white(#[trigger] run[i]) by {
                assert(run[i] == s[i]);
                assert(in_run(mark, s[i]));
            }
            lemma_dark_runs(mark, rest, rep);
            lemma_dark_of_white(run);
            lemma_dark_of_white(rep);
            lemma_dark_add(run, rest);
            lemma_dark_add(rep, marks_replaced(mark, rest, rep));
            assert(none + dark(rest) == dark(rest));
        } else {
            let rest = s.skip(1);
            assert(s == seq![s[0]] + rest);
            lemma_dark_runs(mark, rest, rep);
            lemma_dark_step(s[0], rest);
            lemma_dark_step(s[0], marks_replaced(mark, rest, rep));
        }
    }
}

proof fn lemma_dark_trim(s: Seq<char>)
    ensures
        dark(trim(s)) == dark(s),
{
    let (lo, hi) = lemma_trim_is_part(s);
    let front = s.take(lo);
    let back = s.skip(hi);
    assert forall|i: int| 0 <= i < front.len() implies is_white(#[trigger] front[i]) by {
        assert(front[i] == s[i]);
    }
    assert forall|i: int| 0 <= i < back.len() implies is_white(#[trigger] back[i]) by {
        assert(back[i] == s[hi + i]);
    }
    lemma_dark_of_white(front);
    lemma_dark_of_white(back);
    assert(s == front + trim(s) + back);
    lemma_dark_add(front + trim(s), back);
    lemma_dark_add(front, trim(s));
    let none = Seq::<char>::empty();
    assert(none + dark(trim(s)) + none == dark(trim(s)));
}

/// Cleaning loses nothing but tags, escaped spaces and white space: of a text without the first two,
/// all characters that are not white space stay, in their order.
#[verifier::rlimit(50)]
pub proof fn law_cleaning_loses_only_white_space(s: Seq<char>)
    requires
        !has_tag(s),
        !has_substring(s, "&nbsp;"@),
    ensures
        cleaned(s).filter(|c: char| !is_white(c)) == s.filter(|c: char| !is_white(c)),
{
    lemma_literals();
    let wide = '\u{3000}';
    let space = seq![' '];
    let escaped = "&nbsp;"@;
    lemma_cleaned_by_steps(s);
    lemma_char_is_recoded(s, wide, ' ');
    let s1 = recoded(s, wide, ' ');
    assert(!has_substring(s1, escaped)) by {
        if has_substring(s1, escaped) {
            assert(free_of(escaped, ' '));
            lemma_word_was_there_before_words(s, "\u{3000}"@, " "@, escaped);
        }
    }
    lemma_nothing_to_replace(s1, escaped, " "@);
    lemma_no_tag_from_char(s, wide, space);
    lemma_no_tags_to_replace(s1, space);
    let s2 = recoded(s1, '\r', '\n');
    let s3 = marks_replaced(Mark::Newlines, s2, seq!['\n']);
    let s4 = untabbed(s3);
    assert(cleaned(s) == trim(spaced(s4)));
    lemma_dark_recoded(s, wide, ' ');
    lemma_dark_recoded(s1, '\r', '\n');
    assert(all_white(seq!['\n']));
    assert(all_white(space));
    lemma_dark_runs(Mark::Newlines, s2, seq!['\n']);
    lemma_dark_runs(Mark::Tabs, s3, space);
    lemma_dark_runs(Mark::Spaces, s4, space);
    lemma_dark_trim(spaced(s4));
    assert(dark(cleaned(s)) == dark(s));
}

/// A chapter in which there is nothing to be cleaned is spoken as it is: its title, a full stop, a
/// new line and its content, whatever their length.
pub proof fn law_clean_chapter_is_spoken_whole(title: Seq<char>, content: Seq<char>)
    requires
        is_clean(title + "。\n"@ + content),
    ensures
        sanitized(title, content) == trim(title + "。\n"@ + content),
{
    law_title_and_content_are_spoken(title, content);
    law_clean_text_stays(title + "。\n"@ + content);
}

/// Of a chapter without tags and escaped spaces, all characters of the title and of the content that
/// are not white space are spoken, in their order.
pub proof fn law_chapter_loses_only_white_space(title: Seq<char>, content: Seq<char>)
    requires
        !has_tag(title + "。\n"@ + content),
        !has_substring(title + "。\n"@ + content, "&nbsp;"@),
    ensures
        sanitized(title, content).filter(|c: char| !is_white(c)) == (title + "。\n"@
            + content).filter(|c: char| !is_white(c)),
{
    law_title_and_content_are_spoken(title, content);
    law_cleaning_loses_only_white_space(title + "。\n"@ + content);
}

} // verus!
