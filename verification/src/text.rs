//! Text as sequences of characters: the searches and splits that the
//! request parser and the response writer are built from.

use vstd::prelude::*;
use vstd::slice::slice_subrange;
use vstd::std_specs::iter::IteratorSpec;

verus! {

/// `String::push` appends one character to the end of the string.
pub assume_specification[ String::push ](s: &mut String, ch: char)
    ensures
        final(s)@ == old(s)@.push(ch),
;

/// The characters of `s`, in order.
pub fn to_chars(s: &str) -> (chars: Vec<char>)
    ensures
        chars@ == s@,
{
    let mut chars: Vec<char> = Vec::new();
    for c in it: s.chars()
        invariant
            chars@ == it.seq().take(it.index()),
    {
        chars.push(c);
    }
    chars
}

/// The string made of the characters of `chars`, in order.
pub fn from_chars(chars: &[char]) -> (s: String)
    ensures
        s@ == chars@,
{
    let mut s = String::new();
    let mut i: usize = 0;
    while i < chars.len()
        invariant
            i <= chars@.len(),
            s@ == chars@.take(i as int),
        decreases chars@.len() - i,
    {
        s.push(chars[i]);
        i = i + 1;
    }
    s
}

/// Whether two strings hold the same characters.
pub fn str_eq(a: &str, b: &str) -> (same: bool)
    ensures
        same == (a@ == b@),
{
    let mut left = a.chars();
    let mut right = b.chars();
    let ghost mut done: int = 0;
    loop
        invariant
            0 <= done <= a@.len(),
            done <= b@.len(),
            a@.take(done) == b@.take(done),
            left.remaining() == a@.skip(done),
            right.remaining() == b@.skip(done),
            left.obeys_prophetic_iter_laws(),
            right.obeys_prophetic_iter_laws(),
        decreases a@.len() - done,
    {
        let x = left.next();
        let y = right.next();
        match (x, y) {
            (None, None) => {
                assert(a@.take(done) == a@ && b@.take(done) == b@);
                return true;
            },
            (Some(p), Some(q)) => {
                if p != q {
                    return false;
                }
                proof {
                    done = done + 1;
                }
            },
            _ => {
                return false;
            },
        }
    }
}

/// Position of the first `c` in `s`, or `s.len()` where `s` holds none.
pub open spec fn first_index(s: Seq<char>, c: char) -> int
    decreases s.len(),
{
    if s.len() == 0 || s[0] == c {
        0
    } else {
        1 + first_index(s.drop_first(), c)
    }
}

/// `first_index` is the least position that holds `c`.
pub proof fn lemma_first_index(s: Seq<char>, c: char)
    ensures
        0 <= first_index(s, c) <= s.len(),
        forall|j: int| 0 <= j < first_index(s, c) ==> s[j] != c,
        first_index(s, c) < s.len() ==> s[first_index(s, c)] == c,
        first_index(s, c) < s.len() <==> s.contains(c),
    decreases s.len(),
{
    if s.len() == 0 || s[0] == c {
        if s.len() > 0 {
            assert(s[0] == c);
        }
    } else {
        let t = s.drop_first();
        lemma_first_index(t, c);
        assert forall|j: int| 0 <= j < first_index(s, c) implies s[j] != c by {
            if j > 0 {
                assert(s[j] == t[j - 1]);
            }
        }
        if first_index(s, c) < s.len() {
            assert(s[first_index(s, c)] == t[first_index(t, c)]);
        }
        if s.contains(c) {
            let k = choose|k: int| 0 <= k < s.len() && s[k] == c;
            assert(t[k - 1] == c);
        }
    }
}

/// A position that holds `c`, with no `c` before it, is `first_index`.
pub proof fn lemma_first_index_is(s: Seq<char>, c: char, at: int)
    requires
        0 <= at < s.len(),
        s[at] == c,
        forall|j: int| 0 <= j < at ==> s[j] != c,
    ensures
        first_index(s, c) == at,
{
    lemma_first_index(s, c);
}

/// Position of the first `c` in `s`, or its length.
pub fn find_char(s: &[char], c: char) -> (i: usize)
    ensures
        i == first_index(s@, c),
{
    let mut i: usize = 0;
    assert(s@.skip(0) == s@);
    while i < s.len() && s[i] != c
        invariant
            i <= s@.len(),
            first_index(s@, c) == i + first_index(s@.skip(i as int), c),
        decreases s@.len() - i,
    {
        assert(s@.skip(i as int).drop_first() == s@.skip(i + 1));
        i = i + 1;
    }
    i
}

/// Whether `pat` stands in `s` at position `i`.
pub open spec fn occurs_at(s: Seq<char>, pat: Seq<char>, i: int) -> bool {
    0 <= i && i + pat.len() <= s.len() && s.subrange(i, i + pat.len()) == pat
}

/// Whether `pat` stands somewhere in `s` as a contiguous run.
pub open spec fn contains_seq(s: Seq<char>, pat: Seq<char>) -> bool {
    exists|i: int| occurs_at(s, pat, i)
}

fn matches_at(s: &[char], pat: &[char], i: usize) -> (m: bool)
    requires
        i + pat@.len() <= s@.len(),
    ensures
        m == occurs_at(s@, pat@, i as int),
{
    let n: usize = s.len();
    let mut k: usize = 0;
    while k < pat.len()
        invariant
            k <= pat@.len(),
            i + pat@.len() <= s@.len() == n,
            s@.subrange(i as int, i + k) == pat@.take(k as int),
        decreases pat@.len() - k,
    {
        if s[i + k] != pat[k] {
            assert(s@.subrange(i as int, i + pat@.len())[k as int] != pat@[k as int]);
            return false;
        }
        assert(s@.subrange(i as int, i + k + 1) == s@.subrange(i as int, i + k).push(s@[i + k]));
        assert(pat@.take(k + 1) == pat@.take(k as int).push(pat@[k as int]));
        k = k + 1;
    }
    assert(pat@.take(k as int) == pat@);
    true
}

/// Whether `pat` stands somewhere in `s` as a contiguous run.
pub fn contains(s: &[char], pat: &[char]) -> (found: bool)
    ensures
        found == contains_seq(s@, pat@),
{
    if pat.len() > s.len() {
        return false;
    }
    let last: usize = s.len() - pat.len();
    let mut i: usize = 0;
    loop
        invariant
            i <= last,
            last == s@.len() - pat@.len(),
            forall|j: int| 0 <= j < i ==> !occurs_at(s@, pat@, j),
        decreases last - i,
    {
        if matches_at(s, pat, i) {
            return true;
        }
        if i == last {
            return false;
        }
        i = i + 1;
    }
}

/// Whether `c` has the Unicode property White_Space.
pub open spec fn is_whitespace(c: char) -> bool {
    let n = c as u32;
    ||| 0x09 <= n <= 0x0d
    ||| n == 0x20
    ||| n == 0x85
    ||| n == 0xa0
    ||| n == 0x1680
    ||| 0x2000 <= n <= 0x200a
    ||| n == 0x2028
    ||| n == 0x2029
    ||| n == 0x202f
    ||| n == 0x205f
    ||| n == 0x3000
}

/// Whether `c` has the Unicode property White_Space.
pub fn char_is_whitespace(c: char) -> (w: bool)
    ensures
        w == is_whitespace(c),
{
    let n: u32 = c as u32;
    (0x09 <= n && n <= 0x0d) || n == 0x20 || n == 0x85 || n == 0xa0 || n == 0x1680 || (0x2000 <= n
        && n <= 0x200a) || n == 0x2028 || n == 0x2029 || n == 0x202f || n == 0x205f || n == 0x3000
}

/// Length of the longest prefix of `s` that holds no whitespace.
pub open spec fn word_len(s: Seq<char>) -> nat
    decreases s.len(),
{
    if s.len() == 0 || is_whitespace(s[0]) {
        0
    } else {
        1 + word_len(s.drop_first())
    }
}

/// `word_len` stops at the first whitespace, or at the end.
pub proof fn lemma_word_len(s: Seq<char>)
    ensures
        word_len(s) <= s.len(),
        forall|j: int| 0 <= j < word_len(s) ==> !is_whitespace(s[j]),
        word_len(s) < s.len() ==> is_whitespace(s[word_len(s) as int]),
    decreases s.len(),
{
    if s.len() == 0 || is_whitespace(s[0]) {
    } else {
        let t = s.drop_first();
        lemma_word_len(t);
        assert forall|j: int| 0 <= j < word_len(s) implies !is_whitespace(s[j]) by {
            if j > 0 {
                assert(s[j] == t[j - 1]);
            }
        }
        if word_len(s) < s.len() {
            assert(s[word_len(s) as int] == t[word_len(t) as int]);
        }
    }
}

/// The maximal runs of characters of `s` that hold no whitespace, in order.
pub open spec fn tokens(s: Seq<char>) -> Seq<Seq<char>>
    decreases s.len(),
{
    if s.len() == 0 {
        Seq::empty()
    } else if is_whitespace(s[0]) {
        tokens(s.drop_first())
    } else {
        proof {
            lemma_word_len(s);
        }
        seq![s.take(word_len(s) as int)] + tokens(s.skip(word_len(s) as int))
    }
}

/// A word: a text that is not empty and holds no whitespace.
pub open spec fn is_word(w: Seq<char>) -> bool {
    w.len() > 0 && forall|j: int| 0 <= j < w.len() ==> !is_whitespace(w[j])
}

/// Every token is a word.
pub proof fn lemma_tokens_are_words(s: Seq<char>)
    ensures
        forall|i: int| 0 <= i < tokens(s).len() ==> is_word(#[trigger] tokens(s)[i]),
    decreases s.len(),
{
    if s.len() == 0 {
        assert(tokens(s).len() == 0);
    } else if is_whitespace(s[0]) {
        lemma_tokens_are_words(s.drop_first());
        assert(tokens(s) == tokens(s.drop_first()));
    } else {
        lemma_word_len(s);
        let n = word_len(s) as int;
        lemma_tokens_are_words(s.skip(n));
        assert(tokens(s) == seq![s.take(n)] + tokens(s.skip(n)));
        assert forall|i: int| 0 <= i < tokens(s).len() implies is_word(#[trigger] tokens(s)[i]) by {
            if i > 0 {
                assert(tokens(s)[i] == tokens(s.skip(n))[i - 1]);
            } else {
                assert(tokens(s)[0] == s.take(n));
            }
        }
    }
}

/// A word is its own single token.
pub proof fn lemma_tokens_of_word(word: Seq<char>)
    requires
        is_word(word),
    ensures
        tokens(word) == seq![word],
{
    lemma_word_len(word);
    let n = word_len(word) as int;
    assert(n == word.len());
    assert(word.take(n) == word);
    assert(tokens(word.skip(n)) == Seq::<Seq<char>>::empty());
}

/// A word that is followed by whitespace is the first token of the text,
/// and the tokens of what follows are the other tokens.
pub proof fn lemma_tokens_after_word(word: Seq<char>, sep: char, rest: Seq<char>)
    requires
        is_word(word),
        is_whitespace(sep),
    ensures
        tokens(word + seq![sep] + rest) == seq![word] + tokens(rest),
{
    let s = word + seq![sep] + rest;
    let n = word.len() as int;
    lemma_word_len(s);
    assert(s[n] == sep);
    assert forall|j: int| 0 <= j < n implies !is_whitespace(s[j]) by {
        assert(s[j] == word[j]);
    }
    assert(word_len(s) == n);
    assert(s.take(n) == word);
    let tail = s.skip(n);
    assert(tail[0] == sep);
    assert(tail.drop_first() == rest);
    assert(tokens(tail) == tokens(rest));
}

/// What a list of slices holds: the characters of each, in order.
pub open spec fn slice_views(parts: Seq<&[char]>) -> Seq<Seq<char>> {
    Seq::new(parts.len(), |i: int| parts[i]@)
}

/// The maximal runs of characters of `s` that hold no whitespace, in order.
pub fn split_whitespace<'a>(s: &'a [char]) -> (parts: Vec<&'a [char]>)
    ensures
        slice_views(parts@) == tokens(s@),
{
    let n: usize = s.len();
    let mut parts: Vec<&'a [char]> = Vec::new();
    let mut pos: usize = 0;
    assert(s@.skip(0) == s@);
    while pos < n
        invariant
            pos <= n == s@.len(),
            tokens(s@) == slice_views(parts@) + tokens(s@.skip(pos as int)),
        decreases n - pos,
    {
        let ghost rest = s@.skip(pos as int);
        if char_is_whitespace(s[pos]) {
            assert(rest.drop_first() == s@.skip(pos + 1));
            pos = pos + 1;
        } else {
            let mut end: usize = pos + 1;
            assert(rest.drop_first() == s@.skip(pos + 1));
            while end < n && !char_is_whitespace(s[end])
                invariant
                    pos < end <= n == s@.len(),
                    word_len(rest) == (end - pos) + word_len(s@.skip(end as int)),
                    rest == s@.skip(pos as int),
                decreases n - end,
            {
                assert(s@.skip(end as int).drop_first() == s@.skip(end + 1));
                end = end + 1;
            }
            assert(word_len(rest) == end - pos);
            let word = slice_subrange(s, pos, end);
            assert(word@ == rest.take(word_len(rest) as int));
            assert(rest.skip(word_len(rest) as int) == s@.skip(end as int));
            let ghost before = slice_views(parts@);
            parts.push(word);
            assert(slice_views(parts@) == before.push(word@));
            assert(before.push(word@) + tokens(s@.skip(end as int)) == before + (seq![word@]
                + tokens(s@.skip(end as int))));
            pos = end;
        }
    }
    assert(slice_views(parts@) + Seq::<Seq<char>>::empty() == slice_views(parts@));
    parts
}

/// `s` without one trailing carriage return, where it has one.
pub open spec fn strip_cr(s: Seq<char>) -> Seq<char> {
    if s.len() > 0 && s.last() == '\r' {
        s.drop_last()
    } else {
        s
    }
}

/// The lines of `s`. A line ends at a line feed; the line feed, and a
/// carriage return directly before it, belong to no line. What follows the
/// last line feed is a line of its own unless it is empty.
pub open spec fn lines(s: Seq<char>) -> Seq<Seq<char>>
    decreases s.len(),
{
    if s.len() == 0 {
        Seq::empty()
    } else {
        let i = first_index(s, '\n');
        if i >= s.len() {
            seq![s]
        } else {
            proof {
                lemma_first_index(s, '\n');
            }
            seq![strip_cr(s.take(i))] + lines(s.skip(i + 1))
        }
    }
}

/// No line holds a line feed.
pub proof fn lemma_lines_hold_no_line_feed(s: Seq<char>)
    ensures
        forall|i: int| 0 <= i < lines(s).len() ==> !(#[trigger] lines(s)[i]).contains('\n'),
    decreases s.len(),
{
    if s.len() > 0 {
        lemma_first_index(s, '\n');
        let at = first_index(s, '\n');
        if at < s.len() {
            lemma_lines_hold_no_line_feed(s.skip(at + 1));
            let head = strip_cr(s.take(at));
            assert(!head.contains('\n')) by {
                if head.contains('\n') {
                    let k = choose|k: int| 0 <= k < head.len() && head[k] == '\n';
                    assert(s[k] == '\n');
                }
            }
            assert forall|i: int| 0 <= i < lines(s).len() implies !(#[trigger] lines(s)[i]).contains(
                '\n',
            ) by {
                if i > 0 {
                    assert(lines(s)[i] == lines(s.skip(at + 1))[i - 1]);
                }
            }
        }
    }
}

/// A line that is followed by its terminator is the first line of the
/// text, and the lines of what follows are the other lines. After a line
/// feed alone, a carriage return at the end of the line is taken off.
pub proof fn lemma_lines_after_line(line: Seq<char>, rest: Seq<char>)
    requires
        !line.contains('\n'),
    ensures
        lines(line + seq!['\r', '\n'] + rest) == seq![line] + lines(rest),
        lines(line + seq!['\n'] + rest) == seq![strip_cr(line)] + lines(rest),
{
    let a = line + seq!['\r', '\n'] + rest;
    let at: int = line.len() as int + 1;
    assert forall|j: int| 0 <= j < at implies a[j] != '\n' by {
        if j < line.len() {
            assert(a[j] == line[j]);
            assert(line.contains(line[j]));
        }
    }
    lemma_first_index_is(a, '\n', at);
    assert(a.take(at) == line.push('\r'));
    assert(line.push('\r').drop_last() == line);
    assert(a.skip(at + 1) == rest);
    let b = line + seq!['\n'] + rest;
    let to: int = line.len() as int;
    assert forall|j: int| 0 <= j < to implies b[j] != '\n' by {
        assert(b[j] == line[j]);
        assert(line.contains(line[j]));
    }
    lemma_first_index_is(b, '\n', to);
    assert(b.take(to) == line);
    assert(b.skip(to + 1) == rest);
}

/// A text that is not empty and holds no line feed is one line.
pub proof fn lemma_lines_of_line(line: Seq<char>)
    requires
        line.len() > 0,
        !line.contains('\n'),
    ensures
        lines(line) == seq![line],
{
    lemma_first_index(line, '\n');
}

/// The text in which each of `ls` is followed by a carriage return and a
/// line feed.
pub open spec fn joined(ls: Seq<Seq<char>>) -> Seq<char>
    decreases ls.len(),
{
    if ls.len() == 0 {
        Seq::empty()
    } else {
        ls[0] + seq!['\r', '\n'] + joined(ls.drop_first())
    }
}

/// Joining one more line appends that line and its terminator.
pub proof fn lemma_joined_push(ls: Seq<Seq<char>>, line: Seq<char>)
    ensures
        joined(ls.push(line)) == joined(ls) + line + seq!['\r', '\n'],
    decreases ls.len(),
{
    let all = ls.push(line);
    if ls.len() == 0 {
        assert(all.drop_first() == Seq::<Seq<char>>::empty());
        assert(joined(all.drop_first()) == Seq::<char>::empty());
        assert(joined(all) == line + seq!['\r', '\n'] + Seq::<char>::empty());
    } else {
        lemma_joined_push(ls.drop_first(), line);
        assert(all.drop_first() == ls.drop_first().push(line));
        assert(joined(all) == ls[0] + seq!['\r', '\n'] + (joined(ls.drop_first()) + line + seq![
            '\r',
            '\n',
        ]));
    }
}

/// Splitting undoes joining: the lines of a joined text are the lines
/// that were joined, followed by the lines of what stands behind them.
pub proof fn lemma_lines_of_joined(ls: Seq<Seq<char>>, rest: Seq<char>)
    requires
        forall|i: int| 0 <= i < ls.len() ==> !(#[trigger] ls[i]).contains('\n'),
    ensures
        lines(joined(ls) + rest) == ls + lines(rest),
    decreases ls.len(),
{
    if ls.len() == 0 {
        assert(joined(ls) + rest == rest);
        assert(ls + lines(rest) == lines(rest));
    } else {
        let tail = ls.drop_first();
        assert forall|i: int| 0 <= i < tail.len() implies !(#[trigger] tail[i]).contains('\n') by {
            assert(tail[i] == ls[i + 1]);
        }
        lemma_lines_of_joined(tail, rest);
        lemma_lines_after_line(ls[0], joined(tail) + rest);
        assert(joined(ls) + rest == ls[0] + seq!['\r', '\n'] + (joined(tail) + rest));
        assert(seq![ls[0]] + (tail + lines(rest)) == ls + lines(rest));
    }
}

/// The lines of `s`, without their terminators.
pub fn split_lines<'a>(s: &'a [char]) -> (parts: Vec<&'a [char]>)
    ensures
        slice_views(parts@) == lines(s@),
{
    let n: usize = s.len();
    let mut parts: Vec<&'a [char]> = Vec::new();
    let mut pos: usize = 0;
    assert(s@.skip(0) == s@);
    while pos < n
        invariant
            pos <= n == s@.len(),
            lines(s@) == slice_views(parts@) + lines(s@.skip(pos as int)),
        decreases n - pos,
    {
        let ghost rest = s@.skip(pos as int);
        let tail = slice_subrange(s, pos, n);
        assert(tail@ == rest);
        let len: usize = find_char(tail, '\n');
        proof {
            lemma_first_index(rest, '\n');
        }
        let end: usize = pos + len;
        let ghost before = slice_views(parts@);
        if end == n {
            parts.push(tail);
            assert(slice_views(parts@) == before.push(rest));
            assert(before.push(rest) == before + seq![rest]);
            assert(s@.skip(n as int).len() == 0);
            assert(seq![rest] + lines(s@.skip(n as int)) == seq![rest]);
            pos = n;
        } else {
            let stop: usize = if end > pos && s[end - 1] == '\r' {
                end - 1
            } else {
                end
            };
            let line = slice_subrange(s, pos, stop);
            assert(rest.take(len as int) == s@.subrange(pos as int, end as int));
            assert(line@ == strip_cr(rest.take(len as int)));
            assert(rest.skip(len + 1) == s@.skip(end + 1));
            parts.push(line);
            assert(slice_views(parts@) == before.push(line@));
            assert(before.push(line@) + lines(s@.skip(end + 1)) == before + (seq![line@] + lines(
                s@.skip(end + 1),
            )));
            pos = end + 1;
        }
    }
    assert(slice_views(parts@) + Seq::<Seq<char>>::empty() == slice_views(parts@));
    parts
}

/// The character that writes the digit `d`.
pub open spec fn digit_char(d: nat) -> char {
    if d == 0 {
        '0'
    } else if d == 1 {
        '1'
    } else if d == 2 {
        '2'
    } else if d == 3 {
        '3'
    } else if d == 4 {
        '4'
    } else if d == 5 {
        '5'
    } else if d == 6 {
        '6'
    } else if d == 7 {
        '7'
    } else if d == 8 {
        '8'
    } else {
        '9'
    }
}

/// `n` written in base ten, without leading zeros.
pub open spec fn decimal(n: nat) -> Seq<char>
    decreases n,
{
    if n < 10 {
        seq![digit_char(n)]
    } else {
        decimal(n / 10).push(digit_char(n % 10))
    }
}

/// The number that a text of digits writes in base ten.
pub open spec fn decimal_value(digits: Seq<char>) -> nat
    decreases digits.len(),
{
    if digits.len() == 0 {
        0
    } else {
        10 * decimal_value(digits.drop_last()) + (digits.last() as u32 - '0' as u32) as nat
    }
}

/// `decimal` writes digits only, writes no leading zero but for zero
/// itself, and reads back as the number that was written.
pub proof fn lemma_decimal(n: nat)
    ensures
        decimal(n).len() > 0,
        forall|i: int| 0 <= i < decimal(n).len() ==> '0' <= #[trigger] decimal(n)[i] <= '9',
        decimal(n)[0] == '0' <==> n == 0,
        n < 10 <==> decimal(n).len() == 1,
        decimal_value(decimal(n)) == n,
    decreases n,
{
    let d = decimal(n);
    if n < 10 {
        assert(d.drop_last() == Seq::<char>::empty());
        assert(decimal_value(d.drop_last()) == 0);
    } else {
        lemma_decimal(n / 10);
        assert(d.drop_last() == decimal(n / 10));
        assert(d.last() == digit_char(n % 10));
        assert(d[0] == decimal(n / 10)[0]);
    }
}

fn digit(d: usize) -> (c: char)
    requires
        d < 10,
    ensures
        c == digit_char(d as nat),
{
    if d == 0 {
        '0'
    } else if d == 1 {
        '1'
    } else if d == 2 {
        '2'
    } else if d == 3 {
        '3'
    } else if d == 4 {
        '4'
    } else if d == 5 {
        '5'
    } else if d == 6 {
        '6'
    } else if d == 7 {
        '7'
    } else if d == 8 {
        '8'
    } else {
        '9'
    }
}

/// Appends `n`, written in base ten, to `out`.
pub fn push_decimal(out: &mut String, n: usize)
    ensures
        final(out)@ == old(out)@ + decimal(n as nat),
    decreases n,
{
    if n >= 10 {
        push_decimal(out, n / 10);
    }
    out.push(digit(n % 10));
}

} // verus!
