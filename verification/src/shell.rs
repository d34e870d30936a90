//! Words as a shell reads them.

use vstd::prelude::*;
use crate::text::{chars_of, join};

verus! {

/// The characters of a word inside single quotes, where a quote of its own is
/// closed, escaped and opened again.
pub open spec fn escaped(word: Seq<char>) -> Seq<char>
    decreases word.len(),
{
    if word.len() == 0 {
        Seq::empty()
    } else if word[0] == '\'' {
        seq!['\'', '\\', '\'', '\''] + escaped(word.skip(1))
    } else {
        seq![word[0]] + escaped(word.skip(1))
    }
}

/// A word in single quotes.
pub open spec fn quoted(word: Seq<char>) -> Seq<char> {
    seq!['\''] + escaped(word) + seq!['\'']
}

/// Quoting adds nothing but quotes and backslashes.
pub proof fn lemma_quoted_holds_the_word(word: Seq<char>, c: char)
    requires
        c != '\'',
        c != '\\',
    ensures
        quoted(word).contains(c) <==> word.contains(c),
{
    lemma_escaped_holds_the_word(word, c);
    let inner = escaped(word);
    if inner.contains(c) {
        let i = choose|i: int| 0 <= i < inner.len() && inner[i] == c;
        assert(quoted(word)[i + 1] == c);
    }
    if quoted(word).contains(c) {
        let i = choose|i: int| 0 <= i < quoted(word).len() && quoted(word)[i] == c;
        assert(inner[i - 1] == c);
    }
}

proof fn lemma_escaped_holds_the_word(word: Seq<char>, c: char)
    requires
        c != '\'',
        c != '\\',
    ensures
        escaped(word).contains(c) <==> word.contains(c),
    decreases word.len(),
{
    if word.len() > 0 {
        let tail = word.skip(1);
        let rest = escaped(tail);
        let first = if word[0] == '\'' {
            seq!['\'', '\\', '\'', '\'']
        } else {
            seq![word[0]]
        };
        lemma_escaped_holds_the_word(tail, c);
        assert(escaped(word) == first + rest);
        if escaped(word).contains(c) {
            let i = choose|i: int| 0 <= i < escaped(word).len() && escaped(word)[i] == c;
            if i < first.len() {
                assert(first[i] == c);
                assert(word[0] == c);
            } else {
                assert(rest[i - first.len()] == c);
                let k = choose|k: int| 0 <= k < tail.len() && tail[k] == c;
                assert(word[k + 1] == c);
            }
        }
        if word.contains(c) {
            let i = choose|i: int| 0 <= i < word.len() && word[i] == c;
            if i == 0 {
                assert(escaped(word)[0] == c);
            } else {
                assert(tail[i - 1] == c);
                let k = choose|k: int| 0 <= k < rest.len() && rest[k] == c;
                assert(escaped(word)[first.len() + k] == c);
            }
        }
    }
}

/// Puts a word in single quotes.
pub fn shell_quote(arg: &str) -> (r: String)
    ensures
        r@ == quoted(arg@),
{
    let chars = chars_of(arg);
    let mut out = String::new();
    out.push('\'');
    let mut i: usize = 0;
    assert(arg@.skip(0) =~= arg@);
    while i < chars.len()
        invariant
            i <= chars@.len(),
            chars@ == arg@,
            out@ + escaped(arg@.skip(i as int)) =~= seq!['\''] + escaped(arg@),
        decreases chars@.len() - i,
    {
        assert(arg@.skip(i as int).skip(1) =~= arg@.skip(i + 1));
        if chars[i] == '\'' {
            out.push('\'');
            out.push('\\');
            out.push('\'');
            out.push('\'');
        } else {
            out.push(chars[i]);
        }
        i += 1;
    }
    assert(arg@.skip(i as int) =~= Seq::empty());
    assert(out@ =~= seq!['\''] + escaped(arg@));
    out.push('\'');
    out
}

/// Each word in single quotes.
pub open spec fn all_quoted(words: Seq<Seq<char>>) -> Seq<Seq<char>> {
    Seq::new(words.len(), |i: int| quoted(words[i]))
}

/// Puts every word in single quotes.
pub fn quote_all(words: &[String]) -> (r: Vec<String>)
    ensures
        crate::text::texts(r@) == all_quoted(crate::text::texts(words@)),
{
    let mut out: Vec<String> = Vec::new();
    while out.len() < words.len()
        invariant
            out@.len() <= words@.len(),
            crate::text::texts(out@) =~= all_quoted(crate::text::texts(words@)).take(
                out@.len() as int,
            ),
        decreases words@.len() - out@.len(),
    {
        let ghost before = out@;
        let word = shell_quote(words[out.len()].as_str());
        let ghost shown = word@;
        out.push(word);
        assert(crate::text::texts(out@) =~= crate::text::texts(before).push(shown));
    }
    assert(crate::text::texts(out@) =~= all_quoted(crate::text::texts(words@)));
    out
}

/// Words in single quotes with spaces between.
pub fn quote_line(words: &[String]) -> (r: String)
    ensures
        r@ == crate::text::joined(all_quoted(crate::text::texts(words@)), " "@),
{
    join(&quote_all(words), " ")
}

/// How a shell reads a word and what is left behind it, inside single quotes
/// or outside: single quotes are taken away and what stands between them is
/// taken as it is, a backslash outside them lets the next character stand for
/// itself, and a space or a line feed outside them ends the word.
pub open spec fn read_word(s: Seq<char>, inside: bool) -> (Seq<char>, Seq<char>)
    decreases s.len(),
{
    if s.len() == 0 {
        (Seq::empty(), s)
    } else if inside {
        if s[0] == '\'' {
            read_word(s.skip(1), false)
        } else {
            let rest = read_word(s.skip(1), true);
            (seq![s[0]] + rest.0, rest.1)
        }
    } else if s[0] == ' ' || s[0] == '\n' {
        (Seq::empty(), s)
    } else if s[0] == '\'' {
        read_word(s.skip(1), true)
    } else if s[0] == '\\' && s.len() > 1 {
        let rest = read_word(s.skip(2), false);
        (seq![s[1]] + rest.0, rest.1)
    } else {
        let rest = read_word(s.skip(1), false);
        (seq![s[0]] + rest.0, rest.1)
    }
}

/// Whether a word ends before what follows.
pub open spec fn ends_a_word(rest: Seq<char>) -> bool {
    rest.len() == 0 || rest[0] == ' ' || rest[0] == '\n'
}

proof fn lemma_escaped_reads_back(word: Seq<char>, rest: Seq<char>)
    requires
        ends_a_word(rest),
    ensures
        read_word(escaped(word) + seq!['\''] + rest, true) == (word, rest),
    decreases word.len(),
{
    let s = escaped(word) + seq!['\''] + rest;
    if word.len() == 0 {
        assert(s[0] == '\'');
        assert(s.skip(1) =~= rest);
        assert(word =~= Seq::empty());
        assert(read_word(rest, false) == (word, rest));
    } else {
        let tail = word.skip(1);
        let t = escaped(tail) + seq!['\''] + rest;
        lemma_escaped_reads_back(tail, rest);
        assert(seq![word[0]] + tail =~= word);
        if word[0] == '\'' {
            assert(s =~= seq!['\'', '\\', '\'', '\''] + t);
            let a = s.skip(1);
            let b = a.skip(2);
            assert(a[0] == '\\' && a[1] == '\'');
            assert(b[0] == '\'');
            assert(b.skip(1) =~= t);
            assert(read_word(b, false) == read_word(t, true));
            assert(read_word(a, false) == (seq!['\''] + tail, rest));
            assert(read_word(s, true) == read_word(a, false));
        } else {
            assert(s =~= seq![word[0]] + t);
            assert(s.skip(1) =~= t);
        }
    }
}

/// A quoted word, whatever it holds, is read by a shell as that word.
pub proof fn lemma_quoted_reads_back(word: Seq<char>, rest: Seq<char>)
    requires
        ends_a_word(rest),
    ensures
        read_word(quoted(word) + rest, false) == (word, rest),
{
    let s = quoted(word) + rest;
    assert(s[0] == '\'');
    assert(s.skip(1) =~= escaped(word) + seq!['\''] + rest);
    lemma_escaped_reads_back(word, rest);
}

/// How a shell reads the words of a line, each behind a space but the first.
pub open spec fn read_line(s: Seq<char>) -> (Seq<Seq<char>>, Seq<char>)
    decreases s.len(),
{
    let word = read_word(s, false);
    if word.1.len() > 0 && word.1[0] == ' ' && word.1.len() <= s.len() {
        let rest = read_line(word.1.skip(1));
        (seq![word.0] + rest.0, rest.1)
    } else {
        (seq![word.0], word.1)
    }
}

/// Quoted words with spaces between, up to the end of the line, are read by a
/// shell as those words, however many there are and whatever they hold.
pub proof fn lemma_quoted_line_reads_back(words: Seq<Seq<char>>, rest: Seq<char>)
    requires
        words.len() > 0,
        rest.len() == 0 || rest[0] == '\n',
    ensures
        read_line(crate::text::joined(all_quoted(words), seq![' ']) + rest) == (words, rest),
    decreases words.len(),
{
    let line = crate::text::joined(all_quoted(words), seq![' ']);
    if words.len() == 1 {
        assert(line == quoted(words[0]));
        lemma_quoted_reads_back(words[0], rest);
        assert(seq![words[0]] =~= words);
    } else {
        let tail = words.skip(1);
        lemma_joined_from_the_front(all_quoted(words), seq![' ']);
        assert(all_quoted(words).skip(1) =~= all_quoted(tail));
        let after = seq![' '] + crate::text::joined(all_quoted(tail), seq![' ']) + rest;
        assert(line + rest =~= quoted(words[0]) + after);
        lemma_quoted_reads_back(words[0], after);
        assert(after.skip(1) =~= crate::text::joined(all_quoted(tail), seq![' ']) + rest);
        lemma_quoted_line_reads_back(tail, rest);
        assert(seq![words[0]] + tail =~= words);
    }
}

proof fn lemma_joined_from_the_front(parts: Seq<Seq<char>>, sep: Seq<char>)
    requires
        parts.len() > 1,
    ensures
        crate::text::joined(parts, sep) == parts[0] + sep + crate::text::joined(parts.skip(1), sep),
    decreases parts.len(),
{
    let front = parts.drop_last();
    if parts.len() == 2 {
        assert(front.len() == 1 && front[0] == parts[0]);
        assert(parts.skip(1).len() == 1 && parts.skip(1)[0] == parts.last());
        assert(crate::text::joined(front, sep) == parts[0]);
        assert(crate::text::joined(parts.skip(1), sep) == parts.last());
    } else {
        lemma_joined_from_the_front(front, sep);
        assert(front.skip(1) =~= parts.skip(1).drop_last());
        assert(parts.skip(1).last() == parts.last());
        assert(crate::text::joined(parts, sep) =~= parts[0] + sep + (crate::text::joined(
            parts.skip(1).drop_last(),
            sep,
        ) + sep + parts.last()));
    }
}

} // verus!
