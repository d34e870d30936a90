//! Text handling over sequences of characters: splitting, trimming, reading
//! and writing numbers.

use vstd::prelude::*;
use vstd::slice::slice_subrange;

verus! {

/// `String::push` appends one character to the end of the string.
pub assume_specification[ String::push ](s: &mut String, c: char)
    ensures
        final(s)@ == old(s)@.push(c),
;

/// The characters of `s`, in order.
pub fn chars_of(s: &str) -> (r: Vec<char>)
    ensures
        r@ == s@,
{
    let mut out: Vec<char> = Vec::new();
    for c in it: s.chars()
        invariant
            out@ =~= it.seq().take(it.index() as int),
            it.seq() == s@,
    {
        out.push(c);
    }
    out
}

/// The string that holds exactly `chars`.
pub fn string_of(chars: &[char]) -> (r: String)
    ensures
        r@ == chars@,
{
    let mut out = String::new();
    let mut i: usize = 0;
    while i < chars.len()
        invariant
            i <= chars@.len(),
            out@ =~= chars@.take(i as int),
        decreases chars@.len() - i,
    {
        out.push(chars[i]);
        i += 1;
    }
    assert(chars@.take(i as int) =~= chars@);
    out
}

/// Whether two strings hold the same characters.
pub fn same(a: &str, b: &str) -> (r: bool)
    ensures
        r == (a@ == b@),
{
    a.to_owned() == b.to_owned()
}

pub open spec fn digit_char(d: int) -> char {
    if d < 10 {
        (48 + d) as char
    } else {
        (87 + d) as char
    }
}

fn digit_char_exec(d: u8) -> (r: char)
    requires
        d < 16,
    ensures
        r == digit_char(d as int),
{
    if d < 10 {
        (48 + d) as char
    } else {
        (87 + d) as char
    }
}

/// `n` in base sixteen, lower case, without leading zeros.
pub open spec fn hex_digits(n: nat) -> Seq<char>
    decreases n,
{
    if n < 16 {
        seq![digit_char(n as int)]
    } else {
        hex_digits(n / 16).push(digit_char((n % 16) as int))
    }
}

fn hex_chars(n: u64) -> (r: Vec<char>)
    ensures
        r@ == hex_digits(n as nat),
    decreases n,
{
    if n < 16 {
        let mut out: Vec<char> = Vec::new();
        out.push(digit_char_exec(n as u8));
        assert(out@ =~= seq![digit_char(n as int)]);
        out
    } else {
        let mut out = hex_chars(n / 16);
        out.push(digit_char_exec((n % 16) as u8));
        out
    }
}

/// `n` in base ten, without leading zeros.
pub open spec fn decimal_digits(n: nat) -> Seq<char>
    decreases n,
{
    if n < 10 {
        seq![digit_char(n as int)]
    } else {
        decimal_digits(n / 10).push(digit_char((n % 10) as int))
    }
}

fn decimal_chars(n: u64) -> (r: Vec<char>)
    ensures
        r@ == decimal_digits(n as nat),
    decreases n,
{
    if n < 10 {
        let mut out: Vec<char> = Vec::new();
        out.push(digit_char_exec(n as u8));
        assert(out@ =~= seq![digit_char(n as int)]);
        out
    } else {
        let mut out = decimal_chars(n / 10);
        out.push(digit_char_exec((n % 10) as u8));
        out
    }
}

/// `n` as `0x` and its hexadecimal digits.
pub open spec fn hex_text(n: nat) -> Seq<char> {
    seq!['0', 'x'] + hex_digits(n)
}

/// Writes `n` the way a disassembler shows an address.
pub fn hex(n: u64) -> (r: String)
    ensures
        r@ == hex_text(n as nat),
{
    let digits = hex_chars(n);
    let mut out: Vec<char> = Vec::new();
    out.push('0');
    out.push('x');
    push_all(&mut out, &digits);
    assert(out@ =~= hex_text(n as nat));
    string_of(&out)
}

/// Writes `n` in base ten.
pub fn decimal(n: u64) -> (r: String)
    ensures
        r@ == decimal_digits(n as nat),
{
    let digits = decimal_chars(n);
    string_of(&digits)
}

/// `n` in base ten, with a minus sign where it is negative.
pub open spec fn signed_text(n: int) -> Seq<char> {
    if n < 0 {
        seq!['-'] + decimal_digits((-n) as nat)
    } else {
        decimal_digits(n as nat)
    }
}

/// Writes `n` in base ten, with a minus sign where it is negative.
pub fn signed(n: i32) -> (r: String)
    ensures
        r@ == signed_text(n as int),
{
    if n < 0 {
        let mut out: Vec<char> = Vec::new();
        out.push('-');
        let digits = decimal_chars((-(n as i64)) as u64);
        push_all(&mut out, &digits);
        assert(out@ =~= signed_text(n as int));
        string_of(&out)
    } else {
        decimal(n as u64)
    }
}

/// A byte as two hexadecimal digits.
pub open spec fn byte_text(b: u8) -> Seq<char> {
    seq![digit_char(b as int / 16), digit_char(b as int % 16)]
}

/// Appends a byte as two hexadecimal digits.
pub fn push_byte(out: &mut String, b: u8)
    ensures
        final(out)@ == old(out)@ + byte_text(b),
{
    out.push(digit_char_exec(b / 16));
    out.push(digit_char_exec(b % 16));
    assert(out@ =~= old(out)@ + byte_text(b));
}

/// Each byte as two lower-case hexadecimal digits, with nothing between.
pub open spec fn bytes_text(bytes: Seq<u8>) -> Seq<char>
    decreases bytes.len(),
{
    if bytes.len() == 0 {
        Seq::empty()
    } else {
        bytes_text(bytes.drop_last()) + byte_text(bytes.last())
    }
}

/// Writes each byte as two lower-case hexadecimal digits.
pub fn bytes_hex(bytes: &[u8]) -> (r: String)
    ensures
        r@ == bytes_text(bytes@),
{
    let mut out = String::new();
    let mut i: usize = 0;
    while i < bytes.len()
        invariant
            i <= bytes@.len(),
            out@ == bytes_text(bytes@.take(i as int)),
        decreases bytes@.len() - i,
    {
        assert(bytes@.take(i + 1).drop_last() =~= bytes@.take(i as int));
        push_byte(&mut out, bytes[i]);
        i += 1;
    }
    assert(bytes@.take(i as int) =~= bytes@);
    out
}

/// `s` with spaces in front of it up to `width` characters.
pub open spec fn right_aligned(s: Seq<char>, width: nat) -> Seq<char> {
    if s.len() >= width {
        s
    } else {
        Seq::new((width - s.len()) as nat, |i: int| ' ') + s
    }
}

/// Puts spaces in front of `s` up to `width` characters.
pub fn align_right(s: &str, width: usize) -> (r: String)
    ensures
        r@ == right_aligned(s@, width as nat),
{
    let chars = chars_of(s);
    let mut out: Vec<char> = Vec::new();
    while out.len() < width && width - out.len() > chars.len()
        invariant
            out@ =~= Seq::new(out@.len(), |i: int| ' '),
            out@.len() <= width,
            out@.len() > 0 ==> out@.len() + chars@.len() <= width,
        decreases width - out@.len(),
    {
        out.push(' ');
    }
    push_all(&mut out, &chars);
    assert(out@ =~= right_aligned(s@, width as nat));
    string_of(&out)
}

/// Appends every character of `more`.
pub fn push_all(out: &mut Vec<char>, more: &[char])
    ensures
        final(out)@ == old(out)@ + more@,
{
    let mut i: usize = 0;
    while i < more.len()
        invariant
            i <= more@.len(),
            out@ =~= old(out)@ + more@.take(i as int),
        decreases more@.len() - i,
    {
        out.push(more[i]);
        i += 1;
    }
    assert(more@.take(i as int) =~= more@);
}

/// The `White_Space` characters of Unicode.
pub open spec fn space(c: char) -> bool {
    let n = c as int;
    ||| 9 <= n <= 13
    ||| n == 0x20
    ||| n == 0x85
    ||| n == 0xA0
    ||| n == 0x1680
    ||| 0x2000 <= n <= 0x200A
    ||| n == 0x2028
    ||| n == 0x2029
    ||| n == 0x202F
    ||| n == 0x205F
    ||| n == 0x3000
}

/// Whether `c` is white space.
pub fn is_space(c: char) -> (r: bool)
    ensures
        r == space(c),
{
    let n: u32 = c as u32;
    (9 <= n && n <= 13) || n == 0x20 || n == 0x85 || n == 0xA0 || n == 0x1680 || (0x2000 <= n && n
        <= 0x200A) || n == 0x2028 || n == 0x2029 || n == 0x202F || n == 0x205F || n == 0x3000
}

/// The index of the first `c` in `s`, or the length of `s`.
pub open spec fn first_at(s: Seq<char>, c: char) -> int
    decreases s.len(),
{
    if s.len() == 0 || s[0] == c {
        0
    } else {
        1 + first_at(s.skip(1), c)
    }
}

pub proof fn lemma_first_at(s: Seq<char>, c: char, n: int)
    requires
        0 <= n <= s.len(),
        forall|i: int| 0 <= i < n ==> s[i] != c,
        n < s.len() ==> s[n] == c,
    ensures
        first_at(s, c) == n,
    decreases s.len(),
{
    if n > 0 {
        assert forall|i: int| 0 <= i < n - 1 implies s.skip(1)[i] != c by {
            assert(s[i + 1] != c);
        }
        lemma_first_at(s.skip(1), c, n - 1);
    }
}

/// The index of the first `c`, or the length.
pub fn find(s: &[char], c: char) -> (r: usize)
    ensures
        r == first_at(s@, c),
        r <= s@.len(),
        r < s@.len() ==> s@[r as int] == c,
        forall|i: int| 0 <= i < r ==> s@[i] != c,
{
    let mut i: usize = 0;
    while i < s.len() && s[i] != c
        invariant
            i <= s@.len(),
            forall|k: int| 0 <= k < i ==> s@[k] != c,
        decreases s@.len() - i,
    {
        i += 1;
    }
    proof {
        lemma_first_at(s@, c, i as int);
    }
    i
}

/// The part of `s` after the last `c`, or all of `s`.
pub open spec fn after_last(s: Seq<char>, c: char) -> Seq<char>
    decreases s.len(),
{
    if s.len() == 0 || s.last() == c {
        Seq::empty()
    } else {
        after_last(s.drop_last(), c).push(s.last())
    }
}

pub proof fn lemma_after_last(s: Seq<char>, c: char, n: int)
    requires
        0 <= n <= s.len(),
        forall|i: int| n <= i < s.len() ==> s[i] != c,
        n > 0 ==> s[n - 1] == c,
    ensures
        after_last(s, c) == s.skip(n),
    decreases s.len(),
{
    if s.len() == 0 || s.last() == c {
        assert(n == s.len());
        assert(s.skip(n) =~= Seq::empty());
    } else {
        lemma_after_last(s.drop_last(), c, n);
        assert(s.drop_last().skip(n).push(s.last()) =~= s.skip(n));
    }
}

/// The part of `s` after the last `c`, or all of `s`.
pub fn after_last_of(s: &[char], c: char) -> (r: &[char])
    ensures
        r@ == after_last(s@, c),
{
    let mut n: usize = s.len();
    while n > 0 && s[n - 1] != c
        invariant
            n <= s@.len(),
            forall|i: int| n <= i < s@.len() ==> s@[i] != c,
        decreases n,
    {
        n -= 1;
    }
    proof {
        lemma_after_last(s@, c, n as int);
    }
    let r = slice_subrange(s, n, s.len());
    assert(r@ =~= s@.skip(n as int));
    r
}

/// What each slice of a list holds.
pub open spec fn contents(pieces: Seq<&[char]>) -> Seq<Seq<char>> {
    Seq::new(pieces.len(), |i: int| pieces[i]@)
}

/// What stands before and after the first `c`.
pub open spec fn cut_at(s: Seq<char>, c: char) -> Option<(Seq<char>, Seq<char>)> {
    if first_at(s, c) < s.len() {
        Some((s.take(first_at(s, c)), s.skip(first_at(s, c) + 1)))
    } else {
        None
    }
}

/// Cuts `s` at the first `c`.
pub fn cut_once<'a>(s: &'a [char], c: char) -> (r: Option<(&'a [char], &'a [char])>)
    ensures
        r is Some <==> cut_at(s@, c) is Some,
        r matches Some(parts) ==> cut_at(s@, c) == Some((parts.0@, parts.1@)),
{
    let at: usize = find(s, c);
    if at < s.len() {
        let head = slice_subrange(s, 0, at);
        let tail = slice_subrange(s, at + 1, s.len());
        assert(head@ =~= s@.take(at as int));
        assert(tail@ =~= s@.skip(at + 1));
        Some((head, tail))
    } else {
        None
    }
}

/// The pieces of `s` between occurrences of `c`: one more than there are of
/// `c`.
pub open spec fn split_on(s: Seq<char>, c: char) -> Seq<Seq<char>>
    decreases s.len(),
{
    if s.len() == 0 {
        seq![Seq::empty()]
    } else {
        let before = split_on(s.drop_last(), c);
        if s.last() == c {
            before.push(Seq::empty())
        } else {
            before.drop_last().push(before.last().push(s.last()))
        }
    }
}

/// Cuts `s` at every `c`.
pub fn split<'a>(s: &'a [char], c: char) -> (r: Vec<&'a [char]>)
    ensures
        contents(r@) == split_on(s@, c),
        r@.len() > 0,
{
    let mut out: Vec<&'a [char]> = Vec::new();
    let mut start: usize = 0;
    let mut i: usize = 0;
    assert(s@.take(0) =~= Seq::empty());
    assert(contents(out@).push(s@.subrange(0, 0)) =~= split_on(s@.take(0), c));
    while i < s.len()
        invariant
            start <= i <= s@.len(),
            contents(out@).push(s@.subrange(start as int, i as int)) =~= split_on(
                s@.take(i as int),
                c,
            ),
        decreases s@.len() - i,
    {
        let ghost before = split_on(s@.take(i as int), c);
        assert(before.last() == s@.subrange(start as int, i as int));
        assert(before.drop_last() =~= contents(out@));
        assert(s@.take(i + 1).drop_last() =~= s@.take(i as int));
        if s[i] == c {
            let piece = slice_subrange(s, start, i);
            let ghost prior = contents(out@);
            out.push(piece);
            assert(contents(out@) =~= prior.push(piece@));
            start = i + 1;
            assert(s@.subrange(start as int, i + 1) =~= Seq::empty());
        } else {
            assert(s@.subrange(start as int, i + 1) =~= s@.subrange(start as int, i as int).push(
                s@[i as int],
            ));
        }
        i += 1;
    }
    assert(s@.take(i as int) =~= s@);
    let piece = slice_subrange(s, start, i);
    let ghost prior = contents(out@);
    out.push(piece);
    assert(contents(out@) =~= prior.push(piece@));
    out
}

/// The maximal runs of characters of `s` that are not white space.
pub open spec fn words_of(s: Seq<char>) -> Seq<Seq<char>>
    decreases s.len(),
{
    if s.len() == 0 {
        Seq::empty()
    } else {
        let before = words_of(s.drop_last());
        if space(s.last()) {
            before
        } else if s.len() == 1 || space(s[s.len() - 2]) {
            before.push(seq![s.last()])
        } else {
            before.drop_last().push(before.last().push(s.last()))
        }
    }
}

/// The runs of characters between white space.
pub fn words<'a>(s: &'a [char]) -> (r: Vec<&'a [char]>)
    ensures
        contents(r@) == words_of(s@),
{
    let mut out: Vec<&'a [char]> = Vec::new();
    let mut start: usize = 0;
    let mut i: usize = 0;
    let mut inside = false;
    assert(s@.take(0) =~= Seq::empty());
    assert(contents(out@) =~= words_of(s@.take(0)));
    while i < s.len()
        invariant
            start <= i <= s@.len(),
            inside == (i > 0 && !space(s@[i - 1])),
            inside ==> contents(out@).push(s@.subrange(start as int, i as int)) =~= words_of(
                s@.take(i as int),
            ),
            !inside ==> contents(out@) =~= words_of(s@.take(i as int)),
        decreases s@.len() - i,
    {
        let ghost before = words_of(s@.take(i as int));
        assert(s@.take(i + 1).drop_last() =~= s@.take(i as int));
        assert(i > 0 ==> s@.take(i + 1)[i - 1] == s@[i - 1]);
        if is_space(s[i]) {
            if inside {
                let piece = slice_subrange(s, start, i);
                let ghost prior = contents(out@);
                out.push(piece);
                assert(contents(out@) =~= prior.push(piece@));
            }
            inside = false;
        } else {
            if inside {
                assert(before.drop_last() =~= contents(out@));
                assert(s@.subrange(start as int, i + 1) =~= s@.subrange(
                    start as int,
                    i as int,
                ).push(s@[i as int]));
            } else {
                start = i;
                assert(s@.subrange(start as int, i + 1) =~= seq![s@[i as int]]);
            }
            inside = true;
        }
        i += 1;
    }
    assert(s@.take(i as int) =~= s@);
    if inside {
        let piece = slice_subrange(s, start, i);
        let ghost prior = contents(out@);
        out.push(piece);
        assert(contents(out@) =~= prior.push(piece@));
    }
    out
}

/// `s` without the white space at its start.
pub open spec fn trimmed_start(s: Seq<char>) -> Seq<char>
    decreases s.len(),
{
    if s.len() > 0 && space(s[0]) {
        trimmed_start(s.skip(1))
    } else {
        s
    }
}

/// `s` without the white space at its end.
pub open spec fn trimmed_end(s: Seq<char>) -> Seq<char>
    decreases s.len(),
{
    if s.len() > 0 && space(s.last()) {
        trimmed_end(s.drop_last())
    } else {
        s
    }
}

/// `s` without the white space at either end.
pub open spec fn trimmed(s: Seq<char>) -> Seq<char> {
    trimmed_end(trimmed_start(s))
}

/// Drops the white space at the end.
pub fn trim_end(s: &[char]) -> (r: &[char])
    ensures
        r@ == trimmed_end(s@),
{
    let mut n: usize = s.len();
    assert(s@.take(n as int) =~= s@);
    while n > 0 && is_space(s[n - 1])
        invariant
            n <= s@.len(),
            trimmed_end(s@) == trimmed_end(s@.take(n as int)),
        decreases n,
    {
        assert(s@.take(n as int).drop_last() =~= s@.take(n - 1));
        n -= 1;
    }
    let r = slice_subrange(s, 0, n);
    assert(r@ =~= s@.take(n as int));
    r
}

/// Drops the white space at both ends.
pub fn trim(s: &[char]) -> (r: &[char])
    ensures
        r@ == trimmed(s@),
{
    let mut n: usize = 0;
    assert(s@.skip(0) =~= s@);
    while n < s.len() && is_space(s[n])
        invariant
            n <= s@.len(),
            trimmed_start(s@) == trimmed_start(s@.skip(n as int)),
        decreases s@.len() - n,
    {
        assert(s@.skip(n as int).skip(1) =~= s@.skip(n + 1));
        n += 1;
    }
    let rest = slice_subrange(s, n, s.len());
    assert(rest@ =~= s@.skip(n as int));
    trim_end(rest)
}

/// A line without the carriage return before its line feed.
pub open spec fn without_return(line: Seq<char>) -> Seq<char> {
    if line.len() > 0 && line.last() == '\r' {
        line.drop_last()
    } else {
        line
    }
}

/// The lines of `s`, without their terminators. A line ends at a line feed,
/// and a carriage return right before it belongs to the terminator. The
/// terminator of the last line may be missing.
pub open spec fn lines_of(s: Seq<char>) -> Seq<Seq<char>> {
    let pieces = split_on(s, '\n');
    let ended = Seq::new((pieces.len() - 1) as nat, |i: int| without_return(pieces[i]));
    if pieces.last().len() == 0 {
        ended
    } else {
        ended.push(pieces.last())
    }
}

/// Cuts `s` into lines.
pub fn lines<'a>(s: &'a [char]) -> (r: Vec<&'a [char]>)
    ensures
        contents(r@) == lines_of(s@),
{
    let pieces = split(s, '\n');
    let ghost all = split_on(s@, '\n');
    let mut out: Vec<&'a [char]> = Vec::new();
    let mut i: usize = 0;
    while i < pieces.len() - 1
        invariant
            contents(pieces@) == all,
            all.len() == pieces@.len(),
            all.len() > 0,
            i <= pieces@.len() - 1,
            contents(out@) =~= Seq::new(i as nat, |k: int| without_return(all[k])),
        decreases pieces@.len() - i,
    {
        let piece: &'a [char] = pieces[i];
        assert(piece@ == all[i as int]);
        let n: usize = piece.len();
        let ghost prior = contents(out@);
        if n > 0 && piece[n - 1] == '\r' {
            let cut = slice_subrange(piece, 0, n - 1);
            assert(cut@ =~= without_return(all[i as int]));
            out.push(cut);
            assert(contents(out@) =~= prior.push(cut@));
        } else {
            out.push(piece);
            assert(contents(out@) =~= prior.push(piece@));
        }
        i += 1;
    }
    let last: &'a [char] = pieces[i];
    assert(last@ == all.last());
    if last.len() > 0 {
        let ghost prior = contents(out@);
        out.push(last);
        assert(contents(out@) =~= prior.push(last@));
    }
    out
}

/// Whether `s` begins with `prefix`.
pub open spec fn begins_with(s: Seq<char>, prefix: Seq<char>) -> bool {
    s.len() >= prefix.len() && s.take(prefix.len() as int) == prefix
}

/// The texts of a list, one after the other with `sep` between.
pub open spec fn joined(parts: Seq<Seq<char>>, sep: Seq<char>) -> Seq<char>
    decreases parts.len(),
{
    if parts.len() == 0 {
        Seq::empty()
    } else if parts.len() == 1 {
        parts[0]
    } else {
        joined(parts.drop_last(), sep) + sep + parts.last()
    }
}

/// What each string of a list holds.
pub open spec fn texts(parts: Seq<String>) -> Seq<Seq<char>> {
    Seq::new(parts.len(), |i: int| parts[i]@)
}

/// Puts the strings of a list one after the other with `sep` between.
pub fn join(parts: &[String], sep: &str) -> (r: String)
    ensures
        r@ == joined(texts(parts@), sep@),
{
    let mut out = String::new();
    let mut i: usize = 0;
    assert(texts(parts@).take(0) =~= Seq::empty());
    while i < parts.len()
        invariant
            i <= parts@.len(),
            out@ =~= joined(texts(parts@).take(i as int), sep@),
        decreases parts@.len() - i,
    {
        let ghost upto = texts(parts@).take(i + 1);
        assert(upto.drop_last() =~= texts(parts@).take(i as int));
        assert(upto.last() == parts@[i as int]@);
        if i > 0 {
            out.append(sep);
        } else {
            assert(out@ =~= Seq::empty());
        }
        out.append(parts[i].as_str());
        i += 1;
    }
    assert(texts(parts@).take(i as int) =~= texts(parts@));
    out
}

/// The characters of slices joined by single spaces.
pub fn join_words(parts: &[&[char]]) -> (r: Vec<char>)
    ensures
        r@ == joined(contents(parts@), seq![' ']),
{
    let mut out: Vec<char> = Vec::new();
    let mut i: usize = 0;
    assert(contents(parts@).take(0) =~= Seq::empty());
    while i < parts.len()
        invariant
            i <= parts@.len(),
            out@ =~= joined(contents(parts@).take(i as int), seq![' ']),
        decreases parts@.len() - i,
    {
        let ghost upto = contents(parts@).take(i + 1);
        assert(upto.drop_last() =~= contents(parts@).take(i as int));
        assert(upto.last() == parts@[i as int]@);
        if i > 0 {
            out.push(' ');
        } else {
            assert(out@ =~= Seq::empty());
        }
        push_all(&mut out, parts[i]);
        i += 1;
    }
    assert(contents(parts@).take(i as int) =~= contents(parts@));
    out
}

/// Why a text is not a number.
#[derive(Debug, Clone, Copy, PartialEq, Eq, Structural)]
pub enum IntFault {
    Empty,
    InvalidDigit,
    TooLarge,
    TooSmall,
}

pub open spec fn int_fault_text(fault: IntFault) -> Seq<char> {
    match fault {
        IntFault::Empty => "cannot parse integer from empty string"@,
        IntFault::InvalidDigit => "invalid digit found in string"@,
        IntFault::TooLarge => "number too large to fit in target type"@,
        IntFault::TooSmall => "number too small to fit in target type"@,
    }
}

impl IntFault {
    /// The fault in words.
    pub fn text(self) -> (r: &'static str)
        ensures
            r@ == int_fault_text(self),
    {
        match self {
            IntFault::Empty => "cannot parse integer from empty string",
            IntFault::InvalidDigit => "invalid digit found in string",
            IntFault::TooLarge => "number too large to fit in target type",
            IntFault::TooSmall => "number too small to fit in target type",
        }
    }
}

/// The value of a digit, upper or lower case, below `radix`.
pub open spec fn digit_value(c: char, radix: int) -> Option<int> {
    let n = c as int;
    let d = if 48 <= n <= 57 {
        n - 48
    } else if 97 <= n <= 122 {
        n - 87
    } else if 65 <= n <= 90 {
        n - 55
    } else {
        radix
    };
    if d < radix {
        Some(d)
    } else {
        None
    }
}

/// Reads digits from left to right and stops at the first that is no digit
/// or brings the number above `max`.
pub open spec fn magnitude(s: Seq<char>, radix: int, max: int) -> Result<int, IntFault>
    decreases s.len(),
{
    if s.len() == 0 {
        Ok(0)
    } else {
        match magnitude(s.drop_last(), radix, max) {
            Err(fault) => Err(fault),
            Ok(n) => match digit_value(s.last(), radix) {
                None => Err(IntFault::InvalidDigit),
                Some(d) => if n * radix + d > max {
                    Err(IntFault::TooLarge)
                } else {
                    Ok(n * radix + d)
                },
            },
        }
    }
}

pub open spec fn lone_sign(s: Seq<char>) -> bool {
    s.len() == 1 && (s[0] == '+' || s[0] == '-')
}

/// A number of at most `max`, with an optional plus sign.
pub open spec fn unsigned_value(s: Seq<char>, radix: int, max: int) -> Result<int, IntFault> {
    if s.len() == 0 {
        Err(IntFault::Empty)
    } else if lone_sign(s) {
        Err(IntFault::InvalidDigit)
    } else if s[0] == '+' {
        magnitude(s.skip(1), radix, max)
    } else {
        magnitude(s, radix, max)
    }
}

/// A decimal number that fits an `i32`, with an optional sign.
pub open spec fn signed_value(s: Seq<char>) -> Result<int, IntFault> {
    if s.len() > 1 && s[0] == '-' {
        match magnitude(s.skip(1), 10, 0x8000_0000) {
            Ok(n) => Ok(-n),
            Err(IntFault::TooLarge) => Err(IntFault::TooSmall),
            Err(fault) => Err(fault),
        }
    } else {
        unsigned_value(s, 10, i32::MAX as int)
    }
}

fn read_digit(c: char, radix: u64) -> (r: Option<u64>)
    requires
        radix == 10 || radix == 16,
    ensures
        r is Some <==> digit_value(c, radix as int) is Some,
        r matches Some(d) ==> digit_value(c, radix as int) == Some(d as int) && d < radix,
{
    let n: u32 = c as u32;
    let d: u64 = if 48 <= n && n <= 57 {
        (n - 48) as u64
    } else if 97 <= n && n <= 122 {
        (n - 87) as u64
    } else if 65 <= n && n <= 90 {
        (n - 55) as u64
    } else {
        radix
    };
    if d < radix {
        Some(d)
    } else {
        None
    }
}

proof fn lemma_magnitude_stops(s: Seq<char>, n: int, radix: int, max: int)
    requires
        0 <= n <= s.len(),
        magnitude(s.take(n), radix, max) is Err,
    ensures
        magnitude(s, radix, max) == magnitude(s.take(n), radix, max),
    decreases s.len() - n,
{
    if n < s.len() {
        assert(s.take(n + 1).drop_last() =~= s.take(n));
        lemma_magnitude_stops(s, n + 1, radix, max);
    } else {
        assert(s.take(n) =~= s);
    }
}

fn read_magnitude(s: &[char], radix: u64, max: u64) -> (r: Result<u64, IntFault>)
    requires
        radix == 10 || radix == 16,
    ensures
        r matches Ok(n) ==> magnitude(s@, radix as int, max as int) == Ok::<int, IntFault>(
            n as int,
        ) && n <= max,
        r matches Err(f) ==> magnitude(s@, radix as int, max as int) == Err::<int, IntFault>(f),
{
    let mut n: u64 = 0;
    let mut i: usize = 0;
    assert(s@.take(0) =~= Seq::empty());
    while i < s.len()
        invariant
            i <= s@.len(),
            n <= max,
            radix == 10 || radix == 16,
            magnitude(s@.take(i as int), radix as int, max as int) == Ok::<int, IntFault>(
                n as int,
            ),
        decreases s@.len() - i,
    {
        assert(s@.take(i + 1).drop_last() =~= s@.take(i as int));
        match read_digit(s[i], radix) {
            None => {
                proof {
                    lemma_magnitude_stops(s@, i + 1, radix as int, max as int);
                }
                return Err(IntFault::InvalidDigit);
            },
            Some(d) => {
                let scaled: u128 = if radix == 10 {
                    n as u128 * 10
                } else {
                    n as u128 * 16
                };
                let next: u128 = scaled + d as u128;
                if next > max as u128 {
                    proof {
                        lemma_magnitude_stops(s@, i + 1, radix as int, max as int);
                    }
                    return Err(IntFault::TooLarge);
                }
                n = next as u64;
            },
        }
        i += 1;
    }
    assert(s@.take(i as int) =~= s@);
    Ok(n)
}

/// Reads a number of at most `max` in base ten or sixteen.
pub fn read_unsigned(s: &[char], radix: u64, max: u64) -> (r: Result<u64, IntFault>)
    requires
        radix == 10 || radix == 16,
    ensures
        r matches Ok(n) ==> unsigned_value(s@, radix as int, max as int) == Ok::<int, IntFault>(
            n as int,
        ) && n <= max,
        r matches Err(f) ==> unsigned_value(s@, radix as int, max as int) == Err::<int, IntFault>(
            f,
        ),
{
    if s.len() == 0 {
        return Err(IntFault::Empty);
    }
    if s.len() == 1 && (s[0] == '+' || s[0] == '-') {
        return Err(IntFault::InvalidDigit);
    }
    if s[0] == '+' {
        let rest = slice_subrange(s, 1, s.len());
        assert(rest@ =~= s@.skip(1));
        read_magnitude(rest, radix, max)
    } else {
        read_magnitude(s, radix, max)
    }
}

/// Reads a decimal number that fits an `i32`.
pub fn read_signed(s: &[char]) -> (r: Result<i32, IntFault>)
    ensures
        r matches Ok(n) ==> signed_value(s@) == Ok::<int, IntFault>(n as int),
        r matches Err(f) ==> signed_value(s@) == Err::<int, IntFault>(f),
{
    if s.len() > 1 && s[0] == '-' {
        let rest = slice_subrange(s, 1, s.len());
        assert(rest@ =~= s@.skip(1));
        match read_magnitude(rest, 10, 0x8000_0000) {
            Ok(n) => Ok((-(n as i64)) as i32),
            Err(IntFault::TooLarge) => Err(IntFault::TooSmall),
            Err(fault) => Err(fault),
        }
    } else {
        match read_unsigned(s, 10, 0x7FFF_FFFF) {
            Ok(n) => Ok(n as i32),
            Err(fault) => Err(fault),
        }
    }
}

/// Hexadecimal text reads back as the number that it was written from.
pub proof fn lemma_hex_reads_back(n: nat, max: int)
    requires
        n <= max,
    ensures
        magnitude(hex_digits(n), 16, max) == Ok::<int, IntFault>(n as int),
        hex_digits(n).len() > 0,
        hex_digits(n)[0] != '+',
        hex_digits(n)[0] != '-',
    decreases n,
{
    let s = hex_digits(n);
    let last = (n % 16) as int;
    let before = if n < 16 {
        Seq::empty()
    } else {
        hex_digits(n / 16)
    };
    assert(digit_value(digit_char(last), 16) == Some(last));
    assert(s =~= before.push(digit_char(last)));
    if n < 16 {
        assert(magnitude(before, 16, max) == Ok::<int, IntFault>(0));
    } else {
        lemma_hex_reads_back(n / 16, max);
        assert(s[0] == before[0]);
    }
    lemma_another_digit(before, digit_char(last), 16, max, (n / 16) as int, last);
}

/// Decimal text reads back as the number that it was written from.
pub proof fn lemma_decimal_reads_back(n: nat, max: int)
    requires
        n <= max,
    ensures
        magnitude(decimal_digits(n), 10, max) == Ok::<int, IntFault>(n as int),
        decimal_digits(n).len() > 0,
        decimal_digits(n)[0] != '+',
        decimal_digits(n)[0] != '-',
    decreases n,
{
    let s = decimal_digits(n);
    let last = (n % 10) as int;
    let before = if n < 10 {
        Seq::empty()
    } else {
        decimal_digits(n / 10)
    };
    assert(digit_value(digit_char(last), 10) == Some(last));
    assert(s =~= before.push(digit_char(last)));
    if n < 10 {
        assert(magnitude(before, 10, max) == Ok::<int, IntFault>(0));
    } else {
        lemma_decimal_reads_back(n / 10, max);
        assert(s[0] == before[0]);
    }
    lemma_another_digit(before, digit_char(last), 10, max, (n / 10) as int, last);
}

/// Words before and after a space stay the words that they are apart.
pub proof fn lemma_words_part_at_spaces(a: Seq<char>, c: char, b: Seq<char>)
    requires
        space(c),
    ensures
        words_of(a.push(c) + b) == words_of(a) + words_of(b),
    decreases b.len(),
{
    let whole = a.push(c) + b;
    if b.len() == 0 {
        assert(whole =~= a.push(c));
        assert(whole.drop_last() =~= a);
        assert(words_of(a) + words_of(b) =~= words_of(a));
    } else {
        lemma_words_part_at_spaces(a, c, b.drop_last());
        assert(whole.drop_last() =~= a.push(c) + b.drop_last());
        let before = words_of(b.drop_last());
        if space(b.last()) {
        } else if b.len() == 1 || space(b[b.len() - 2]) {
            assert(whole[whole.len() - 2] == if b.len() == 1 {
                c
            } else {
                b[b.len() - 2]
            });
            assert(words_of(whole) =~= words_of(a) + words_of(b));
        } else {
            assert(whole[whole.len() - 2] == b[b.len() - 2]);
            lemma_open_word(b.drop_last());
            assert((words_of(a) + before).drop_last() =~= words_of(a) + before.drop_last());
            assert(words_of(whole) =~= words_of(a) + words_of(b));
        }
    }
}

/// Text that does not end in a space has a last word.
proof fn lemma_open_word(s: Seq<char>)
    requires
        s.len() > 0,
        !space(s.last()),
    ensures
        words_of(s).len() > 0,
    decreases s.len(),
{
    if s.len() > 1 && !space(s[s.len() - 2]) {
        lemma_open_word(s.drop_last());
    }
}

/// Text without a space is one word, unless it is empty, and spaces alone are
/// none.
pub proof fn lemma_word(s: Seq<char>)
    ensures
        s.len() > 0 && (forall|i: int| 0 <= i < s.len() ==> !space(#[trigger] s[i])) ==> words_of(s)
            == seq![s],
        (forall|i: int| 0 <= i < s.len() ==> space(#[trigger] s[i])) ==> words_of(s).len() == 0,
    decreases s.len(),
{
    if s.len() > 0 {
        let before = s.drop_last();
        lemma_word(before);
        assert(forall|i: int| 0 <= i < before.len() ==> before[i] == s[i]);
        if forall|i: int| 0 <= i < s.len() ==> !space(#[trigger] s[i]) {
            assert(!space(s[s.len() - 1]));
            if s.len() == 1 {
                assert(seq![s.last()] =~= s);
            } else {
                assert(!space(s[s.len() - 2]));
                assert(words_of(before) == seq![before]);
                assert(before.push(s.last()) =~= s);
                assert(words_of(s) =~= seq![s]);
            }
        }
        if forall|i: int| 0 <= i < s.len() ==> space(#[trigger] s[i]) {
            assert(space(s[s.len() - 1]));
        }
    }
}

/// Text is split at every separator and nowhere else.
pub proof fn lemma_split_parts_at_separators(a: Seq<char>, c: char, b: Seq<char>)
    ensures
        split_on(a.push(c) + b, c) == split_on(a, c) + split_on(b, c),
        split_on(b, c).len() > 0,
    decreases b.len(),
{
    let whole = a.push(c) + b;
    if b.len() == 0 {
        assert(whole =~= a.push(c));
        assert(whole.drop_last() =~= a);
        assert(split_on(whole, c) =~= split_on(a, c) + split_on(b, c));
    } else {
        lemma_split_parts_at_separators(a, c, b.drop_last());
        assert(whole.drop_last() =~= a.push(c) + b.drop_last());
        let before = split_on(b.drop_last(), c);
        assert((split_on(a, c) + before).drop_last() =~= split_on(a, c) + before.drop_last());
        assert(split_on(whole, c) =~= split_on(a, c) + split_on(b, c));
    }
}

/// Text without a separator is one part.
pub proof fn lemma_part(s: Seq<char>, c: char)
    requires
        !s.contains(c),
    ensures
        split_on(s, c) == seq![s],
    decreases s.len(),
{
    if s.len() == 0 {
        assert(s =~= Seq::empty());
    } else {
        let before = s.drop_last();
        assert forall|i: int| 0 <= i < before.len() implies before[i] != c by {
            assert(s.contains(s[i]));
        }
        lemma_part(before, c);
        assert(s.contains(s.last()));
        assert(before.push(s.last()) =~= s);
        assert(split_on(s, c) =~= seq![s]);
    }
}

/// The first line of a text ends at its first line feed, without a carriage
/// return before that. The last one needs no line feed, and keeps a carriage
/// return.
pub proof fn lemma_lines(line: Seq<char>, rest: Seq<char>)
    requires
        !line.contains('\n'),
    ensures
        lines_of(line.push('\n') + rest) == seq![
            if line.len() > 0 && line.last() == '\r' {
                line.drop_last()
            } else {
                line
            },
        ] + lines_of(rest),
        line.len() > 0 ==> lines_of(line) == seq![line],
        lines_of(Seq::empty()).len() == 0,
{
    lemma_part(line, '\n');
    lemma_part(Seq::empty(), '\n');
    lemma_split_parts_at_separators(line, '\n', rest);
    assert(lines_of(line.push('\n') + rest) =~= seq![without_return(line)] + lines_of(rest));
    if line.len() > 0 {
        assert(lines_of(line) =~= seq![line]);
    }
}

/// Trimming takes spaces off both ends, all of them and nothing else.
pub proof fn lemma_trimmed(s: Seq<char>)
    ensures
        exists|i: int, j: int|
            0 <= i <= j <= s.len() && trimmed(s) == #[trigger] s.subrange(i, j) && (forall|k: int|
                0 <= k < i ==> space(#[trigger] s[k])) && (forall|k: int|
                j <= k < s.len() ==> space(#[trigger] s[k])),
        trimmed(s).len() > 0 ==> !space(trimmed(s)[0]) && !space(trimmed(s).last()),
{
    lemma_trimmed_start(s);
    let i = choose|i: int|
        0 <= i <= s.len() && trimmed_start(s) == #[trigger] s.skip(i) && (forall|k: int|
            0 <= k < i ==> space(#[trigger] s[k]));
    let inner = trimmed_start(s);
    lemma_trimmed_end(inner);
    let n = choose|n: int|
        0 <= n <= inner.len() && trimmed_end(inner) == #[trigger] inner.take(n) && (forall|k: int|
            n <= k < inner.len() ==> space(#[trigger] inner[k]));
    assert(inner.take(n) =~= s.subrange(i, i + n));
    assert forall|k: int| i + n <= k < s.len() implies space(#[trigger] s[k]) by {
        assert(space(inner[k - i]));
    }
}

/// Trimming the end takes all spaces off it and nothing else.
pub proof fn lemma_trimmed_end(s: Seq<char>)
    ensures
        exists|n: int|
            0 <= n <= s.len() && trimmed_end(s) == #[trigger] s.take(n) && (forall|k: int|
                n <= k < s.len() ==> space(#[trigger] s[k])),
        trimmed_end(s).len() > 0 ==> !space(trimmed_end(s).last()),
    decreases s.len(),
{
    if s.len() > 0 && space(s.last()) {
        let rest = s.drop_last();
        lemma_trimmed_end(rest);
        let n = choose|n: int|
            0 <= n <= rest.len() && trimmed_end(rest) == #[trigger] rest.take(n) && (forall|k: int|
                n <= k < rest.len() ==> space(#[trigger] rest[k]));
        assert(rest.take(n) =~= s.take(n));
        assert forall|k: int| n <= k < s.len() implies space(#[trigger] s[k]) by {
            if k < rest.len() {
                assert(space(rest[k]));
            }
        }
    } else {
        assert(s.take(s.len() as int) =~= s);
    }
}

proof fn lemma_trimmed_start(s: Seq<char>)
    ensures
        exists|i: int|
            0 <= i <= s.len() && trimmed_start(s) == #[trigger] s.skip(i) && (forall|k: int|
                0 <= k < i ==> space(#[trigger] s[k])),
        trimmed_start(s).len() > 0 ==> !space(trimmed_start(s)[0]),
    decreases s.len(),
{
    if s.len() > 0 && space(s[0]) {
        let rest = s.skip(1);
        lemma_trimmed_start(rest);
        let i = choose|i: int|
            0 <= i <= rest.len() && trimmed_start(rest) == #[trigger] rest.skip(i) && (forall|
                k: int,
            |
                0 <= k < i ==> space(#[trigger] rest[k]));
        assert(rest.skip(i) =~= s.skip(i + 1));
        assert forall|k: int| 0 <= k < i + 1 implies space(#[trigger] s[k]) by {
            if k > 0 {
                assert(space(rest[k - 1]));
            }
        }
    } else {
        assert(s.skip(0) =~= s);
    }
}

/// Zeros before a number do not change it.
pub proof fn lemma_leading_zeros(s: Seq<char>, radix: int, max: int)
    requires
        2 <= radix,
        0 <= max,
    ensures
        magnitude(seq!['0'] + s, radix, max) == magnitude(s, radix, max),
    decreases s.len(),
{
    let whole = seq!['0'] + s;
    if s.len() == 0 {
        assert(whole.drop_last() =~= Seq::empty());
        assert(magnitude(whole.drop_last(), radix, max) == Ok::<int, IntFault>(0));
        assert(digit_value('0', radix) == Some(0int));
        assert(0 * radix + 0 == 0);
    } else {
        lemma_leading_zeros(s.drop_last(), radix, max);
        assert(whole.drop_last() =~= seq!['0'] + s.drop_last());
        assert(whole.last() == s.last());
    }
}

/// The ten digits count as they are, and the letters count on from ten, in
/// either case.
pub proof fn lemma_digits(d: int, radix: int)
    requires
        0 <= d < radix <= 36,
    ensures
        d < 10 ==> digit_value((48 + d) as char, radix) == Some(d),
        d >= 10 ==> digit_value((87 + d) as char, radix) == Some(d) && digit_value(
            (55 + d) as char,
            radix,
        ) == Some(d),
{
}

/// A digit more counts the number before it as many times over as the radix
/// says, and a number that grows past what it may be is none.
pub proof fn lemma_another_digit(s: Seq<char>, c: char, radix: int, max: int, n: int, d: int)
    requires
        magnitude(s, radix, max) == Ok::<int, IntFault>(n),
        digit_value(c, radix) == Some(d),
    ensures
        radix * n + d <= max ==> magnitude(s.push(c), radix, max) == Ok::<int, IntFault>(
            radix * n + d,
        ),
        radix * n + d > max ==> magnitude(s.push(c), radix, max) is Err,
{
    assert(s.push(c).drop_last() =~= s);
    assert(radix * n == n * radix) by (nonlinear_arith);
}

/// Text that holds a sign or any other character that is no digit, past its
/// first one, is no number.
pub proof fn lemma_strange_characters_are_refused(s: Seq<char>, radix: int, max: int, i: int)
    requires
        0 <= i < s.len(),
        digit_value(s[i], radix) is None,
    ensures
        magnitude(s, radix, max) is Err,
    decreases s.len(),
{
    if i < s.len() - 1 {
        lemma_strange_characters_are_refused(s.drop_last(), radix, max, i);
    }
}

/// Parts are joined in order, with the separator between each two of them.
pub proof fn lemma_joined(a: Seq<Seq<char>>, b: Seq<Seq<char>>, sep: Seq<char>)
    requires
        a.len() > 0,
        b.len() > 0,
    ensures
        joined(a + b, sep) == joined(a, sep) + sep + joined(b, sep),
        forall|part: Seq<char>| joined(#[trigger] seq![part], sep) == part,
    decreases b.len(),
{
    if b.len() == 1 {
        assert((a + b).drop_last() =~= a);
        assert((a + b).last() == b[0]);
    } else {
        lemma_joined(a, b.drop_last(), sep);
        assert((a + b).drop_last() =~= a + b.drop_last());
        assert((a + b).last() == b.last());
        assert(joined(a + b, sep) =~= joined(a, sep) + sep + joined(b, sep));
    }
}

/// Each byte is shown by two digits, the high one first.
pub proof fn lemma_bytes_text(bytes: Seq<u8>, i: int)
    requires
        0 <= i < bytes.len(),
    ensures
        bytes_text(bytes).len() == 2 * bytes.len(),
        bytes_text(bytes)[2 * i] == digit_char(bytes[i] as int / 16),
        bytes_text(bytes)[2 * i + 1] == digit_char(bytes[i] as int % 16),
    decreases bytes.len(),
{
    let rest = bytes.drop_last();
    if rest.len() > 0 {
        lemma_bytes_text(rest, if i < rest.len() {
            i
        } else {
            0
        });
    } else {
        assert(bytes_text(rest).len() == 0);
    }
}

/// Numbers are shown in lower case, without leading zeros.
pub proof fn lemma_shown_numbers(n: nat)
    ensures
        forall|i: int|
            0 <= i < hex_digits(n).len() ==> '0' <= (#[trigger] hex_digits(n)[i]) <= '9' || 'a'
                <= hex_digits(n)[i] <= 'f',
        forall|i: int|
            0 <= i < decimal_digits(n).len() ==> '0' <= (#[trigger] decimal_digits(n)[i]) <= '9',
        n > 0 ==> hex_digits(n)[0] != '0' && decimal_digits(n)[0] != '0',
        hex_digits(n).len() > 0,
        decimal_digits(n).len() > 0,
    decreases n,
{
    if n >= 10 {
        lemma_shown_numbers(n / 10);
    }
    if n >= 16 {
        lemma_shown_numbers(n / 16);
    }
}

/// Aligned text ends with the text, whole, and has nothing but spaces before
/// it. It is as wide as it was asked to be, or as the text is.
pub proof fn lemma_alignment_keeps_the_text(s: Seq<char>, width: nat)
    ensures
        right_aligned(s, width).len() == if s.len() < width {
            width
        } else {
            s.len()
        },
        right_aligned(s, width).skip(right_aligned(s, width).len() - s.len()) == s,
        forall|i: int|
            0 <= i < width - s.len() ==> #[trigger] right_aligned(s, width)[i] == ' ',
{
    assert(right_aligned(s, width).skip(right_aligned(s, width).len() - s.len()) =~= s);
}

/// A space before or behind a text makes no difference to it once it is
/// trimmed.
pub proof fn lemma_spaces_around_are_dropped(s: Seq<char>, c: char)
    requires
        space(c),
    ensures
        trimmed(seq![c] + s) == trimmed(s),
        trimmed(s.push(c)) == trimmed(s),
    decreases s.len(),
{
    assert((seq![c] + s).skip(1) =~= s);
    if s.len() > 0 && space(s[0]) {
        lemma_spaces_around_are_dropped(s.skip(1), c);
        assert(s.push(c).skip(1) =~= s.skip(1).push(c));
    } else if s.len() > 0 {
        assert(s.push(c).drop_last() =~= s);
    } else {
        assert(s.push(c).skip(1) =~= s);
    }
}

/// A number behind a minus is the negative of what it is alone, down to the
/// least that there is. Past that it is too small. A plus changes nothing.
pub proof fn lemma_signs_count(s: Seq<char>, n: int)
    requires
        s.len() > 0,
        s[0] != '+',
        s[0] != '-',
    ensures
        magnitude(s, 10, 0x8000_0000) == Ok::<int, IntFault>(n) ==> signed_value(seq!['-'] + s)
            == Ok::<int, IntFault>(-n),
        magnitude(s, 10, 0x8000_0000) == Err::<int, IntFault>(IntFault::TooLarge) ==> signed_value(
            seq!['-'] + s,
        ) == Err::<int, IntFault>(IntFault::TooSmall),
        magnitude(s, 10, 0x8000_0000) == Err::<int, IntFault>(IntFault::InvalidDigit)
            ==> signed_value(seq!['-'] + s) == Err::<int, IntFault>(IntFault::InvalidDigit),
        signed_value(seq!['+'] + s) == signed_value(s),
        signed_value(s) == magnitude(s, 10, 0x7FFF_FFFF),
        forall|radix: int, max: int| #[trigger]
            unsigned_value(seq!['+'] + s, radix, max) == unsigned_value(s, radix, max),
        forall|radix: int, max: int| #[trigger]
            unsigned_value(s, radix, max) == magnitude(s, radix, max),
{
    assert((seq!['-'] + s).skip(1) =~= s);
    assert((seq!['+'] + s).skip(1) =~= s);
}

/// A sign alone is no number, and neither is no text.
pub proof fn lemma_sign_alone_is_no_number(radix: int, max: int)
    ensures
        unsigned_value(seq!['+'], radix, max) == Err::<int, IntFault>(IntFault::InvalidDigit),
        unsigned_value(seq!['-'], radix, max) == Err::<int, IntFault>(IntFault::InvalidDigit),
        unsigned_value(Seq::empty(), radix, max) == Err::<int, IntFault>(IntFault::Empty),
        signed_value(seq!['-']) == Err::<int, IntFault>(IntFault::InvalidDigit),
        signed_value(Seq::empty()) == Err::<int, IntFault>(IntFault::Empty),
{
}

/// The first separator cuts a text in two: what stands before it and what
/// stands behind it, separators and all. A text without one is not cut.
pub proof fn lemma_text_is_cut_once(head: Seq<char>, tail: Seq<char>, c: char)
    requires
        !head.contains(c),
    ensures
        cut_at(head.push(c) + tail, c) == Some((head, tail)),
        cut_at(head, c) is None,
{
    let s = head.push(c) + tail;
    lemma_first_is_where_it_stands(head, tail, c);
    assert(s.take(head.len() as int) =~= head);
    assert(s.skip(head.len() as int + 1) =~= tail);
}

proof fn lemma_first_is_where_it_stands(head: Seq<char>, tail: Seq<char>, c: char)
    requires
        !head.contains(c),
    ensures
        first_at(head.push(c) + tail, c) == head.len(),
        first_at(head, c) == head.len(),
    decreases head.len(),
{
    let s = head.push(c) + tail;
    if head.len() > 0 {
        let rest = head.skip(1);
        assert(head.contains(head[0]));
        assert forall|i: int| 0 <= i < rest.len() implies #[trigger] rest[i] != c by {
            assert(head.contains(head[i + 1]));
        }
        lemma_first_is_where_it_stands(rest, tail, c);
        assert(s.skip(1) =~= rest.push(c) + tail);
        assert(s[0] == head[0]);
    } else {
        assert(s[0] == c);
    }
}

/// The characters that part words are the blanks and the line ends of the
/// Latin script and those that other scripts and typesetting add.
pub proof fn lemma_what_parts_words()
    ensures
        forall|c: char|
            #![trigger space(c)]
            (9 <= c as int <= 13 || c == ' ' || c as int == 0x85 || c as int == 0xA0 || c as int
                == 0x1680 || 0x2000 <= c as int <= 0x200A || 0x2028 <= c as int <= 0x2029
                || c as int == 0x202F || c as int == 0x205F || c as int == 0x3000) <==> space(c),
{
}

/// A number below nought is shown as its opposite behind a minus, and another
/// without a sign. Either is read back.
pub proof fn lemma_signed_numbers_are_shown(n: i32)
    ensures
        signed_value(signed_text(n as int)) == Ok::<int, IntFault>(n as int),
        n < 0 ==> signed_text(n as int) == seq!['-'] + decimal_digits((-n) as nat),
        n >= 0 ==> signed_text(n as int) == decimal_digits(n as nat),
{
    if n < 0 {
        lemma_decimal_reads_back((-n) as nat, 0x8000_0000);
        lemma_signs_count(decimal_digits((-n) as nat), -n);
    } else {
        lemma_decimal_reads_back(n as nat, 0x7FFF_FFFF);
        lemma_signs_count(decimal_digits(n as nat), n as int);
    }
}

} // verus!
