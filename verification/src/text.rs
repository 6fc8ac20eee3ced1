//! Searching and trimming text.

use vstd::prelude::*;

verus! {

/// The position of the first `x` in `s`, or the length of `s`.
pub open spec fn find<T>(s: Seq<T>, x: T) -> int
    decreases s.len(),
{
    if s.len() == 0 || s[0] == x {
        0
    } else {
        1 + find(s.drop_first(), x)
    }
}

/// Whether `pat` stands in `s` at position `i`.
pub open spec fn occurs_at<T>(s: Seq<T>, i: int, pat: Seq<T>) -> bool {
    &&& 0 <= i
    &&& i + pat.len() <= s.len()
    &&& s.subrange(i, i + pat.len()) == pat
}

/// The first position in `s` at which `pat` stands, if there is one.
pub open spec fn find_sub<T>(s: Seq<T>, pat: Seq<T>) -> Option<int>
    decreases s.len(),
{
    if occurs_at(s, 0, pat) {
        Some(0)
    } else if s.len() == 0 {
        None
    } else {
        match find_sub(s.drop_first(), pat) {
            Some(k) => Some(k + 1),
            None => None,
        }
    }
}

/// White space as Unicode defines it.
pub open spec fn is_space(c: char) -> bool {
    ||| '\u{9}' <= c <= '\u{d}'
    ||| c == '\u{20}'
    ||| c == '\u{85}'
    ||| c == '\u{a0}'
    ||| c == '\u{1680}'
    ||| '\u{2000}' <= c <= '\u{200a}'
    ||| c == '\u{2028}'
    ||| c == '\u{2029}'
    ||| c == '\u{202f}'
    ||| c == '\u{205f}'
    ||| c == '\u{3000}'
}

/// `s` without the white space in front.
pub open spec fn trim_start(s: Seq<char>) -> Seq<char>
    decreases s.len(),
{
    if s.len() > 0 && is_space(s.first()) {
        trim_start(s.drop_first())
    } else {
        s
    }
}

/// `s` without the white space behind.
pub open spec fn trim_end(s: Seq<char>) -> Seq<char>
    decreases s.len(),
{
    if s.len() > 0 && is_space(s.last()) {
        trim_end(s.drop_last())
    } else {
        s
    }
}

/// `s` without the white space in front and behind.
pub open spec fn trimmed(s: Seq<char>) -> Seq<char> {
    trim_end(trim_start(s))
}

/// `s` without the spaces in front.
pub open spec fn spaces_skipped(s: Seq<char>) -> Seq<char>
    decreases s.len(),
{
    if s.len() > 0 && s.first() == ' ' {
        spaces_skipped(s.drop_first())
    } else {
        s
    }
}

/// The first word of `s`, where spaces and nothing else separate words; empty if
/// there is none.
pub open spec fn first_word(s: Seq<char>) -> Seq<char> {
    spaces_skipped(s).take(find(spaces_skipped(s), ' '))
}

/// What follows the first word of `s`.
pub open spec fn behind_first_word(s: Seq<char>) -> Seq<char> {
    spaces_skipped(s).skip(find(spaces_skipped(s), ' '))
}

/// The second word of `s`; empty if there is none.
pub open spec fn second_word(s: Seq<char>) -> Seq<char> {
    first_word(behind_first_word(s))
}

/// The first line of `s` without its end, which is a line feed or a carriage
/// return and a line feed.
pub open spec fn first_line(s: Seq<char>) -> Seq<char> {
    let n = find(s, '\n');
    let line = s.take(n);
    if n < s.len() && n > 0 && line.last() == '\r' {
        line.drop_last()
    } else {
        line
    }
}

/// `find` yields the position of an `x` with no `x` before it, or the length.
pub proof fn lemma_find<T>(s: Seq<T>, x: T)
    ensures
        0 <= find(s, x) <= s.len(),
        find(s, x) < s.len() ==> s[find(s, x)] == x,
        forall|i: int| 0 <= i < find(s, x) ==> s[i] != x,
        find(s, x) < s.len() <==> s.contains(x),
    decreases s.len(),
{
    if s.len() > 0 && s[0] != x {
        let t = s.drop_first();
        lemma_find(t, x);
        assert forall|i: int| 0 <= i < find(s, x) implies s[i] != x by {
            if i > 0 {
                assert(s[i] == t[i - 1]);
            }
        }
        if s.contains(x) {
            let i = choose|i: int| 0 <= i < s.len() && s[i] == x;
            assert(t[i - 1] == x);
        }
    }
}

/// A position with no `x` before it that holds `x`, or the length, is what
/// `find` yields.
pub proof fn lemma_found<T>(s: Seq<T>, x: T, n: int)
    requires
        0 <= n <= s.len(),
        n < s.len() ==> s[n] == x,
        forall|i: int| 0 <= i < n ==> s[i] != x,
    ensures
        find(s, x) == n,
{
    lemma_find(s, x);
}

/// `find_sub` yields a position of `pat` with no earlier one, or nothing if
/// `pat` does not occur.
pub proof fn lemma_find_sub<T>(s: Seq<T>, pat: Seq<T>)
    ensures
        match find_sub(s, pat) {
            Some(k) => occurs_at(s, k, pat) && forall|i: int| i < k ==> !occurs_at(s, i, pat),
            None => forall|i: int| !occurs_at(s, i, pat),
        },
    decreases s.len(),
{
    if !occurs_at(s, 0, pat) && s.len() > 0 {
        let t = s.drop_first();
        lemma_find_sub(t, pat);
        assert forall|i: int| i > 0 implies occurs_at(s, i, pat) == occurs_at(t, i - 1, pat) by {
            if i + pat.len() <= s.len() {
                assert(s.subrange(i, i + pat.len()) =~= t.subrange(i - 1, i - 1 + pat.len()));
            }
        }
        match find_sub(t, pat) {
            Some(k) => {
                assert(occurs_at(s, k + 1, pat) == occurs_at(t, k, pat));
                assert forall|i: int| i < k + 1 implies !occurs_at(s, i, pat) by {
                    if i > 0 {
                        assert(!occurs_at(t, i - 1, pat));
                    }
                }
            },
            None => {
                assert forall|i: int| !occurs_at(s, i, pat) by {
                    if i > 0 {
                        assert(!occurs_at(t, i - 1, pat));
                    }
                }
            },
        }
    }
}

/// The characters of `s`.
pub fn chars_of(s: &str) -> (v: Vec<char>)
    ensures
        v@ == s@,
{
    let mut v: Vec<char> = Vec::new();
    for c in it: s.chars()
        invariant
            v@ == it.seq().take(it.index() as int),
            it.seq() == s@,
    {
        v.push(c);
        assert(v@ =~= it.seq().take(it.index() + 1));
    }
    assert(v@ =~= s@);
    v
}

/// The position of the first `c` in `v` at or behind `from`, or the length of `v`.
pub fn find_char(v: &Vec<char>, from: usize, c: char) -> (k: usize)
    requires
        from <= v@.len(),
    ensures
        k == from + find(v@.skip(from as int), c),
        from <= k <= v@.len(),
{
    let ghost tail = v@.skip(from as int);
    let mut k: usize = from;
    while k < v.len() && v[k] != c
        invariant
            from <= k <= v@.len(),
            tail == v@.skip(from as int),
            forall|i: int| 0 <= i < k - from ==> tail[i] != c,
        decreases v@.len() - k,
    {
        k += 1;
    }
    proof {
        lemma_found(tail, c, k - from);
    }
    k
}

/// Whether `pat` stands in `v` at position `at`.
pub fn stands_at(v: &Vec<char>, at: usize, pat: &Vec<char>) -> (r: bool)
    ensures
        r == occurs_at(v@, at as int, pat@),
{
    if v.len() < pat.len() || at > v.len() - pat.len() {
        return false;
    }
    let mut k: usize = 0;
    while k < pat.len()
        invariant
            k <= pat@.len(),
            at + pat@.len() <= v.len(),
            forall|i: int| 0 <= i < k ==> v@[at + i] == pat@[i],
        decreases pat@.len() - k,
    {
        if v[at + k] != pat[k] {
            assert(v@.subrange(at as int, at + pat@.len())[k as int] != pat@[k as int]);
            return false;
        }
        k += 1;
    }
    assert(v@.subrange(at as int, at + pat@.len()) =~= pat@);
    true
}

/// The position of the first `b` in `s` at or behind `from`, or the length of `s`.
pub fn find_byte(s: &[u8], from: usize, b: u8) -> (k: usize)
    requires
        from <= s@.len(),
    ensures
        k == from + find(s@.skip(from as int), b),
        from <= k <= s@.len(),
{
    let ghost tail = s@.skip(from as int);
    let mut k: usize = from;
    while k < s.len() && s[k] != b
        invariant
            from <= k <= s@.len(),
            tail == s@.skip(from as int),
            forall|i: int| 0 <= i < k - from ==> tail[i] != b,
        decreases s@.len() - k,
    {
        k += 1;
    }
    proof {
        lemma_found(tail, b, k - from);
    }
    k
}

/// Whether `c` is white space as Unicode defines it.
pub fn is_white_space(c: char) -> (r: bool)
    ensures
        r == is_space(c),
{
    ('\u{9}' <= c && c <= '\u{d}') || c == '\u{20}' || c == '\u{85}' || c == '\u{a0}' || c
        == '\u{1680}' || ('\u{2000}' <= c && c <= '\u{200a}') || c == '\u{2028}' || c == '\u{2029}'
        || c == '\u{202f}' || c == '\u{205f}' || c == '\u{3000}'
}

/// The first position in `v` at or behind `from` without white space, or the
/// length of `v`.
pub fn skip_space(v: &Vec<char>, from: usize) -> (k: usize)
    requires
        from <= v@.len(),
    ensures
        from <= k <= v@.len(),
        trim_start(v@.skip(from as int)) == v@.skip(k as int),
{
    let mut k: usize = from;
    while k < v.len() && is_white_space(v[k])
        invariant
            from <= k <= v@.len(),
            trim_start(v@.skip(from as int)) == trim_start(v@.skip(k as int)),
        decreases v@.len() - k,
    {
        assert(v@.skip(k as int).drop_first() =~= v@.skip(k + 1));
        k += 1;
    }
    k
}

/// The first position in `v` at or behind `from` that holds no space, or the
/// length of `v`.
pub fn skip_spaces(v: &Vec<char>, from: usize) -> (k: usize)
    requires
        from <= v@.len(),
    ensures
        from <= k <= v@.len(),
        spaces_skipped(v@.skip(from as int)) == v@.skip(k as int),
{
    let mut k: usize = from;
    while k < v.len() && v[k] == ' '
        invariant
            from <= k <= v@.len(),
            spaces_skipped(v@.skip(from as int)) == spaces_skipped(v@.skip(k as int)),
        decreases v@.len() - k,
    {
        assert(v@.skip(k as int).drop_first() =~= v@.skip(k + 1));
        k += 1;
    }
    k
}

/// The first two words of `s`, where spaces and nothing else separate words; empty
/// where there is none.
pub fn two_words(s: &str) -> (r: (String, String))
    ensures
        r.0@ == first_word(s@),
        r.1@ == second_word(s@),
{
    let v = chars_of(s);
    assert(v@.skip(0) =~= v@);
    let first: usize = skip_spaces(&v, 0);
    let behind: usize = find_char(&v, first, ' ');
    assert(v@.skip(first as int).take(behind - first) =~= s@.subrange(first as int, behind as int));
    assert(v@.skip(first as int).skip(behind - first) =~= v@.skip(behind as int));
    let second: usize = skip_spaces(&v, behind);
    let end: usize = find_char(&v, second, ' ');
    assert(v@.skip(second as int).take(end - second) =~= s@.subrange(second as int, end as int));
    (s.substring_char(first, behind).to_owned(), s.substring_char(second, end).to_owned())
}

/// Whether `s` is `text`.
pub fn is_same(s: &str, text: &str) -> (r: bool)
    ensures
        r == (s@ == text@),
{
    let v = chars_of(s);
    let w = chars_of(text);
    assert(v@.subrange(0, v@.len() as int) =~= v@);
    v.len() == w.len() && stands_at(&v, 0, &w)
}

/// `s` without the white space in front and behind.
pub fn trim(s: &str) -> (r: String)
    ensures
        r@ == trimmed(s@),
{
    let v = chars_of(s);
    assert(v@.skip(0) =~= v@);
    let from: usize = skip_space(&v, 0);
    let mut to: usize = v.len();
    let ghost kept = v@.skip(from as int);
    assert(v@.subrange(from as int, to as int) =~= kept);
    while from < to && is_white_space(v[to - 1])
        invariant
            from <= to <= v@.len(),
            trim_end(kept) == trim_end(v@.subrange(from as int, to as int)),
        decreases to - from,
    {
        assert(v@.subrange(from as int, to as int).drop_last() =~= v@.subrange(
            from as int,
            to - 1,
        ));
        to -= 1;
    }
    s.substring_char(from, to).to_owned()
}

/// The first line of `s` without its end.
pub fn head_line(s: &str) -> (r: String)
    ensures
        r@ == first_line(s@),
{
    let v = chars_of(s);
    let n: usize = find_char(&v, 0, '\n');
    assert(v@.skip(0) =~= v@);
    assert(s@.subrange(0, n as int) =~= s@.take(n as int));
    if n < v.len() && n > 0 && v[n - 1] == '\r' {
        assert(s@.subrange(0, n - 1) =~= s@.take(n as int).drop_last());
        return s.substring_char(0, n - 1).to_owned();
    }
    s.substring_char(0, n).to_owned()
}

/// A pattern stands where each of its characters stands, and nowhere else.
pub proof fn lemma_occurs<T>(s: Seq<T>, i: int, pat: Seq<T>)
    ensures
        occurs_at(s, i, pat) <==> {
            &&& 0 <= i
            &&& i + pat.len() <= s.len()
            &&& forall|k: int| 0 <= k < pat.len() ==> #[trigger] pat[k] == s[i + k]
        },
{
    if 0 <= i && i + pat.len() <= s.len() {
        let part = s.subrange(i, i + pat.len());
        if part == pat {
            assert forall|k: int| 0 <= k < pat.len() implies #[trigger] pat[k] == s[i + k] by {
                assert(part[k] == s[i + k]);
            }
        }
        if forall|k: int| 0 <= k < pat.len() ==> #[trigger] pat[k] == s[i + k] {
            assert(part =~= pat);
        }
    }
}

/// The white space of Unicode, by its code points.
pub proof fn lemma_space(c: char)
    ensures
        is_space(c) <==> {
            let n = c as u32;
            ||| 9 <= n <= 13
            ||| n == 0x20
            ||| n == 0x85
            ||| n == 0xA0
            ||| n == 0x1680
            ||| 0x2000 <= n <= 0x200A
            ||| n == 0x2028
            ||| n == 0x2029
            ||| n == 0x202F
            ||| n == 0x205F
            ||| n == 0x3000
        },
{
}

/// Of white space, a text that neither begins nor ends with white space, and white
/// space again, trimming leaves the text, all of it.
pub proof fn lemma_trimmed(front: Seq<char>, text: Seq<char>, back: Seq<char>)
    requires
        forall|i: int| 0 <= i < front.len() ==> is_space(#[trigger] front[i]),
        forall|i: int| 0 <= i < back.len() ==> is_space(#[trigger] back[i]),
        text.len() > 0 ==> !is_space(text[0]) && !is_space(text[text.len() - 1]),
    ensures
        trimmed(front + text + back) == text,
    decreases front.len() + back.len(),
{
    let s = front + text + back;
    if front.len() > 0 {
        let f = front.drop_first();
        assert(s[0] == front[0]);
        assert(s.drop_first() =~= f + text + back);
        assert forall|i: int| 0 <= i < f.len() implies is_space(#[trigger] f[i]) by {
            assert(f[i] == front[i + 1]);
        }
        lemma_trimmed(f, text, back);
    } else if text.len() == 0 {
        if back.len() > 0 {
            let b = back.drop_first();
            assert(s[0] == back[0]);
            assert(s.drop_first() =~= front + text + b);
            assert forall|i: int| 0 <= i < b.len() implies is_space(#[trigger] b[i]) by {
                assert(b[i] == back[i + 1]);
            }
            lemma_trimmed(front, text, b);
        } else {
            assert(s =~= text);
        }
    } else {
        assert(s[0] == text[0]);
        assert(trim_start(s) == s);
        if back.len() > 0 {
            let b = back.drop_last();
            let t = front + text + b;
            assert(s.last() == back[back.len() - 1]);
            assert(s.drop_last() =~= t);
            assert(t[0] == text[0]);
            assert forall|i: int| 0 <= i < b.len() implies is_space(#[trigger] b[i]) by {
                assert(b[i] == back[i]);
            }
            lemma_trimmed(front, text, b);
            assert(trim_start(t) == t);
        } else {
            assert(s =~= text);
        }
    }
}

/// The first line is what stands before the first line feed, or all of the text if
/// there is none; one carriage return right before the line feed does not count.
pub proof fn lemma_first_line(line: Seq<char>, rest: Seq<char>)
    requires
        !line.contains('\n'),
    ensures
        first_line(line) == line,
        line.len() == 0 || line.last() != '\r' ==> first_line(line + seq!['\n'] + rest) == line,
        first_line(line + seq!['\r', '\n'] + rest) == line,
{
    assert forall|i: int| 0 <= i < line.len() implies line[i] != '\n' by {
        assert(line.contains(line[i]));
    }
    lemma_found(line, '\n', line.len() as int);
    assert(line.take(line.len() as int) =~= line);
    let a = line + seq!['\n'] + rest;
    lemma_found(a, '\n', line.len() as int);
    assert(a.take(line.len() as int) =~= line);
    let b = line + seq!['\r', '\n'] + rest;
    lemma_found(b, '\n', line.len() as int + 1);
    assert(b.take(line.len() as int + 1).drop_last() =~= line);
    assert(b.take(line.len() as int + 1).last() == '\r');
}

proof fn lemma_spaces(spaces: Seq<char>, rest: Seq<char>)
    requires
        forall|i: int| 0 <= i < spaces.len() ==> #[trigger] spaces[i] == ' ',
        rest.len() > 0 ==> rest[0] != ' ',
    ensures
        spaces_skipped(spaces + rest) == rest,
    decreases spaces.len(),
{
    if spaces.len() == 0 {
        assert(spaces + rest =~= rest);
    } else {
        let t = spaces.drop_first();
        assert((spaces + rest)[0] == spaces[0]);
        assert((spaces + rest).drop_first() =~= t + rest);
        assert forall|i: int| 0 <= i < t.len() implies #[trigger] t[i] == ' ' by {
            assert(t[i] == spaces[i + 1]);
        }
        lemma_spaces(t, rest);
    }
}

/// Of spaces, a word without a space, and nothing or a space and more behind it,
/// that word is the first, and what stands behind it follows.
pub proof fn lemma_first_word(spaces: Seq<char>, word: Seq<char>, rest: Seq<char>)
    requires
        forall|i: int| 0 <= i < spaces.len() ==> #[trigger] spaces[i] == ' ',
        !word.contains(' '),
        word.len() == 0 ==> rest.len() == 0,
        rest.len() > 0 ==> rest[0] == ' ',
    ensures
        first_word(spaces + word + rest) == word,
        behind_first_word(spaces + word + rest) == rest,
{
    let s = word + rest;
    assert(spaces + word + rest =~= spaces + s);
    assert forall|i: int| 0 <= i < word.len() implies s[i] != ' ' by {
        assert(word.contains(word[i]));
    }
    lemma_spaces(spaces, s);
    lemma_found(s, ' ', word.len() as int);
    assert(s.take(word.len() as int) =~= word);
    assert(s.skip(word.len() as int) =~= rest);
}

/// Of two words with spaces in front of each, and nothing or a space and more
/// behind, those are the first and the second.
pub proof fn lemma_two_words(
    front: Seq<char>,
    first: Seq<char>,
    between: Seq<char>,
    second: Seq<char>,
    rest: Seq<char>,
)
    requires
        forall|i: int| 0 <= i < front.len() ==> #[trigger] front[i] == ' ',
        forall|i: int| 0 <= i < between.len() ==> #[trigger] between[i] == ' ',
        !first.contains(' '),
        !second.contains(' '),
        first.len() > 0,
        between.len() > 0,
        second.len() == 0 ==> rest.len() == 0,
        rest.len() > 0 ==> rest[0] == ' ',
    ensures
        first_word(front + first + between + second + rest) == first,
        second_word(front + first + between + second + rest) == second,
{
    let s = between + second + rest;
    assert(front + first + between + second + rest =~= front + first + s);
    assert(s[0] == between[0]);
    lemma_first_word(front, first, s);
    lemma_first_word(between, second, rest);
}

} // verus!
