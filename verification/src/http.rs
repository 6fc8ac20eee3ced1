//! How the source is addressed and its answer accepted.

use crate::text::{
    behind_first_word, chars_of, find, find_byte, find_char, find_sub, first_line, first_word,
    head_line, is_same, lemma_find, lemma_find_sub, lemma_first_word, lemma_found, lemma_two_words,
    occurs_at, second_word, spaces_skipped, stands_at, trim, trimmed, two_words,
};
use vstd::prelude::*;
use vstd::slice::slice_subrange;
use vstd::utf8::{decode_utf8, valid_utf8};

verus! {

/// How long connecting and each read of the headers may take.
pub const CONNECT_MS: u64 = 5_000;

/// The size beyond which headers without an end are refused.
pub const MAX_HEADER_LEN: usize = 8192;

/// The most bytes that one read of the headers takes.
pub const HEADER_CHUNK: usize = 1024;

/// Why the source could not be connected.
#[derive(Debug)]
pub struct IoError {
    pub message: String,
}

/// An error with the message `s`.
pub fn ioerr(s: &str) -> (e: IoError)
    ensures
        e.message@ == s@,
{
    IoError { message: s.to_owned() }
}

/// A source, as its URL names it.
pub struct Target {
    /// The host, with a port where the URL has one.
    pub host: String,
    /// The path, from its slash on.
    pub path: String,
    /// The host with a port.
    pub address: String,
}

/// What stands behind the scheme of `url`.
pub open spec fn url_rest(url: Seq<char>) -> Seq<char> {
    url.skip("http://"@.len() as int)
}

/// The host in `url`: what stands before the first slash behind the scheme.
pub open spec fn url_host(url: Seq<char>) -> Seq<char> {
    url_rest(url).take(find(url_rest(url), '/'))
}

/// The path in `url`: the first slash behind the scheme and what follows, or a
/// single slash if there is none.
pub open spec fn url_path(url: Seq<char>) -> Seq<char> {
    let rest = url_rest(url);
    if rest.contains('/') {
        rest.skip(find(rest, '/'))
    } else {
        "/"@
    }
}

/// `host` with port 80, unless it has a port.
pub open spec fn with_port(host: Seq<char>) -> Seq<char> {
    if host.contains(':') {
        host
    } else {
        host + ":80"@
    }
}

/// The request for `path` on `host`.
pub open spec fn request_text(path: Seq<char>, host: Seq<char>) -> Seq<char> {
    "GET "@ + path + " HTTP/1.0\r\nHost: "@ + host + "\r\nConnection: close\r\n\r\n"@
}

/// Takes `url` apart. Only `http://` is known.
pub fn parse_url(url: &str) -> (r: Result<Target, IoError>)
    ensures
        match r {
            Ok(t) => {
                &&& occurs_at(url@, 0, "http://"@)
                &&& t.host@ == url_host(url@)
                &&& t.path@ == url_path(url@)
                &&& t.address@ == with_port(url_host(url@))
            },
            Err(e) => {
                &&& !occurs_at(url@, 0, "http://"@)
                &&& e.message@ == "http:// only"@
            },
        },
{
    let v = chars_of(url);
    let scheme = chars_of("http://");
    if !stands_at(&v, 0, &scheme) {
        return Err(ioerr("http:// only"));
    }
    let from: usize = scheme.len();
    let slash: usize = find_char(&v, from, '/');
    proof {
        lemma_find(url_rest(url@), '/');
        assert(url@.subrange(from as int, slash as int) =~= url_host(url@));
    }
    let host: String = url.substring_char(from, slash).to_owned();
    let path: String = if slash < v.len() {
        assert(url@.subrange(slash as int, v@.len() as int) =~= url_path(url@));
        url.substring_char(slash, v.len()).to_owned()
    } else {
        "/".to_owned()
    };
    let h = chars_of(host.as_str());
    let colon: usize = find_char(&h, 0, ':');
    proof {
        assert(h@.skip(0) =~= h@);
        lemma_find(h@, ':');
    }
    let address: String = if colon < h.len() {
        host.clone()
    } else {
        host.clone().concat(":80")
    };
    Ok(Target { host, path, address })
}

impl Target {
    /// The request to send.
    pub fn request(&self) -> (r: String)
        ensures
            r@ == request_text(self.path@, self.host@),
    {
        "GET ".to_owned().concat(self.path.as_str()).concat(" HTTP/1.0\r\nHost: ").concat(
            self.host.as_str(),
        ).concat("\r\nConnection: close\r\n\r\n")
    }
}

/// The parts of a URL, joined again, are the URL; the host has no slash and the
/// path begins with one.
pub proof fn lemma_url_parts(url: Seq<char>)
    requires
        occurs_at(url, 0, "http://"@),
    ensures
        !url_host(url).contains('/'),
        url_path(url).len() > 0 && url_path(url)[0] == '/',
        url_rest(url).contains('/') ==> "http://"@ + url_host(url) + url_path(url) == url,
        !url_rest(url).contains('/') ==> "http://"@ + url_host(url) == url,
{
    reveal_strlit("/");
    let rest = url_rest(url);
    lemma_find(rest, '/');
    let n = find(rest, '/');
    assert(url.subrange(0, "http://"@.len() as int) + rest =~= url);
    if rest.contains('/') {
        assert("http://"@ + url_host(url) + url_path(url) =~= "http://"@ + rest);
    } else {
        assert(rest.take(n) =~= rest);
    }
}

/// The address has a port whatever the URL was.
pub proof fn lemma_address_has_port(host: Seq<char>)
    ensures
        with_port(host).contains(':'),
{
    reveal_strlit(":80");
    if !host.contains(':') {
        assert(with_port(host)[host.len() as int] == ':');
    }
}

/// The empty line that ends the headers.
pub open spec fn head_terminator() -> Seq<u8> {
    seq![13u8, 10u8, 13u8, 10u8]
}

/// `b` in lower case, as far as it is an ASCII letter.
pub open spec fn lower(b: u8) -> u8 {
    if 65 <= b <= 90 {
        (b + 32) as u8
    } else {
        b
    }
}

/// Whether the ASCII text `word` stands in `s` at `i`, whatever the case.
pub open spec fn same_text(s: Seq<u8>, i: int, word: Seq<char>) -> bool {
    &&& 0 <= i
    &&& i + word.len() <= s.len()
    &&& forall|k: int| 0 <= k < word.len() ==> lower(s[i + k]) as char == #[trigger] word[k]
}

/// Whether `b` is a space or a tab.
pub open spec fn is_blank(b: u8) -> bool {
    b == 32 || b == 9
}

/// Whether `b` is a space, a tab or part of a line end.
pub open spec fn is_filler(b: u8) -> bool {
    is_blank(b) || b == 13 || b == 10
}

/// Where the header field that `i` stands in ends: at the first line feed that
/// no blank follows, or with `s`. A line that begins with a blank goes on with
/// the field of the line before.
pub open spec fn field_end(s: Seq<u8>, i: int) -> int
    decreases s.len() - i,
{
    if i >= s.len() {
        s.len() as int
    } else if s[i] == 10 && !(i + 1 < s.len() && is_blank(s[i + 1])) {
        i
    } else {
        field_end(s, i + 1)
    }
}

/// `s` without the filler in front.
pub open spec fn filler_skipped(s: Seq<u8>) -> Seq<u8>
    decreases s.len(),
{
    if s.len() > 0 && is_filler(s.first()) {
        filler_skipped(s.drop_first())
    } else {
        s
    }
}

/// `s` without the filler behind.
pub open spec fn filler_cut(s: Seq<u8>) -> Seq<u8>
    decreases s.len(),
{
    if s.len() > 0 && is_filler(s.last()) {
        filler_cut(s.drop_last())
    } else {
        s
    }
}

/// The name of a coding: what stands before its parameters, without filler.
pub open spec fn coding_name(coding: Seq<u8>) -> Seq<u8> {
    filler_cut(filler_skipped(coding.take(find(coding, 59))))
}

/// Whether `name` is the ASCII text `word`, whatever the case.
pub open spec fn is_text(name: Seq<u8>, word: Seq<char>) -> bool {
    name.len() == word.len() && same_text(name, 0, word)
}

/// Whether one of the codings in `list`, which commas separate, is named `word`.
pub open spec fn lists_coding(list: Seq<u8>, word: Seq<char>) -> bool
    decreases list.len(),
{
    let n = find(list, 44);
    ||| is_text(coding_name(list.take(n)), word)
    ||| 0 <= n < list.len() && lists_coding(list.skip(n + 1), word)
}

/// The value of the header field whose name and colon end at `from`.
pub open spec fn field_value(head: Seq<u8>, from: int) -> Seq<u8> {
    head.subrange(from, field_end(head, from))
}

/// Whether a header field behind the first line declares a chunked body:
/// `chunked` is one of the codings that it lists.
pub open spec fn declares_chunked(head: Seq<u8>) -> bool {
    exists|i: int|
        {
            &&& 0 < i
            &&& head[i - 1] == 10
            &&& #[trigger] same_text(head, i, "transfer-encoding:"@)
            &&& lists_coding(
                field_value(head, i + "transfer-encoding:"@.len()),
                "chunked"@,
            )
        }
}

/// The status line of the headers; empty if they are not UTF-8.
pub open spec fn status_line(head: Seq<u8>) -> Seq<char> {
    if valid_utf8(head) {
        first_line(decode_utf8(head))
    } else {
        Seq::empty()
    }
}

/// Whether a status line says 200: as its second word, or as its first where a
/// space stands in the place of the version.
pub open spec fn says_ok(line: Seq<char>) -> bool {
    ||| second_word(line) == "200"@
    ||| line.len() > 0 && line[0] == ' ' && first_word(line) == "200"@
}

/// Why an answer with these headers is refused, if it is: its status is not 200,
/// or its body is chunked.
pub open spec fn refusal(head: Seq<u8>) -> Option<Seq<char>> {
    if !says_ok(status_line(head)) {
        Some(trimmed(status_line(head)))
    } else if declares_chunked(head) {
        Some("chunked transfer encoding"@)
    } else {
        None
    }
}

/// Where reading the headers stands.
pub enum HeadState {
    /// More is to be read.
    More,
    /// The answer is accepted; the body begins with `leftover`.
    Accepted { leftover: Seq<u8> },
    /// The answer is refused.
    Refused { message: Seq<char> },
}

/// Where reading the headers stands once `chunk` came behind `hdr`; an empty
/// chunk is the end of the stream.
pub open spec fn head_state(hdr: Seq<u8>, chunk: Seq<u8>) -> HeadState {
    let all = hdr + chunk;
    if chunk.len() == 0 {
        HeadState::Refused { message: "eof during headers"@ }
    } else {
        match find_sub(all, head_terminator()) {
            Some(k) => match refusal(all.take(k + 4)) {
                Some(message) => HeadState::Refused { message },
                None => HeadState::Accepted { leftover: all.skip(k + 4) },
            },
            None => if all.len() > MAX_HEADER_LEN {
                HeadState::Refused { message: "headers too large"@ }
            } else {
                HeadState::More
            },
        }
    }
}

/// The text in `bytes`, if they are UTF-8.
///
/// Calls `std::str::from_utf8`, which checks that the bytes are UTF-8 and hands
/// out the text that they encode. Believed of it: it succeeds on exactly the
/// byte strings that are valid UTF-8, and its text is their decoding.
#[verifier::external_body]
fn utf8_text(bytes: &[u8]) -> (r: Option<&str>)
    ensures
        match r {
            Some(s) => valid_utf8(bytes@) && s@ == decode_utf8(bytes@),
            None => !valid_utf8(bytes@),
        },
{
    std::str::from_utf8(bytes).ok()
}

/// The first position of the empty line that ends the headers.
fn find_terminator(v: &Vec<u8>) -> (r: Option<usize>)
    ensures
        match r {
            Some(k) => find_sub(v@, head_terminator()) == Some(k as int) && k + 4 <= v.len(),
            None => find_sub(v@, head_terminator()) is None,
        },
{
    let ghost pat = head_terminator();
    proof {
        lemma_find_sub(v@, pat);
    }
    let mut k: usize = 0;
    while k < v.len() && v.len() - k >= 4
        invariant
            k <= v@.len(),
            pat == head_terminator(),
            forall|i: int| 0 <= i < k ==> !occurs_at(v@, i, pat),
            match find_sub(v@, pat) {
                Some(n) => occurs_at(v@, n, pat) && forall|i: int| i < n ==> !occurs_at(v@, i, pat),
                None => forall|i: int| !occurs_at(v@, i, pat),
            },
        decreases v@.len() - k,
    {
        let ghost window = v@.subrange(k as int, k + 4);
        if v[k] == 13 && v[k + 1] == 10 && v[k + 2] == 13 && v[k + 3] == 10 {
            assert(window =~= pat);
            assert(occurs_at(v@, k as int, pat));
            return Some(k);
        }
        assert(window[0] == v@[k as int] && window[1] == v@[k + 1] && window[2] == v@[k + 2]
            && window[3] == v@[k + 3]);
        k += 1;
    }
    None
}

/// Whether `word` stands in `s` at `at`, whatever the case.
fn same_text_at(s: &[u8], at: usize, word: &Vec<char>) -> (r: bool)
    ensures
        r == same_text(s@, at as int, word@),
{
    if s.len() < word.len() || at > s.len() - word.len() {
        return false;
    }
    let mut k: usize = 0;
    while k < word.len()
        invariant
            k <= word@.len(),
            at + word@.len() <= s.len(),
            forall|i: int| 0 <= i < k ==> lower(s@[at + i]) as char == #[trigger] word@[i],
        decreases word@.len() - k,
    {
        let b: u8 = s[at + k];
        let small: u8 = if 65 <= b && b <= 90 {
            b + 32
        } else {
            b
        };
        if small as char != word[k] {
            assert(word@[k as int] != lower(s@[at + k]) as char);
            return false;
        }
        k += 1;
    }
    true
}

/// Where the header field that `from` stands in ends.
fn find_field_end(s: &[u8], from: usize) -> (k: usize)
    requires
        from <= s@.len(),
    ensures
        k == field_end(s@, from as int),
        from <= k <= s@.len(),
{
    let mut k: usize = from;
    while k < s.len()
        invariant
            from <= k <= s@.len(),
            field_end(s@, from as int) == field_end(s@, k as int),
        decreases s@.len() - k,
    {
        let rest: usize = s.len() - k;
        if s[k] == 10 && !(rest > 1 && (s[k + 1] == 32 || s[k + 1] == 9)) {
            return k;
        }
        k += 1;
    }
    k
}

fn is_filler_byte(b: u8) -> (r: bool)
    ensures
        r == is_filler(b),
{
    b == 32 || b == 9 || b == 13 || b == 10
}

/// Whether `coding` is named `word`.
fn is_coding(coding: &[u8], word: &Vec<char>) -> (r: bool)
    ensures
        r == is_text(coding_name(coding@), word@),
{
    let mut to: usize = find_byte(coding, 0, 59);
    let mut from: usize = 0;
    let ghost name = coding@.take(to as int);
    assert(coding@.skip(0) =~= coding@);
    assert(coding@.subrange(0, to as int) =~= name);
    while from < to && is_filler_byte(coding[from])
        invariant
            from <= to <= coding@.len(),
            filler_skipped(name) == filler_skipped(coding@.subrange(from as int, to as int)),
        decreases to - from,
    {
        assert(coding@.subrange(from as int, to as int).drop_first() =~= coding@.subrange(
            from + 1,
            to as int,
        ));
        from += 1;
    }
    let ghost kept = coding@.subrange(from as int, to as int);
    while from < to && is_filler_byte(coding[to - 1])
        invariant
            from <= to <= coding@.len(),
            filler_cut(kept) == filler_cut(coding@.subrange(from as int, to as int)),
        decreases to - from,
    {
        assert(coding@.subrange(from as int, to as int).drop_last() =~= coding@.subrange(
            from as int,
            to - 1,
        ));
        to -= 1;
    }
    let bare: &[u8] = slice_subrange(coding, from, to);
    bare.len() == word.len() && same_text_at(bare, 0, word)
}

/// Whether one of the codings in `list` is named `word`.
fn holds_coding(list: &[u8], word: &Vec<char>) -> (r: bool)
    ensures
        r == lists_coding(list@, word@),
{
    let mut at: usize = 0;
    assert(list@.skip(0) =~= list@);
    loop
        invariant
            at <= list@.len(),
            lists_coding(list@, word@) == lists_coding(list@.skip(at as int), word@),
        decreases list@.len() - at,
    {
        let ghost tail = list@.skip(at as int);
        let n: usize = find_byte(list, at, 44);
        let coding: &[u8] = slice_subrange(list, at, n);
        assert(coding@ =~= tail.take(n - at));
        if is_coding(coding, word) {
            return true;
        }
        if n == list.len() {
            return false;
        }
        assert(tail.skip(n - at + 1) =~= list@.skip(n + 1));
        at = n + 1;
    }
}

/// Whether the headers declare a chunked body.
pub fn is_chunked(head: &[u8]) -> (r: bool)
    ensures
        r == declares_chunked(head@),
{
    let name = chars_of("transfer-encoding:");
    let word = chars_of("chunked");
    let mut i: usize = 1;
    while i < head.len()
        invariant
            1 <= i,
            name@ == "transfer-encoding:"@,
            word@ == "chunked"@,
            forall|m: int|
                0 < m < i && head@[m - 1] == 10 && #[trigger] same_text(
                    head@,
                    m,
                    "transfer-encoding:"@,
                ) ==> !lists_coding(
                    field_value(head@, m + "transfer-encoding:"@.len()),
                    "chunked"@,
                ),
        decreases head@.len() - i,
    {
        if head[i - 1] == 10 && same_text_at(head, i, &name) {
            let from: usize = i + name.len();
            let value: &[u8] = slice_subrange(head, from, find_field_end(head, from));
            if holds_coding(value, &word) {
                return true;
            }
        }
        i += 1;
    }
    proof {
        reveal_strlit("transfer-encoding:");
    }
    false
}

/// Whether a status line says 200.
pub fn is_ok_line(line: &str) -> (r: bool)
    ensures
        r == says_ok(line@),
{
    let (first, second) = two_words(line);
    let space = chars_of(" ");
    proof {
        reveal_strlit(" ");
        if line@.len() > 0 {
            assert(line@.subrange(0, 1)[0] == line@[0]);
            if line@[0] == ' ' {
                assert(line@.subrange(0, 1) =~= " "@);
            }
        }
    }
    is_same(second.as_str(), "200") || (stands_at(&chars_of(line), 0, &space) && is_same(
        first.as_str(),
        "200",
    ))
}

/// Why an answer with these headers is refused, if it is.
pub fn check_head(head: &[u8]) -> (r: Result<(), IoError>)
    ensures
        match r {
            Ok(_) => refusal(head@) is None,
            Err(e) => refusal(head@) == Some(e.message@),
        },
{
    let first: String = match utf8_text(head) {
        Some(text) => head_line(text),
        None => String::new(),
    };
    if !is_ok_line(first.as_str()) {
        return Err(IoError { message: trim(first.as_str()) });
    }
    if is_chunked(head) {
        return Err(ioerr("chunked transfer encoding"));
    }
    Ok(())
}

/// The headers of an answer while they are read.
pub struct ResponseHead {
    hdr: Vec<u8>,
}

impl View for ResponseHead {
    type V = Seq<u8>;

    closed spec fn view(&self) -> Seq<u8> {
        self.hdr@
    }
}

impl ResponseHead {
    /// Nothing read yet.
    pub fn new() -> (r: ResponseHead)
        ensures
            r@ == Seq::<u8>::empty(),
    {
        ResponseHead { hdr: Vec::with_capacity(1024) }
    }

    /// Takes in what a read returned; an empty chunk is the end of the stream.
    /// Hands out what came behind the headers once the answer is accepted.
    pub fn push(&mut self, chunk: &[u8]) -> (r: Result<Option<Vec<u8>>, IoError>)
        ensures
            final(self)@ == old(self)@ + chunk@,
            match r {
                Ok(None) => head_state(old(self)@, chunk@) == HeadState::More,
                Ok(Some(body)) => head_state(old(self)@, chunk@) == (HeadState::Accepted {
                    leftover: body@,
                }),
                Err(e) => head_state(old(self)@, chunk@) == (HeadState::Refused {
                    message: e.message@,
                }),
            },
    {
        self.hdr.extend_from_slice(chunk);
        assert(self.hdr@ =~= old(self)@ + chunk@);
        if chunk.is_empty() {
            return Err(ioerr("eof during headers"));
        }
        match find_terminator(&self.hdr) {
            Some(k) => {
                let all: &[u8] = self.hdr.as_slice();
                let head: &[u8] = slice_subrange(all, 0, k + 4);
                assert(head@ =~= self.hdr@.take(k + 4));
                match check_head(head) {
                    Ok(_) => {
                        let mut body: Vec<u8> = Vec::new();
                        body.extend_from_slice(slice_subrange(all, k + 4, all.len()));
                        assert(body@ =~= self.hdr@.skip(k + 4));
                        Ok(Some(body))
                    },
                    Err(e) => Err(e),
                }
            },
            None => {
                if self.hdr.len() > MAX_HEADER_LEN {
                    Err(ioerr("headers too large"))
                } else {
                    Ok(None)
                }
            },
        }
    }
}

/// An accepted answer is cut at its first empty line: headers and leftover,
/// joined again, are what was read, and nothing of the body is lost.
pub proof fn lemma_head_cut(hdr: Seq<u8>, chunk: Seq<u8>)
    requires
        head_state(hdr, chunk) is Accepted,
    ensures
        ({
            let all = hdr + chunk;
            let head = all.take(all.len() - head_state(hdr, chunk)->leftover.len());
            &&& head + head_state(hdr, chunk)->leftover == all
            &&& head.len() >= 4
            &&& occurs_at(all, head.len() - 4, head_terminator())
            &&& forall|i: int| i < head.len() - 4 ==> !occurs_at(all, i, head_terminator())
            &&& refusal(head) is None
        }),
{
    let all = hdr + chunk;
    lemma_find_sub(all, head_terminator());
    let k = find_sub(all, head_terminator())->0;
    assert(all.take(k + 4) + all.skip(k + 4) =~= all);
}

/// A line of a version, a space and a code, which a space or nothing follows,
/// says 200 if that is the code, even if there is no version; with a version, it
/// does not if that is not the code, whatever follows.
pub proof fn lemma_status(version: Seq<char>, code: Seq<char>, rest: Seq<char>)
    requires
        !version.contains(' '),
        code.len() > 0,
        !code.contains(' '),
        rest.len() > 0 ==> rest[0] == ' ',
    ensures
        code == "200"@ ==> says_ok(version + seq![' '] + code + rest),
        version.len() > 0 && code != "200"@ ==> !says_ok(version + seq![' '] + code + rest),
{
    let line = version + seq![' '] + code + rest;
    let tail = code + rest;
    lemma_word(code, rest);
    assert((seq![' '] + tail).drop_first() =~= tail);
    assert(spaces_skipped(seq![' '] + tail) == tail) by {
        reveal_with_fuel(spaces_skipped, 2);
        assert(tail[0] == code[0]);
        assert(code.contains(code[0]));
    }
    assert(line =~= version + (seq![' '] + tail));
    if version.len() > 0 {
        lemma_word(version, seq![' '] + tail);
        assert(line[0] == version[0]);
        assert(version.contains(version[0]));
        assert(spaces_skipped(line) == line);
        assert(behind_first_word(line) == seq![' '] + tail);
    } else {
        assert(line =~= seq![' '] + tail);
    }
}

proof fn lemma_word(word: Seq<char>, rest: Seq<char>)
    requires
        !word.contains(' '),
        rest.len() > 0 ==> rest[0] == ' ',
    ensures
        find(word + rest, ' ') == word.len(),
        (word + rest).take(word.len() as int) == word,
        (word + rest).skip(word.len() as int) == rest,
{
    let s = word + rest;
    assert forall|i: int| 0 <= i < word.len() implies s[i] != ' ' by {
        assert(word.contains(word[i]));
    }
    lemma_found(s, ' ', word.len() as int);
    assert(s.take(word.len() as int) =~= word);
    assert(s.skip(word.len() as int) =~= rest);
}

/// An answer whose status line does not say 200 is refused with that line,
/// whatever else stands there.
pub proof fn lemma_other_status(hdr: Seq<u8>, chunk: Seq<u8>, k: int)
    requires
        chunk.len() > 0,
        find_sub(hdr + chunk, head_terminator()) == Some(k),
        !says_ok(status_line((hdr + chunk).take(k + 4))),
    ensures
        head_state(hdr, chunk) == (HeadState::Refused {
            message: trimmed(status_line((hdr + chunk).take(k + 4))),
        }),
{
}

/// How the headers are cut into reads makes no difference.
pub proof fn lemma_head_chunking(hdr: Seq<u8>, a: Seq<u8>, b: Seq<u8>)
    requires
        b.len() > 0,
    ensures
        head_state(hdr + a, b) == head_state(hdr, a + b),
{
    assert(hdr + (a + b) =~= (hdr + a) + b);
}

/// More is asked for only while no more than the allowed size was read.
pub proof fn lemma_head_bounded(hdr: Seq<u8>, chunk: Seq<u8>)
    requires
        head_state(hdr, chunk) is More,
    ensures
        hdr.len() + chunk.len() <= MAX_HEADER_LEN,
{
}

/// A URL of `http://`, a host without a slash, and nothing or a slash and more is
/// taken apart into that host and all of what follows it, with a slash where
/// nothing does.
pub proof fn lemma_url(host: Seq<char>, path: Seq<char>)
    requires
        !host.contains('/'),
        path.len() > 0 ==> path[0] == '/',
    ensures
        occurs_at("http://"@ + host + path, 0, "http://"@),
        url_host("http://"@ + host + path) == host,
        path.len() > 0 ==> url_path("http://"@ + host + path) == path,
        path.len() == 0 ==> url_path("http://"@ + host + path) == "/"@,
{
    let url = "http://"@ + host + path;
    let rest = host + path;
    assert(url.subrange(0, "http://"@.len() as int) =~= "http://"@);
    assert(url_rest(url) =~= rest);
    assert forall|i: int| 0 <= i < host.len() implies rest[i] != '/' by {
        assert(host.contains(host[i]));
    }
    lemma_found(rest, '/', host.len() as int);
    lemma_find(rest, '/');
    assert(rest.take(host.len() as int) =~= host);
    assert(rest.skip(host.len() as int) =~= path);
}

/// A host with a colon is the address as it stands; without one, `:80` follows it.
pub proof fn lemma_port(host: Seq<char>)
    ensures
        (exists|i: int| 0 <= i < host.len() && host[i] == ':') ==> with_port(host) == host,
        (forall|i: int| 0 <= i < host.len() ==> host[i] != ':') ==> with_port(host) == host
            + seq![':', '8', '0'],
{
    reveal_strlit(":80");
    assert(":80"@ =~= seq![':', '8', '0']);
}

/// A request holds all of the path and all of the host, character for character,
/// with nothing but its fixed text before, between and behind them.
pub proof fn lemma_request(path: Seq<char>, host: Seq<char>)
    ensures
        ({
            let r = request_text(path, host);
            let a = 4 + path.len() as int;
            let b = a + 17;
            let c = b + host.len();
            &&& r.len() == c + 23
            &&& r.subrange(0, 4) == "GET "@
            &&& r.subrange(4, a) == path
            &&& r.subrange(a, b) == " HTTP/1.0\r\nHost: "@
            &&& r.subrange(b, c) == host
            &&& r.skip(c) == "\r\nConnection: close\r\n\r\n"@
        }),
{
    let r = request_text(path, host);
    let a = 4 + path.len() as int;
    let b = a + 17;
    let c = b + host.len();
    reveal_strlit("GET ");
    reveal_strlit(" HTTP/1.0\r\nHost: ");
    reveal_strlit("\r\nConnection: close\r\n\r\n");
    assert(r.subrange(0, 4) =~= "GET "@);
    assert(r.subrange(4, a) =~= path);
    assert(r.subrange(a, b) =~= " HTTP/1.0\r\nHost: "@);
    assert(r.subrange(b, c) =~= host);
    assert(r.skip(c) =~= "\r\nConnection: close\r\n\r\n"@);
}

/// What is asked for is what the URL names: all that follows the host, query and
/// all, of the host with the port that the URL gives.
pub proof fn lemma_url_request(host: Seq<char>, path: Seq<char>)
    requires
        !host.contains('/'),
        path.len() > 0,
        path[0] == '/',
    ensures
        ({
            let url = "http://"@ + host + path;
            let r = request_text(url_path(url), url_host(url));
            &&& r.subrange(4, 4 + path.len() as int) == path
            &&& r.subrange(
                21 + path.len() as int,
                21 + path.len() as int + host.len(),
            ) == host
        }),
{
    lemma_url(host, path);
    lemma_request(path, host);
}

/// The headers end with carriage return, line feed, carriage return, line feed.
pub proof fn lemma_terminator()
    ensures
        head_terminator() == seq![13u8, 10u8, 13u8, 10u8],
{
}

/// A text stands at `i` if each of its characters does, where a capital letter of
/// ASCII counts as the small one.
pub proof fn lemma_same_text(s: Seq<u8>, i: int, word: Seq<char>)
    ensures
        same_text(s, i, word) <==> {
            &&& 0 <= i
            &&& i + word.len() <= s.len()
            &&& forall|k: int|
                0 <= k < word.len() ==> #[trigger] word[k] == if 65 <= s[i + k] <= 90 {
                    (s[i + k] + 32) as char
                } else {
                    s[i + k] as char
                }
        },
{
}

/// The name of a coding is all that stands before the first semicolon, without the
/// spaces, tabs and line ends around it.
pub proof fn lemma_coding_name(
    front: Seq<u8>,
    name: Seq<u8>,
    back: Seq<u8>,
    parameters: Seq<u8>,
)
    requires
        forall|i: int|
            0 <= i < front.len() ==> #[trigger] front[i] == 32 || front[i] == 9 || front[i] == 13
                || front[i] == 10,
        forall|i: int|
            0 <= i < back.len() ==> #[trigger] back[i] == 32 || back[i] == 9 || back[i] == 13
                || back[i] == 10,
        forall|i: int| 0 <= i < name.len() ==> #[trigger] name[i] != 59,
        name.len() > 0 ==> {
            &&& name[0] != 32 && name[0] != 9 && name[0] != 13 && name[0] != 10
            &&& name.last() != 32 && name.last() != 9 && name.last() != 13 && name.last() != 10
        },
        parameters.len() > 0 ==> parameters[0] == 59,
    ensures
        coding_name(front + name + back + parameters) == name,
{
    let s = front + name + back;
    let all = s + parameters;
    assert forall|i: int| 0 <= i < s.len() implies all[i] != 59 by {
        if i < front.len() {
            assert(all[i] == front[i]);
        } else if i < front.len() + name.len() {
            assert(all[i] == name[i - front.len()]);
        } else {
            assert(all[i] == back[i - front.len() - name.len()]);
        }
    }
    lemma_found(all, 59u8, s.len() as int);
    assert(all.take(s.len() as int) =~= s);
    assert forall|i: int| 0 <= i < front.len() implies is_filler(#[trigger] front[i]) by {}
    assert forall|i: int| 0 <= i < back.len() implies is_filler(#[trigger] back[i]) by {}
    lemma_bare(front, name, back);
}

proof fn lemma_bare(front: Seq<u8>, name: Seq<u8>, back: Seq<u8>)
    requires
        forall|i: int| 0 <= i < front.len() ==> is_filler(#[trigger] front[i]),
        forall|i: int| 0 <= i < back.len() ==> is_filler(#[trigger] back[i]),
        name.len() > 0 ==> !is_filler(name[0]) && !is_filler(name.last()),
    ensures
        filler_cut(filler_skipped(front + name + back)) == name,
    decreases front.len() + back.len(),
{
    let s = front + name + back;
    if front.len() > 0 {
        let f = front.drop_first();
        assert(s[0] == front[0]);
        assert(s.drop_first() =~= f + name + back);
        assert forall|i: int| 0 <= i < f.len() implies is_filler(#[trigger] f[i]) by {
            assert(f[i] == front[i + 1]);
        }
        lemma_bare(f, name, back);
    } else if name.len() == 0 {
        if back.len() > 0 {
            let b = back.drop_first();
            assert(s[0] == back[0]);
            assert(s.drop_first() =~= front + name + b);
            assert forall|i: int| 0 <= i < b.len() implies is_filler(#[trigger] b[i]) by {
                assert(b[i] == back[i + 1]);
            }
            lemma_bare(front, name, b);
        } else {
            assert(s =~= name);
        }
    } else {
        assert(s[0] == name[0]);
        assert(filler_skipped(s) == s);
        if back.len() > 0 {
            let b = back.drop_last();
            let t = front + name + b;
            assert(s.last() == back[back.len() - 1]);
            assert(s.drop_last() =~= t);
            assert(t[0] == name[0]);
            assert forall|i: int| 0 <= i < b.len() implies is_filler(#[trigger] b[i]) by {
                assert(b[i] == back[i]);
            }
            lemma_bare(front, name, b);
            assert(filler_skipped(t) == t);
        } else {
            assert(s =~= name);
        }
    }
}

/// A list without a comma is one coding; with one, it is the coding before the
/// first comma and the list behind it.
pub proof fn lemma_list(coding: Seq<u8>, rest: Seq<u8>, word: Seq<char>)
    requires
        forall|i: int| 0 <= i < coding.len() ==> #[trigger] coding[i] != 44,
    ensures
        ({
            let named = coding_name(coding).len() == word.len() && same_text(
                coding_name(coding),
                0,
                word,
            );
            &&& lists_coding(coding, word) <==> named
            &&& lists_coding(coding + seq![44u8] + rest, word) <==> named || lists_coding(
                rest,
                word,
            )
        }),
{
    let all = coding + seq![44u8] + rest;
    lemma_found(coding, 44u8, coding.len() as int);
    assert(coding.take(coding.len() as int) =~= coding);
    lemma_found(all, 44u8, coding.len() as int);
    assert(all.take(coding.len() as int) =~= coding);
    assert(all.skip(coding.len() as int + 1) =~= rest);
}

/// The value of a field reaches to the first line feed that neither a space nor a
/// tab follows, or to the end.
pub proof fn lemma_field_value(head: Seq<u8>, from: int, end: int)
    requires
        0 <= from <= end <= head.len(),
        forall|k: int|
            from <= k < end && #[trigger] head[k] == 10 ==> k + 1 < head.len() && (head[k + 1] == 32
                || head[k + 1] == 9),
        end < head.len() ==> head[end] == 10,
        end + 1 < head.len() ==> head[end + 1] != 32 && head[end + 1] != 9,
    ensures
        field_value(head, from) == head.subrange(from, end),
{
    lemma_field_end(head, from, end);
}

proof fn lemma_field_end(head: Seq<u8>, from: int, end: int)
    requires
        0 <= from <= end <= head.len(),
        forall|k: int|
            from <= k < end && #[trigger] head[k] == 10 ==> k + 1 < head.len() && (head[k + 1] == 32
                || head[k + 1] == 9),
        end < head.len() ==> head[end] == 10,
        end + 1 < head.len() ==> head[end + 1] != 32 && head[end + 1] != 9,
    ensures
        field_end(head, from) == end,
    decreases end - from,
{
    if from < end {
        assert(head[from] == 10 ==> from + 1 < head.len());
        lemma_field_end(head, from + 1, end);
    }
}

/// A body is chunked exactly if behind some line feed the name and colon of the
/// field stand and its value lists `chunked`.
pub proof fn lemma_chunked(head: Seq<u8>)
    ensures
        declares_chunked(head) <==> exists|i: int|
            {
                &&& 1 <= i
                &&& head[i - 1] == 10
                &&& #[trigger] same_text(head, i, "transfer-encoding:"@)
                &&& lists_coding(field_value(head, i + 18), "chunked"@)
            },
{
    reveal_strlit("transfer-encoding:");
}

/// The status line is the first line of the headers if they are UTF-8, and empty if
/// they are not.
pub proof fn lemma_status_line(head: Seq<u8>)
    ensures
        valid_utf8(head) ==> status_line(head) == first_line(decode_utf8(head)),
        !valid_utf8(head) ==> status_line(head) == Seq::<char>::empty(),
{
}

/// When a line says 200, whatever spaces stand in it. Of two words or more, if the
/// second is 200, or if the first is and a space stands in front of it; of one, if
/// it is 200 and a space stands in front of it. Words further on do not matter.
pub proof fn lemma_says_ok(
    front: Seq<char>,
    first: Seq<char>,
    between: Seq<char>,
    second: Seq<char>,
    rest: Seq<char>,
)
    requires
        forall|i: int| 0 <= i < front.len() ==> #[trigger] front[i] == ' ',
        forall|i: int| 0 <= i < between.len() ==> #[trigger] between[i] == ' ',
        !first.contains(' '),
        !second.contains(' '),
        first.len() > 0,
        between.len() > 0,
        second.len() == 0 ==> rest.len() == 0,
        rest.len() > 0 ==> rest[0] == ' ',
    ensures
        ({
            let ok = seq!['2', '0', '0'];
            &&& says_ok(front + first + between + second + rest) <==> second == ok || front.len()
                > 0 && first == ok
            &&& says_ok(front + first) <==> front.len() > 0 && first == ok
            &&& !says_ok(front)
        }),
{
    reveal_strlit("200");
    assert("200"@ =~= seq!['2', '0', '0']);
    let none = Seq::<char>::empty();
    let line = front + first + between + second + rest;
    lemma_two_words(front, first, between, second, rest);
    assert(first.contains(first[0]));
    assert(line[0] == if front.len() > 0 {
        front[0]
    } else {
        first[0]
    });
    assert(front + first =~= front + first + none);
    lemma_first_word(front, first, none);
    assert((front + first)[0] == if front.len() > 0 {
        front[0]
    } else {
        first[0]
    });
    lemma_first_word(none, none, none);
    assert(none + none + none =~= none);
    lemma_first_word(front, none, none);
    assert(front + none + none =~= front);
    assert(second_word(front) == none);
    assert("200"@.len() == 3);
}

/// What a read of the headers leads to. Nothing read is the end of the stream.
/// Without an empty line, more is read up to 8192 bytes. With one, the headers are
/// what stands up to its end: they are refused with their trimmed status line if
/// that does not say 200, or else if their body is chunked; or else all that
/// follows is handed out.
pub proof fn lemma_head_state(hdr: Seq<u8>, chunk: Seq<u8>)
    ensures
        ({
            let all = hdr + chunk;
            let state = head_state(hdr, chunk);
            &&& chunk.len() == 0 ==> state == (HeadState::Refused {
                message: "eof during headers"@,
            })
            &&& chunk.len() > 0 ==> match find_sub(all, seq![13u8, 10u8, 13u8, 10u8]) {
                None => {
                    &&& all.len() <= 8192 ==> state is More
                    &&& all.len() > 8192 ==> state == (HeadState::Refused {
                        message: "headers too large"@,
                    })
                },
                Some(k) => {
                    let head = all.take(k + 4);
                    &&& !says_ok(status_line(head)) ==> state == (HeadState::Refused {
                        message: trimmed(status_line(head)),
                    })
                    &&& says_ok(status_line(head)) && declares_chunked(head) ==> state == (
                    HeadState::Refused { message: "chunked transfer encoding"@ })
                    &&& says_ok(status_line(head)) && !declares_chunked(head) ==> state == (
                    HeadState::Accepted { leftover: all.skip(k + 4) })
                },
            }
        }),
{
}

/// Headers are refused with their trimmed status line if that does not say 200, or
/// else, with a text of their own, if their body is chunked; and not otherwise.
pub proof fn lemma_refusal(head: Seq<u8>)
    ensures
        !says_ok(status_line(head)) ==> refusal(head) == Some(trimmed(status_line(head))),
        says_ok(status_line(head)) && declares_chunked(head) ==> refusal(head) == Some(
            "chunked transfer encoding"@,
        ),
        says_ok(status_line(head)) && !declares_chunked(head) ==> refusal(head) is None,
{
}

/// Connecting and each read of the headers take 5 seconds at most, and such a read
/// takes 1024 bytes at most.
pub proof fn lemma_limits()
    ensures
        CONNECT_MS == 5_000,
        HEADER_CHUNK == 1024,
{
}

} // verus!
