//! Decoding of one request line: an operation, a path, a protocol version.
//!
//! What a line says is defined on its characters: `decoded` gives the
//! operation and the fragments of the path, or what is wrong with the line,
//! and `get_operation` computes it.

use std::sync::Arc;
use vstd::prelude::*;
use vstd::string::StringSliceAdditionalSpecFns;
use vstd::utf8::{decode_utf8, encode_utf8_decode_utf8, encode_utf8_valid_utf8, valid_utf8};

verus! {

/// The path of a request: the fragments between its slashes.
pub type Path = Vec<Arc<String>>;

/// What a line was decoded to, or what is wrong with it.
pub type ActionResult = Result<Action, String>;

/// What a request asks to be done.
#[derive(Debug)]
pub enum Operation {
    Get,
    Head,
    Delete,
    Post,
}

/// A decoded request: what to do, and where.
#[derive(Debug)]
pub struct Action {
    pub op: Operation,
    pub path: Path,
}

/// Whether `c` sets tokens apart: the characters with the Unicode property
/// White_Space, which are those that `char::is_whitespace` holds of.
pub open spec fn is_space(c: char) -> bool {
    let code = c as u32;
    ||| 0x09 <= code <= 0x0d
    ||| code == 0x20
    ||| code == 0x85
    ||| code == 0xa0
    ||| code == 0x1680
    ||| 0x2000 <= code <= 0x200a
    ||| code == 0x2028
    ||| code == 0x2029
    ||| code == 0x202f
    ||| code == 0x205f
    ||| code == 0x3000
}

/// How many characters stand before the first separator of `s`, or before
/// its end.
pub open spec fn word_len(s: Seq<char>) -> nat
    decreases s.len(),
{
    if s.len() == 0 || is_space(s[0]) {
        0
    } else {
        1 + word_len(s.skip(1))
    }
}

/// The tokens of `s`: its longest stretches without a separator, in order.
pub open spec fn tokens(s: Seq<char>) -> Seq<Seq<char>>
    decreases s.len(),
{
    if s.len() == 0 {
        Seq::empty()
    } else if is_space(s[0]) {
        tokens(s.skip(1))
    } else {
        let n = word_len(s) as int;
        proof {
            lemma_word_len_bounds(s);
        }
        seq![s.take(n)] + tokens(s.skip(n))
    }
}

/// How many characters stand before the first `stop` in `s`, or before the
/// end of `s`.
pub open spec fn len_before(s: Seq<char>, stop: char) -> nat
    decreases s.len(),
{
    if s.len() == 0 || s[0] == stop {
        0
    } else {
        1 + len_before(s.skip(1), stop)
    }
}

/// `s` split at each `/`. An empty stretch counts: `s` gives one fragment more
/// than it has slashes.
pub open spec fn fragments(s: Seq<char>) -> Seq<Seq<char>>
    decreases s.len(),
{
    let n = len_before(s, '/') as int;
    if n >= s.len() {
        seq![s]
    } else {
        seq![s.take(n)] + fragments(s.skip(n + 1))
    }
}

/// The operation that a token names.
pub open spec fn operation_of(token: Seq<char>) -> Option<Operation> {
    if token == "GET"@ {
        Some(Operation::Get)
    } else if token == "HEAD"@ {
        Some(Operation::Head)
    } else if token == "DELETE"@ {
        Some(Operation::Delete)
    } else if token == "POST"@ {
        Some(Operation::Post)
    } else {
        None
    }
}

/// Whether a token names a version of the protocol that is understood.
pub open spec fn is_protocol(token: Seq<char>) -> bool {
    token == "HTTP/1.1"@ || token == "HTTP/2"@
}

/// What a line asks for: the operation and the fragments of the path, or what
/// is wrong with the line.
///
/// A line is an operation, a path and a protocol version, set apart by
/// separators. A third token that is no known version is reported first, then
/// a fourth token, then a first token that is no operation, then a line that
/// ends before its version.
pub open spec fn decoded(line: Seq<char>) -> Result<(Operation, Seq<Seq<char>>), Seq<char>> {
    let words = tokens(line);
    if words.len() >= 3 && !is_protocol(words[2]) {
        Err("incorrect protocol"@)
    } else if words.len() > 3 {
        Err("ill-formed query: too many arguments"@)
    } else if words.len() == 0 || operation_of(words[0]) is None {
        Err("incorrect operation"@)
    } else if words.len() < 3 {
        Err("incorrect protocol"@)
    } else {
        Ok((operation_of(words[0])->0, fragments(words[1])))
    }
}

/// What the strings of a path say.
pub open spec fn texts(path: Seq<Arc<String>>) -> Seq<Seq<char>> {
    path.map_values(|fragment: Arc<String>| fragment@)
}

/// What a result says, leaving aside how its strings are held.
pub open spec fn outcome(result: ActionResult) -> Result<(Operation, Seq<Seq<char>>), Seq<char>> {
    match result {
        Ok(action) => Ok((action.op, texts(action.path@))),
        Err(message) => Err(message@),
    }
}

/// The first line of a text, without the line feed that ends it and without a
/// carriage return just before that line feed. An empty text has no line.
pub open spec fn first_line_of(s: Seq<char>) -> Option<Seq<char>> {
    let n = len_before(s, '\n') as int;
    if s.len() == 0 {
        None
    } else if 0 < n < s.len() && s[n - 1] == '\r' {
        Some(s.take(n - 1))
    } else {
        Some(s.take(n))
    }
}

/// The request line that a buffer holds: the first line of the text that its
/// bytes encode. Bytes that encode no text hold none.
pub open spec fn request_line_of(bytes: Seq<u8>) -> Option<Seq<char>> {
    if valid_utf8(bytes) {
        first_line_of(decode_utf8(bytes))
    } else {
        None
    }
}

/// What a line says that may be missing.
pub open spec fn line_text(line: Option<String>) -> Option<Seq<char>> {
    match line {
        Some(found) => Some(found@),
        None => None,
    }
}

/// A word is as long as it can be: it has no separator, ends at one or at the
/// end of `s`, and is not empty where `s` begins with something else.
pub proof fn lemma_word_len_bounds(s: Seq<char>)
    ensures
        word_len(s) <= s.len(),
        s.len() > 0 && !is_space(s[0]) ==> word_len(s) >= 1,
        word_len(s) < s.len() ==> is_space(s[word_len(s) as int]),
        forall|i: int| 0 <= i < word_len(s) ==> !is_space(s[i]),
    decreases s.len(),
{
    if s.len() > 0 && !is_space(s[0]) {
        lemma_word_len_bounds(s.skip(1));
        assert forall|i: int| 0 <= i < word_len(s) implies !is_space(s[i]) by {
            if i > 0 {
                assert(s.skip(1)[i - 1] == s[i]);
            }
        }
    }
}

/// The stretch before the first `stop` holds none, and ends at one or at the
/// end of `s`.
pub proof fn lemma_len_before_bounds(s: Seq<char>, stop: char)
    ensures
        len_before(s, stop) <= s.len(),
        len_before(s, stop) < s.len() ==> s[len_before(s, stop) as int] == stop,
        forall|i: int| 0 <= i < len_before(s, stop) ==> s[i] != stop,
    decreases s.len(),
{
    if s.len() > 0 && s[0] != stop {
        lemma_len_before_bounds(s.skip(1), stop);
        assert forall|i: int| 0 <= i < len_before(s, stop) implies s[i] != stop by {
            if i > 0 {
                assert(s.skip(1)[i - 1] == s[i]);
            }
        }
    }
}

/// Every token is a word: it is not empty and has no separator in it.
pub proof fn lemma_tokens_are_words(s: Seq<char>, i: int)
    requires
        0 <= i < tokens(s).len(),
    ensures
        tokens(s)[i].len() > 0,
        forall|j: int| 0 <= j < tokens(s)[i].len() ==> !is_space(#[trigger] tokens(s)[i][j]),
    decreases s.len(),
{
    if s.len() > 0 {
        if is_space(s[0]) {
            lemma_tokens_are_words(s.skip(1), i);
        } else {
            let n = word_len(s) as int;
            lemma_word_len_bounds(s);
            if i > 0 {
                lemma_tokens_are_words(s.skip(n), i - 1);
            }
        }
    }
}

/// The text joined from `parts` with a `/` between each two.
pub open spec fn joined(parts: Seq<Seq<char>>) -> Seq<char>
    decreases parts.len(),
{
    if parts.len() == 0 {
        Seq::empty()
    } else if parts.len() == 1 {
        parts[0]
    } else {
        parts[0] + seq!['/'] + joined(parts.skip(1))
    }
}

/// The fragments of a token are what stands between its slashes: there is at
/// least one, none has a `/` in it, and joined by `/` they give the token.
pub proof fn lemma_fragments_split_at_slashes(s: Seq<char>)
    ensures
        fragments(s).len() >= 1,
        forall|i: int, j: int|
            0 <= i < fragments(s).len() && 0 <= j < fragments(s)[i].len() ==> #[trigger] fragments(
                s,
            )[i][j] != '/',
        joined(fragments(s)) == s,
    decreases s.len(),
{
    let n = len_before(s, '/') as int;
    lemma_len_before_bounds(s, '/');
    if n < s.len() {
        let rest = s.skip(n + 1);
        lemma_fragments_split_at_slashes(rest);
        let parts = fragments(s);
        assert(parts.skip(1) =~= fragments(rest));
    }
}

/// A line that is decoded has a path of at least one fragment.
pub proof fn lemma_decoded_path_has_a_fragment(line: Seq<char>)
    requires
        decoded(line) is Ok,
    ensures
        decoded(line)->Ok_0.1.len() >= 1,
{
    lemma_fragments_split_at_slashes(tokens(line)[1]);
}

/// `String::push`: the string as it was, and `c` behind it. Nothing is proved
/// of it; the contract is what the documentation of `String` says.
#[verifier::external_body]
fn push_char(text: &mut String, c: char)
    ensures
        final(text)@ == old(text)@.push(c),
{
    text.push(c)
}

/// `std::str::from_utf8`: the bytes as a text, where they are the UTF-8
/// encoding of one, and nothing where they are not. Nothing is proved of it;
/// the contract is what the documentation of `str` says.
#[verifier::external_body]
fn text_of(bytes: &[u8]) -> (text: Option<&str>)
    ensures
        (match text {
            Some(read) => read.spec_bytes() == bytes@,
            None => !valid_utf8(bytes@),
        }),
{
    match std::str::from_utf8(bytes) {
        Ok(read) => Some(read),
        Err(_) => None,
    }
}

const OP: usize = 0;

const PATH: usize = 1;

const PROTO: usize = 2;

/// What the vectors of characters say.
spec fn words_of(words: Seq<Vec<char>>) -> Seq<Seq<char>> {
    words.map_values(|word: Vec<char>| word@)
}

fn separates(c: char) -> (space: bool)
    ensures
        space == is_space(c),
{
    let code = c as u32;
    (0x09 <= code && code <= 0x0d) || code == 0x20 || code == 0x85 || code == 0xa0 || code == 0x1680
        || (0x2000 <= code && code <= 0x200a) || code == 0x2028 || code == 0x2029 || code == 0x202f
        || code == 0x205f || code == 0x3000
}

/// The characters of a string, one by one.
fn chars_of(text: &str) -> (chars: Vec<char>)
    ensures
        chars@ == text@,
{
    let mut chars: Vec<char> = Vec::new();
    for c in it: text.chars()
        invariant
            it.seq() == text@,
            chars@ == it.seq().take(it.index()),
    {
        chars.push(c);
    }
    chars
}

/// The characters from `from` up to `to`, as a vector of their own.
fn stretch(text: &[char], from: usize, to: usize) -> (word: Vec<char>)
    requires
        from <= to <= text@.len(),
    ensures
        word@ == text@.subrange(from as int, to as int),
{
    let mut word: Vec<char> = Vec::new();
    let mut index = from;
    while index < to
        invariant
            from <= index <= to <= text@.len(),
            word@ == text@.subrange(from as int, index as int),
        decreases to - index,
    {
        word.push(text[index]);
        index += 1;
    }
    word
}

/// The characters from `from` up to `to`, as a string.
fn string_of(text: &[char], from: usize, to: usize) -> (word: String)
    requires
        from <= to <= text@.len(),
    ensures
        word@ == text@.subrange(from as int, to as int),
{
    let mut word = String::new();
    let mut index = from;
    while index < to
        invariant
            from <= index <= to <= text@.len(),
            word@ == text@.subrange(from as int, index as int),
        decreases to - index,
    {
        push_char(&mut word, text[index]);
        index += 1;
    }
    word
}

/// The index behind the word that begins at `from`.
fn word_end(text: &[char], from: usize) -> (end: usize)
    requires
        from <= text@.len(),
    ensures
        from <= end <= text@.len(),
        end - from == word_len(text@.skip(from as int)),
{
    let mut end = from;
    while end < text.len() && !separates(text[end])
        invariant
            from <= end <= text@.len(),
            word_len(text@.skip(from as int)) == (end - from) + word_len(text@.skip(end as int)),
        decreases text@.len() - end,
    {
        proof {
            assert(text@.skip(end as int).skip(1) =~= text@.skip(end + 1));
        }
        end += 1;
    }
    end
}

/// The index of the first `stop` from `from` on, or the length of the text.
fn end_before(text: &[char], from: usize, stop: char) -> (end: usize)
    requires
        from <= text@.len(),
    ensures
        from <= end <= text@.len(),
        end - from == len_before(text@.skip(from as int), stop),
{
    let mut end = from;
    while end < text.len() && text[end] != stop
        invariant
            from <= end <= text@.len(),
            len_before(text@.skip(from as int), stop) == (end - from) + len_before(
                text@.skip(end as int),
                stop,
            ),
        decreases text@.len() - end,
    {
        proof {
            assert(text@.skip(end as int).skip(1) =~= text@.skip(end + 1));
        }
        end += 1;
    }
    end
}

/// Splits a text at its separators.
fn split_whitespace(text: &[char]) -> (words: Vec<Vec<char>>)
    ensures
        words_of(words@) == tokens(text@),
{
    let mut words: Vec<Vec<char>> = Vec::new();
    let mut index: usize = 0;
    assert(text@.skip(0) =~= text@);
    while index < text.len()
        invariant
            index <= text@.len(),
            tokens(text@) == words_of(words@) + tokens(text@.skip(index as int)),
        decreases text@.len() - index,
    {
        let ghost rest = text@.skip(index as int);
        if separates(text[index]) {
            proof {
                assert(rest.skip(1) =~= text@.skip(index + 1));
            }
            index += 1;
        } else {
            let end = word_end(text, index);
            let word = stretch(text, index, end);
            proof {
                assert(rest.take(end - index) =~= word@);
                assert(rest.skip(end - index) =~= text@.skip(end as int));
            }
            words.push(word);
            index = end;
        }
    }
    words
}

/// Splits a token at its slashes into the fragments of a path.
fn split_path(token: &[char]) -> (path: Path)
    ensures
        texts(path@) == fragments(token@),
{
    let mut path: Path = Vec::new();
    let mut index: usize = 0;
    assert(token@.skip(0) =~= token@);
    loop
        invariant_except_break
            fragments(token@) == texts(path@) + fragments(token@.skip(index as int)),
        invariant
            index <= token@.len(),
        ensures
            texts(path@) == fragments(token@),
        decreases token@.len() - index,
    {
        let ghost rest = token@.skip(index as int);
        let end = end_before(token, index, '/');
        let fragment = Arc::new(string_of(token, index, end));
        proof {
            assert(rest.take(end - index) =~= fragment@);
        }
        path.push(fragment);
        if end == token.len() {
            break ;
        }
        proof {
            assert(rest.skip(end - index + 1) =~= token@.skip(end + 1));
        }
        index = end + 1;
    }
    path
}

/// Whether two texts are the same, character by character.
fn same_text(left: &[char], right: &[char]) -> (same: bool)
    ensures
        same == (left@ == right@),
{
    if left.len() != right.len() {
        return false;
    }
    let mut index: usize = 0;
    while index < left.len()
        invariant
            left@.len() == right@.len(),
            index <= left@.len(),
            left@.take(index as int) == right@.take(index as int),
        decreases left@.len() - index,
    {
        if left[index] != right[index] {
            return false;
        }
        index += 1;
    }
    assert(left@ =~= left@.take(index as int));
    assert(right@ =~= right@.take(index as int));
    true
}

/// Whether `token` reads as `word`.
fn reads(token: &[char], word: &str) -> (same: bool)
    ensures
        same == (token@ == word@),
{
    let expected = chars_of(word);
    same_text(token, expected.as_slice())
}

/// The operation that a token names.
fn operation_named(token: &[char]) -> (op: Option<Operation>)
    ensures
        op == operation_of(token@),
{
    if reads(token, "GET") {
        Some(Operation::Get)
    } else if reads(token, "HEAD") {
        Some(Operation::Head)
    } else if reads(token, "DELETE") {
        Some(Operation::Delete)
    } else if reads(token, "POST") {
        Some(Operation::Post)
    } else {
        None
    }
}

/// Parses a GET, HEAD, DELETE or POST HTTP request and returns
/// the operation and path to the requested resource. The path
/// is represented by a ordered list of path fragments.
pub fn get_operation(input: &str) -> (result: ActionResult)
    ensures
        outcome(result) == decoded(input@),
{
    let text = chars_of(input);
    let words = split_whitespace(text.as_slice());
    let mut op: Option<Operation> = None;
    let mut path: Path = Vec::new();
    let mut index: usize = 0;
    while index < words.len()
        invariant
            words_of(words@) == tokens(input@),
            index <= words@.len(),
            index <= 3,
            index == 0 ==> op is None,
            index >= 1 ==> op == operation_of(words@[0]@),
            index >= 2 ==> texts(path@) == fragments(words@[1]@),
            index >= 3 ==> is_protocol(words@[2]@),
        decreases words@.len() - index,
    {
        let fragment = words[index].as_slice();
        if index == OP {
            op = operation_named(fragment);
        } else if index == PATH {
            path = split_path(fragment);
        } else if index == PROTO {
            if !(reads(fragment, "HTTP/1.1") || reads(fragment, "HTTP/2")) {
                return Err("incorrect protocol".to_owned());
            }
        } else {
            return Err("ill-formed query: too many arguments".to_owned());
        }
        index += 1;
    }
    match op {
        None => Err("incorrect operation".to_owned()),
        Some(op) => {
            if words.len() <= PROTO {
                Err("incorrect protocol".to_owned())
            } else {
                Ok(Action { op, path })
            }
        },
    }
}

/// The first line of a text, as `str::lines` would give it.
pub fn first_line(text: &str) -> (line: Option<String>)
    ensures
        line_text(line) == first_line_of(text@),
{
    let chars = chars_of(text);
    if chars.len() == 0 {
        return None;
    }
    assert(chars@.skip(0) =~= chars@);
    let end = end_before(chars.as_slice(), 0, '\n');
    let line = if 0 < end && end < chars.len() && chars[end - 1] == '\r' {
        string_of(chars.as_slice(), 0, end - 1)
    } else {
        string_of(chars.as_slice(), 0, end)
    };
    Some(line)
}

/// The request line of what a client sent: the first line of the buffer,
/// where the buffer holds text.
pub fn request_line(buffer: &[u8]) -> (line: Option<String>)
    ensures
        line_text(line) == request_line_of(buffer@),
{
    match text_of(buffer) {
        None => None,
        Some(text) => {
            proof {
                encode_utf8_valid_utf8(text@);
                encode_utf8_decode_utf8(text@);
            }
            first_line(text)
        },
    }
}

} // verus!
