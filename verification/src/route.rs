//! Reading the local address that leads to a peer out of the answer to a
//! routing query, such as `10.0.1.1 via 10.0.0.254 dev eth0 src 10.0.0.1`.

use crate::addr::Ipv4Addr;
use crate::error::TcpError;
use vstd::prelude::*;

verus! {

/// White space in the sense of Unicode.
pub open spec fn white_space(c: char) -> bool {
    let u = c as u32;
    ||| 0x9 <= u <= 0xD
    ||| u == 0x20
    ||| u == 0x85
    ||| u == 0xA0
    ||| u == 0x1680
    ||| 0x2000 <= u <= 0x200A
    ||| u == 0x2028
    ||| u == 0x2029
    ||| u == 0x202F
    ||| u == 0x205F
    ||| u == 0x3000
}

/// The white space between words: blank, tab, line feed, form feed, carriage return.
pub open spec fn ascii_white_space(c: char) -> bool {
    let u = c as u32;
    u == 0x20 || u == 0x9 || u == 0xA || u == 0xC || u == 0xD
}

/// `s` without white space at its start.
pub open spec fn trim_start(s: Seq<char>) -> Seq<char>
    decreases s.len(),
{
    if s.len() > 0 && white_space(s[0]) {
        trim_start(s.drop_first())
    } else {
        s
    }
}

/// `s` without white space at its end.
pub open spec fn trim_end(s: Seq<char>) -> Seq<char>
    decreases s.len(),
{
    if s.len() > 0 && white_space(s.last()) {
        trim_end(s.drop_last())
    } else {
        s
    }
}

/// The length of the word that `s` begins with.
pub open spec fn word_len(s: Seq<char>) -> nat
    decreases s.len(),
{
    if s.len() > 0 && !ascii_white_space(s[0]) {
        1 + word_len(s.drop_first())
    } else {
        0
    }
}

/// `s` without white space between words at its start.
pub open spec fn skip_space(s: Seq<char>) -> Seq<char>
    decreases s.len(),
{
    if s.len() > 0 && ascii_white_space(s[0]) {
        skip_space(s.drop_first())
    } else {
        s
    }
}

/// A word is no longer than the text, and not empty where the text begins with one.
pub proof fn lemma_word_len(s: Seq<char>)
    ensures
        word_len(s) <= s.len(),
        s.len() > 0 && !ascii_white_space(s[0]) ==> word_len(s) > 0,
    decreases s.len(),
{
    if s.len() > 0 && !ascii_white_space(s[0]) {
        lemma_word_len(s.drop_first());
    }
}

/// What is left after white space begins with a word.
pub proof fn lemma_skip_space(s: Seq<char>)
    ensures
        skip_space(s).len() <= s.len(),
        skip_space(s).len() > 0 ==> !ascii_white_space(skip_space(s)[0]),
    decreases s.len(),
{
    if s.len() > 0 && ascii_white_space(s[0]) {
        lemma_skip_space(s.drop_first());
    }
}

/// The words of `s`.
pub open spec fn words(s: Seq<char>) -> Seq<Seq<char>>
    decreases s.len(),
{
    let t = skip_space(s);
    if t.len() == 0 {
        Seq::empty()
    } else {
        proof {
            lemma_skip_space(s);
            lemma_word_len(t);
        }
        seq![t.take(word_len(t) as int)] + words(t.skip(word_len(t) as int))
    }
}

/// The word after the first `src`.
pub open spec fn word_after_src(words: Seq<Seq<char>>) -> Option<Seq<char>>
    decreases words.len(),
{
    if words.len() == 0 {
        None
    } else if words[0] == seq!['s', 'r', 'c'] {
        if words.len() > 1 {
            Some(words[1])
        } else {
            None
        }
    } else {
        word_after_src(words.drop_first())
    }
}

/// The word in which the answer to a routing query gives the source address.
pub open spec fn source_word(output: Seq<u8>) -> Option<Seq<char>> {
    word_after_src(words(trim_end(trim_start(vstd::utf8::decode_utf8(output)))))
}

/// Calls `core::str::from_utf8`.
///
/// Claimed of it: it accepts exactly the bytes that are UTF-8, and the string
/// holds the characters that they encode.
#[verifier::external_body]
fn utf8_str(bytes: &[u8]) -> (r: Option<&str>)
    ensures
        r is Some <==> vstd::utf8::valid_utf8(bytes@),
        r matches Some(s) ==> s@ == vstd::utf8::decode_utf8(bytes@),
{
    match core::str::from_utf8(bytes) {
        Ok(s) => Some(s),
        Err(_) => None,
    }
}

fn is_white_space(c: char) -> (r: bool)
    ensures
        r == white_space(c),
{
    let u: u32 = c as u32;
    (0x9 <= u && u <= 0xD) || u == 0x20 || u == 0x85 || u == 0xA0 || u == 0x1680 || (0x2000 <= u
        && u <= 0x200A) || u == 0x2028 || u == 0x2029 || u == 0x202F || u == 0x205F || u == 0x3000
}

fn is_ascii_white_space(c: char) -> (r: bool)
    ensures
        r == ascii_white_space(c),
{
    let u: u32 = c as u32;
    u == 0x20 || u == 0x9 || u == 0xA || u == 0xC || u == 0xD
}

fn chars_of(text: &str) -> (r: Vec<char>)
    ensures
        r@ == text@,
{
    let mut r: Vec<char> = Vec::new();
    for c in it: text.chars()
        invariant
            it.seq() == text@,
            r@.len() == it.index(),
            forall|i: int| 0 <= i < r@.len() ==> r@[i] == text@[i],
    {
        r.push(c);
    }
    assert(r@ =~= text@);
    r
}

/// Finds where a text begins and ends once white space around it is left out.
fn trim(chars: &[char]) -> (r: (usize, usize))
    ensures
        r.0 <= r.1 <= chars@.len(),
        chars@.subrange(r.0 as int, r.1 as int) == trim_end(trim_start(chars@)),
{
    let mut start: usize = 0;
    let end: usize = chars.len();
    assert(chars@.skip(0) =~= chars@);
    while start < end && is_white_space(chars[start])
        invariant
            start <= end == chars@.len(),
            trim_start(chars@.skip(start as int)) == trim_start(chars@),
        decreases end - start,
    {
        assert(chars@.skip(start as int).drop_first() =~= chars@.skip(start + 1));
        start = start + 1;
    }
    let mut stop: usize = end;
    assert(chars@.skip(start as int) =~= chars@.subrange(start as int, stop as int));
    assert(trim_start(chars@) == chars@.subrange(start as int, stop as int));
    while start < stop && is_white_space(chars[stop - 1])
        invariant
            start <= stop <= chars@.len(),
            trim_end(chars@.subrange(start as int, stop as int)) == trim_end(trim_start(chars@)),
        decreases stop - start,
    {
        assert(chars@.subrange(start as int, stop as int).drop_last() =~= chars@.subrange(
            start as int,
            stop - 1,
        ));
        stop = stop - 1;
    }
    (start, stop)
}

/// Finds the first word in a part of a text.
fn next_word(chars: &[char], start: usize, end: usize) -> (r: Option<(usize, usize)>)
    requires
        start <= end <= chars@.len(),
    ensures
        match r {
            Some((from, to)) => {
                &&& start <= from < to <= end
                &&& words(chars@.subrange(start as int, end as int)) == seq![
                    chars@.subrange(from as int, to as int),
                ] + words(chars@.subrange(to as int, end as int))
            },
            None => words(chars@.subrange(start as int, end as int)).len() == 0,
        },
{
    let ghost s = chars@.subrange(start as int, end as int);
    let mut from: usize = start;
    while from < end && is_ascii_white_space(chars[from])
        invariant
            start <= from <= end <= chars@.len(),
            skip_space(chars@.subrange(from as int, end as int)) == skip_space(s),
        decreases end - from,
    {
        assert(chars@.subrange(from as int, end as int).drop_first() =~= chars@.subrange(
            from + 1,
            end as int,
        ));
        from = from + 1;
    }
    let ghost t = chars@.subrange(from as int, end as int);
    assert(skip_space(s) == t);
    if from == end {
        return None;
    }
    let mut to: usize = from;
    while to < end && !is_ascii_white_space(chars[to])
        invariant
            from <= to <= end <= chars@.len(),
            word_len(t) == to - from + word_len(chars@.subrange(to as int, end as int)),
        decreases end - to,
    {
        assert(chars@.subrange(to as int, end as int).drop_first() =~= chars@.subrange(
            to + 1,
            end as int,
        ));
        to = to + 1;
    }
    assert(word_len(t) == to - from);
    proof {
        lemma_word_len(t);
    }
    assert(t.take(to - from) =~= chars@.subrange(from as int, to as int));
    assert(t.skip(to - from) =~= chars@.subrange(to as int, end as int));
    Some((from, to))
}

/// Reads the source address out of the answer to a routing query: the word
/// after the first `src`.
pub fn source_addr(output: &[u8]) -> (r: Result<Ipv4Addr, TcpError>)
    ensures
        match r {
            Ok(addr) => vstd::utf8::valid_utf8(output@) && source_word(output@) == Some(
                addr.text(),
            ),
            Err(error) => if !vstd::utf8::valid_utf8(output@) {
                error == TcpError::RouteNotUtf8
            } else {
                match source_word(output@) {
                    None => error == TcpError::NoSourceAddr,
                    Some(word) => error == TcpError::BadSourceAddr && forall|addr: Ipv4Addr|
                        word != #[trigger] addr.text(),
                }
            },
        },
{
    let text: &str = match utf8_str(output) {
        Some(text) => text,
        None => {
            return Err(TcpError::RouteNotUtf8);
        },
    };
    let buffer: Vec<char> = chars_of(text);
    let chars: &[char] = buffer.as_slice();
    let (start, end) = trim(chars);
    let ghost all = words(chars@.subrange(start as int, end as int));
    let mut at: usize = start;
    loop
        invariant_except_break
            word_after_src(words(chars@.subrange(at as int, end as int))) == word_after_src(all),
        invariant
            start <= at <= end <= chars@.len(),
        ensures
            word_after_src(all) == (if words(chars@.subrange(at as int, end as int)).len() > 0 {
                Some(words(chars@.subrange(at as int, end as int))[0])
            } else {
                None
            }),
        decreases end - at,
    {
        let ghost here = words(chars@.subrange(at as int, end as int));
        match next_word(chars, at, end) {
            Some((from, to)) => {
                let ghost rest = words(chars@.subrange(to as int, end as int));
                let ghost word = chars@.subrange(from as int, to as int);
                assert(here.drop_first() =~= rest);
                assert(here[0] == word);
                at = to;
                if to - from == 3 && chars[from] == 's' && chars[from + 1] == 'r' && chars[from + 2]
                    == 'c' {
                    assert(word =~= seq!['s', 'r', 'c']);
                    assert(rest.len() > 0 ==> here[1] == rest[0]);
                    break;
                }
                assert(word != seq!['s', 'r', 'c']) by {
                    if word == seq!['s', 'r', 'c'] {
                        assert(word[0] == 's' && word[1] == 'r' && word[2] == 'c');
                        assert(word.len() == 3);
                    }
                }
            },
            None => {
                break;
            },
        }
    }
    match next_word(chars, at, end) {
        Some((from, to)) => {
            match Ipv4Addr::parse(vstd::slice::slice_subrange(chars, from, to)) {
                Some(addr) => Ok(addr),
                None => Err(TcpError::BadSourceAddr),
            }
        },
        None => Err(TcpError::NoSourceAddr),
    }
}

/// A text without white space is one word.
pub proof fn word_is_one_word(s: Seq<char>)
    requires
        s.len() > 0,
        forall|i: int| 0 <= i < s.len() ==> !ascii_white_space(#[trigger] s[i]),
    ensures
        words(s) == seq![s],
{
    lemma_whole_word(s);
    assert(skip_space(s) == s);
    assert(s.take(s.len() as int) =~= s);
    assert(s.skip(s.len() as int) =~= Seq::empty());
    assert(words(Seq::empty()) =~= Seq::empty());
    assert(words(s) =~= seq![s]);
}

/// White space divides a text: its words are those before and those after.
pub proof fn space_divides_words(a: Seq<char>, space: char, b: Seq<char>)
    requires
        ascii_white_space(space),
    ensures
        words(a + seq![space] + b) == words(a) + words(b),
    decreases a.len(),
{
    let all = a + seq![space] + b;
    if a.len() == 0 {
        assert(all.drop_first() =~= b);
        assert(all[0] == space);
        assert(skip_space(all) == skip_space(b));
        assert(words(a) =~= Seq::empty());
        assert(words(all) == words(b));
        assert(words(a) + words(b) =~= words(b));
    } else if ascii_white_space(a[0]) {
        let rest = a.drop_first();
        assert(all.drop_first() =~= rest + seq![space] + b);
        assert(all[0] == a[0]);
        assert(skip_space(all) == skip_space(rest + seq![space] + b));
        assert(skip_space(a) == skip_space(rest));
        space_divides_words(rest, space, b);
        assert(words(all) == words(rest + seq![space] + b));
        assert(words(a) == words(rest));
    } else {
        let n = word_len(a) as int;
        lemma_word_len(a);
        let rest = a.skip(n);
        assert(all =~= a + (seq![space] + b));
        lemma_word_before(a, seq![space] + b);
        assert(all[0] == a[0]);
        assert(skip_space(all) == all);
        assert(skip_space(a) == a);
        assert(all.take(n) =~= a.take(n));
        assert(all.skip(n) =~= rest + seq![space] + b);
        space_divides_words(rest, space, b);
        assert(words(all) == seq![a.take(n)] + words(rest + seq![space] + b));
        assert(words(a) == seq![a.take(n)] + words(rest));
        assert(words(all) =~= words(a) + words(b));
    }
}

/// A word ends where white space follows.
proof fn lemma_word_before(a: Seq<char>, rest: Seq<char>)
    requires
        rest.len() > 0,
        ascii_white_space(rest[0]),
    ensures
        word_len(a + rest) == word_len(a),
    decreases a.len(),
{
    if a.len() == 0 {
        assert((a + rest)[0] == rest[0]);
    } else if !ascii_white_space(a[0]) {
        lemma_word_before(a.drop_first(), rest);
        assert((a + rest).drop_first() =~= a.drop_first() + rest);
    }
}

/// A text without white space is as long as the word that it begins with.
proof fn lemma_whole_word(s: Seq<char>)
    requires
        forall|i: int| 0 <= i < s.len() ==> !ascii_white_space(#[trigger] s[i]),
    ensures
        word_len(s) == s.len(),
    decreases s.len(),
{
    if s.len() > 0 {
        lemma_whole_word(s.drop_first());
    }
}

/// The source address is the word right after the first `src`; there is none if
/// no word is `src`, or if the first one is the last word.
pub proof fn source_follows_first_src(all: Seq<Seq<char>>)
    ensures
        match word_after_src(all) {
            Some(word) => exists|i: int|
                {
                    &&& 0 <= i < all.len() - 1
                    &&& #[trigger] all[i] == seq!['s', 'r', 'c']
                    &&& all[i + 1] == word
                    &&& forall|j: int| 0 <= j < i ==> #[trigger] all[j] != seq!['s', 'r', 'c']
                },
            None => forall|i: int|
                0 <= i < all.len() - 1 ==> #[trigger] all[i] != seq!['s', 'r', 'c'],
        },
    decreases all.len(),
{
    if all.len() > 0 && all[0] != seq!['s', 'r', 'c'] {
        let rest = all.drop_first();
        source_follows_first_src(rest);
        match word_after_src(rest) {
            Some(word) => {
                let i = choose|i: int|
                    {
                        &&& 0 <= i < rest.len() - 1
                        &&& #[trigger] rest[i] == seq!['s', 'r', 'c']
                        &&& rest[i + 1] == word
                        &&& forall|j: int|
                            0 <= j < i ==> #[trigger] rest[j] != seq!['s', 'r', 'c']
                    };
                assert(all[i + 1] == rest[i]);
                assert forall|j: int| 0 <= j < i + 1 implies #[trigger] all[j] != seq![
                    's',
                    'r',
                    'c',
                ] by {
                    if j > 0 {
                        assert(all[j] == rest[j - 1]);
                    }
                }
            },
            None => {
                assert forall|i: int| 0 <= i < all.len() - 1 implies #[trigger] all[i] != seq![
                    's',
                    'r',
                    'c',
                ] by {
                    if i > 0 {
                        assert(all[i] == rest[i - 1]);
                    }
                }
            },
        }
    } else if all.len() > 1 {
        assert(all[0] == seq!['s', 'r', 'c']);
    }
}

/// Trimming leaves out white space at both ends and nothing else: what is left
/// stands from `i` up to `j`, and neither begins nor ends with white space.
pub proof fn trimming_leaves_the_middle(s: Seq<char>) -> (r: (int, int))
    ensures
        0 <= r.0 <= r.1 <= s.len(),
        trim_end(trim_start(s)) == s.subrange(r.0, r.1),
        forall|k: int| 0 <= k < r.0 ==> white_space(#[trigger] s[k]),
        forall|k: int| r.1 <= k < s.len() ==> white_space(#[trigger] s[k]),
        r.0 < r.1 ==> !white_space(s[r.0]) && !white_space(s[r.1 - 1]),
{
    let i = lemma_trim_start(s);
    let rest = s.skip(i);
    let n = lemma_trim_end(rest);
    assert(rest.take(n) =~= s.subrange(i, i + n));
    assert forall|k: int| i + n <= k < s.len() implies white_space(#[trigger] s[k]) by {
        assert(rest[k - i] == s[k]);
    }
    if n > 0 {
        assert(rest[0] == s[i]);
        assert(rest[n - 1] == s[i + n - 1]);
    }
    (i, i + n)
}

proof fn lemma_trim_start(s: Seq<char>) -> (i: int)
    ensures
        0 <= i <= s.len(),
        trim_start(s) == s.skip(i),
        forall|k: int| 0 <= k < i ==> white_space(#[trigger] s[k]),
        i < s.len() ==> !white_space(s[i]),
    decreases s.len(),
{
    if s.len() > 0 && white_space(s[0]) {
        let rest = s.drop_first();
        let i = lemma_trim_start(rest);
        assert(rest.skip(i) =~= s.skip(i + 1));
        assert forall|k: int| 0 <= k < i + 1 implies white_space(#[trigger] s[k]) by {
            if k > 0 {
                assert(s[k] == rest[k - 1]);
            }
        }
        i + 1
    } else {
        assert(s.skip(0) =~= s);
        0
    }
}

proof fn lemma_trim_end(s: Seq<char>) -> (n: int)
    ensures
        0 <= n <= s.len(),
        trim_end(s) == s.take(n),
        forall|k: int| n <= k < s.len() ==> white_space(#[trigger] s[k]),
        n > 0 ==> !white_space(s[n - 1]),
    decreases s.len(),
{
    if s.len() > 0 && white_space(s.last()) {
        let rest = s.drop_last();
        let n = lemma_trim_end(rest);
        assert(rest.take(n) =~= s.take(n));
        assert forall|k: int| n <= k < s.len() implies white_space(#[trigger] s[k]) by {
            if k < rest.len() {
                assert(s[k] == rest[k]);
            }
        }
        n
    } else {
        assert(s.take(s.len() as int) =~= s);
        s.len() as int
    }
}

/// The characters between words are blank, tab, line feed, form feed and carriage
/// return; around a text, vertical tab and the other white space of Unicode count
/// as well.
pub proof fn white_space_characters(c: char)
    ensures
        ascii_white_space(c) <==> c == ' ' || c == '\t' || c == '\n' || c == '\u{c}' || c == '\r',
        white_space(c) <==> ascii_white_space(c) || c == '\u{b}' || c == '\u{85}' || c == '\u{a0}'
            || c == '\u{1680}' || ('\u{2000}' <= c && c <= '\u{200a}') || c == '\u{2028}' || c
            == '\u{2029}' || c == '\u{202f}' || c == '\u{205f}' || c == '\u{3000}',
{
}

/// The answer to a routing query gives, of its words once white space around it
/// is left out, the one right after the first `src`.
pub proof fn source_is_the_word_after_src(output: Seq<u8>)
    ensures
        ({
            let all = words(trim_end(trim_start(vstd::utf8::decode_utf8(output))));
            match source_word(output) {
                Some(word) => exists|i: int|
                    {
                        &&& 0 <= i < all.len() - 1
                        &&& #[trigger] all[i] == seq!['s', 'r', 'c']
                        &&& all[i + 1] == word
                        &&& forall|j: int| 0 <= j < i ==> #[trigger] all[j] != seq!['s', 'r', 'c']
                    },
                None => forall|i: int|
                    0 <= i < all.len() - 1 ==> #[trigger] all[i] != seq!['s', 'r', 'c'],
            }
        }),
{
    source_follows_first_src(words(trim_end(trim_start(vstd::utf8::decode_utf8(output)))));
}

/// The answer to a routing query gives the address that is written after the
/// word `src`, where no word before is `src`.
pub proof fn answer_gives_the_source(
    output: Seq<u8>,
    before: Seq<char>,
    addr: Ipv4Addr,
    after: Seq<char>,
)
    requires
        trim_end(trim_start(vstd::utf8::decode_utf8(output))) == before + seq![' '] + (seq![
            's',
            'r',
            'c',
        ] + seq![' '] + (addr.text() + seq![' '] + after)),
        forall|i: int|
            0 <= i < words(before).len() ==> #[trigger] words(before)[i] != seq!['s', 'r', 'c'],
    ensures
        source_word(output) == Some(addr.text()),
{
    let src = seq!['s', 'r', 'c'];
    let text = addr.text();
    crate::addr::text_holds_no_space(addr);
    let rest = text + seq![' '] + after;
    space_divides_words(before, ' ', src + seq![' '] + rest);
    space_divides_words(src, ' ', rest);
    space_divides_words(text, ' ', after);
    word_is_one_word(src);
    word_is_one_word(text);
    let all = words(before) + (seq![src] + (seq![text] + words(after)));
    let n = words(before).len() as int;
    source_follows_first_src(all);
    assert(all[n] == src);
    assert(all[n + 1] == text);
    assert forall|i: int| 0 <= i < n implies #[trigger] all[i] != src by {
        assert(all[i] == words(before)[i]);
    }
}

} // verus!
