//! Identifier syntax and JSON Pointer (RFC 6901) syntax, joining and token unescaping.
use vstd::prelude::*;

use crate::text::{chars_of, lemma_map_chars_step, map_chars, push_char};

verus! {

/// An ASCII letter.
pub open spec fn ascii_alpha(c: char) -> bool {
    ('a' <= c && c <= 'z') || ('A' <= c && c <= 'Z')
}

/// An ASCII digit.
pub open spec fn ascii_digit(c: char) -> bool {
    '0' <= c && c <= '9'
}

/// A character allowed after the first one of an identifier: `[A-Za-z0-9._-]`.
pub open spec fn identifier_rest(c: char) -> bool {
    ascii_alpha(c) || ascii_digit(c) || c == '.' || c == '_' || c == '-'
}

/// `[A-Za-z][A-Za-z0-9._-]*`
pub open spec fn is_identifier(s: Seq<char>) -> bool {
    &&& s.len() > 0
    &&& ascii_alpha(s[0])
    &&& forall|i: int| 1 <= i < s.len() ==> identifier_rest(#[trigger] s[i])
}

/// Every `~` is followed by `0` or `1`.
pub open spec fn escapes_well_formed(s: Seq<char>) -> bool {
    forall|i: int| 0 <= i < s.len() && #[trigger] s[i] == '~' ==> i + 1 < s.len() && (s[i + 1] == '0' || s[i + 1] == '1')
}

/// JSON Pointer syntax: empty (the root) or `/`-prefixed with well-formed `~` escapes.
pub open spec fn is_pointer(s: Seq<char>) -> bool {
    s.len() == 0 || (s[0] == '/' && escapes_well_formed(s))
}

/// Whether `value` is an identifier of the graph or task namespace.
pub fn valid_identifier(value: &str) -> (result: bool)
    ensures
        result == is_identifier(value@),
{
    let chars = chars_of(value);
    if chars.len() == 0 {
        return false;
    }
    let first = chars[0];
    if !(('a' <= first && first <= 'z') || ('A' <= first && first <= 'Z')) {
        return false;
    }
    let mut i: usize = 1;
    while i < chars.len()
        invariant
            chars@ == value@,
            1 <= i <= chars.len(),
            forall|k: int| 1 <= k < i ==> identifier_rest(#[trigger] chars@[k]),
        decreases chars.len() - i,
    {
        let c = chars[i];
        if !(('a' <= c && c <= 'z') || ('A' <= c && c <= 'Z') || ('0' <= c && c <= '9') || c == '.'
            || c == '_' || c == '-') {
            return false;
        }
        i = i + 1;
    }
    true
}

/// Whether `value` is a JSON Pointer; the root pointer `""` only when `allow_root`.
pub fn valid_pointer(value: &str, allow_root: bool) -> (result: bool)
    ensures
        result == if value@.len() == 0 { allow_root } else { is_pointer(value@) },
{
    let chars = chars_of(value);
    if chars.len() == 0 {
        return allow_root;
    }
    if chars[0] != '/' {
        return false;
    }
    let mut i: usize = 0;
    while i < chars.len()
        invariant
            chars@ == value@,
            i <= chars.len(),
            forall|k: int| 0 <= k < i && #[trigger] chars@[k] == '~' ==> k + 1 < chars@.len() && (
            chars@[k + 1] == '0' || chars@[k + 1] == '1'),
        decreases chars.len() - i,
    {
        if chars[i] == '~' {
            if i + 1 >= chars.len() || !(chars[i + 1] == '0' || chars[i + 1] == '1') {
                return false;
            }
        }
        i = i + 1;
    }
    true
}

/// Escaping one character of a pointer token: `~` as `~0` and `/` as `~1`.
pub open spec fn escape_char(c: char) -> Seq<char> {
    if c == '~' {
        seq!['~', '0']
    } else if c == '/' {
        seq!['~', '1']
    } else {
        seq![c]
    }
}

pub open spec fn escape_map() -> spec_fn(char) -> Seq<char> {
    |c: char| escape_char(c)
}

/// `base` extended by one escaped reference token.
pub open spec fn joined(base: Seq<char>, token: Seq<char>) -> Seq<char> {
    base.push('/') + map_chars(token, escape_map())
}

/// Appends `/` and the escaped `token` to a pointer under construction.
pub fn push_token(out: &mut String, token: &str)
    ensures
        final(out)@ == joined(old(out)@, token@),
{
    let chars = chars_of(token);
    push_char(out, '/');
    let ghost start = out@;
    let mut i: usize = 0;
    while i < chars.len()
        invariant
            chars@ == token@,
            i <= chars.len(),
            out@ == start + map_chars(chars@.take(i as int), escape_map()),
        decreases chars.len() - i,
    {
        let c = chars[i];
        proof {
            lemma_map_chars_step(chars@, i as int, escape_map());
        }
        if c == '~' {
            push_char(out, '~');
            push_char(out, '0');
        } else if c == '/' {
            push_char(out, '~');
            push_char(out, '1');
        } else {
            push_char(out, c);
        }
        assert(out@ =~= start + map_chars(chars@.take(i + 1), escape_map()));
        i = i + 1;
    }
    assert(chars@.take(chars.len() as int) =~= chars@);
}

/// The pointer `base` extended by the reference token `token`.
pub fn join_pointer(base: &str, token: &str) -> (result: String)
    ensures
        result@ == joined(base@, token@),
{
    let mut out = base.to_owned();
    push_token(&mut out, token);
    out
}

/// Decoding of a reference token: `~0` is `~`, `~1` is `/`, any other `~` is malformed.
pub open spec fn unescaped(s: Seq<char>) -> Option<Seq<char>>
    decreases s.len(),
{
    if s.len() == 0 {
        Some(Seq::empty())
    } else if s[0] == '~' {
        if s.len() >= 2 && (s[1] == '0' || s[1] == '1') {
            match unescaped(s.skip(2)) {
                Some(rest) => Some(seq![if s[1] == '0' { '~' } else { '/' }] + rest),
                None => None,
            }
        } else {
            None
        }
    } else {
        match unescaped(s.drop_first()) {
            Some(rest) => Some(seq![s[0]] + rest),
            None => None,
        }
    }
}

/// Decodes the `~0`/`~1` escapes of one reference token.
pub fn unescape_pointer_token(token: &str) -> (result: Option<String>)
    ensures
        match result {
            Some(text) => unescaped(token@) == Some(text@),
            None => unescaped(token@) is None,
        },
{
    let chars = chars_of(token);
    assert(chars@.skip(0) =~= chars@);
    unescape_chars(&chars, 0)
}

/// Decodes `chars[from..]`, iteratively.
pub fn unescape_chars(chars: &Vec<char>, from: usize) -> (result: Option<String>)
    requires
        from <= chars.len(),
    ensures
        match result {
            Some(text) => unescaped(chars@.skip(from as int)) == Some(text@),
            None => unescaped(chars@.skip(from as int)) is None,
        },
{
    let mut out = String::new();
    let mut i: usize = from;
    while i < chars.len()
        invariant
            from <= i <= chars.len(),
            unescaped(chars@.skip(from as int)) == match unescaped(chars@.skip(i as int)) {
                Some(rest) => Some(out@ + rest),
                None => None,
            },
        decreases chars.len() - i,
    {
        let ghost tail = chars@.skip(i as int);
        assert(tail[0] == chars@[i as int]);
        if chars[i] == '~' {
            if i + 1 < chars.len() && (chars[i + 1] == '0' || chars[i + 1] == '1') {
                assert(tail[1] == chars@[i + 1]);
                assert(tail.skip(2) =~= chars@.skip(i + 2));
                if chars[i + 1] == '0' {
                    push_char(&mut out, '~');
                } else {
                    push_char(&mut out, '/');
                }
                i = i + 2;
            } else {
                assert(unescaped(tail) is None);
                return None;
            }
        } else {
            assert(tail.drop_first() =~= chars@.skip(i + 1));
            push_char(&mut out, chars[i]);
            i = i + 1;
        }
    }
    assert(chars@.skip(i as int) =~= Seq::<char>::empty());
    assert(out@ + Seq::<char>::empty() =~= out@);
    Some(out)
}

} // verus!
