//! Parsed JSON Pointers: reference tokens with their decoded keys and canonical array indexes.
use vstd::prelude::*;

use crate::json_pointer::{escape_char, escape_map, escapes_well_formed, is_pointer, joined, unescape_chars, unescaped};
use crate::text::{lemma_map_chars_concat, map_chars};
use crate::text::chars_of;

verus! {

/// Splits text at every `/`; the result always has at least one piece.
pub open spec fn split_tokens(s: Seq<char>) -> Seq<Seq<char>>
    decreases s.len(),
{
    if s.len() == 0 {
        seq![Seq::empty()]
    } else {
        let init = split_tokens(s.drop_last());
        if s.last() == '/' {
            init.push(Seq::empty())
        } else {
            init.update(init.len() - 1, init.last().push(s.last()))
        }
    }
}

/// Decodes every token, failing when one is malformed.
pub open spec fn unescape_all(tokens: Seq<Seq<char>>) -> Option<Seq<Seq<char>>>
    decreases tokens.len(),
{
    if tokens.len() == 0 {
        Some(Seq::empty())
    } else {
        match (unescape_all(tokens.drop_last()), unescaped(tokens.last())) {
            (Some(init), Some(last)) => Some(init.push(last)),
            _ => None,
        }
    }
}

/// The decoded reference tokens of a pointer, or `None` when it is malformed.
pub open spec fn pointer_keys(s: Seq<char>) -> Option<Seq<Seq<char>>> {
    if s.len() == 0 {
        Some(Seq::empty())
    } else if s[0] == '/' {
        unescape_all(split_tokens(s.drop_first()))
    } else {
        None
    }
}

/// The value of a decimal digit string.
pub open spec fn digits_value(s: Seq<char>) -> nat
    decreases s.len(),
{
    if s.len() == 0 {
        0
    } else {
        digits_value(s.drop_last()) * 10 + ((s.last() as int - '0' as int) as nat)
    }
}

/// A canonical array index: `0`, or digits without a leading zero, within `usize`.
pub open spec fn array_index(s: Seq<char>) -> Option<usize> {
    if s.len() > 0 && (forall|i: int| 0 <= i < s.len() ==> '0' <= #[trigger] s[i] && s[i] <= '9')
        && (s[0] != '0' || s.len() == 1) && digits_value(s) <= usize::MAX {
        Some(digits_value(s) as usize)
    } else {
        None
    }
}

proof fn lemma_split_nonempty(s: Seq<char>)
    ensures
        split_tokens(s).len() >= 1,
    decreases s.len(),
{
    if s.len() > 0 {
        lemma_split_nonempty(s.drop_last());
    }
}

proof fn lemma_split_at_slash(p: Seq<char>, q: Seq<char>)
    ensures
        split_tokens(p.push('/') + q) == split_tokens(p) + split_tokens(q),
    decreases q.len(),
{
    lemma_split_nonempty(p);
    lemma_split_nonempty(q);
    if q.len() == 0 {
        assert(p.push('/') + q =~= p.push('/'));
        assert(p.push('/').drop_last() =~= p);
        assert(split_tokens(p) + split_tokens(q) =~= split_tokens(p).push(Seq::empty()));
    } else {
        let s = p.push('/') + q;
        assert(s.drop_last() =~= p.push('/') + q.drop_last());
        assert(s.last() == q.last());
        lemma_split_at_slash(p, q.drop_last());
        lemma_split_nonempty(q.drop_last());
        let a = split_tokens(p);
        let b = split_tokens(q.drop_last());
        if q.last() == '/' {
            assert((a + b).push(Seq::empty()) =~= a + b.push(Seq::empty()));
        } else {
            let ab = a + b;
            assert(ab.update(ab.len() - 1, ab.last().push(q.last())) =~= a + b.update(b.len() - 1, b.last().push(q.last())));
        }
    }
}

proof fn lemma_unescape_all_prefix_fails(a: Seq<Seq<char>>, b: Seq<Seq<char>>)
    requires
        unescape_all(a) is None,
    ensures
        unescape_all(a + b) is None,
    decreases b.len(),
{
    if b.len() == 0 {
        assert(a + b =~= a);
    } else {
        lemma_unescape_all_prefix_fails(a, b.drop_last());
        assert((a + b).drop_last() =~= a + b.drop_last());
    }
}

/// One reference token: its decoded key and, when the key is a canonical array index, that index.
#[derive(Debug)]
pub struct PointerToken {
    key: String,
    index: Option<usize>,
}

/// A parsed JSON Pointer: its source text and its reference tokens.
#[derive(Debug)]
pub struct JsonPointer {
    source: String,
    tokens: Vec<PointerToken>,
}

impl PointerToken {
    pub closed spec fn key_view(&self) -> Seq<char> {
        self.key@
    }

    pub closed spec fn index_view(&self) -> Option<usize> {
        self.index
    }

    /// The decoded key.
    pub fn key(&self) -> (result: &str)
        ensures
            result@ == self.key_view(),
    {
        self.key.as_str()
    }

    /// The canonical array index the key denotes, if any.
    pub fn index(&self) -> (result: Option<usize>)
        ensures
            result == self.index_view(),
    {
        self.index
    }

    /// A token is well formed when its index is the canonical array index of its key.
    pub open spec fn wf(&self) -> bool {
        self.index_view() == array_index(self.key_view())
    }

    fn copy(&self) -> (result: PointerToken)
        ensures
            result.key_view() == self.key_view(),
            result.index_view() == self.index_view(),
    {
        PointerToken { key: self.key.clone(), index: self.index }
    }
}

impl JsonPointer {
    pub closed spec fn source_view(&self) -> Seq<char> {
        self.source@
    }

    /// The decoded keys of the reference tokens.
    pub open spec fn keys(&self) -> Seq<Seq<char>> {
        self.token_seq().map_values(|t: PointerToken| t.key_view())
    }

    /// The reference tokens.
    pub closed spec fn token_seq(&self) -> Seq<PointerToken> {
        self.tokens@
    }

    /// A parsed pointer agrees with its source text.
    pub open spec fn wf(&self) -> bool {
        &&& pointer_keys(self.source_view()) == Some(self.keys())
        &&& forall|i: int| 0 <= i < self.token_seq().len() ==> (#[trigger] self.token_seq()[i]).wf()
    }

    /// Parses a JSON Pointer; `None` when the text is not one.
    pub fn parse(source: &str) -> (result: Option<JsonPointer>)
        ensures
            result is Some <==> pointer_keys(source@) is Some,
            match result {
                Some(pointer) => pointer.source_view() == source@ && pointer.wf(),
                None => true,
            },
    {
        let chars = chars_of(source);
        let mut tokens: Vec<PointerToken> = Vec::new();
        if chars.len() == 0 {
            assert(tokens@.map_values(|t: PointerToken| t.key_view()) =~= Seq::<Seq<char>>::empty());
            return Some(JsonPointer { source: source.to_owned(), tokens });
        }
        if chars[0] != '/' {
            return None;
        }
        let ghost body = chars@.drop_first();
        let ghost mut done: Seq<Seq<char>> = Seq::empty();
        let mut raw: Vec<char> = Vec::new();
        let mut i: usize = 1;
        assert(body.subrange(0, 0) =~= Seq::<char>::empty());
        assert(tokens@.map_values(|t: PointerToken| t.key_view()) =~= Seq::<Seq<char>>::empty());
        while i < chars.len()
            invariant
                chars@ == source@,
                chars@.len() > 0,
                chars@[0] == '/',
                body == chars@.drop_first(),
                1 <= i <= chars.len(),
                split_tokens(body.subrange(0, i - 1)) == done.push(raw@),
                unescape_all(done) == Some(tokens@.map_values(|t: PointerToken| t.key_view())),
                forall|k: int| 0 <= k < tokens@.len() ==> (#[trigger] tokens@[k]).wf(),
            decreases chars.len() - i,
        {
            let c = chars[i];
            let ghost prefix = body.subrange(0, i - 1);
            assert(body.subrange(0, i as int) =~= prefix.push(c));
            assert(body.subrange(0, i as int).drop_last() =~= prefix);
            if c == '/' {
                assert(raw@.skip(0) =~= raw@);
                match unescape_chars(&raw, 0) {
                    Some(key) => {
                        let index = canonical_array_index(key.as_str());
                        let ghost old_tokens = tokens@;
                        let ghost raw_text = raw@;
                        tokens.push(PointerToken { key, index });
                        proof {
                            assert(tokens@.map_values(|t: PointerToken| t.key_view()) =~= old_tokens.map_values(
                                |t: PointerToken| t.key_view()).push(unescaped(raw_text)->Some_0));
                            assert(done.push(raw_text).drop_last() =~= done);
                            done = done.push(raw_text);
                        }
                        raw = Vec::new();
                        assert(raw@ =~= Seq::<char>::empty());
                    },
                    None => {
                        proof {
                            let whole = body;
                            assert(done.push(raw@).drop_last() =~= done);
                            assert(unescape_all(done.push(raw@)) is None);
                            assert(whole =~= prefix.push('/') + whole.skip(i as int));
                            lemma_split_at_slash(prefix, whole.skip(i as int));
                            lemma_unescape_all_prefix_fails(done.push(raw@), split_tokens(whole.skip(i as int)));
                        }
                        return None;
                    },
                }
            } else {
                let ghost split_before = done.push(raw@);
                raw.push(c);
                assert(split_before.update(split_before.len() - 1, split_before.last().push(c)) =~= done.push(raw@));
            }
            i = i + 1;
        }
        assert(body.subrange(0, i - 1) =~= body);
        assert(raw@.skip(0) =~= raw@);
        match unescape_chars(&raw, 0) {
            Some(key) => {
                let index = canonical_array_index(key.as_str());
                let ghost old_tokens = tokens@;
                let ghost raw_text = raw@;
                tokens.push(PointerToken { key, index });
                proof {
                    assert(tokens@.map_values(|t: PointerToken| t.key_view()) =~= old_tokens.map_values(
                        |t: PointerToken| t.key_view()).push(unescaped(raw_text)->Some_0));
                    assert(done.push(raw_text).drop_last() =~= done);
                }
                Some(JsonPointer { source: source.to_owned(), tokens })
            },
            None => {
                assert(done.push(raw@).drop_last() =~= done);
                None
            },
        }
    }

    /// The source text of the pointer.
    pub fn as_str(&self) -> (result: &str)
        ensures
            result@ == self.source_view(),
    {
        self.source.as_str()
    }

    /// The reference tokens, in order.
    pub fn tokens(&self) -> (result: &Vec<PointerToken>)
        ensures
            result@ == self.token_seq(),
    {
        &self.tokens
    }

    /// A copy of the pointer.
    pub fn copy(&self) -> (result: JsonPointer)
        ensures
            result.source_view() == self.source_view(),
            result.keys() == self.keys(),
            self.wf() ==> result.wf(),
            result.token_seq().len() == self.token_seq().len(),
            forall|i: int| 0 <= i < self.token_seq().len() ==> (#[trigger] result.token_seq()[i]).index_view()
                == self.token_seq()[i].index_view() && result.token_seq()[i].key_view() == self.token_seq()[i].key_view(),
    {
        let mut tokens: Vec<PointerToken> = Vec::new();
        let mut i: usize = 0;
        while i < self.tokens.len()
            invariant
                i <= self.tokens.len(),
                tokens@.len() == i,
                forall|k: int| 0 <= k < i ==> (#[trigger] tokens@[k]).key_view() == self.tokens@[k].key_view()
                    && tokens@[k].index_view() == self.tokens@[k].index_view(),
            decreases self.tokens.len() - i,
        {
            tokens.push(self.tokens[i].copy());
            i = i + 1;
        }
        let result = JsonPointer { source: self.source.clone(), tokens };
        assert(result.keys() =~= self.keys());
        result
    }
}

/// The canonical array index denoted by a token: `0`, or digits without a leading zero
/// that fit in `usize`.
pub fn canonical_array_index(token: &str) -> (result: Option<usize>)
    ensures
        result == array_index(token@),
{
    let chars = chars_of(token);
    if chars.len() == 0 {
        return None;
    }
    if chars[0] == '0' && chars.len() != 1 {
        return None;
    }
    let mut value: usize = 0;
    let mut i: usize = 0;
    while i < chars.len()
        invariant
            chars@ == token@,
            chars@.len() > 0,
            chars@[0] != '0' || chars@.len() == 1,
            i <= chars.len(),
            value == digits_value(chars@.take(i as int)),
            forall|k: int| 0 <= k < i ==> '0' <= #[trigger] chars@[k] && chars@[k] <= '9',
        decreases chars.len() - i,
    {
        let c = chars[i];
        assert(chars@.take(i + 1).drop_last() =~= chars@.take(i as int));
        if !('0' <= c && c <= '9') {
            return None;
        }
        let d: usize = ((c as u32) - 48) as usize;
        assert(d as int == c as int - '0' as int) by {
            assert('0' as int == 48);
        }
        match value.checked_mul(10) {
            Some(scaled) => match scaled.checked_add(d) {
                Some(next) => {
                    value = next;
                },
                None => {
                    proof {
                        lemma_digits_prefix_bounded(chars@, i + 1);
                    }
                    return None;
                },
            },
            None => {
                proof {
                    lemma_digits_prefix_bounded(chars@, i + 1);
                }
                return None;
            },
        }
        i = i + 1;
    }
    assert(chars@.take(chars.len() as int) =~= chars@);
    Some(value)
}

/// A longer prefix of a digit string is worth at least as much.
proof fn lemma_digits_prefix_bounded(s: Seq<char>, i: int)
    requires
        0 <= i <= s.len(),
    ensures
        (forall|k: int| 0 <= k < s.len() ==> '0' <= #[trigger] s[k] && s[k] <= '9') ==> digits_value(s.take(i))
            <= digits_value(s),
    decreases s.len() - i,
{
    if i < s.len() {
        lemma_digits_prefix_bounded(s, i + 1);
        assert(s.take(i + 1).drop_last() =~= s.take(i));
    } else {
        assert(s.take(i) =~= s);
    }
}


/// Escaping a token never produces `/`.
proof fn lemma_escaped_has_no_slash(token: Seq<char>)
    ensures
        !map_chars(token, escape_map()).contains('/'),
    decreases token.len(),
{
    if token.len() > 0 {
        lemma_escaped_has_no_slash(token.drop_last());
        let left = map_chars(token.drop_last(), escape_map());
        let right = escape_char(token.last());
        assert forall|k: int| 0 <= k < left.len() + right.len() implies (left + right)[k] != '/' by {
            if k < left.len() {
                assert((left + right)[k] == left[k]);
            } else {
                assert((left + right)[k] == right[k - left.len()]);
            }
        }
    }
}

/// Text without `/` is a single piece.
proof fn lemma_split_without_slash(s: Seq<char>)
    requires
        !s.contains('/'),
    ensures
        split_tokens(s) == seq![s],
    decreases s.len(),
{
    if s.len() > 0 {
        assert(!s.drop_last().contains('/')) by {
            if s.drop_last().contains('/') {
                let k = choose|k: int| 0 <= k < s.drop_last().len() && s.drop_last()[k] == '/';
                assert(s[k] == '/');
            }
        }
        lemma_split_without_slash(s.drop_last());
        assert(s[s.len() - 1] != '/');
        assert(s.drop_last().push(s.last()) =~= s);
        assert(seq![s.drop_last()].update(0, s.drop_last().push(s.last())) =~= seq![s]);
    } else {
        assert(s =~= Seq::<char>::empty());
    }
}

/// Decoding undoes escaping: every token survives a round trip through a pointer.
pub proof fn lemma_unescape_escaped(token: Seq<char>)
    ensures
        unescaped(map_chars(token, escape_map())) == Some(token),
    decreases token.len(),
{
    if token.len() > 0 {
        let head = token[0];
        let rest = token.drop_first();
        assert(token =~= seq![head] + rest);
        lemma_map_chars_concat(seq![head], rest, escape_map());
        assert(seq![head].drop_last() =~= Seq::<char>::empty());
        assert(escape_map()(head) == escape_char(head));
        assert(map_chars(seq![head].drop_last(), escape_map()) =~= Seq::<char>::empty());
        assert(map_chars(seq![head], escape_map()) =~= escape_char(head));
        lemma_unescape_escaped(rest);
        let e = map_chars(rest, escape_map());
        let whole = escape_char(head) + e;
        if head == '~' || head == '/' {
            assert(whole.skip(2) =~= e);
            assert(seq![if whole[1] == '0' { '~' } else { '/' }] + rest =~= token);
        } else {
            assert(whole.drop_first() =~= e);
            assert(seq![whole[0]] + rest =~= token);
        }
    } else {
        assert(map_chars(token, escape_map()) =~= Seq::<char>::empty());
    }
}

/// Joining a token onto a pointer appends exactly that token to its decoded keys.
pub proof fn lemma_join_appends_key(base: Seq<char>, token: Seq<char>)
    requires
        pointer_keys(base) is Some,
    ensures
        pointer_keys(joined(base, token)) == Some(pointer_keys(base)->Some_0.push(token)),
{
    let e = map_chars(token, escape_map());
    lemma_escaped_has_no_slash(token);
    lemma_split_without_slash(e);
    lemma_unescape_escaped(token);
    let whole = joined(base, token);
    if base.len() == 0 {
        assert(whole.drop_first() =~= e);
        assert(seq![e].drop_last() =~= Seq::<Seq<char>>::empty());
        assert(unescape_all(Seq::<Seq<char>>::empty()) == Some(Seq::<Seq<char>>::empty()));
        assert(seq![e].last() == e);
        assert(unescaped(e) == Some(token));
        assert(unescape_all(seq![e]) == Some(Seq::<Seq<char>>::empty().push(token)));
        assert(pointer_keys(base) == Some(Seq::<Seq<char>>::empty()));
    } else {
        assert(whole.len() > 0 && whole[0] == '/');
        assert(whole.drop_first() =~= base.drop_first().push('/') + e);
        lemma_split_at_slash(base.drop_first(), e);
        let parts = split_tokens(base.drop_first()) + seq![e];
        assert(parts.drop_last() =~= split_tokens(base.drop_first()));
        assert(parts.last() == e);
        assert(unescape_all(parts) == Some(unescape_all(split_tokens(base.drop_first()))->Some_0.push(token)));
    }
}

/// Every `~` that is not the last character is followed by `0` or `1`.
spec fn escapes_open_ended(s: Seq<char>) -> bool {
    forall|i: int| 0 <= i < s.len() - 1 && #[trigger] s[i] == '~' ==> s[i + 1] == '0' || s[i + 1] == '1'
}

/// A token whose escapes are well formed decodes.
proof fn lemma_well_formed_unescapes(t: Seq<char>)
    requires
        escapes_well_formed(t),
    ensures
        unescaped(t) is Some,
    decreases t.len(),
{
    if t.len() > 0 {
        if t[0] == '~' {
            let rest = t.skip(2);
            assert forall|i: int| 0 <= i < rest.len() && #[trigger] rest[i] == '~' implies i + 1 < rest.len()
                && (rest[i + 1] == '0' || rest[i + 1] == '1') by {
                assert(rest[i] == t[i + 2]);
                assert(t[i + 2] == '~');
                assert(rest[i + 1] == t[i + 3]);
            }
            lemma_well_formed_unescapes(rest);
        } else {
            let rest = t.drop_first();
            assert forall|i: int| 0 <= i < rest.len() && #[trigger] rest[i] == '~' implies i + 1 < rest.len()
                && (rest[i + 1] == '0' || rest[i + 1] == '1') by {
                assert(rest[i] == t[i + 1]);
                assert(t[i + 1] == '~');
                assert(rest[i + 1] == t[i + 2]);
            }
            lemma_well_formed_unescapes(rest);
        }
    }
}

/// Splitting text whose escapes are open-ended: every token but the last has well-formed
/// escapes, and the last is a `/`-free suffix of the text whose escapes are open-ended.
proof fn lemma_split_escapes(u: Seq<char>)
    requires
        escapes_open_ended(u),
    ensures
        forall|k: int| 0 <= k < split_tokens(u).len() - 1 ==> escapes_well_formed(#[trigger] split_tokens(u)[k]),
        split_tokens(u).len() >= 1,
        escapes_open_ended(split_tokens(u).last()),
        split_tokens(u).last().len() <= u.len(),
        split_tokens(u).last() == u.skip(u.len() - split_tokens(u).last().len()),
    decreases u.len(),
{
    lemma_split_nonempty(u);
    if u.len() > 0 {
        let init = u.drop_last();
        assert forall|i: int| 0 <= i < init.len() - 1 && #[trigger] init[i] == '~' implies init[i + 1] == '0' || init[i + 1] == '1' by {
            assert(u[i] == init[i]);
            assert(u[i + 1] == init[i + 1]);
        }
        lemma_split_escapes(init);
        let before = split_tokens(init);
        let last = before.last();
        let tokens = split_tokens(u);
        assert(last == init.skip(init.len() - last.len()));
        if u.last() == '/' {
            assert(tokens == before.push(Seq::<char>::empty()));
            assert(escapes_well_formed(last)) by {
                assert forall|i: int| 0 <= i < last.len() && #[trigger] last[i] == '~' implies i + 1 < last.len()
                    && (last[i + 1] == '0' || last[i + 1] == '1') by {
                    let j = init.len() - last.len() + i;
                    assert(last[i] == init[j]);
                    if i + 1 == last.len() {
                        assert(u[j] == '~');
                        assert(u[j + 1] == '/');
                        assert(false);
                    } else {
                        assert(last[i + 1] == init[j + 1]);
                    }
                }
            }
            assert forall|k: int| 0 <= k < tokens.len() - 1 implies escapes_well_formed(#[trigger] tokens[k]) by {
                assert(tokens[k] == before[k]);
            }
            assert(u.skip(u.len() as int) =~= Seq::<char>::empty());
        } else {
            let grown = last.push(u.last());
            assert(tokens == before.update(before.len() - 1, grown));
            assert forall|k: int| 0 <= k < tokens.len() - 1 implies escapes_well_formed(#[trigger] tokens[k]) by {
                assert(tokens[k] == before[k]);
            }
            assert(tokens.last() == grown);
            assert forall|i: int| 0 <= i < grown.len() - 1 && #[trigger] grown[i] == '~' implies grown[i + 1] == '0' || grown[i + 1] == '1' by {
                let j = u.len() - grown.len() + i;
                assert(grown[i] == u[j]) by {
                    assert(grown[i] == last[i]);
                    assert(last[i] == init[init.len() - last.len() + i]);
                }
                if i + 1 < last.len() {
                    assert(grown[i + 1] == last[i + 1]);
                    assert(last[i + 1] == init[j + 1]);
                } else {
                    assert(grown[i + 1] == u.last());
                    assert(u[j + 1] == u.last());
                }
            }
            assert(grown =~= u.skip(u.len() - grown.len()));
        }
    } else {
        assert(split_tokens(u) == seq![Seq::<char>::empty()]);
        assert(u.skip(0) =~= Seq::<char>::empty());
    }
}

/// Decoding every token succeeds when each decodes.
proof fn lemma_unescape_all_some(tokens: Seq<Seq<char>>)
    requires
        forall|k: int| 0 <= k < tokens.len() ==> unescaped(#[trigger] tokens[k]) is Some,
    ensures
        unescape_all(tokens) is Some,
    decreases tokens.len(),
{
    if tokens.len() > 0 {
        assert forall|k: int| 0 <= k < tokens.drop_last().len() implies unescaped(#[trigger] tokens.drop_last()[k]) is Some by {
            assert(tokens.drop_last()[k] == tokens[k]);
        }
        lemma_unescape_all_some(tokens.drop_last());
        assert(unescaped(tokens.last()) is Some);
    }
}

/// Text with JSON Pointer syntax parses.
pub proof fn lemma_pointer_syntax_parses(s: Seq<char>)
    requires
        is_pointer(s),
    ensures
        pointer_keys(s) is Some,
{
    if s.len() > 0 {
        let u = s.drop_first();
        assert forall|i: int| 0 <= i < u.len() && #[trigger] u[i] == '~' implies i + 1 < u.len() && (u[i + 1] == '0' || u[i + 1] == '1') by {
            assert(u[i] == s[i + 1]);
            assert(s[i + 1] == '~');
            assert(u[i + 1] == s[i + 2]);
        }
        assert(escapes_open_ended(u));
        lemma_split_escapes(u);
        let tokens = split_tokens(u);
        let last = tokens.last();
        assert(escapes_well_formed(last)) by {
            assert forall|i: int| 0 <= i < last.len() && #[trigger] last[i] == '~' implies i + 1 < last.len()
                && (last[i + 1] == '0' || last[i + 1] == '1') by {
                let j = u.len() - last.len() + i;
                assert(last[i] == u[j]);
                assert(u[j] == '~');
                if i + 1 < last.len() {
                    assert(last[i + 1] == u[j + 1]);
                }
            }
        }
        assert forall|k: int| 0 <= k < tokens.len() implies unescaped(#[trigger] tokens[k]) is Some by {
            if k < tokens.len() - 1 {
                assert(escapes_well_formed(tokens[k]));
            }
            lemma_well_formed_unescapes(tokens[k]);
        }
        lemma_unescape_all_some(tokens);
    }
}

} // verus!
