//! Character-level text helpers shared by the renderers, validators and pointer code.
use vstd::prelude::*;

verus! {

/// Appends one character to a string (`String::push`).
#[verifier::external_body]
pub(crate) fn push_char(text: &mut String, c: char)
    ensures
        final(text)@ == old(text)@.push(c),
{
    text.push(c);
}

/// The `{:?}` rendering of a string slice (`<str as Debug>::fmt`).
pub uninterp spec fn debug_text(text: Seq<char>) -> Seq<char>;

/// Renders a string slice as Rust's `Debug` formatting does: quoted, with escapes.
/// The contract names the result; the escaping rules themselves are std's.
#[verifier::external_body]
pub(crate) fn debug_quoted(text: &str) -> (result: String)
    ensures
        result@ == debug_text(text@),
{
    format!("{:?}", text)
}

/// The characters of a string slice, in order.
pub fn chars_of(text: &str) -> (result: Vec<char>)
    ensures
        result@ == text@,
{
    let mut result: Vec<char> = Vec::new();
    for c in it: text.chars()
        invariant
            result@ == it.seq().take(it.index() as int),
            it.seq() == text@,
    {
        result.push(c);
    }
    result
}

/// A fresh owned copy of a string slice.
pub fn owned(text: &str) -> (result: String)
    ensures
        result@ == text@,
{
    text.to_owned()
}

/// Whether two character sequences are equal.
pub fn text_eq(left: &str, right: &str) -> (result: bool)
    ensures
        result == (left@ == right@),
{
    let a = chars_of(left);
    let b = chars_of(right);
    if a.len() != b.len() {
        return false;
    }
    let mut i: usize = 0;
    while i < a.len()
        invariant
            a@ == left@,
            b@ == right@,
            a.len() == b.len(),
            i <= a.len(),
            forall|k: int| 0 <= k < i ==> a@[k] == b@[k],
        decreases a.len() - i,
    {
        if a[i] != b[i] {
            return false;
        }
        i = i + 1;
    }
    assert(a@ =~= b@);
    true
}

/// Whether `prefix` is a prefix of `text`.
pub open spec fn is_prefix(prefix: Seq<char>, text: Seq<char>) -> bool {
    prefix.len() <= text.len() && text.subrange(0, prefix.len() as int) == prefix
}

/// Whether `text` starts with `prefix`.
pub fn starts_with(text: &str, prefix: &str) -> (result: bool)
    ensures
        result == is_prefix(prefix@, text@),
{
    let a = chars_of(text);
    let b = chars_of(prefix);
    if b.len() > a.len() {
        return false;
    }
    let mut i: usize = 0;
    while i < b.len()
        invariant
            a@ == text@,
            b@ == prefix@,
            b.len() <= a.len(),
            i <= b.len(),
            forall|k: int| 0 <= k < i ==> a@[k] == b@[k],
        decreases b.len() - i,
    {
        if a[i] != b[i] {
            assert(a@.subrange(0, b@.len() as int)[i as int] != b@[i as int]);
            return false;
        }
        i = i + 1;
    }
    assert(a@.subrange(0, b@.len() as int) =~= b@);
    true
}

/// Strict lexicographic order by Unicode scalar value (the order of `str`'s `Ord`).
pub open spec fn text_lt(left: Seq<char>, right: Seq<char>) -> bool
    decreases left.len(),
{
    if left.len() == 0 {
        right.len() > 0
    } else if right.len() == 0 {
        false
    } else if left[0] < right[0] {
        true
    } else if left[0] > right[0] {
        false
    } else {
        text_lt(left.drop_first(), right.drop_first())
    }
}

/// `text_lt` is irreflexive.
pub proof fn lemma_text_lt_irreflexive(a: Seq<char>)
    ensures
        !text_lt(a, a),
    decreases a.len(),
{
    if a.len() > 0 {
        lemma_text_lt_irreflexive(a.drop_first());
    }
}

/// `text_lt` is transitive.
pub proof fn lemma_text_lt_transitive(a: Seq<char>, b: Seq<char>, c: Seq<char>)
    requires
        text_lt(a, b),
        text_lt(b, c),
    ensures
        text_lt(a, c),
    decreases a.len(),
{
    if a.len() > 0 && b.len() > 0 && c.len() > 0 {
        if a[0] == b[0] && b[0] == c[0] {
            lemma_text_lt_transitive(a.drop_first(), b.drop_first(), c.drop_first());
        }
    }
}

/// Any two different texts are ordered one way or the other.
pub proof fn lemma_text_lt_total(a: Seq<char>, b: Seq<char>)
    ensures
        a == b || text_lt(a, b) || text_lt(b, a),
    decreases a.len(),
{
    if a.len() > 0 && b.len() > 0 {
        if a[0] == b[0] {
            lemma_text_lt_total(a.drop_first(), b.drop_first());
            if a.drop_first() == b.drop_first() {
                assert(a =~= seq![a[0]] + a.drop_first());
                assert(b =~= seq![b[0]] + b.drop_first());
            }
        }
    } else if a.len() == 0 && b.len() == 0 {
        assert(a =~= b);
    }
}

/// `text_lt` is asymmetric.
pub proof fn lemma_text_lt_asymmetric(a: Seq<char>, b: Seq<char>)
    requires
        text_lt(a, b),
    ensures
        !text_lt(b, a),
{
    if text_lt(b, a) {
        lemma_text_lt_transitive(a, b, a);
        lemma_text_lt_irreflexive(a);
    }
}

/// Whether `left` sorts strictly before `right` in Unicode scalar-value order.
pub fn text_less(left: &str, right: &str) -> (result: bool)
    ensures
        result == text_lt(left@, right@),
{
    let a = chars_of(left);
    let b = chars_of(right);
    let mut i: usize = 0;
    assert(a@.skip(0) =~= a@);
    assert(b@.skip(0) =~= b@);
    while i < a.len() && i < b.len()
        invariant
            a@ == left@,
            b@ == right@,
            i <= a.len(),
            i <= b.len(),
            text_lt(a@, b@) == text_lt(a@.skip(i as int), b@.skip(i as int)),
        decreases a.len() - i,
    {
        let x = a[i];
        let y = b[i];
        assert(a@.skip(i as int)[0] == a@[i as int]);
        assert(b@.skip(i as int)[0] == b@[i as int]);
        if x < y {
            return true;
        }
        if x > y {
            return false;
        }
        assert(a@.skip(i as int).drop_first() =~= a@.skip(i + 1));
        assert(b@.skip(i as int).drop_first() =~= b@.skip(i + 1));
        i = i + 1;
    }
    i < b.len()
}

/// The ASCII digit for a value below ten.
pub open spec fn digit_char(d: int) -> char {
    (48 + d) as char
}

/// Decimal notation of a natural number, without leading zeros.
pub open spec fn decimal(n: nat) -> Seq<char>
    decreases n,
{
    if n < 10 {
        seq![digit_char(n as int)]
    } else {
        decimal(n / 10).push(digit_char((n % 10) as int))
    }
}

/// Appends the decimal notation of `n`.
pub fn push_decimal(text: &mut String, n: usize)
    ensures
        final(text)@ == old(text)@ + decimal(n as nat),
    decreases n,
{
    if n >= 10 {
        push_decimal(text, n / 10);
    }
    let d: u8 = (n % 10) as u8;
    let c = (48u8 + d) as char;
    assert(c == digit_char((n % 10) as int));
    push_char(text, c);
    assert(final(text)@ =~= old(text)@ + decimal(n as nat));
}

/// Appends the decimal notation of a 64-bit `n`.
pub fn push_decimal_u64(text: &mut String, n: u64)
    ensures
        final(text)@ == old(text)@ + decimal(n as nat),
    decreases n,
{
    if n >= 10 {
        push_decimal_u64(text, n / 10);
    }
    let d: u8 = (n % 10) as u8;
    let c = (48u8 + d) as char;
    assert(c == digit_char((n % 10) as int));
    push_char(text, c);
    assert(final(text)@ =~= old(text)@ + decimal(n as nat));
}

} // verus!

verus! {

/// Replaces every character of `text` by `f` of it, in order.
pub open spec fn map_chars(text: Seq<char>, f: spec_fn(char) -> Seq<char>) -> Seq<char>
    decreases text.len(),
{
    if text.len() == 0 {
        Seq::empty()
    } else {
        map_chars(text.drop_last(), f) + f(text.last())
    }
}

/// One more character extends the mapped text by that character's image.
pub proof fn lemma_map_chars_step(text: Seq<char>, i: int, f: spec_fn(char) -> Seq<char>)
    requires
        0 <= i < text.len(),
    ensures
        map_chars(text.take(i + 1), f) == map_chars(text.take(i), f) + f(text[i]),
{
    assert(text.take(i + 1).drop_last() =~= text.take(i));
}

/// Mapping characters distributes over concatenation.
pub proof fn lemma_map_chars_concat(a: Seq<char>, b: Seq<char>, f: spec_fn(char) -> Seq<char>)
    ensures
        map_chars(a + b, f) == map_chars(a, f) + map_chars(b, f),
    decreases b.len(),
{
    if b.len() == 0 {
        assert(a + b =~= a);
        assert(map_chars(a, f) + map_chars(b, f) =~= map_chars(a, f));
    } else {
        lemma_map_chars_concat(a, b.drop_last(), f);
        assert((a + b).drop_last() =~= a + b.drop_last());
        assert((a + b).last() == b.last());
        assert(map_chars(a + b, f) =~= map_chars(a, f) + map_chars(b, f));
    }
}

/// When no character's image holds `c`, neither does the mapped text.
pub proof fn lemma_map_chars_excludes(text: Seq<char>, f: spec_fn(char) -> Seq<char>, c: char)
    requires
        forall|x: char| !(#[trigger] f(x)).contains(c),
    ensures
        !map_chars(text, f).contains(c),
    decreases text.len(),
{
    if text.len() > 0 {
        lemma_map_chars_excludes(text.drop_last(), f, c);
        let left = map_chars(text.drop_last(), f);
        let right = f(text.last());
        assert forall|k: int| 0 <= k < left.len() + right.len() implies (left + right)[k] != c by {
            if k < left.len() {
                assert((left + right)[k] == left[k]);
            } else {
                assert((left + right)[k] == right[k - left.len()]);
            }
        }
    }
}


/// The concatenation of two texts.
pub fn concat(left: &str, right: &str) -> (result: String)
    ensures
        result@ == left@ + right@,
{
    let mut out = left.to_owned();
    out.append(right);
    out
}

/// `/nodes/{index}`: the path of a node.
pub open spec fn node_path(index: int) -> Seq<char> {
    "/nodes/"@ + decimal(index as nat)
}

/// Builds the path of a node.
pub fn node_path_string(index: usize) -> (result: String)
    ensures
        result@ == node_path(index as int),
{
    let mut out = owned("/nodes/");
    push_decimal(&mut out, index);
    out
}

} // verus!
