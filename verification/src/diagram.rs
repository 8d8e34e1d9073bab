//! Renders a compiled graph as a Markdown document with a Mermaid flowchart.
use vstd::prelude::*;

use crate::graph::numbers::value_type_name;
use crate::graph::model::{CompiledGraph, ConvergeInput, GateCase, JsonNumber, Mapping, NodeKind, ValueType};
use crate::json_value::{JsonData, JsonValue};
use crate::text::{chars_of, decimal, lemma_map_chars_excludes, lemma_map_chars_step, map_chars, owned, push_char, push_decimal};

verus! {

/// A hexadecimal digit in lower case.
pub open spec fn hex_digit(d: int) -> char {
    seq!['0', '1', '2', '3', '4', '5', '6', '7', '8', '9', 'a', 'b', 'c', 'd', 'e', 'f'][d]
}

/// How a JSON string literal writes one character: `"` and `\` escaped with a backslash, the
/// control characters with a short escape where JSON has one and as `\u00xx` otherwise, any
/// other character as itself.
pub open spec fn json_escape_char(c: char) -> Seq<char> {
    if c == '"' {
        seq!['\\', '"']
    } else if c == '\\' {
        seq!['\\', '\\']
    } else if c == '\u{8}' {
        seq!['\\', 'b']
    } else if c == '\t' {
        seq!['\\', 't']
    } else if c == '\n' {
        seq!['\\', 'n']
    } else if c == '\u{c}' {
        seq!['\\', 'f']
    } else if c == '\r' {
        seq!['\\', 'r']
    } else if (c as int) < 0x20 {
        seq!['\\', 'u', '0', '0', hex_digit((c as int) / 16), hex_digit((c as int) % 16)]
    } else {
        seq![c]
    }
}

pub open spec fn json_escape_map() -> spec_fn(char) -> Seq<char> {
    |c: char| json_escape_char(c)
}

/// The text of a string as a JSON string literal: quoted, with JSON escapes.
#[verifier::opaque]
pub open spec fn json_string_text(s: Seq<char>) -> Seq<char> {
    seq!['"'] + map_chars(s, json_escape_map()) + seq!['"']
}

/// Writes a string as a JSON string literal (serde_json::to_string, which writes `"`, each
/// character as `json_escape_char` gives, and `"`; writing to memory cannot fail).
#[verifier::external_body]
fn json_string(s: &str) -> (result: String)
    ensures
        result@ == json_string_text(s@),
{
    match serde_json::to_string(s) {
        Ok(text) => text,
        Err(_) => String::new(),
    }
}

/// Mermaid label escaping: the HTML specials, `|`, and line breaks as spaces.
pub open spec fn mermaid_char(c: char) -> Seq<char> {
    if c == '&' {
        "&amp;"@
    } else if c == '<' {
        "&lt;"@
    } else if c == '>' {
        "&gt;"@
    } else if c == '"' {
        "&quot;"@
    } else if c == '|' {
        "&#124;"@
    } else if c == '\r' || c == '\n' {
        " "@
    } else {
        seq![c]
    }
}

pub open spec fn mermaid_map() -> spec_fn(char) -> Seq<char> {
    |c: char| mermaid_char(c)
}

/// Markdown escaping: the HTML specials, table and emphasis characters, brackets, backticks,
/// and line breaks as spaces.
pub open spec fn markdown_char(c: char) -> Seq<char> {
    if c == '&' {
        "&amp;"@
    } else if c == '<' {
        "&lt;"@
    } else if c == '>' {
        "&gt;"@
    } else if c == '|' {
        "&#124;"@
    } else if c == '*' {
        "&#42;"@
    } else if c == '_' {
        "&#95;"@
    } else if c == '[' {
        "&#91;"@
    } else if c == ']' {
        "&#93;"@
    } else if c == '`' {
        "&#96;"@
    } else if c == '\r' || c == '\n' {
        " "@
    } else {
        seq![c]
    }
}

pub open spec fn markdown_map() -> spec_fn(char) -> Seq<char> {
    |c: char| markdown_char(c)
}

/// Appends text escaped for a Mermaid label.
fn push_mermaid(out: &mut String, value: &str)
    ensures
        final(out)@ == old(out)@ + map_chars(value@, mermaid_map()),
{
    let chars = chars_of(value);
    let ghost start = out@;
    let mut i: usize = 0;
    while i < chars.len()
        invariant
            chars@ == value@,
            i <= chars.len(),
            out@ == start + map_chars(chars@.take(i as int), mermaid_map()),
        decreases chars.len() - i,
    {
        let c = chars[i];
        proof {
            lemma_map_chars_step(chars@, i as int, mermaid_map());
        }
        if c == '&' {
            out.append("&amp;");
        } else if c == '<' {
            out.append("&lt;");
        } else if c == '>' {
            out.append("&gt;");
        } else if c == '"' {
            out.append("&quot;");
        } else if c == '|' {
            out.append("&#124;");
        } else if c == '\r' || c == '\n' {
            out.append(" ");
        } else {
            push_char(out, c);
        }
        assert(out@ =~= start + map_chars(chars@.take(i + 1), mermaid_map()));
        i = i + 1;
    }
    assert(chars@.take(chars.len() as int) =~= chars@);
}

/// Appends text escaped for Markdown.
fn push_markdown(out: &mut String, value: &str)
    ensures
        final(out)@ == old(out)@ + map_chars(value@, markdown_map()),
{
    let chars = chars_of(value);
    let ghost start = out@;
    let mut i: usize = 0;
    while i < chars.len()
        invariant
            chars@ == value@,
            i <= chars.len(),
            out@ == start + map_chars(chars@.take(i as int), markdown_map()),
        decreases chars.len() - i,
    {
        let c = chars[i];
        proof {
            lemma_map_chars_step(chars@, i as int, markdown_map());
        }
        if c == '&' {
            out.append("&amp;");
        } else if c == '<' {
            out.append("&lt;");
        } else if c == '>' {
            out.append("&gt;");
        } else if c == '|' {
            out.append("&#124;");
        } else if c == '*' {
            out.append("&#42;");
        } else if c == '_' {
            out.append("&#95;");
        } else if c == '[' {
            out.append("&#91;");
        } else if c == ']' {
            out.append("&#93;");
        } else if c == '`' {
            out.append("&#96;");
        } else if c == '\r' || c == '\n' {
            out.append(" ");
        } else {
            push_char(out, c);
        }
        assert(out@ =~= start + map_chars(chars@.take(i + 1), markdown_map()));
        i = i + 1;
    }
    assert(chars@.take(chars.len() as int) =~= chars@);
}

/// Text escaped for a Mermaid label.
pub fn mermaid_text(value: &str) -> (result: String)
    ensures
        result@ == map_chars(value@, mermaid_map()),
{
    let mut out = String::new();
    push_mermaid(&mut out, value);
    out
}

/// Text escaped for Markdown.
pub fn markdown_text(value: &str) -> (result: String)
    ensures
        result@ == map_chars(value@, markdown_map()),
{
    let mut out = String::new();
    push_markdown(&mut out, value);
    out
}

/// Text as inline code: escaped and wrapped in `<code>`.
pub fn markdown_code(value: &str) -> (result: String)
    ensures
        result@ == "<code>"@ + map_chars(value@, markdown_map()) + "</code>"@,
{
    let mut out = owned("<code>");
    push_markdown(&mut out, value);
    out.append("</code>");
    out
}

/// A Mermaid label cannot end its quotes, its edge label or its line.
pub proof fn lemma_mermaid_text_is_inert(value: Seq<char>)
    ensures
        !map_chars(value, mermaid_map()).contains('"'),
        !map_chars(value, mermaid_map()).contains('|'),
        !map_chars(value, mermaid_map()).contains('\n'),
        !map_chars(value, mermaid_map()).contains('<'),
{
    reveal_strlit("&amp;");
    reveal_strlit("&lt;");
    reveal_strlit("&gt;");
    reveal_strlit("&quot;");
    reveal_strlit("&#124;");
    reveal_strlit(" ");
    assert forall|x: char| !(#[trigger] mermaid_map()(x)).contains('"') && !mermaid_map()(x).contains('|')
        && !mermaid_map()(x).contains('\n') && !mermaid_map()(x).contains('<') by {
        let img = mermaid_char(x);
        if x == '&' || x == '<' || x == '>' || x == '"' || x == '|' || x == '\r' || x == '\n' {
            assert forall|k: int| 0 <= k < img.len() implies img[k] != '"' && img[k] != '|' && img[k] != '\n'
                && img[k] != '<' by {}
        } else {
            assert(img =~= seq![x]);
        }
    }
    lemma_map_chars_excludes(value, mermaid_map(), '"');
    lemma_map_chars_excludes(value, mermaid_map(), '|');
    lemma_map_chars_excludes(value, mermaid_map(), '\n');
    lemma_map_chars_excludes(value, mermaid_map(), '<');
}

/// Escaped Markdown cannot break a table cell, start emphasis, a link or code, or a line.
pub proof fn lemma_markdown_text_is_inert(value: Seq<char>)
    ensures
        !map_chars(value, markdown_map()).contains('|'),
        !map_chars(value, markdown_map()).contains('`'),
        !map_chars(value, markdown_map()).contains('*'),
        !map_chars(value, markdown_map()).contains('\n'),
        !map_chars(value, markdown_map()).contains('<'),
{
    reveal_strlit("&amp;");
    reveal_strlit("&lt;");
    reveal_strlit("&gt;");
    reveal_strlit("&#124;");
    reveal_strlit("&#42;");
    reveal_strlit("&#95;");
    reveal_strlit("&#91;");
    reveal_strlit("&#93;");
    reveal_strlit("&#96;");
    reveal_strlit(" ");
    assert forall|x: char| !(#[trigger] markdown_map()(x)).contains('|') && !markdown_map()(x).contains('`')
        && !markdown_map()(x).contains('*') && !markdown_map()(x).contains('\n') && !markdown_map()(x).contains('<') by {
        let img = markdown_char(x);
        if x == '&' || x == '<' || x == '>' || x == '|' || x == '*' || x == '_' || x == '[' || x == ']' || x == '`'
            || x == '\r' || x == '\n' {
            assert forall|k: int| 0 <= k < img.len() implies img[k] != '|' && img[k] != '`' && img[k] != '*'
                && img[k] != '\n' && img[k] != '<' by {}
        } else {
            assert(img =~= seq![x]);
        }
    }
    lemma_map_chars_excludes(value, markdown_map(), '|');
    lemma_map_chars_excludes(value, markdown_map(), '`');
    lemma_map_chars_excludes(value, markdown_map(), '*');
    lemma_map_chars_excludes(value, markdown_map(), '\n');
    lemma_map_chars_excludes(value, markdown_map(), '<');
}

/// The texts of the numbers a diagram shows that only floating-point arithmetic can write:
/// binary64 values by bit pattern, and the percentage label of each route of each randomised
/// gate, by node.
pub struct NumberTexts {
    pub floats: Vec<(u64, String)>,
    pub routes: Vec<Vec<String>>,
}

/// Decimal notation of a signed integer.
pub open spec fn integer_text(i: int) -> Seq<char> {
    if i < 0 {
        "-"@ + crate::text::decimal((-i) as nat)
    } else {
        crate::text::decimal(i as nat)
    }
}

fn push_integer(out: &mut String, i: i64)
    ensures
        final(out)@ == old(out)@ + integer_text(i as int),
{
    if i < 0 {
        out.append("-");
        let magnitude: u64 = if i == i64::MIN {
            9223372036854775808u64
        } else {
            (-i) as u64
        };
        crate::text::push_decimal_u64(out, magnitude);
    } else {
        crate::text::push_decimal_u64(out, i as u64);
    }
    assert(final(out)@ =~= old(out)@ + integer_text(i as int));
}

/// The text given for a binary64 value, or nothing when none is given.
pub open spec fn float_text(floats: Seq<(u64, String)>, bits: u64) -> Seq<char>
    decreases floats.len(),
{
    if floats.len() == 0 {
        Seq::empty()
    } else if floats[0].0 == bits {
        floats[0].1@
    } else {
        float_text(floats.drop_first(), bits)
    }
}

fn push_float(out: &mut String, bits: u64, texts: &NumberTexts)
    ensures
        final(out)@ == old(out)@ + float_text(texts.floats@, bits),
{
    let mut k: usize = 0;
    assert(texts.floats@.skip(0) =~= texts.floats@);
    while k < texts.floats.len()
        invariant
            k <= texts.floats.len(),
            out@ == old(out)@,
            float_text(texts.floats@, bits) == float_text(texts.floats@.skip(k as int), bits),
        decreases texts.floats.len() - k,
    {
        assert(texts.floats@.skip(k as int)[0] == texts.floats@[k as int]);
        if texts.floats[k].0 == bits {
            out.append(texts.floats[k].1.as_str());
            return;
        }
        assert(texts.floats@.skip(k as int).drop_first() =~= texts.floats@.skip(k + 1));
        k = k + 1;
    }
}

/// The text of a number.
pub open spec fn number_text(n: JsonNumber, floats: Seq<(u64, String)>) -> Seq<char> {
    match n {
        JsonNumber::Integer(i) => integer_text(i as int),
        JsonNumber::Float(b) => float_text(floats, b.bits),
    }
}

fn push_number(out: &mut String, n: JsonNumber, texts: &NumberTexts)
    ensures
        final(out)@ == old(out)@ + number_text(n, texts.floats@),
{
    match n {
        JsonNumber::Integer(i) => push_integer(out, i),
        JsonNumber::Float(b) => push_float(out, b.bits, texts),
    }
}

/// Compact JSON text for a value; numbers are written as the given texts say.
pub open spec fn json_text(d: JsonData, floats: Seq<(u64, String)>) -> Seq<char>
    decreases d, 0int,
{
    match d {
        JsonData::Null => "null"@,
        JsonData::Bool(b) => if b {
            "true"@
        } else {
            "false"@
        },
        JsonData::Integer(i) => integer_text(i as int),
        JsonData::Number(bits) => float_text(floats, bits),
        JsonData::Text(s) => json_string_text(s),
        JsonData::Array(items) => "["@ + json_items(items, floats, items.len() as int) + "]"@,
        JsonData::Object(members) => "{"@ + json_members(members, floats, members.len() as int) + "}"@,
    }
}

/// The first `n` items, separated by commas.
pub open spec fn json_items(items: Seq<JsonData>, floats: Seq<(u64, String)>, n: int) -> Seq<char>
    decreases items, n,
{
    if n <= 0 || n > items.len() {
        Seq::empty()
    } else if n == 1 {
        json_text(items[0], floats)
    } else {
        json_items(items, floats, n - 1) + ","@ + json_text(items[n - 1], floats)
    }
}

/// The first `n` members as `"key":value`, separated by commas.
pub open spec fn json_members(members: Seq<(Seq<char>, JsonData)>, floats: Seq<(u64, String)>, n: int) -> Seq<char>
    decreases members, n,
{
    if n <= 0 || n > members.len() {
        Seq::empty()
    } else if n == 1 {
        json_string_text(members[0].0) + ":"@ + json_text(members[0].1, floats)
    } else {
        json_members(members, floats, n - 1) + ","@ + json_string_text(members[n - 1].0) + ":"@ + json_text(members[n - 1].1, floats)
    }
}

/// Appends compact JSON text for a value.
fn push_json(out: &mut String, value: &JsonValue, texts: &NumberTexts)
    ensures
        final(out)@ == old(out)@ + json_text(value@, texts.floats@),
    decreases value,
{
    let ghost start = out@;
    match value {
        JsonValue::Null => out.append("null"),
        JsonValue::Bool(b) => if *b {
            out.append("true")
        } else {
            out.append("false")
        },
        JsonValue::Integer(i) => push_integer(out, *i),
        JsonValue::Number(b) => push_float(out, b.bits, texts),
        JsonValue::String(s) => out.append(json_string(s.as_str()).as_str()),
        JsonValue::Array(items) => {
            let ghost d = value@->Array_0;
            assert(d.len() == items.len());
            out.append("[");
            let mut k: usize = 0;
            while k < items.len()
                invariant
                    k <= items.len(),
                    *value == JsonValue::Array(*items),
                    d == value@->Array_0,
                    d.len() == items.len(),
                    out@ == start + "["@ + json_items(d, texts.floats@, k as int),
                decreases items.len() - k,
            {
                assert(d[k as int] == items[k as int]@);
                if k > 0 {
                    out.append(",");
                }
                proof {
                    assert(decreases_to!(*value => value->Array_0));
                    assert(decreases_to!(*items => items[k as int]));
                }
                push_json(out, &items[k], texts);
                k = k + 1;
            }
            out.append("]");
        },
        JsonValue::Object(members) => {
            let ghost d = value@->Object_0;
            assert(d.len() == members.len());
            out.append("{");
            let mut k: usize = 0;
            while k < members.len()
                invariant
                    k <= members.len(),
                    *value == JsonValue::Object(*members),
                    d == value@->Object_0,
                    d.len() == members.len(),
                    out@ == start + "{"@ + json_members(d, texts.floats@, k as int),
                decreases members.len() - k,
            {
                assert(d[k as int] == (members[k as int].0@, members[k as int].1@));
                if k > 0 {
                    out.append(",");
                }
                out.append(json_string(members[k].0.as_str()).as_str());
                out.append(":");
                proof {
                    assert(decreases_to!(*value => value->Object_0));
                    assert(decreases_to!(*members => members[k as int]));
                    assert(decreases_to!(members[k as int] => members[k as int].1));
                }
                push_json(out, &members[k].1, texts);
                k = k + 1;
            }
            out.append("}");
        },
    }
}

/// The label of a node type.
pub open spec fn node_type_name(kind: NodeKind) -> Seq<char> {
    match kind {
        NodeKind::Task { .. } => "task"@,
        NodeKind::MapSchema { .. } => "map schema"@,
        NodeKind::Deterministic { .. } => "deterministic gate"@,
        NodeKind::Randomised { .. } => "randomised gate"@,
        NodeKind::FanOut { .. } => "fan-out"@,
        NodeKind::Converge { .. } => "convergence"@,
        NodeKind::Raise { .. } => "raise error"@,
    }
}

fn node_type_label(kind: &NodeKind) -> (result: &'static str)
    ensures
        result@ == node_type_name(*kind),
{
    match kind {
        NodeKind::Task { .. } => "task",
        NodeKind::MapSchema { .. } => "map schema",
        NodeKind::Deterministic { .. } => "deterministic gate",
        NodeKind::Randomised { .. } => "randomised gate",
        NodeKind::FanOut { .. } => "fan-out",
        NodeKind::Converge { .. } => "convergence",
        NodeKind::Raise { .. } => "raise error",
    }
}

/// The parts, one after another.
pub open spec fn concat_all(parts: Seq<Seq<char>>) -> Seq<char>
    decreases parts.len(),
{
    if parts.len() == 0 {
        Seq::empty()
    } else {
        concat_all(parts.drop_last()) + parts.last()
    }
}

/// The parts with `sep` between each two.
pub open spec fn join_with(parts: Seq<Seq<char>>, sep: Seq<char>) -> Seq<char>
    decreases parts.len(),
{
    if parts.len() == 0 {
        Seq::empty()
    } else if parts.len() == 1 {
        parts[0]
    } else {
        join_with(parts.drop_last(), sep) + sep + parts.last()
    }
}

/// Appending the next part extends the concatenation of a prefix.
proof fn lemma_concat_step(parts: Seq<Seq<char>>, k: int)
    requires
        0 <= k < parts.len(),
    ensures
        concat_all(parts.take(k + 1)) == concat_all(parts.take(k)) + parts[k],
{
    assert(parts.take(k + 1).drop_last() =~= parts.take(k));
}

/// Appending the next part, after a separator unless it is the first, extends the joined prefix.
proof fn lemma_join_step(parts: Seq<Seq<char>>, sep: Seq<char>, k: int)
    requires
        0 <= k < parts.len(),
    ensures
        join_with(parts.take(k + 1), sep) == if k == 0 {
            parts[0]
        } else {
            join_with(parts.take(k), sep) + sep + parts[k]
        },
{
    assert(parts.take(k + 1).drop_last() =~= parts.take(k));
}

/// The label of a gate case.
pub open spec fn gate_label(case: GateCase, floats: Seq<(u64, String)>) -> Seq<char> {
    match case {
        GateCase::Eq { value, .. } => "= "@ + json_text(value@, floats),
        GateCase::Lt { value, .. } => "< "@ + number_text(value, floats),
        GateCase::Le { value, .. } => "<= "@ + number_text(value, floats),
        GateCase::Ge { value, .. } => ">= "@ + number_text(value, floats),
        GateCase::Gt { value, .. } => "> "@ + number_text(value, floats),
        GateCase::Range { lower, upper, .. } => number_text(lower, floats) + " to "@ + number_text(upper, floats),
        GateCase::InSet { values, .. } => "one of "@ + join_with(
            Seq::new(values.len() as nat, |k: int| json_string_text(values@[k]@)),
            ", "@,
        ),
        GateCase::Otherwise { .. } => "otherwise"@,
    }
}

/// The label of a comparison case names its operator, then a space and the value's text:
/// `<` for `lt`, `<=` for `le`, `>=` for `ge`, `>` for `gt`. At one value the four labels
/// are pairwise different, so no two of these operators read alike in the diagram.
pub proof fn lemma_comparison_labels(value: JsonNumber, target: usize, floats: Seq<(u64, String)>)
    ensures
        gate_label(GateCase::Lt { value, target }, floats) == seq!['<', ' '] + number_text(value, floats),
        gate_label(GateCase::Le { value, target }, floats) == seq!['<', '=', ' '] + number_text(value, floats),
        gate_label(GateCase::Ge { value, target }, floats) == seq!['>', '=', ' '] + number_text(value, floats),
        gate_label(GateCase::Gt { value, target }, floats) == seq!['>', ' '] + number_text(value, floats),
        gate_label(GateCase::Ge { value, target }, floats) != gate_label(GateCase::Gt { value, target }, floats),
        gate_label(GateCase::Le { value, target }, floats) != gate_label(GateCase::Lt { value, target }, floats),
        gate_label(GateCase::Ge { value, target }, floats) != gate_label(GateCase::Le { value, target }, floats),
        gate_label(GateCase::Gt { value, target }, floats) != gate_label(GateCase::Lt { value, target }, floats),
        gate_label(GateCase::Ge { value, target }, floats) != gate_label(GateCase::Lt { value, target }, floats),
        gate_label(GateCase::Gt { value, target }, floats) != gate_label(GateCase::Le { value, target }, floats),
{
    reveal_strlit("< ");
    reveal_strlit("<= ");
    reveal_strlit(">= ");
    reveal_strlit("> ");
    let t = number_text(value, floats);
    let lt = gate_label(GateCase::Lt { value, target }, floats);
    let le = gate_label(GateCase::Le { value, target }, floats);
    let ge = gate_label(GateCase::Ge { value, target }, floats);
    let gt = gate_label(GateCase::Gt { value, target }, floats);
    assert(lt =~= seq!['<', ' '] + t);
    assert(le =~= seq!['<', '=', ' '] + t);
    assert(ge =~= seq!['>', '=', ' '] + t);
    assert(gt =~= seq!['>', ' '] + t);
    assert(ge[1] != gt[1]);
    assert(le[1] != lt[1]);
    assert(ge[0] != le[0]);
    assert(gt[0] != lt[0]);
    assert(ge[0] != lt[0]);
    assert(gt[0] != le[0]);
}

/// The label of an `in_range` case is its lower bound, ` to ` and its upper bound; that of an
/// `otherwise` case is the word itself.
pub proof fn lemma_range_and_otherwise_labels(lower: JsonNumber, upper: JsonNumber, target: usize, floats: Seq<(u64, String)>)
    ensures
        gate_label(GateCase::Range { lower, upper, target }, floats) == number_text(lower, floats) + seq![' ', 't', 'o', ' ']
            + number_text(upper, floats),
        gate_label(GateCase::Otherwise { target }, floats) == seq!['o', 't', 'h', 'e', 'r', 'w', 'i', 's', 'e'],
{
    reveal_strlit(" to ");
    reveal_strlit("otherwise");
    assert(" to "@ =~= seq![' ', 't', 'o', ' ']);
    assert("otherwise"@ =~= seq!['o', 't', 'h', 'e', 'r', 'w', 'i', 's', 'e']);
}

fn gate_case_label(case: &GateCase, texts: &NumberTexts) -> (result: String)
    ensures
        result@ == gate_label(*case, texts.floats@),
{
    let mut out = String::new();
    match case {
        GateCase::Eq { value, .. } => {
            out.append("= ");
            push_json(&mut out, value, texts);
        },
        GateCase::Lt { value, .. } => {
            out.append("< ");
            push_number(&mut out, *value, texts);
        },
        GateCase::Le { value, .. } => {
            out.append("<= ");
            push_number(&mut out, *value, texts);
        },
        GateCase::Ge { value, .. } => {
            out.append(">= ");
            push_number(&mut out, *value, texts);
        },
        GateCase::Gt { value, .. } => {
            out.append("> ");
            push_number(&mut out, *value, texts);
        },
        GateCase::Range { lower, upper, .. } => {
            push_number(&mut out, *lower, texts);
            out.append(" to ");
            push_number(&mut out, *upper, texts);
        },
        GateCase::InSet { values, .. } => {
            let ghost parts = Seq::new(values.len() as nat, |k: int| json_string_text(values@[k]@));
            out.append("one of ");
            let mut k: usize = 0;
            while k < values.len()
                invariant
                    k <= values.len(),
                    parts == Seq::new(values.len() as nat, |k: int| json_string_text(values@[k]@)),
                    out@ == "one of "@ + join_with(parts.take(k as int), ", "@),
                decreases values.len() - k,
            {
                proof {
                    lemma_join_step(parts, ", "@, k as int);
                }
                if k > 0 {
                    out.append(", ");
                }
                out.append(json_string(values[k].as_str()).as_str());
                k = k + 1;
            }
            assert(parts.take(values.len() as int) =~= parts);
        },
        GateCase::Otherwise { .. } => {
            out.append("otherwise");
        },
    }
    out
}

/// How an edge is drawn.
#[derive(Clone, Copy)]
pub enum EdgeKind {
    Sequential,
    Exclusive,
    Concurrent,
}

/// Concurrent into a convergence node or out of a fan-out; exclusive out of a gate or into a
/// node with several incoming edges; sequential otherwise.
pub open spec fn edge_style(g: CompiledGraph, incoming: Seq<usize>, source: usize, target: usize) -> EdgeKind {
    if g.nodes[target as int].kind is Converge || g.nodes[source as int].kind is FanOut {
        EdgeKind::Concurrent
    } else if g.nodes[source as int].kind is Deterministic || g.nodes[source as int].kind is Randomised
        || incoming[target as int] > 1 {
        EdgeKind::Exclusive
    } else {
        EdgeKind::Sequential
    }
}

fn edge_kind(g: &CompiledGraph, incoming: &Vec<usize>, source: usize, target: usize) -> (result: EdgeKind)
    requires
        source < g.nodes.len(),
        target < g.nodes.len(),
        incoming.len() == g.nodes.len(),
    ensures
        result == edge_style(*g, incoming@, source, target),
{
    let into_converge = match &g.nodes[target].kind {
        NodeKind::Converge { .. } => true,
        _ => false,
    };
    let (from_fan_out, from_gate) = match &g.nodes[source].kind {
        NodeKind::FanOut { .. } => (true, false),
        NodeKind::Deterministic { .. } | NodeKind::Randomised { .. } => (false, true),
        _ => (false, false),
    };
    if into_converge || from_fan_out {
        EdgeKind::Concurrent
    } else if from_gate || incoming[target] > 1 {
        EdgeKind::Exclusive
    } else {
        EdgeKind::Sequential
    }
}

/// The targets of the edges out of a node, in order.
pub open spec fn out_targets(kind: NodeKind) -> Seq<usize> {
    match kind {
        NodeKind::Task { next, .. } => if next is Some { seq![next->0] } else { Seq::empty() },
        NodeKind::MapSchema { next, .. } => if next is Some { seq![next->0] } else { Seq::empty() },
        NodeKind::Converge { next, .. } => if next is Some { seq![next->0] } else { Seq::empty() },
        NodeKind::Deterministic { cases, .. } => Seq::new(cases.len() as nat, |k: int| cases@[k].target_spec()),
        NodeKind::Randomised { routes } => Seq::new(routes.len() as nat, |k: int| routes@[k].target),
        NodeKind::FanOut { branches } => Seq::new(branches.len() as nat, |k: int| branches@[k].target),
        NodeKind::Raise { .. } => Seq::empty(),
    }
}

/// How often `t` occurs in `s`.
pub open spec fn occurrences(s: Seq<usize>, t: usize) -> nat
    decreases s.len(),
{
    if s.len() == 0 {
        0
    } else {
        occurrences(s.drop_last(), t) + if s.last() == t {
            1nat
        } else {
            0nat
        }
    }
}

/// How many edges out of the first `n` nodes end at `t`.
pub open spec fn edges_into(g: CompiledGraph, t: usize, n: int) -> nat
    decreases n,
{
    if n <= 0 {
        0
    } else {
        edges_into(g, t, n - 1) + occurrences(out_targets(g.nodes@[n - 1].kind), t)
    }
}

/// The number of edges into each node, held in a `usize` (saturating).
pub open spec fn incoming_of(g: CompiledGraph) -> Seq<usize> {
    Seq::new(
        g.nodes.len() as nat,
        |t: int| saturated(edges_into(g, t as usize, g.nodes.len() as int)),
    )
}

/// A count held in a `usize`: counts past the largest stay there.
pub open spec fn saturated(n: nat) -> usize {
    if n < usize::MAX {
        n as usize
    } else {
        usize::MAX
    }
}

fn count_into(counts: &mut Vec<usize>, target: usize)
    requires
        target < old(counts).len(),
    ensures
        final(counts).len() == old(counts).len(),
        forall|t: int| 0 <= t < final(counts).len() && t != target ==> final(counts)@[t] == old(counts)@[t],
        final(counts)@[target as int] == saturated((old(counts)@[target as int] + 1) as nat),
{
    if counts[target] < usize::MAX {
        counts.set(target, counts[target] + 1);
    }
}

/// Counts the occurrences of each target of `targets` into `counts`.
fn count_targets(counts: &mut Vec<usize>, targets: Ghost<Seq<usize>>, k: usize, target: usize, base: Ghost<Seq<nat>>)
    requires
        k < targets@.len(),
        targets@[k as int] == target,
        target < old(counts).len(),
        base@.len() == old(counts).len(),
        forall|t: int| 0 <= t < old(counts).len() ==> old(counts)@[t] == saturated(base@[t] + occurrences(targets@.take(k as int), t as usize)),
    ensures
        final(counts).len() == old(counts).len(),
        forall|t: int| 0 <= t < final(counts).len() ==> final(counts)@[t] == saturated(base@[t] + occurrences(targets@.take(k + 1), t as usize)),
{
    count_into(counts, target);
    assert(targets@.take(k + 1).drop_last() =~= targets@.take(k as int));
}

/// How many edges enter each node.
fn incoming_counts(g: &CompiledGraph) -> (result: Vec<usize>)
    requires
        g.wf(),
    ensures
        result@ == incoming_of(*g),
{
    let n = g.nodes.len();
    let mut counts: Vec<usize> = vec![0usize; n];
    let mut i: usize = 0;
    while i < n
        invariant
            i <= n,
            n == g.nodes.len(),
            g.wf(),
            counts.len() == n,
            forall|t: int| 0 <= t < n ==> counts@[t] == saturated(edges_into(*g, t as usize, i as int)),
        decreases n - i,
    {
        proof {
            assert(g.nodes[i as int].kind.wf(n as int));
        }
        let ghost base: Seq<nat> = Seq::new(n as nat, |t: int| edges_into(*g, t as usize, i as int));
        let ghost targets = out_targets(g.nodes@[i as int].kind);
        assert forall|t: int| 0 <= t < n implies counts@[t] == saturated(base[t] + occurrences(targets.take(0), t as usize)) by {
            assert(targets.take(0).len() == 0);
        }
        match &g.nodes[i].kind {
            NodeKind::Task { next, .. } | NodeKind::MapSchema { next, .. } | NodeKind::Converge { next, .. } => {
                if let Some(t) = next {
                    count_targets(&mut counts, Ghost(targets), 0, *t, Ghost(base));
                }
            },
            NodeKind::Deterministic { cases, .. } => {
                let mut k: usize = 0;
                while k < cases.len()
                    invariant
                        k <= cases.len(),
                        counts.len() == n,
                        targets == Seq::new(cases.len() as nat, |q: int| cases@[q].target_spec()),
                        base.len() == n,
                        forall|q: int| 0 <= q < cases.len() ==> (#[trigger] cases[q]).wf(n as int),
                        forall|t: int| 0 <= t < n ==> counts@[t] == saturated(base[t] + occurrences(targets.take(k as int), t as usize)),
                    decreases cases.len() - k,
                {
                    count_targets(&mut counts, Ghost(targets), k, target_of(&cases[k]), Ghost(base));
                    k = k + 1;
                }
            },
            NodeKind::Randomised { routes } => {
                let mut k: usize = 0;
                while k < routes.len()
                    invariant
                        k <= routes.len(),
                        counts.len() == n,
                        targets == Seq::new(routes.len() as nat, |q: int| routes@[q].target),
                        base.len() == n,
                        forall|q: int| 0 <= q < routes.len() ==> (#[trigger] routes[q]).target < n,
                        forall|t: int| 0 <= t < n ==> counts@[t] == saturated(base[t] + occurrences(targets.take(k as int), t as usize)),
                    decreases routes.len() - k,
                {
                    count_targets(&mut counts, Ghost(targets), k, routes[k].target, Ghost(base));
                    k = k + 1;
                }
            },
            NodeKind::FanOut { branches } => {
                let mut k: usize = 0;
                while k < branches.len()
                    invariant
                        k <= branches.len(),
                        counts.len() == n,
                        targets == Seq::new(branches.len() as nat, |q: int| branches@[q].target),
                        base.len() == n,
                        forall|q: int| 0 <= q < branches.len() ==> (#[trigger] branches[q]).target < n,
                        forall|t: int| 0 <= t < n ==> counts@[t] == saturated(base[t] + occurrences(targets.take(k as int), t as usize)),
                    decreases branches.len() - k,
                {
                    count_targets(&mut counts, Ghost(targets), k, branches[k].target, Ghost(base));
                    k = k + 1;
                }
            },
            NodeKind::Raise { .. } => {},
        }
        assert(targets.take(targets.len() as int) =~= targets);
        i = i + 1;
    }
    assert(counts@ =~= incoming_of(*g));
    counts
}

fn target_of(case: &GateCase) -> (result: usize)
    ensures
        result == case.target_spec(),
{
    match case {
        GateCase::Eq { target, .. } => *target,
        GateCase::Lt { target, .. } => *target,
        GateCase::Le { target, .. } => *target,
        GateCase::Ge { target, .. } => *target,
        GateCase::Gt { target, .. } => *target,
        GateCase::Range { target, .. } => *target,
        GateCase::InSet { target, .. } => *target,
        GateCase::Otherwise { target } => *target,
    }
}

/// The flow of the last of the first `n` inputs that comes from `source`, as an edge label.
pub open spec fn last_flow(inputs: Seq<ConvergeInput>, source: usize, n: int) -> Option<Seq<char>>
    decreases n,
{
    if n <= 0 || n > inputs.len() {
        None
    } else if inputs[n - 1].source == source {
        Some("flow: "@ + inputs[n - 1].flow_id@)
    } else {
        last_flow(inputs, source, n - 1)
    }
}

/// The flow label of an edge into a convergence node: the last input from that source.
pub open spec fn flow_label(g: CompiledGraph, source: usize, target: usize) -> Option<Seq<char>> {
    match g.nodes@[target as int].kind {
        NodeKind::Converge { inputs, .. } => last_flow(inputs@, source, inputs.len() as int),
        _ => None,
    }
}

fn convergence_label(g: &CompiledGraph, source: usize, target: usize) -> (result: Option<String>)
    requires
        target < g.nodes.len(),
    ensures
        match result {
            Some(l) => flow_label(*g, source, target) == Some(l@),
            None => flow_label(*g, source, target) is None,
        },
{
    match &g.nodes[target].kind {
        NodeKind::Converge { inputs, .. } => {
            let mut found: Option<String> = None;
            let mut k: usize = 0;
            while k < inputs.len()
                invariant
                    k <= inputs.len(),
                    match found {
                        Some(l) => last_flow(inputs@, source, k as int) == Some(l@),
                        None => last_flow(inputs@, source, k as int) is None,
                    },
                decreases inputs.len() - k,
            {
                if inputs[k].source == source {
                    let mut label = owned("flow: ");
                    label.append(inputs[k].flow_id.as_str());
                    found = Some(label);
                }
                k = k + 1;
            }
            found
        },
        _ => None,
    }
}

/// One edge line: the arrow drawn as the edge kind says, with its label escaped for Mermaid.
pub open spec fn edge_line(source: usize, target: usize, label: Option<Seq<char>>, kind: EdgeKind) -> Seq<char> {
    let arrow = match (kind, label) {
        (EdgeKind::Sequential, Some(l)) => "-->|\""@ + map_chars(l, mermaid_map()) + "\"|"@,
        (EdgeKind::Sequential, None) => "-->"@,
        (EdgeKind::Exclusive, Some(l)) => "-. \""@ + map_chars(l, mermaid_map()) + "\" .->"@,
        (EdgeKind::Exclusive, None) => "-.->"@,
        (EdgeKind::Concurrent, Some(l)) => "== \""@ + map_chars(l, mermaid_map()) + "\" ==>"@,
        (EdgeKind::Concurrent, None) => "==>"@,
    };
    "    n"@ + decimal(source as nat) + " "@ + arrow + " n"@ + decimal(target as nat) + "\n"@
}

spec fn opt_view(label: Option<String>) -> Option<Seq<char>> {
    match label {
        Some(l) => Some(l@),
        None => None,
    }
}

/// Appends one edge line.
#[verifier::spinoff_prover]
#[verifier::rlimit(40)]
fn write_edge(out: &mut String, source: usize, target: usize, label: Option<String>, kind: EdgeKind)
    ensures
        final(out)@ == old(out)@ + edge_line(source, target, opt_view(label), kind),
{
    out.append("    n");
    push_decimal(out, source);
    out.append(" ");
    let ghost mid = out@;
    match (kind, label) {
        (EdgeKind::Sequential, Some(l)) => {
            out.append("-->|\"");
            push_mermaid(out, l.as_str());
            out.append("\"|");
        },
        (EdgeKind::Sequential, None) => out.append("-->"),
        (EdgeKind::Exclusive, Some(l)) => {
            out.append("-. \"");
            push_mermaid(out, l.as_str());
            out.append("\" .->");
        },
        (EdgeKind::Exclusive, None) => out.append("-.->"),
        (EdgeKind::Concurrent, Some(l)) => {
            out.append("== \"");
            push_mermaid(out, l.as_str());
            out.append("\" ==>");
        },
        (EdgeKind::Concurrent, None) => out.append("==>"),
    }
    out.append(" n");
    push_decimal(out, target);
    out.append("\n");
}

/// Every mapping reads a source or has a default.
pub open spec fn mappings_have_values(g: CompiledGraph) -> bool {
    forall|i: int| 0 <= i < g.nodes.len() ==> match (#[trigger] g.nodes[i]).kind {
        NodeKind::MapSchema { mappings, .. } => forall|k: int| 0 <= k < mappings.len() ==> (#[trigger] mappings[k]).source is Some
            || mappings[k].default is Some,
        _ => true,
    }
}

fn values_present(mappings: &Vec<Mapping>) -> (result: bool)
    ensures
        result == forall|k: int| 0 <= k < mappings.len() ==> (#[trigger] mappings[k]).source is Some || mappings[k].default is Some,
{
    let mut k: usize = 0;
    while k < mappings.len()
        invariant
            k <= mappings.len(),
            forall|q: int| 0 <= q < k ==> (#[trigger] mappings[q]).source is Some || mappings[q].default is Some,
        decreases mappings.len() - k,
    {
        if mappings[k].source.is_none() && mappings[k].default.is_none() {
            return false;
        }
        k = k + 1;
    }
    true
}

/// Whether every mapping reads a source or has a default.
pub fn has_mapping_values(g: &CompiledGraph) -> (result: bool)
    ensures
        result == mappings_have_values(*g),
{
    let mut i: usize = 0;
    while i < g.nodes.len()
        invariant
            i <= g.nodes.len(),
            forall|q: int| 0 <= q < i ==> match (#[trigger] g.nodes[q]).kind {
                NodeKind::MapSchema { mappings, .. } => forall|k: int| 0 <= k < mappings.len() ==> (#[trigger] mappings[k]).source is Some
                    || mappings[k].default is Some,
                _ => true,
            },
        decreases g.nodes.len() - i,
    {
        match &g.nodes[i].kind {
            NodeKind::MapSchema { mappings, .. } => {
                if !values_present(mappings) {
                    return false;
                }
            },
            _ => {},
        }
        i = i + 1;
    }
    true
}

/// Text as inline code.
pub open spec fn code_text(value: Seq<char>) -> Seq<char> {
    "<code>"@ + map_chars(value, markdown_map()) + "</code>"@
}

fn push_code(out: &mut String, value: &str)
    ensures
        final(out)@ == old(out)@ + code_text(value@),
{
    out.append("<code>");
    push_markdown(out, value);
    out.append("</code>");
}

/// One mapping: its target, where its value comes from, and its type.
pub open spec fn mapping_text(m: Mapping, floats: Seq<(u64, String)>) -> Seq<char> {
    let from = match (m.source, m.default) {
        (Some(source), Some(default)) => code_text(source.source_view()) + " or default "@ + code_text(json_text(default@, floats)),
        (Some(source), None) => code_text(source.source_view()),
        (None, Some(default)) => "default "@ + code_text(json_text(default@, floats)),
        (None, None) => Seq::empty(),
    };
    code_text(m.target.source_view()) + " &larr; "@ + from + " ("@ + value_type_name(m.value_type) + ")"@
}

/// Describes one mapping: its target, where its value comes from, and its type.
#[verifier::spinoff_prover]
#[verifier::rlimit(40)]
fn push_mapping_description(out: &mut String, mapping: &Mapping, texts: &NumberTexts)
    ensures
        final(out)@ == old(out)@ + mapping_text(*mapping, texts.floats@),
{
    push_code(out, mapping.target.as_str());
    out.append(" &larr; ");
    match (&mapping.source, &mapping.default) {
        (Some(source), Some(default)) => {
            push_code(out, source.as_str());
            out.append(" or default ");
            let mut text = String::new();
            push_json(&mut text, default, texts);
            push_code(out, text.as_str());
        },
        (Some(source), None) => {
            push_code(out, source.as_str());
        },
        (None, Some(default)) => {
            out.append("default ");
            let mut text = String::new();
            push_json(&mut text, default, texts);
            push_code(out, text.as_str());
        },
        (None, None) => {},
    }
    out.append(" (");
    out.append(mapping.value_type.name());
    out.append(")");
}

/// What a node does, in a sentence.
pub open spec fn node_text(g: CompiledGraph, i: usize, floats: Seq<(u64, String)>) -> Seq<char> {
    match g.nodes@[i as int].kind {
        NodeKind::Task { task, .. } => "Calls task "@ + code_text(task@) + "."@,
        NodeKind::MapSchema { mappings, .. } => "Builds a new object: "@ + join_with(
            Seq::new(mappings.len() as nat, |k: int| mapping_text(mappings@[k], floats)),
            "; "@,
        ) + "."@,
        NodeKind::Deterministic { select, .. } => "Reads "@ + code_text(select.source_view())
            + " and follows the first matching labelled route."@,
        NodeKind::Randomised { .. } => "Chooses one labelled route using the normalised weights."@,
        NodeKind::FanOut { branches } => "Starts all "@ + decimal(branches.len() as nat) + " labelled flow branches concurrently."@,
        NodeKind::Converge { inputs, .. } => "Waits for "@ + join_with(
            Seq::new(
                inputs.len() as nat,
                |k: int| code_text(inputs@[k].flow_id@) + " from "@ + code_text(g.nodes@[inputs@[k].source as int].id@),
            ),
            ", "@,
        ) + " and creates an object keyed by those flow IDs."@,
        NodeKind::Raise { message } => "Stops routing with `GWALL`: "@ + map_chars(message@, markdown_map()) + "."@,
    }
}

/// Describes what a node does.
fn push_node_description(out: &mut String, g: &CompiledGraph, i: usize, texts: &NumberTexts)
    requires
        g.wf(),
        i < g.nodes.len(),
    ensures
        final(out)@ == old(out)@ + node_text(*g, i, texts.floats@),
{
    proof {
        assert(g.nodes[i as int].kind.wf(g.nodes.len() as int));
    }
    let ghost start = out@;
    match &g.nodes[i].kind {
        NodeKind::Task { task, .. } => {
            out.append("Calls task ");
            push_code(out, task.as_str());
            out.append(".");
        },
        NodeKind::MapSchema { mappings, .. } => {
            let ghost parts = Seq::new(mappings.len() as nat, |k: int| mapping_text(mappings@[k], texts.floats@));
            out.append("Builds a new object: ");
            let ghost head = out@;
            let mut k: usize = 0;
            while k < mappings.len()
                invariant
                    k <= mappings.len(),
                    parts == Seq::new(mappings.len() as nat, |k: int| mapping_text(mappings@[k], texts.floats@)),
                    out@ == head + join_with(parts.take(k as int), "; "@),
                decreases mappings.len() - k,
            {
                proof {
                    lemma_join_step(parts, "; "@, k as int);
                }
                if k > 0 {
                    out.append("; ");
                }
                push_mapping_description(out, &mappings[k], texts);
                k = k + 1;
            }
            assert(parts.take(mappings.len() as int) =~= parts);
            out.append(".");
        },
        NodeKind::Deterministic { select, .. } => {
            out.append("Reads ");
            push_code(out, select.as_str());
            out.append(" and follows the first matching labelled route.");
        },
        NodeKind::Randomised { .. } => {
            out.append("Chooses one labelled route using the normalised weights.");
        },
        NodeKind::FanOut { branches } => {
            out.append("Starts all ");
            push_decimal(out, branches.len());
            out.append(" labelled flow branches concurrently.");
        },
        NodeKind::Converge { inputs, .. } => {
            let ghost parts = Seq::new(
                inputs.len() as nat,
                |k: int| code_text(inputs@[k].flow_id@) + " from "@ + code_text(g.nodes@[inputs@[k].source as int].id@),
            );
            out.append("Waits for ");
            let ghost head = out@;
            let mut k: usize = 0;
            while k < inputs.len()
                invariant
                    k <= inputs.len(),
                    g.wf(),
                    forall|q: int| 0 <= q < inputs.len() ==> (#[trigger] inputs[q]).source < g.nodes.len(),
                    parts == Seq::new(
                        inputs.len() as nat,
                        |k: int| code_text(inputs@[k].flow_id@) + " from "@ + code_text(g.nodes@[inputs@[k].source as int].id@),
                    ),
                    out@ == head + join_with(parts.take(k as int), ", "@),
                decreases inputs.len() - k,
            {
                proof {
                    lemma_join_step(parts, ", "@, k as int);
                }
                if k > 0 {
                    out.append(", ");
                }
                push_code(out, inputs[k].flow_id.as_str());
                out.append(" from ");
                push_code(out, g.nodes[inputs[k].source].id.as_str());
                k = k + 1;
            }
            assert(parts.take(inputs.len() as int) =~= parts);
            out.append(" and creates an object keyed by those flow IDs.");
        },
        NodeKind::Raise { message } => {
            out.append("Stops routing with `GWALL`: ");
            push_markdown(out, message.as_str());
            out.append(".");
        },
    }
}

/// The label given for route `k` of the randomised gate at node `i`, or nothing.
pub open spec fn route_label(routes: Seq<Vec<String>>, i: int, k: int) -> Seq<char> {
    if 0 <= i < routes.len() && 0 <= k < routes[i].len() {
        routes[i]@[k]@
    } else {
        Seq::empty()
    }
}

fn route_text(texts: &NumberTexts, i: usize, k: usize) -> (result: String)
    ensures
        result@ == route_label(texts.routes@, i as int, k as int),
{
    if i < texts.routes.len() && k < texts.routes[i].len() {
        owned(texts.routes[i][k].as_str())
    } else {
        String::new()
    }
}

/// The edge lines out of node `i`: its continuation (labelled with the flow it closes when it
/// enters a convergence node), a line per gate case or route, or a line per fan-out branch.
pub open spec fn node_edges(g: CompiledGraph, incoming: Seq<usize>, i: usize, texts: NumberTexts) -> Seq<char> {
    match g.nodes@[i as int].kind {
        NodeKind::Task { next, .. } => next_edge(g, incoming, i, next),
        NodeKind::MapSchema { next, .. } => next_edge(g, incoming, i, next),
        NodeKind::Converge { next, .. } => next_edge(g, incoming, i, next),
        NodeKind::Deterministic { cases, .. } => concat_all(Seq::new(
            cases.len() as nat,
            |k: int| edge_line(i, cases@[k].target_spec(), Some(gate_label(cases@[k], texts.floats@)), EdgeKind::Exclusive),
        )),
        NodeKind::Randomised { routes } => concat_all(Seq::new(
            routes.len() as nat,
            |k: int| edge_line(i, routes@[k].target, Some(route_label(texts.routes@, i as int, k)), EdgeKind::Exclusive),
        )),
        NodeKind::FanOut { branches } => concat_all(Seq::new(
            branches.len() as nat,
            |k: int| edge_line(i, branches@[k].target, Some("branch: "@ + branches@[k].flow_id@), EdgeKind::Concurrent),
        )),
        NodeKind::Raise { .. } => Seq::empty(),
    }
}

/// The line of a node's continuation, if it has one.
pub open spec fn next_edge(g: CompiledGraph, incoming: Seq<usize>, i: usize, next: Option<usize>) -> Seq<char> {
    match next {
        Some(t) => edge_line(i, t, flow_label(g, i, t), edge_style(g, incoming, i, t)),
        None => Seq::empty(),
    }
}

/// Appends the edges out of node `i`.
fn push_edges(out: &mut String, g: &CompiledGraph, incoming: &Vec<usize>, i: usize, texts: &NumberTexts)
    requires
        g.wf(),
        i < g.nodes.len(),
        incoming.len() == g.nodes.len(),
    ensures
        final(out)@ == old(out)@ + node_edges(*g, incoming@, i, *texts),
{
    proof {
        assert(g.nodes[i as int].kind.wf(g.nodes.len() as int));
    }
    let ghost start = out@;
    match &g.nodes[i].kind {
        NodeKind::Task { next, .. } | NodeKind::MapSchema { next, .. } | NodeKind::Converge { next, .. } => {
            if let Some(t) = next {
                let label = convergence_label(g, i, *t);
                write_edge(out, i, *t, label, edge_kind(g, incoming, i, *t));
            }
        },
        NodeKind::Deterministic { cases, .. } => {
            let ghost parts = Seq::new(
                cases.len() as nat,
                |k: int| edge_line(i, cases@[k].target_spec(), Some(gate_label(cases@[k], texts.floats@)), EdgeKind::Exclusive),
            );
            let mut k: usize = 0;
            while k < cases.len()
                invariant
                    k <= cases.len(),
                    parts == Seq::new(
                        cases.len() as nat,
                        |k: int| edge_line(i, cases@[k].target_spec(), Some(gate_label(cases@[k], texts.floats@)), EdgeKind::Exclusive),
                    ),
                    out@ == start + concat_all(parts.take(k as int)),
                decreases cases.len() - k,
            {
                proof {
                    lemma_concat_step(parts, k as int);
                }
                write_edge(out, i, target_of(&cases[k]), Some(gate_case_label(&cases[k], texts)), EdgeKind::Exclusive);
                k = k + 1;
            }
            assert(parts.take(cases.len() as int) =~= parts);
        },
        NodeKind::Randomised { routes } => {
            let ghost parts = Seq::new(
                routes.len() as nat,
                |k: int| edge_line(i, routes@[k].target, Some(route_label(texts.routes@, i as int, k)), EdgeKind::Exclusive),
            );
            let mut k: usize = 0;
            while k < routes.len()
                invariant
                    k <= routes.len(),
                    parts == Seq::new(
                        routes.len() as nat,
                        |k: int| edge_line(i, routes@[k].target, Some(route_label(texts.routes@, i as int, k)), EdgeKind::Exclusive),
                    ),
                    out@ == start + concat_all(parts.take(k as int)),
                decreases routes.len() - k,
            {
                proof {
                    lemma_concat_step(parts, k as int);
                }
                write_edge(out, i, routes[k].target, Some(route_text(texts, i, k)), EdgeKind::Exclusive);
                k = k + 1;
            }
            assert(parts.take(routes.len() as int) =~= parts);
        },
        NodeKind::FanOut { branches } => {
            let ghost parts = Seq::new(
                branches.len() as nat,
                |k: int| edge_line(i, branches@[k].target, Some("branch: "@ + branches@[k].flow_id@), EdgeKind::Concurrent),
            );
            let mut k: usize = 0;
            while k < branches.len()
                invariant
                    k <= branches.len(),
                    parts == Seq::new(
                        branches.len() as nat,
                        |k: int| edge_line(i, branches@[k].target, Some("branch: "@ + branches@[k].flow_id@), EdgeKind::Concurrent),
                    ),
                    out@ == start + concat_all(parts.take(k as int)),
                decreases branches.len() - k,
            {
                proof {
                    lemma_concat_step(parts, k as int);
                }
                let mut label = owned("branch: ");
                label.append(branches[k].flow_id.as_str());
                write_edge(out, i, branches[k].target, Some(label), EdgeKind::Concurrent);
                k = k + 1;
            }
            assert(parts.take(branches.len() as int) =~= parts);
        },
        NodeKind::Raise { .. } => {},
    }
}

/// The first line of every diagram document.
pub open spec fn diagram_header() -> Seq<char> {
    "# Camau workflow graph\n\n```mermaid\nflowchart TD\n"@
}

/// The label of node `i`: its identifier and its type.
pub open spec fn node_label(g: CompiledGraph, i: int) -> Seq<char> {
    map_chars(g.nodes@[i].id@, mermaid_map()) + "<br/><small>"@ + node_type_name(g.nodes@[i].kind) + "</small>"@
}

/// The declaration of node `i`, shaped by its type.
pub open spec fn declaration_line(g: CompiledGraph, i: int) -> Seq<char> {
    let label = node_label(g, i);
    let shape = match g.nodes@[i].kind {
        NodeKind::Task { .. } => "[\""@ + label + "\"]"@,
        NodeKind::Raise { .. } => "[\""@ + label + "\"]"@,
        NodeKind::MapSchema { .. } => "[/\""@ + label + "\"/]"@,
        NodeKind::Deterministic { .. } => "{\""@ + label + "\"}"@,
        NodeKind::Randomised { .. } => "{\""@ + label + "\"}"@,
        NodeKind::FanOut { .. } => "{{\""@ + label + "\"}}"@,
        NodeKind::Converge { .. } => "([\""@ + label + "\"])"@,
    };
    "    n"@ + decimal(i as nat) + shape + "\n"@
}

/// The references `n{i}` of the raise-error nodes among the first `n` nodes.
pub open spec fn failure_refs(g: CompiledGraph, n: int) -> Seq<Seq<char>>
    decreases n,
{
    if n <= 0 {
        Seq::empty()
    } else if g.nodes@[n - 1].kind is Raise {
        failure_refs(g, n - 1).push("n"@ + decimal((n - 1) as nat))
    } else {
        failure_refs(g, n - 1)
    }
}

/// The line that styles the raise-error nodes, when there are any.
pub open spec fn failure_line(g: CompiledGraph) -> Seq<char> {
    let refs = failure_refs(g, g.nodes.len() as int);
    if refs.len() > 0 {
        "    class "@ + join_with(refs, ","@) + " failure\n"@
    } else {
        Seq::empty()
    }
}

/// The row of node `i` in the node table.
pub open spec fn table_row(g: CompiledGraph, i: int, floats: Seq<(u64, String)>) -> Seq<char> {
    "| "@ + code_text(g.nodes@[i].id@) + " | "@ + node_text(g, i as usize, floats) + " |\n"@
}

/// The fixed lines of the legend.
pub open spec fn legend_lines() -> Seq<char> {
    "- Dotted arrows are mutually exclusive: exactly one route is active. Thick arrows belong to concurrently active branches. Solid arrows are sequential continuation.\n"@
        + "- Diamond nodes select one route. Hexagonal fan-out nodes start every branch concurrently. Rounded convergence nodes wait for every labelled input.\n"@
        + "- A red failure node stops the run with `GWALL`; it does not lead to the successful output.\n\n"@
}

/// The whole document: the flowchart (input, node declarations, edges, output and styles),
/// the legend, and the node table.
pub open spec fn diagram_document(g: CompiledGraph, texts: NumberTexts) -> Seq<char> {
    let n = g.nodes.len() as nat;
    diagram_header() + "    input([\"Input\"]) --> n"@ + decimal(g.entry as nat) + "\n"@
        + concat_all(Seq::new(n, |i: int| declaration_line(g, i)))
        + concat_all(Seq::new(n, |i: int| node_edges(g, incoming_of(g), i as usize, texts)))
        + "    n"@ + decimal(g.output as nat) + " --> output([\"Output\"])\n"@
        + "    classDef boundary stroke-width:3px\n"@
        + "    classDef failure stroke:#c62828,stroke-width:2px\n"@
        + "    class input,output boundary\n"@
        + failure_line(g)
        + "```\n\n## How to read this graph\n\n"@
        + "- Routing starts at "@ + code_text(g.nodes@[g.entry as int].id@) + " and succeeds at "@
        + code_text(g.nodes@[g.output as int].id@) + ".\n"@
        + legend_lines()
        + "## Node details\n\n| Node | Behaviour |\n|---|---|\n"@
        + concat_all(Seq::new(n, |i: int| table_row(g, i, texts.floats@)))
}

/// Parts that are all non-empty join to a non-empty text exactly when there is one.
proof fn lemma_join_nonempty(parts: Seq<Seq<char>>, sep: Seq<char>)
    requires
        forall|k: int| 0 <= k < parts.len() ==> (#[trigger] parts[k]).len() > 0,
    ensures
        (join_with(parts, sep).len() > 0) == (parts.len() > 0),
{
    if parts.len() > 1 {
        assert(parts.last().len() > 0);
    }
}

proof fn lemma_failure_refs_nonempty(g: CompiledGraph, n: int)
    ensures
        forall|k: int| 0 <= k < failure_refs(g, n).len() ==> (#[trigger] failure_refs(g, n)[k]).len() > 0,
    decreases n,
{
    reveal_strlit("n");
    if n > 0 {
        lemma_failure_refs_nonempty(g, n - 1);
        let prev = failure_refs(g, n - 1);
        let item = "n"@ + decimal((n - 1) as nat);
        assert(item.len() > 0);
        if g.nodes@[n - 1].kind is Raise {
            assert forall|k: int| 0 <= k < prev.push(item).len() implies (#[trigger] prev.push(item)[k]).len() > 0 by {
                if k < prev.len() {
                    assert(prev.push(item)[k] == prev[k]);
                }
            }
        }
    }
}

/// Appends the node declarations.
fn push_declarations(out: &mut String, g: &CompiledGraph)
    ensures
        final(out)@ == old(out)@ + concat_all(Seq::new(g.nodes.len() as nat, |i: int| declaration_line(*g, i))),
{
    let n = g.nodes.len();
    let ghost decls = Seq::new(n as nat, |i: int| declaration_line(*g, i));
    let ghost head = out@;
    let mut i: usize = 0;
    while i < n
        invariant
            i <= n,
            n == g.nodes.len(),
            decls == Seq::new(n as nat, |i: int| declaration_line(*g, i)),
            out@ == head + concat_all(decls.take(i as int)),
        decreases n - i,
    {
        proof {
            lemma_concat_step(decls, i as int);
        }
        let ghost before = out@;
        out.append("    n");
        push_decimal(out, i);
        let mut label = String::new();
        push_mermaid(&mut label, g.nodes[i].id.as_str());
        label.append("<br/><small>");
        label.append(node_type_label(&g.nodes[i].kind));
        label.append("</small>");
        assert(label@ == node_label(*g, i as int));
        match &g.nodes[i].kind {
            NodeKind::Task { .. } | NodeKind::Raise { .. } => {
                out.append("[\"");
                out.append(label.as_str());
                out.append("\"]");
            },
            NodeKind::MapSchema { .. } => {
                out.append("[/\"");
                out.append(label.as_str());
                out.append("\"/]");
            },
            NodeKind::Deterministic { .. } | NodeKind::Randomised { .. } => {
                out.append("{\"");
                out.append(label.as_str());
                out.append("\"}");
            },
            NodeKind::FanOut { .. } => {
                out.append("{{\"");
                out.append(label.as_str());
                out.append("\"}}");
            },
            NodeKind::Converge { .. } => {
                out.append("([\"");
                out.append(label.as_str());
                out.append("\"])");
            },
        }
        out.append("\n");
        assert(out@ == before + declaration_line(*g, i as int));
        i = i + 1;
    }
    assert(decls.take(n as int) =~= decls);
}

/// Appends the edge lines of every node.
fn push_all_edges(out: &mut String, g: &CompiledGraph, texts: &NumberTexts)
    requires
        g.wf(),
    ensures
        final(out)@ == old(out)@ + concat_all(Seq::new(g.nodes.len() as nat, |i: int| node_edges(*g, incoming_of(*g), i as usize, *texts))),
{
    let incoming = incoming_counts(g);
    let n = g.nodes.len();
    let ghost edge_parts = Seq::new(n as nat, |i: int| node_edges(*g, incoming_of(*g), i as usize, *texts));
    let ghost head = out@;
    let mut i: usize = 0;
    while i < n
        invariant
            i <= n,
            n == g.nodes.len(),
            g.wf(),
            incoming@ == incoming_of(*g),
            incoming.len() == n,
            edge_parts == Seq::new(n as nat, |i: int| node_edges(*g, incoming_of(*g), i as usize, *texts)),
            out@ == head + concat_all(edge_parts.take(i as int)),
        decreases n - i,
    {
        proof {
            lemma_concat_step(edge_parts, i as int);
        }
        push_edges(out, g, &incoming, i, texts);
        i = i + 1;
    }
    assert(edge_parts.take(n as int) =~= edge_parts);
}

/// Appends the line that styles the raise-error nodes, when there are any.
fn push_failure_line(out: &mut String, g: &CompiledGraph)
    ensures
        final(out)@ == old(out)@ + failure_line(*g),
{
    let n = g.nodes.len();
    let mut failures = String::new();
    let mut i: usize = 0;
    while i < n
        invariant
            i <= n,
            n == g.nodes.len(),
            failures@ == join_with(failure_refs(*g, i as int), ","@),
        decreases n - i,
    {
        proof {
            lemma_failure_refs_nonempty(*g, i as int);
            lemma_join_nonempty(failure_refs(*g, i as int), ","@);
        }
        match &g.nodes[i].kind {
            NodeKind::Raise { .. } => {
                let ghost refs = failure_refs(*g, i as int);
                let ghost item = "n"@ + decimal(i as nat);
                if failures.unicode_len() > 0 {
                    failures.append(",");
                }
                failures.append("n");
                push_decimal(&mut failures, i);
                proof {
                    assert(failure_refs(*g, i + 1) == refs.push(item));
                    assert(refs.push(item).drop_last() =~= refs);
                }
            },
            _ => {},
        }
        i = i + 1;
    }
    proof {
        lemma_failure_refs_nonempty(*g, n as int);
        lemma_join_nonempty(failure_refs(*g, n as int), ","@);
    }
    if failures.unicode_len() > 0 {
        out.append("    class ");
        out.append(failures.as_str());
        out.append(" failure\n");
    }
}

/// Appends the node table's rows.
fn push_table_rows(out: &mut String, g: &CompiledGraph, texts: &NumberTexts)
    requires
        g.wf(),
    ensures
        final(out)@ == old(out)@ + concat_all(Seq::new(g.nodes.len() as nat, |i: int| table_row(*g, i, texts.floats@))),
{
    let n = g.nodes.len();
    let ghost rows = Seq::new(n as nat, |i: int| table_row(*g, i, texts.floats@));
    let ghost head = out@;
    let mut i: usize = 0;
    while i < n
        invariant
            i <= n,
            n == g.nodes.len(),
            g.wf(),
            rows == Seq::new(n as nat, |i: int| table_row(*g, i, texts.floats@)),
            out@ == head + concat_all(rows.take(i as int)),
        decreases n - i,
    {
        proof {
            lemma_concat_step(rows, i as int);
        }
        let ghost before = out@;
        out.append("| ");
        push_code(out, g.nodes[i].id.as_str());
        out.append(" | ");
        push_node_description(out, g, i, texts);
        out.append(" |\n");
        assert(out@ == before + table_row(*g, i as int, texts.floats@));
        i = i + 1;
    }
    assert(rows.take(n as int) =~= rows);
}

/// The document: a Mermaid flowchart of the nodes and their labelled edges, a legend, and a
/// table that says what each node does. Floating-point numbers and route percentages are
/// shown as `texts` gives them.
pub fn render_markdown(g: &CompiledGraph, texts: &NumberTexts) -> (result: String)
    requires
        g.wf(),
        mappings_have_values(*g),
    ensures
        result@ == diagram_document(*g, *texts),
{
    let mut out = owned("# Camau workflow graph\n\n```mermaid\nflowchart TD\n");
    out.append("    input([\"Input\"]) --> n");
    push_decimal(&mut out, g.entry);
    out.append("\n");
    push_declarations(&mut out, g);
    push_all_edges(&mut out, g, texts);
    out.append("    n");
    push_decimal(&mut out, g.output);
    out.append(" --> output([\"Output\"])\n");
    out.append("    classDef boundary stroke-width:3px\n");
    out.append("    classDef failure stroke:#c62828,stroke-width:2px\n");
    out.append("    class input,output boundary\n");
    push_failure_line(&mut out, g);
    out.append("```\n\n## How to read this graph\n\n");
    out.append("- Routing starts at ");
    push_code(&mut out, g.nodes[g.entry].id.as_str());
    out.append(" and succeeds at ");
    push_code(&mut out, g.nodes[g.output].id.as_str());
    out.append(".\n");
    let ghost before_legend = out@;
    out.append("- Dotted arrows are mutually exclusive: exactly one route is active. Thick arrows belong to concurrently active branches. Solid arrows are sequential continuation.\n");
    out.append("- Diamond nodes select one route. Hexagonal fan-out nodes start every branch concurrently. Rounded convergence nodes wait for every labelled input.\n");
    out.append("- A red failure node stops the run with `GWALL`; it does not lead to the successful output.\n\n");
    assert(out@ == before_legend + legend_lines());
    out.append("## Node details\n\n| Node | Behaviour |\n|---|---|\n");
    push_table_rows(&mut out, g, texts);
    assert(out@ =~= diagram_document(*g, *texts));
    out
}

} // verus!
