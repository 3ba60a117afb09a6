//! The label list of a sample in the Prometheus text exposition format, such as
//! `transform="orders",le="0.25"`.

use crate::text::{chars_of, find, find_in, lemma_find_is, same, slice_text};
use vstd::prelude::*;

verus! {

/// How far a label list is split.
pub struct Splitting {
    /// The labels that are complete.
    pub parts: Seq<Seq<char>>,
    /// What there is of the next one.
    pub current: Seq<char>,
    /// Whether that is inside a quoted value.
    pub quoted: bool,
    /// Whether the next character is escaped.
    pub escaped: bool,
}

/// Takes in one character more: a comma ends a label, except in a quoted value;
/// a backslash in a quoted value escapes the character behind it.
pub open spec fn split_step(s: Splitting, c: char) -> Splitting {
    let longer = s.current.push(c);
    if s.escaped {
        Splitting { current: longer, escaped: false, ..s }
    } else if c == '\\' && s.quoted {
        Splitting { current: longer, escaped: true, ..s }
    } else if c == '"' {
        Splitting { current: longer, quoted: !s.quoted, ..s }
    } else if c == ',' && !s.quoted {
        Splitting { parts: s.parts.push(s.current), current: seq![], ..s }
    } else {
        Splitting { current: longer, ..s }
    }
}

/// Takes in characters, one after the other.
pub open spec fn split_from(s: Splitting, text: Seq<char>) -> Splitting
    decreases text.len(),
{
    if text.len() == 0 {
        s
    } else {
        split_from(split_step(s, text[0]), text.drop_first())
    }
}

pub open spec fn split_start() -> Splitting {
    Splitting { parts: seq![], current: seq![], quoted: false, escaped: false }
}

/// The labels of a list, as they are written. An empty last one does not count.
pub open spec fn label_parts(body: Seq<char>) -> Seq<Seq<char>> {
    let end = split_from(split_start(), body);
    if end.current.len() == 0 {
        end.parts
    } else {
        end.parts.push(end.current)
    }
}

/// A label value without its escapes.
pub open spec fn unescaped(value: Seq<char>) -> Seq<char>
    decreases value.len(),
{
    if value.len() == 0 {
        seq![]
    } else if value[0] != '\\' {
        seq![value[0]] + unescaped(value.drop_first())
    } else if value.len() == 1 {
        seq!['\\']
    } else {
        let c = if value[1] == 'n' {
            '\n'
        } else {
            value[1]
        };
        seq![c] + unescaped(value.skip(2))
    }
}

/// The key and value of a written label: what stands before the first `=`, and
/// what is quoted behind it, without escapes. Anything else is no label.
pub open spec fn label_of(part: Seq<char>) -> Option<(Seq<char>, Seq<char>)> {
    let at = find(part, '=');
    let quoted = part.skip(at + 1);
    if at < part.len() && quoted.len() >= 2 && quoted[0] == '"' && quoted.last() == '"' {
        Some((part.take(at), unescaped(quoted.subrange(1, quoted.len() - 1))))
    } else {
        None
    }
}

/// The labels among written parts, in order.
pub open spec fn labels_in(parts: Seq<Seq<char>>) -> Seq<(Seq<char>, Seq<char>)>
    decreases parts.len(),
{
    if parts.len() == 0 {
        seq![]
    } else {
        match label_of(parts.last()) {
            Some(label) => labels_in(parts.drop_last()).push(label),
            None => labels_in(parts.drop_last()),
        }
    }
}

/// The labels of a label list.
pub open spec fn parsed_labels(body: Seq<char>) -> Seq<(Seq<char>, Seq<char>)> {
    labels_in(label_parts(body))
}

/// The texts of labels.
pub open spec fn labels_view(labels: Seq<(String, String)>) -> Seq<(Seq<char>, Seq<char>)> {
    labels.map_values(|l: (String, String)| (l.0@, l.1@))
}

/// A label value without its escapes.
pub fn unescape_label_value(value: &str) -> (r: String)
    ensures
        r@ == unescaped(value@),
{
    let chars = chars_of(value);
    let mut r = String::new();
    let mut i: usize = 0;
    assert(chars@.skip(0) =~= chars@);
    assert(r@ + unescaped(chars@) =~= unescaped(chars@));
    while i < chars.len()
        invariant
            i <= chars@.len(),
            r@ + unescaped(chars@.skip(i as int)) == unescaped(chars@),
        decreases chars@.len() - i,
    {
        let c = chars[i];
        let ghost before = r@;
        let ghost rest = chars@.skip(i as int);
        proof {
            assert(rest[0] == c);
            assert(rest.drop_first() =~= chars@.skip(i + 1));
        }
        if c != '\\' {
            r.push(c);
            assert(before + (seq![c] + unescaped(chars@.skip(i + 1))) =~= before.push(c) + unescaped(chars@.skip(i + 1)));
            i = i + 1;
        } else if i < chars.len() - 1 {
            let next = chars[i + 1];
            let out = if next == 'n' {
                '\n'
            } else {
                next
            };
            r.push(out);
            proof {
                assert(rest[1] == next);
                assert(rest.skip(2) =~= chars@.skip(i + 2));
                assert(before + (seq![out] + unescaped(chars@.skip(i + 2))) =~= before.push(out) + unescaped(
                    chars@.skip(i + 2),
                ));
            }
            i = i + 2;
        } else {
            r.push('\\');
            proof {
                assert(rest.len() == 1);
                assert(chars@.skip(i + 1) =~= seq![]);
                assert(before + seq!['\\'] =~= before.push('\\') + unescaped(seq![]));
            }
            i = i + 1;
        }
    }
    assert(chars@.skip(i as int) =~= seq![]);
    assert(r@ + unescaped(seq![]) =~= r@);
    r
}

/// The key and value of a written label.
fn parse_label(part: &str) -> (r: Option<(String, String)>)
    ensures
        match r {
            Some(label) => label_of(part@) == Some((label.0@, label.1@)),
            None => label_of(part@) is None,
        },
{
    let chars = chars_of(part);
    let at = find_in(&chars, 0, chars.len(), '=');
    assert(chars@.subrange(0, chars@.len() as int) =~= chars@);
    if at == chars.len() {
        return None;
    }
    let ghost quoted = part@.skip(at + 1);
    let from: usize = at + 1;
    assert(quoted.len() == chars@.len() - from);
    if chars.len() - from < 2 || chars[from] != '"' || chars[chars.len() - 1] != '"' {
        return None;
    }
    let key = slice_text(&chars, 0, at);
    let inner = slice_text(&chars, from + 1, chars.len() - 1);
    assert(key@ =~= part@.take(at as int));
    assert(inner@ =~= quoted.subrange(1, quoted.len() - 1));
    let value = unescape_label_value(inner.as_str());
    Some((key, value))
}

/// The labels of a label list, in order. A comma, a quote or a newline in a
/// quoted value does not end it.
pub fn parse_labels(body: &str) -> (r: Vec<(String, String)>)
    ensures
        labels_view(r@) == parsed_labels(body@),
{
    let chars = chars_of(body);
    let mut parts: Vec<String> = Vec::new();
    let mut current = String::new();
    let mut in_quotes = false;
    let mut escape_next = false;
    assert(chars@.skip(0) =~= chars@);
    assert(crate::text::texts(parts@) =~= seq![]);
    assert(current@ =~= seq![]);
    for i in 0..chars.len()
        invariant
            split_from(
                Splitting {
                    parts: crate::text::texts(parts@),
                    current: current@,
                    quoted: in_quotes,
                    escaped: escape_next,
                },
                chars@.skip(i as int),
            ) == split_from(split_start(), body@),
    {
        let c = chars[i];
        let ghost rest = chars@.skip(i as int);
        let ghost before = crate::text::texts(parts@);
        let ghost current_before = current@;
        proof {
            assert(rest[0] == c);
            assert(rest.drop_first() =~= chars@.skip(i + 1));
        }
        if escape_next {
            current.push(c);
            escape_next = false;
        } else if c == '\\' && in_quotes {
            current.push(c);
            escape_next = true;
        } else if c == '"' {
            in_quotes = !in_quotes;
            current.push(c);
        } else if c == ',' && !in_quotes {
            parts.push(current);
            current = String::new();
            assert(crate::text::texts(parts@) =~= before.push(current_before));
            assert(current@ =~= seq![]);
        } else {
            current.push(c);
        }
    }
    assert(chars@.skip(chars@.len() as int) =~= seq![]);
    let ghost complete = crate::text::texts(parts@);
    let ghost last = current@;
    if !same(current.as_str(), "") {
        proof {
            reveal_strlit("");
            if last.len() == 0 {
                assert(last =~= ""@);
            }
        }
        parts.push(current);
        assert(crate::text::texts(parts@) =~= complete.push(last));
    } else {
        proof {
            reveal_strlit("");
        }
    }
    let ghost all = crate::text::texts(parts@);
    assert(all == label_parts(body@));
    let mut r: Vec<(String, String)> = Vec::new();
    assert(labels_view(r@) =~= labels_in(all.take(0)));
    for i in 0..parts.len()
        invariant
            all == crate::text::texts(parts@),
            labels_view(r@) == labels_in(all.take(i as int)),
    {
        assert(all.take(i + 1).drop_last() =~= all.take(i as int));
        let ghost before = labels_view(r@);
        match parse_label(parts[i].as_str()) {
            Some(label) => {
                let ghost added = (label.0@, label.1@);
                r.push(label);
                assert(labels_view(r@) =~= before.push(added));
            },
            None => {},
        }
    }
    assert(all.take(parts@.len() as int) =~= all);
    r
}

/// A label value with its escapes: a backslash before each backslash and each
/// quote, and `\n` for each newline.
pub open spec fn escaped(value: Seq<char>) -> Seq<char>
    decreases value.len(),
{
    if value.len() == 0 {
        seq![]
    } else {
        escaped_char(value[0]) + escaped(value.drop_first())
    }
}

pub open spec fn escaped_char(c: char) -> Seq<char> {
    if c == '\\' {
        seq!['\\', '\\']
    } else if c == '"' {
        seq!['\\', '"']
    } else if c == '\n' {
        seq!['\\', 'n']
    } else {
        seq![c]
    }
}

/// A label as it is written.
pub open spec fn written_label(label: (Seq<char>, Seq<char>)) -> Seq<char> {
    label.0 + seq!['=', '"'] + escaped(label.1) + seq!['"']
}

/// A label list as it is written.
pub open spec fn written_labels(labels: Seq<(Seq<char>, Seq<char>)>) -> Seq<char>
    decreases labels.len(),
{
    if labels.len() == 0 {
        seq![]
    } else if labels.len() == 1 {
        written_label(labels[0])
    } else {
        written_labels(labels.drop_last()) + seq![','] + written_label(labels.last())
    }
}

/// Whether a label's key can be told apart from what is around it.
pub open spec fn is_plain_key(key: Seq<char>) -> bool {
    forall|i: int| 0 <= i < key.len() ==> key[i] != '"' && key[i] != ',' && key[i] != '='
}

/// Leaving out escapes that were put in gives the value back.
pub proof fn law_unescaping_undoes_escaping(value: Seq<char>)
    ensures
        unescaped(escaped(value)) == value,
    decreases value.len(),
{
    if value.len() > 0 {
        let rest = value.drop_first();
        law_unescaping_undoes_escaping(rest);
        let e = escaped_char(value[0]);
        let all = e + escaped(rest);
        assert(all[0] == e[0]);
        if e.len() == 1 {
            assert(all.drop_first() =~= escaped(rest));
        } else {
            assert(all[1] == e[1]);
            assert(all.skip(2) =~= escaped(rest));
        }
        assert(seq![value[0]] + rest =~= value);
    }
}

proof fn lemma_split_concat(s: Splitting, a: Seq<char>, b: Seq<char>)
    ensures
        split_from(s, a + b) == split_from(split_from(s, a), b),
    decreases a.len(),
{
    if a.len() == 0 {
        assert(a + b =~= b);
    } else {
        assert((a + b)[0] == a[0]);
        assert((a + b).drop_first() =~= a.drop_first() + b);
        lemma_split_concat(split_step(s, a[0]), a.drop_first(), b);
    }
}

proof fn lemma_split_plain(s: Splitting, key: Seq<char>)
    requires
        is_plain_key(key),
        !s.quoted,
        !s.escaped,
    ensures
        split_from(s, key) == (Splitting { current: s.current + key, ..s }),
    decreases key.len(),
{
    if key.len() == 0 {
        assert(s.current + key =~= s.current);
    } else {
        let rest = key.drop_first();
        assert forall|i: int| 0 <= i < rest.len() implies rest[i] != '"' && rest[i] != ',' && rest[i] != '=' by {
            assert(rest[i] == key[i + 1]);
        }
        let next = split_step(s, key[0]);
        lemma_split_plain(next, rest);
        assert(s.current.push(key[0]) + rest =~= s.current + key);
    }
}

proof fn lemma_split_one(s: Splitting, c: char)
    ensures
        split_from(s, seq![c]) == split_step(s, c),
{
    assert(seq![c].drop_first() =~= seq![]);
    assert(split_from(split_step(s, c), seq![]) == split_step(s, c));
}

proof fn lemma_split_escaped(s: Splitting, value: Seq<char>)
    requires
        s.quoted,
        !s.escaped,
    ensures
        split_from(s, escaped(value)) == (Splitting { current: s.current + escaped(value), ..s }),
    decreases value.len(),
{
    if value.len() == 0 {
        assert(s.current + escaped(value) =~= s.current);
    } else {
        let rest = value.drop_first();
        let e = escaped_char(value[0]);
        lemma_split_concat(s, e, escaped(rest));
        let after = Splitting { current: s.current + e, ..s };
        if e.len() == 1 {
            assert(e =~= seq![value[0]]);
            lemma_split_one(s, value[0]);
            assert(s.current.push(value[0]) =~= s.current + e);
        } else {
            assert(e =~= seq![e[0]] + seq![e[1]]);
            lemma_split_concat(s, seq![e[0]], seq![e[1]]);
            lemma_split_one(s, e[0]);
            lemma_split_one(split_step(s, e[0]), e[1]);
            assert(s.current.push(e[0]).push(e[1]) =~= s.current + e);
        }
        assert(split_from(s, e) == after);
        lemma_split_escaped(after, rest);
        assert(s.current + e + escaped(rest) =~= s.current + escaped(value));
    }
}

proof fn lemma_split_label(s: Splitting, label: (Seq<char>, Seq<char>))
    requires
        is_plain_key(label.0),
        !s.quoted,
        !s.escaped,
        s.current == Seq::<char>::empty(),
    ensures
        split_from(s, written_label(label)) == (Splitting { current: written_label(label), ..s }),
{
    let key = label.0;
    let open = seq!['=', '"'];
    let value = escaped(label.1);
    let close = seq!['"'];
    let text = written_label(label);
    assert(text =~= key + (seq!['='] + (seq!['"'] + (value + close))));
    lemma_split_concat(s, key, seq!['='] + (seq!['"'] + (value + close)));
    lemma_split_plain(s, key);
    let s1 = Splitting { current: s.current + key, ..s };
    lemma_split_concat(s1, seq!['='], seq!['"'] + (value + close));
    lemma_split_one(s1, '=');
    let s2 = split_step(s1, '=');
    lemma_split_concat(s2, seq!['"'], value + close);
    lemma_split_one(s2, '"');
    let s3 = split_step(s2, '"');
    lemma_split_concat(s3, value, close);
    lemma_split_escaped(s3, label.1);
    let s4 = Splitting { current: s3.current + value, ..s3 };
    lemma_split_one(s4, '"');
    assert(((s.current + key).push('=').push('"') + value).push('"') =~= text);
}

proof fn lemma_label_of_written(label: (Seq<char>, Seq<char>))
    requires
        is_plain_key(label.0),
    ensures
        label_of(written_label(label)) == Some(label),
{
    let text = written_label(label);
    let at = label.0.len() as int;
    assert(text[at] == '=');
    assert forall|j: int| 0 <= j < at implies text[j] != '=' by {
        assert(text[j] == label.0[j]);
    }
    lemma_find_is(text, '=', at);
    let quoted = text.skip(at + 1);
    assert(quoted =~= seq!['"'] + escaped(label.1) + seq!['"']);
    assert(quoted.subrange(1, quoted.len() - 1) =~= escaped(label.1));
    law_unescaping_undoes_escaping(label.1);
    assert(text.take(at) =~= label.0);
}

proof fn lemma_split_written(labels: Seq<(Seq<char>, Seq<char>)>)
    requires
        labels.len() >= 1,
        forall|i: int| 0 <= i < labels.len() ==> is_plain_key((#[trigger] labels[i]).0),
    ensures
        split_from(split_start(), written_labels(labels)) == (Splitting {
            parts: labels.drop_last().map_values(|l: (Seq<char>, Seq<char>)| written_label(l)),
            current: written_label(labels.last()),
            quoted: false,
            escaped: false,
        }),
    decreases labels.len(),
{
    let start = split_start();
    if labels.len() == 1 {
        assert(is_plain_key(labels[0].0));
        lemma_split_label(start, labels[0]);
        assert(labels.drop_last().map_values(|l: (Seq<char>, Seq<char>)| written_label(l)) =~= seq![]);
    } else {
        let front = labels.drop_last();
        assert forall|i: int| 0 <= i < front.len() implies is_plain_key((#[trigger] front[i]).0) by {
            assert(front[i] == labels[i]);
        }
        lemma_split_written(front);
        let text = written_labels(front);
        let last = written_label(labels.last());
        assert(written_labels(labels) =~= text + (seq![','] + last));
        lemma_split_concat(start, text, seq![','] + last);
        let s1 = split_from(start, text);
        lemma_split_concat(s1, seq![','], last);
        lemma_split_one(s1, ',');
        let s2 = split_step(s1, ',');
        assert(is_plain_key(labels[labels.len() - 1].0));
        lemma_split_label(s2, labels.last());
        assert(front.map_values(|l: (Seq<char>, Seq<char>)| written_label(l)) =~= front.drop_last().map_values(
            |l: (Seq<char>, Seq<char>)| written_label(l),
        ).push(written_label(front.last())));
    }
}

/// A label list that was written is read back: keys, values and order.
pub proof fn law_label_list_round_trip(labels: Seq<(Seq<char>, Seq<char>)>)
    requires
        forall|i: int| 0 <= i < labels.len() ==> is_plain_key((#[trigger] labels[i]).0),
    ensures
        parsed_labels(written_labels(labels)) == labels,
{
    if labels.len() == 0 {
        assert(label_parts(written_labels(labels)) =~= seq![]);
        assert(parsed_labels(written_labels(labels)) =~= labels);
    } else {
        lemma_split_written(labels);
        let parts = labels.map_values(|l: (Seq<char>, Seq<char>)| written_label(l));
        assert(written_label(labels.last()).len() > 0);
        assert(label_parts(written_labels(labels)) =~= parts);
        lemma_labels_in_written(labels);
    }
}

proof fn lemma_labels_in_written(labels: Seq<(Seq<char>, Seq<char>)>)
    requires
        forall|i: int| 0 <= i < labels.len() ==> is_plain_key((#[trigger] labels[i]).0),
    ensures
        labels_in(labels.map_values(|l: (Seq<char>, Seq<char>)| written_label(l))) == labels,
    decreases labels.len(),
{
    let parts = labels.map_values(|l: (Seq<char>, Seq<char>)| written_label(l));
    if labels.len() > 0 {
        let front = labels.drop_last();
        assert forall|i: int| 0 <= i < front.len() implies is_plain_key((#[trigger] front[i]).0) by {
            assert(front[i] == labels[i]);
        }
        lemma_labels_in_written(front);
        assert(parts.drop_last() =~= front.map_values(|l: (Seq<char>, Seq<char>)| written_label(l)));
        assert(is_plain_key(labels[labels.len() - 1].0));
        lemma_label_of_written(labels.last());
        assert(front.push(labels.last()) =~= labels);
    } else {
        assert(labels_in(parts) =~= labels);
    }
}

} // verus!
