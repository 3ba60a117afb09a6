//! Metric history: the rows that a snapshot of the metrics becomes, and how far
//! back they are kept.

use crate::error_code::ErrorCode;
use crate::metrics::exposition::{MetricKind, MetricSample, Reading};
use crate::metrics::labels::labels_view;
use crate::staging::change::SourceTime;
use crate::text::{chars_of, join_texts, joined, texts};
use vstd::prelude::*;

verus! {

/// How often a snapshot is written, in seconds, unless set otherwise.
pub const DEFAULT_ROLLUP_INTERVAL_SECS: u64 = 300;

/// How far back rows are kept, in seconds, unless set otherwise.
pub const DEFAULT_RETENTION_SECS: u64 = 604800;

/// Why writing or pruning failed. A database error is held as its category.
#[derive(Debug, Clone, Copy, PartialEq, Eq, Structural)]
pub enum RollupError {
    /// The database failed.
    Db(ErrorCode),
}

impl RollupError {
    /// The error's category.
    pub fn code(&self) -> (r: ErrorCode)
        ensures
            *self matches RollupError::Db(code) ==> r == code,
    {
        match self {
            RollupError::Db(code) => *code,
        }
    }

    /// The error in words, around the words of the database error.
    pub fn message(&self, cause: &str) -> (r: String)
        ensures
            r@ == "metric rollup database error: "@ + cause@,
    {
        let mut r = String::new();
        r.append("metric rollup database error: ");
        r.append(cause);
        assert(r@ =~= "metric rollup database error: "@ + cause@);
        r
    }
}

/// The character of a hexadecimal digit.
pub open spec fn hex_char(d: int) -> char {
    if d < 10 {
        (48 + d) as char
    } else {
        (87 + d) as char
    }
}

/// A character as it stands in a JSON string.
pub open spec fn json_char(c: char) -> Seq<char> {
    if c == '"' {
        seq!['\\', '"']
    } else if c == '\\' {
        seq!['\\', '\\']
    } else if c == '\n' {
        seq!['\\', 'n']
    } else if c == '\r' {
        seq!['\\', 'r']
    } else if c == '\t' {
        seq!['\\', 't']
    } else if (c as int) < 0x20 {
        seq!['\\', 'u', '0', '0', hex_char(c as int / 16), hex_char(c as int % 16)]
    } else {
        seq![c]
    }
}

/// A text as it stands inside a JSON string.
pub open spec fn json_chars(s: Seq<char>) -> Seq<char>
    decreases s.len(),
{
    if s.len() == 0 {
        seq![]
    } else {
        json_chars(s.drop_last()) + json_char(s.last())
    }
}

/// A text as a JSON string.
pub open spec fn json_string(s: Seq<char>) -> Seq<char> {
    seq!['"'] + json_chars(s) + seq!['"']
}

/// A label as a member of a JSON object.
pub open spec fn json_member(label: (Seq<char>, Seq<char>)) -> Seq<char> {
    json_string(label.0) + seq![':'] + json_string(label.1)
}

/// Labels as a JSON object, in order.
pub open spec fn json_object(labels: Seq<(Seq<char>, Seq<char>)>) -> Seq<char> {
    seq!['{'] + joined(labels.map_values(|l: (Seq<char>, Seq<char>)| json_member(l)), seq![',']) + seq!['}']
}

fn push_hex(out: &mut String, d: u8)
    requires
        d < 16,
    ensures
        final(out)@ == old(out)@.push(hex_char(d as int)),
{
    if d < 10 {
        out.push((48 + d) as char);
    } else {
        out.push((87 + d) as char);
    }
}

/// Appends a text as a JSON string: quotes, backslashes and control characters
/// are escaped, everything else stays.
pub fn json_escape_into(out: &mut String, s: &str)
    ensures
        final(out)@ == old(out)@ + json_string(s@),
{
    let ghost start = out@;
    out.push('"');
    let chars = chars_of(s);
    assert(out@ =~= start + seq!['"'] + json_chars(chars@.take(0)));
    for i in 0..chars.len()
        invariant
            out@ == start + seq!['"'] + json_chars(chars@.take(i as int)),
    {
        let c = chars[i];
        let ghost before = out@;
        proof {
            lemma_char_code(c);
        }
        assert(chars@.take(i + 1).drop_last() =~= chars@.take(i as int));
        if c == '"' {
            out.push('\\');
            out.push('"');
        } else if c == '\\' {
            out.push('\\');
            out.push('\\');
        } else if c == '\n' {
            out.push('\\');
            out.push('n');
        } else if c == '\r' {
            out.push('\\');
            out.push('r');
        } else if c == '\t' {
            out.push('\\');
            out.push('t');
        } else if (c as u32) < 0x20 {
            let n: u8 = (c as u32) as u8;
            out.push('\\');
            out.push('u');
            out.push('0');
            out.push('0');
            push_hex(out, n / 16);
            push_hex(out, n % 16);
        } else {
            out.push(c);
        }
        assert(out@ =~= before + json_char(c));
        assert(out@ =~= start + seq!['"'] + json_chars(chars@.take(i + 1)));
    }
    assert(chars@.take(chars@.len() as int) =~= chars@);
    out.push('"');
    assert(out@ =~= start + json_string(s@));
}

/// Labels as a JSON object, in order.
pub fn encode_labels(labels: &[(String, String)]) -> (r: String)
    ensures
        r@ == json_object(labels_view(labels@)),
{
    let mut members: Vec<String> = Vec::new();
    let ghost all = labels_view(labels@).map_values(|l: (Seq<char>, Seq<char>)| json_member(l));
    assert(texts(members@) =~= all.take(0));
    for i in 0..labels.len()
        invariant
            all == labels_view(labels@).map_values(|l: (Seq<char>, Seq<char>)| json_member(l)),
            texts(members@) == all.take(i as int),
    {
        let mut member = String::new();
        json_escape_into(&mut member, labels[i].0.as_str());
        member.push(':');
        json_escape_into(&mut member, labels[i].1.as_str());
        let ghost added = member@;
        assert(added =~= all[i as int]) by {
            assert(all[i as int] == json_member((labels@[i as int].0@, labels@[i as int].1@)));
        }
        let ghost before = texts(members@);
        members.push(member);
        assert(texts(members@) =~= before.push(added));
        assert(all.take(i + 1) =~= all.take(i as int).push(added));
    }
    assert(all.take(labels@.len() as int) =~= all);
    let list = join_texts(&members, ",");
    proof {
        reveal_strlit(",");
        assert(","@ =~= seq![',']);
    }
    let mut r = String::new();
    r.push('{');
    r.append(list.as_str());
    r.push('}');
    assert(r@ =~= json_object(labels_view(labels@)));
    r
}

/// A row of metric history.
#[derive(Debug, Clone, PartialEq, Eq)]
pub enum RollupRow {
    /// A counter's or a gauge's value.
    Scalar {
        /// The metric.
        name: String,
        /// Its kind.
        kind: MetricKind,
        /// The labels, as a JSON object.
        labels: String,
        /// The value.
        value: Option<Reading>,
    },
    /// A histogram's distribution.
    Histogram {
        /// The metric.
        name: String,
        /// The labels, as a JSON object.
        labels: String,
        /// The buckets' upper bounds.
        bounds: Vec<Reading>,
        /// The counts up to each bound, in the same order.
        counts: Vec<i64>,
        /// The sum.
        sum: Option<Reading>,
        /// The count.
        count: Option<i64>,
    },
}

/// A count as a signed integer, at the largest one where it is larger.
pub open spec fn clamped(n: u64) -> i64 {
    if n <= i64::MAX {
        n as i64
    } else {
        i64::MAX
    }
}

fn clamp(n: u64) -> (r: i64)
    ensures
        r == clamped(n),
{
    if n <= i64::MAX as u64 {
        n as i64
    } else {
        i64::MAX
    }
}

/// Whether a row is what a sample becomes.
pub open spec fn is_row_of(row: RollupRow, sample: MetricSample) -> bool {
    match row {
        RollupRow::Scalar { name, kind, labels, value } => {
            &&& !(sample.kind is Histogram)
            &&& name == sample.name
            &&& kind == sample.kind
            &&& labels@ == json_object(labels_view(sample.labels@))
            &&& value == sample.value
        },
        RollupRow::Histogram { name, labels, bounds, counts, sum, count } => {
            &&& sample.kind is Histogram
            &&& name == sample.name
            &&& labels@ == json_object(labels_view(sample.labels@))
            &&& bounds@ == sample.buckets@.map_values(|b: (Reading, u64)| b.0)
            &&& counts@ == sample.buckets@.map_values(|b: (Reading, u64)| clamped(b.1))
            &&& sum == sample.sum
            &&& count == match sample.count {
                Some(n) => Some(clamped(n)),
                None => None,
            }
        },
    }
}

/// The row that a sample becomes.
fn row_of(sample: &MetricSample) -> (r: RollupRow)
    ensures
        is_row_of(r, *sample),
{
    let labels = encode_labels(sample.labels.as_slice());
    match sample.kind {
        MetricKind::Counter | MetricKind::Gauge => RollupRow::Scalar {
            name: sample.name.clone(),
            kind: sample.kind,
            labels,
            value: sample.value,
        },
        MetricKind::Histogram => {
            let mut bounds: Vec<Reading> = Vec::new();
            let mut counts: Vec<i64> = Vec::new();
            for i in 0..sample.buckets.len()
                invariant
                    bounds@ == sample.buckets@.map_values(|b: (Reading, u64)| b.0).take(i as int),
                    counts@ == sample.buckets@.map_values(|b: (Reading, u64)| clamped(b.1)).take(i as int),
            {
                bounds.push(sample.buckets[i].0);
                counts.push(clamp(sample.buckets[i].1));
                assert(bounds@ =~= sample.buckets@.map_values(|b: (Reading, u64)| b.0).take(i + 1));
                assert(counts@ =~= sample.buckets@.map_values(|b: (Reading, u64)| clamped(b.1)).take(i + 1));
            }
            assert(bounds@ =~= sample.buckets@.map_values(|b: (Reading, u64)| b.0));
            assert(counts@ =~= sample.buckets@.map_values(|b: (Reading, u64)| clamped(b.1)));
            let count: Option<i64> = match sample.count {
                Some(n) => Some(clamp(n)),
                None => None,
            };
            RollupRow::Histogram { name: sample.name.clone(), labels, bounds, counts, sum: sample.sum, count }
        },
    }
}

/// The rows that a snapshot becomes: one for each sample, in order.
pub fn rollup_rows(samples: &Vec<MetricSample>) -> (r: Vec<RollupRow>)
    ensures
        r@.len() == samples@.len(),
        forall|i: int| 0 <= i < r@.len() ==> is_row_of(#[trigger] r@[i], samples@[i]),
{
    let mut r: Vec<RollupRow> = Vec::new();
    for i in 0..samples.len()
        invariant
            r@.len() == i,
            forall|j: int| 0 <= j < i ==> is_row_of(#[trigger] r@[j], samples@[j]),
    {
        r.push(row_of(&samples[i]));
    }
    r
}

/// The time before which rows are deleted, in nanoseconds since the Unix epoch.
pub open spec fn cutoff(now: int, retention: int) -> int {
    if now - retention >= 0 {
        now - retention
    } else {
        0
    }
}

/// The time before which rows are deleted: the retention before now, but no
/// earlier than the Unix epoch.
pub fn prune_cutoff(now: SourceTime, retention_nanos: u128) -> (r: SourceTime)
    ensures
        r.nanos == if now.nanos - retention_nanos >= 0 {
            now.nanos - retention_nanos
        } else {
            0
        },
        r.nanos == cutoff(now.nanos as int, retention_nanos as int),
{
    if now.nanos < 0 || retention_nanos > now.nanos as u128 {
        SourceTime { nanos: 0 }
    } else {
        SourceTime { nanos: now.nanos - retention_nanos as i128 }
    }
}

/// What the escapes of a JSON string's inside stand for.
pub open spec fn json_decoded(s: Seq<char>) -> Seq<char>
    decreases s.len(),
{
    if s.len() == 0 {
        seq![]
    } else if s[0] != '\\' || s.len() < 2 {
        seq![s[0]] + json_decoded(s.drop_first())
    } else if s[1] == 'u' && s.len() >= 6 {
        seq![(16 * hex_digit(s[4]) + hex_digit(s[5])) as char] + json_decoded(s.skip(6))
    } else {
        let c = if s[1] == 'n' {
            '\n'
        } else if s[1] == 'r' {
            '\r'
        } else if s[1] == 't' {
            '\t'
        } else {
            s[1]
        };
        seq![c] + json_decoded(s.skip(2))
    }
}

/// The value of a hexadecimal digit.
pub open spec fn hex_digit(c: char) -> int {
    if c as int >= 97 {
        c as int - 87
    } else {
        c as int - 48
    }
}

proof fn lemma_char_code(c: char)
    ensures
        0 <= c as int <= 0x10ffff,
{
}

proof fn lemma_hex(d: int)
    requires
        0 <= d < 16,
    ensures
        hex_digit(hex_char(d)) == d,
        hex_char(d) as int >= 0x20,
{
}

/// The inside of a JSON string holds no bare control character, and its escapes
/// stand for the text that was encoded.
pub proof fn law_json_strings_decode(s: Seq<char>)
    ensures
        json_decoded(json_chars(s)) == s,
        forall|i: int| 0 <= i < json_chars(s).len() ==> (#[trigger] json_chars(s)[i]) as int >= 0x20,
    decreases s.len(),
{
    lemma_json_from_front(s);
    if s.len() > 0 {
        let front = s.drop_last();
        law_json_strings_decode(front);
        let all = json_chars(s);
        let last = json_char(s.last());
        assert forall|i: int| 0 <= i < last.len() implies (#[trigger] last[i]) as int >= 0x20 by {
            let n = s.last() as int;
            lemma_char_code(s.last());
            if last.len() == 6 {
                lemma_hex(n / 16);
                lemma_hex(n % 16);
            }
        }
        assert forall|i: int| 0 <= i < all.len() implies (#[trigger] all[i]) as int >= 0x20 by {
            if i < json_chars(front).len() {
                assert(all[i] == json_chars(front)[i]);
            } else {
                assert(all[i] == last[i - json_chars(front).len()]);
            }
        }
    }
}

/// What is encoded, taken from the front.
spec fn json_from_front(s: Seq<char>) -> Seq<char>
    decreases s.len(),
{
    if s.len() == 0 {
        seq![]
    } else {
        json_char(s[0]) + json_from_front(s.drop_first())
    }
}

proof fn lemma_json_from_front(s: Seq<char>)
    ensures
        json_chars(s) == json_from_front(s),
        json_decoded(json_from_front(s)) == s,
    decreases s.len(),
{
    if s.len() == 0 {
        assert(json_decoded(json_from_front(s)) =~= s);
    } else {
        let rest = s.drop_first();
        lemma_json_from_front(rest);
        lemma_json_split(s[0], rest);
        assert(seq![s[0]] + rest =~= s);
        let e = json_char(s[0]);
        let tail = json_from_front(rest);
        let all = e + tail;
        assert(all[0] == e[0]);
        if e.len() == 1 {
            assert(all.drop_first() =~= tail);
        } else if e.len() == 2 {
            assert(all[1] == e[1]);
            assert(all.skip(2) =~= tail);
        } else {
            assert(e.len() == 6);
            assert(all[1] == e[1]);
            assert(all[4] == e[4]);
            assert(all[5] == e[5]);
            assert(all.skip(6) =~= tail);
            let n = s[0] as int;
            lemma_char_code(s[0]);
            lemma_hex(n / 16);
            lemma_hex(n % 16);
            assert(16 * (n / 16) + n % 16 == n);
        }
    }
}

proof fn lemma_json_split(c: char, rest: Seq<char>)
    ensures
        json_chars(seq![c] + rest) == json_char(c) + json_chars(rest),
    decreases rest.len(),
{
    let all = seq![c] + rest;
    if rest.len() == 0 {
        assert(all.drop_last() =~= seq![]);
        assert(all.last() == c);
        assert(json_chars(seq![]) =~= seq![]);
        assert(json_chars(all) =~= json_char(c) + json_chars(rest));
    } else {
        assert(all.drop_last() =~= seq![c] + rest.drop_last());
        assert(all.last() == rest.last());
        lemma_json_split(c, rest.drop_last());
        assert(json_chars(all) =~= json_char(c) + json_chars(rest));
    }
}

/// Where the string ends whose inside begins `s`: at the first quote that is not
/// behind a backslash; at the end of `s` where there is none.
pub open spec fn closing_quote(s: Seq<char>) -> nat
    decreases s.len(),
{
    if s.len() == 0 || s[0] == '"' {
        0
    } else if s[0] == '\\' && s.len() >= 2 {
        2 + closing_quote(s.skip(2))
    } else {
        1 + closing_quote(s.drop_first())
    }
}

/// Whether a JSON string begins `s`.
pub open spec fn begins_string(s: Seq<char>) -> bool {
    s.len() > 0 && s[0] == '"' && closing_quote(s.drop_first()) + 2 <= s.len()
}

/// What the JSON string that begins `s` stands for.
pub open spec fn first_string(s: Seq<char>) -> Seq<char> {
    json_decoded(s.drop_first().take(closing_quote(s.drop_first()) as int))
}

/// What follows the JSON string that begins `s`.
pub open spec fn after_string(s: Seq<char>) -> Seq<char> {
    s.skip(closing_quote(s.drop_first()) as int + 2)
}

/// The members of a JSON object of strings, in order, from the first member to
/// the closing brace.
pub open spec fn read_members(s: Seq<char>) -> Option<Seq<(Seq<char>, Seq<char>)>>
    decreases s.len(),
{
    let colon = after_string(s);
    let value = colon.drop_first();
    let end = after_string(value);
    if !begins_string(s) || colon.len() == 0 || colon[0] != ':' || !begins_string(value) || end.len() == 0 {
        None
    } else {
        let member = (first_string(s), first_string(value));
        if end == seq!['}'] {
            Some(seq![member])
        } else if end[0] == ',' {
            match read_members(end.drop_first()) {
                Some(rest) => Some(seq![member] + rest),
                None => None,
            }
        } else {
            None
        }
    }
}

/// The members of a JSON object of strings, in order; nothing where the text is
/// no such object.
pub open spec fn read_object(s: Seq<char>) -> Option<Seq<(Seq<char>, Seq<char>)>> {
    if s == seq!['{', '}'] {
        Some(seq![])
    } else if s.len() > 0 && s[0] == '{' {
        read_members(s.drop_first())
    } else {
        None
    }
}

proof fn lemma_closing_quote(v: Seq<char>, rest: Seq<char>)
    ensures
        closing_quote(json_from_front(v) + seq!['"'] + rest) == json_from_front(v).len(),
    decreases v.len(),
{
    let all = json_from_front(v) + seq!['"'] + rest;
    if v.len() == 0 {
        assert(all[0] == '"');
    } else {
        let e = json_char(v[0]);
        let tail = json_from_front(v.drop_first()) + seq!['"'] + rest;
        lemma_closing_quote(v.drop_first(), rest);
        assert(all =~= e + tail);
        if e.len() == 1 {
            assert(all.drop_first() =~= tail);
        } else if e.len() == 2 {
            assert(all.skip(2) =~= tail);
        } else {
            let n = v[0] as int;
            lemma_char_code(v[0]);
            lemma_hex(n / 16);
            lemma_hex(n % 16);
            let a = hex_char(n / 16);
            let b = hex_char(n % 16);
            assert(all.skip(2) =~= seq!['0', '0', a, b] + tail);
            let s4 = seq!['0', '0', a, b] + tail;
            let s3 = seq!['0', a, b] + tail;
            let s2 = seq![a, b] + tail;
            let s1 = seq![b] + tail;
            assert(s4.drop_first() =~= s3);
            assert(s3.drop_first() =~= s2);
            assert(s2.drop_first() =~= s1);
            assert(s1.drop_first() =~= tail);
            assert(closing_quote(s1) == 1 + closing_quote(tail));
            assert(closing_quote(s2) == 2 + closing_quote(tail));
            assert(closing_quote(s3) == 3 + closing_quote(tail));
            assert(closing_quote(s4) == 4 + closing_quote(tail));
        }
    }
}

proof fn lemma_string_is_read(v: Seq<char>, rest: Seq<char>)
    ensures
        begins_string(json_string(v) + rest),
        first_string(json_string(v) + rest) == v,
        after_string(json_string(v) + rest) == rest,
{
    let all = json_string(v) + rest;
    lemma_json_from_front(v);
    lemma_closing_quote(v, rest);
    assert(all.drop_first() =~= json_chars(v) + seq!['"'] + rest);
    assert(all.drop_first().take(json_chars(v).len() as int) =~= json_chars(v));
    assert(all.skip(json_chars(v).len() as int + 2) =~= rest);
}

proof fn lemma_joined_from_front(parts: Seq<Seq<char>>, separator: Seq<char>)
    requires
        parts.len() >= 2,
    ensures
        joined(parts, separator) == parts[0] + separator + joined(parts.drop_first(), separator),
    decreases parts.len(),
{
    let rest = parts.drop_first();
    let front = parts.drop_last();
    if parts.len() == 2 {
        assert(joined(front, separator) == parts[0]);
        assert(joined(rest, separator) == parts[1]);
    } else {
        lemma_joined_from_front(front, separator);
        assert(front.drop_first() =~= rest.drop_last());
        assert(joined(parts, separator) =~= parts[0] + separator + joined(rest, separator));
    }
}

/// The members of labels as they stand in a JSON object.
spec fn members_of(labels: Seq<(Seq<char>, Seq<char>)>) -> Seq<Seq<char>> {
    labels.map_values(|l: (Seq<char>, Seq<char>)| json_member(l))
}

#[verifier::spinoff_prover]
proof fn lemma_member_is_read(label: (Seq<char>, Seq<char>), end: Seq<char>)
    requires
        end.len() > 0,
    ensures
        read_members(json_member(label) + end) == if end == seq!['}'] {
            Some(seq![label])
        } else if end[0] == ',' {
            match read_members(end.drop_first()) {
                Some(rest) => Some(seq![label] + rest),
                None => None,
            }
        } else {
            None
        },
{
    let text = json_member(label) + end;
    let tail = json_string(label.1) + end;
    let colon = seq![':'] + tail;
    assert(text =~= json_string(label.0) + colon);
    lemma_string_is_read(label.0, colon);
    assert(colon.drop_first() =~= tail);
    lemma_string_is_read(label.1, end);
}

/// What follows the first of several parts and a closing brace.
spec fn after_first(parts: Seq<Seq<char>>) -> Seq<char> {
    if parts.len() <= 1 {
        seq!['}']
    } else {
        seq![','] + joined(parts.drop_first(), seq![',']) + seq!['}']
    }
}

proof fn lemma_first_part(parts: Seq<Seq<char>>)
    requires
        parts.len() > 0,
    ensures
        joined(parts, seq![',']) + seq!['}'] == parts[0] + after_first(parts),
{
    if parts.len() > 1 {
        lemma_joined_from_front(parts, seq![',']);
    }
    assert(joined(parts, seq![',']) + seq!['}'] =~= parts[0] + after_first(parts));
}

proof fn lemma_rest_of_parts(parts: Seq<Seq<char>>)
    requires
        parts.len() > 1,
    ensures
        after_first(parts) != seq!['}'],
        after_first(parts)[0] == ',',
        after_first(parts).drop_first() == joined(parts.drop_first(), seq![',']) + seq!['}'],
{
    assert(after_first(parts).drop_first() =~= joined(parts.drop_first(), seq![',']) + seq!['}']);
}

#[verifier::spinoff_prover]
proof fn lemma_members_are_read(labels: Seq<(Seq<char>, Seq<char>)>)
    requires
        labels.len() > 0,
    ensures
        read_members(joined(members_of(labels), seq![',']) + seq!['}']) == Some(labels),
    decreases labels.len(),
{
    let parts = members_of(labels);
    let first = labels[0];
    let rest = labels.drop_first();
    assert(parts[0] == json_member(first));
    lemma_first_part(parts);
    lemma_member_is_read(first, after_first(parts));
    if labels.len() == 1 {
        assert(labels =~= seq![first]);
    } else {
        assert(parts.drop_first() =~= members_of(rest));
        lemma_rest_of_parts(parts);
        lemma_members_are_read(rest);
        assert(seq![first] + rest =~= labels);
    }
}

proof fn lemma_no_control_in_members(labels: Seq<(Seq<char>, Seq<char>)>)
    ensures
        forall|i: int|
            0 <= i < joined(members_of(labels), seq![',']).len() ==> (#[trigger] joined(
                members_of(labels),
                seq![','],
            )[i]) as int >= 0x20,
    decreases labels.len(),
{
    let parts = members_of(labels);
    let text = joined(parts, seq![',']);
    if labels.len() > 0 {
        let last = labels.last();
        law_json_strings_decode(last.0);
        law_json_strings_decode(last.1);
        let member = json_member(last);
        assert(parts.last() == member);
        let n = json_string(last.0).len() as int;
        assert forall|i: int| 0 <= i < member.len() implies (#[trigger] member[i]) as int >= 0x20 by {
            if 0 < i < n - 1 {
                assert(member[i] == json_chars(last.0)[i - 1]);
            } else if n + 1 < i < member.len() - 1 {
                assert(member[i] == json_chars(last.1)[i - n - 2]);
            }
        }
        if labels.len() > 1 {
            let front = labels.drop_last();
            lemma_no_control_in_members(front);
            assert(parts.drop_last() =~= members_of(front));
            let before = joined(members_of(front), seq![',']);
            assert forall|i: int| 0 <= i < text.len() implies (#[trigger] text[i]) as int >= 0x20 by {
                if i < before.len() {
                    assert(text[i] == before[i]);
                } else if i > before.len() {
                    assert(text[i] == member[i - before.len() - 1]);
                }
            }
        }
    }
}

/// Encoded labels are a JSON object of strings without a bare control character,
/// whose members, in order, are the labels.
pub proof fn law_label_objects_decode(labels: Seq<(Seq<char>, Seq<char>)>)
    ensures
        read_object(json_object(labels)) == Some(labels),
        forall|i: int| 0 <= i < json_object(labels).len() ==> (#[trigger] json_object(labels)[i]) as int >= 0x20,
{
    let inner = joined(members_of(labels), seq![',']);
    let all = json_object(labels);
    assert(all == seq!['{'] + inner + seq!['}']);
    if labels.len() == 0 {
        assert(all =~= seq!['{', '}']);
        assert(labels =~= seq![]);
    } else {
        lemma_members_are_read(labels);
        assert(all.drop_first() =~= inner + seq!['}']);
        assert(all != seq!['{', '}']) by {
            let one: Seq<char> = seq!['{', '}'];
            if all == one {
                assert(all.drop_first() =~= seq!['}']);
                assert(!begins_string(all.drop_first()));
            }
        }
    }
    lemma_no_control_in_members(labels);
    assert forall|i: int| 0 <= i < all.len() implies (#[trigger] all[i]) as int >= 0x20 by {
        if 0 < i < all.len() - 1 {
            assert(all[i] == inner[i - 1]);
        }
    }
}

/// Different labels are encoded differently.
pub proof fn law_label_objects_distinguish(a: Seq<(Seq<char>, Seq<char>)>, b: Seq<(Seq<char>, Seq<char>)>)
    ensures
        json_object(a) == json_object(b) ==> a == b,
{
    law_label_objects_decode(a);
    law_label_objects_decode(b);
}

/// A text without quotes, backslashes and control characters stands in a JSON
/// string as it is.
pub proof fn law_plain_text_is_not_escaped(s: Seq<char>)
    requires
        forall|i: int| 0 <= i < s.len() ==> s[i] != '"' && s[i] != '\\' && s[i] as int >= 0x20,
    ensures
        json_chars(s) == s,
    decreases s.len(),
{
    if s.len() > 0 {
        law_plain_text_is_not_escaped(s.drop_last());
        assert(json_char(s.last()) == seq![s.last()]);
        assert(s.drop_last() + seq![s.last()] =~= s);
    } else {
        assert(json_chars(s) =~= s);
    }
}

/// A row has the name, labels and values of its sample: a single value's as it is,
/// a histogram's bounds and counts in their order, a count as large as can be
/// stored where it is larger.
pub proof fn law_rows_have_the_values_of_their_samples(row: RollupRow, sample: MetricSample, i: int)
    requires
        is_row_of(row, sample),
    ensures
        row is Histogram <==> sample.kind is Histogram,
        match row {
            RollupRow::Scalar { name, kind, labels, value } => name == sample.name && kind == sample.kind && value
                == sample.value && read_object(labels@) == Some(labels_view(sample.labels@)),
            RollupRow::Histogram { name, labels, bounds, counts, sum, count } => {
                &&& name == sample.name
                &&& read_object(labels@) == Some(labels_view(sample.labels@))
                &&& sum == sample.sum
                &&& bounds@.len() == sample.buckets@.len()
                &&& counts@.len() == sample.buckets@.len()
                &&& 0 <= i < bounds@.len() ==> bounds@[i] == sample.buckets@[i].0
                &&& 0 <= i < counts@.len() && sample.buckets@[i].1 <= i64::MAX ==> counts@[i] == sample.buckets@[i].1
                &&& 0 <= i < counts@.len() && sample.buckets@[i].1 > i64::MAX ==> counts@[i] == i64::MAX
                &&& count is Some <==> sample.count is Some
                &&& sample.count is Some && sample.count->0 <= i64::MAX ==> count->0 == sample.count->0
                &&& sample.count is Some && sample.count->0 > i64::MAX ==> count->0 == i64::MAX
            },
        },
{
    law_label_objects_decode(labels_view(sample.labels@));
}

/// A row is kept for the retention at least, and deleted as soon as it is older,
/// but for rows from before the epoch, which the cutoff never goes back to.
pub proof fn law_rows_are_kept_for_the_retention(now: int, retention: int, written: int)
    requires
        retention >= 0,
        written >= 0,
    ensures
        cutoff(now, retention) >= 0,
        now - retention >= 0 ==> (written < cutoff(now, retention) <==> now - written > retention),
        now - retention < 0 ==> cutoff(now, retention) == 0,
{
}

} // verus!
