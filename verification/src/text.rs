//! Text building blocks: the character sequence is the model of every string.

use vstd::prelude::*;

verus! {

/// `String::push` appends one character.
pub assume_specification[ String::push ](s: &mut String, c: char)
    ensures
        final(s)@ == old(s)@.push(c),
;

/// The Unicode `White_Space` characters.
pub open spec fn is_white_space(c: char) -> bool {
    let n = c as int;
    ||| 0x9 <= n <= 0xD
    ||| n == 0x20
    ||| n == 0x85
    ||| n == 0xA0
    ||| n == 0x1680
    ||| 0x2000 <= n <= 0x200A
    ||| n == 0x2028
    ||| n == 0x2029
    ||| n == 0x202F
    ||| n == 0x205F
    ||| n == 0x3000
}

/// `s` without leading white space.
pub open spec fn trimmed_front(s: Seq<char>) -> Seq<char>
    decreases s.len(),
{
    if s.len() > 0 && is_white_space(s[0]) {
        trimmed_front(s.drop_first())
    } else {
        s
    }
}

/// `s` without trailing white space.
pub open spec fn trimmed_back(s: Seq<char>) -> Seq<char>
    decreases s.len(),
{
    if s.len() > 0 && is_white_space(s.last()) {
        trimmed_back(s.drop_last())
    } else {
        s
    }
}

/// `s` without leading and trailing white space.
pub open spec fn trimmed(s: Seq<char>) -> Seq<char> {
    trimmed_back(trimmed_front(s))
}

/// The position of the first `c` in `s`; the length of `s` where there is none.
pub open spec fn find(s: Seq<char>, c: char) -> int
    decreases s.len(),
{
    if s.len() == 0 || s[0] == c {
        0
    } else {
        1 + find(s.drop_first(), c)
    }
}

/// The position of the last `c` in `s`; minus one where there is none.
pub open spec fn find_last(s: Seq<char>, c: char) -> int
    decreases s.len(),
{
    if s.len() == 0 {
        -1
    } else if s.last() == c {
        s.len() - 1
    } else {
        find_last(s.drop_last(), c)
    }
}

/// What follows the last `c` in `s`; all of `s` where there is none.
pub open spec fn after_last(s: Seq<char>, c: char) -> Seq<char> {
    s.skip(find_last(s, c) + 1)
}

/// The character of a decimal digit.
pub open spec fn digit_char(d: int) -> char {
    (48 + d) as char
}

/// A natural number in decimal, without superfluous zeros.
pub open spec fn nat_text(n: nat) -> Seq<char>
    decreases n,
{
    if n < 10 {
        seq![digit_char(n as int)]
    } else {
        nat_text(n / 10).push(digit_char((n % 10) as int))
    }
}

/// An integer in decimal, a minus sign in front of a negative one.
pub open spec fn int_text(n: int) -> Seq<char> {
    if n < 0 {
        seq!['-'] + nat_text((-n) as nat)
    } else {
        nat_text(n as nat)
    }
}

/// Whether `s` begins with `prefix`.
pub open spec fn begins_with(s: Seq<char>, prefix: Seq<char>) -> bool {
    s.len() >= prefix.len() && s.take(prefix.len() as int) == prefix
}

/// Whether `s` ends with `suffix`.
pub open spec fn ends_with(s: Seq<char>, suffix: Seq<char>) -> bool {
    s.len() >= suffix.len() && s.skip(s.len() - suffix.len()) == suffix
}

/// Whether a text has another one somewhere within.
pub open spec fn has_within(text: Seq<char>, part: Seq<char>) -> bool {
    exists|i: int| 0 <= i <= text.len() - part.len() && #[trigger] text.subrange(i, i + part.len()) == part
}

/// `s` without its last `n` characters.
pub open spec fn without_last(s: Seq<char>, n: nat) -> Seq<char> {
    s.take(s.len() - n)
}

/// A line without the carriage return at its end, if there is one.
pub open spec fn without_return(line: Seq<char>) -> Seq<char> {
    if line.len() > 0 && line.last() == '\r' {
        line.drop_last()
    } else {
        line
    }
}

/// The lines of a text: each ends with a newline, or a carriage return and a
/// newline; at the end of the text that is optional.
pub open spec fn lines_of(s: Seq<char>) -> Seq<Seq<char>>
    decreases s.len(),
{
    if s.len() == 0 {
        seq![]
    } else {
        let n = find(s, '\n');
        if 0 <= n < s.len() {
            seq![without_return(s.take(n))] + lines_of(s.skip(n + 1))
        } else {
            seq![s]
        }
    }
}

/// The texts one after the other, `separator` between any two.
pub open spec fn joined(parts: Seq<Seq<char>>, separator: Seq<char>) -> Seq<char>
    decreases parts.len(),
{
    if parts.len() == 0 {
        seq![]
    } else if parts.len() == 1 {
        parts[0]
    } else {
        joined(parts.drop_last(), separator) + separator + parts.last()
    }
}

/// The texts of strings.
pub open spec fn texts(strings: Seq<String>) -> Seq<Seq<char>> {
    strings.map_values(|s: String| s@)
}

/// What [`find`] means: nothing before it matches, and it matches or is the end.
pub proof fn lemma_find(s: Seq<char>, c: char)
    ensures
        0 <= find(s, c) <= s.len(),
        find(s, c) < s.len() ==> s[find(s, c)] == c,
        forall|j: int| 0 <= j < find(s, c) ==> s[j] != c,
        find(s, c) < s.len() <==> s.contains(c),
    decreases s.len(),
{
    if s.len() > 0 && s[0] != c {
        let t = s.drop_first();
        lemma_find(t, c);
        assert forall|j: int| 0 <= j < find(s, c) implies s[j] != c by {
            if j > 0 {
                assert(s[j] == t[j - 1]);
            }
        }
        if s.contains(c) {
            let j = choose|j: int| 0 <= j < s.len() && s[j] == c;
            assert(t[j - 1] == c);
        }
    }
}

/// Only one position is what [`find`] means.
pub proof fn lemma_find_is(s: Seq<char>, c: char, i: int)
    requires
        0 <= i <= s.len(),
        forall|j: int| 0 <= j < i ==> s[j] != c,
        i < s.len() ==> s[i] == c,
    ensures
        find(s, c) == i,
{
    lemma_find(s, c);
    let f = find(s, c);
    if f < i {
        assert(s[f] != c);
    } else if i < f {
        assert(s[i] != c);
    }
}

/// The characters of `s`, in order.
pub fn chars_of(s: &str) -> (v: Vec<char>)
    ensures
        v@ == s@,
{
    let mut v: Vec<char> = Vec::new();
    for c in it: s.chars()
        invariant
            it.seq() == s@,
            v@ == it.seq().take(it.index() as int),
    {
        v.push(c);
    }
    v
}

/// The text of `chars` from `from` up to `to`.
pub fn slice_text(chars: &Vec<char>, from: usize, to: usize) -> (r: String)
    requires
        from <= to <= chars@.len(),
    ensures
        r@ == chars@.subrange(from as int, to as int),
{
    let mut r = String::new();
    for i in from..to
        invariant
            from <= to <= chars@.len(),
            r@ == chars@.subrange(from as int, i as int),
    {
        r.push(chars[i]);
        assert(chars@.subrange(from as int, i + 1) =~= chars@.subrange(from as int, i as int).push(chars@[i as int]));
    }
    r
}

/// Whether `a` and `b` hold the same characters.
pub fn same(a: &str, b: &str) -> (r: bool)
    ensures
        r == (a@ == b@),
{
    a.to_owned() == b.to_owned()
}

/// Whether `c` is a Unicode `White_Space` character.
pub fn white_space(c: char) -> (r: bool)
    ensures
        r == is_white_space(c),
{
    let n: u32 = c as u32;
    (0x9 <= n && n <= 0xD) || n == 0x20 || n == 0x85 || n == 0xA0 || n == 0x1680 || (0x2000 <= n && n <= 0x200A)
        || n == 0x2028 || n == 0x2029 || n == 0x202F || n == 0x205F || n == 0x3000
}

/// Where the text without surrounding white space begins and ends.
pub fn trim_bounds(chars: &Vec<char>) -> (r: (usize, usize))
    ensures
        r.0 <= r.1 <= chars@.len(),
        chars@.subrange(r.0 as int, r.1 as int) == trimmed(chars@),
{
    let mut from: usize = 0;
    proof {
        assert(chars@.skip(0) =~= chars@);
    }
    while from < chars.len() && white_space(chars[from])
        invariant
            from <= chars@.len(),
            trimmed_front(chars@) == trimmed_front(chars@.skip(from as int)),
        decreases chars@.len() - from,
    {
        proof {
            assert(chars@.skip(from as int).drop_first() =~= chars@.skip(from + 1));
        }
        from = from + 1;
    }
    let mut to: usize = chars.len();
    let ghost front = trimmed_front(chars@);
    proof {
        assert(front == chars@.skip(from as int));
        assert(front =~= chars@.subrange(from as int, to as int));
    }
    while from < to && white_space(chars[to - 1])
        invariant
            from <= to <= chars@.len(),
            trimmed_back(front) == trimmed_back(chars@.subrange(from as int, to as int)),
        decreases to,
    {
        proof {
            assert(chars@.subrange(from as int, to as int).drop_last() =~= chars@.subrange(from as int, to - 1));
        }
        to = to - 1;
    }
    (from, to)
}

/// `text` without leading and trailing white space.
pub fn trim(text: &str) -> (r: String)
    ensures
        r@ == trimmed(text@),
{
    let chars = chars_of(text);
    let (from, to) = trim_bounds(&chars);
    slice_text(&chars, from, to)
}

/// The position of the first `c` in the given part of `chars`, or its end.
pub fn find_in(chars: &Vec<char>, from: usize, to: usize, c: char) -> (r: usize)
    requires
        from <= to <= chars@.len(),
    ensures
        from <= r <= to,
        r - from == find(chars@.subrange(from as int, to as int), c),
{
    let mut i: usize = from;
    while i < to && chars[i] != c
        invariant
            from <= i <= to <= chars@.len(),
            forall|j: int| from <= j < i ==> chars@[j] != c,
        decreases to - i,
    {
        i = i + 1;
    }
    proof {
        lemma_find_is(chars@.subrange(from as int, to as int), c, i - from);
    }
    i
}

/// What follows the last `c` in `text`; all of it where there is none.
pub fn text_after_last(text: &str, c: char) -> (r: String)
    ensures
        r@ == after_last(text@, c),
{
    let chars = chars_of(text);
    let mut i: usize = chars.len();
    proof {
        assert(chars@.take(i as int) =~= chars@);
    }
    while i > 0 && chars[i - 1] != c
        invariant
            i <= chars@.len(),
            find_last(chars@, c) == find_last(chars@.take(i as int), c),
        decreases i,
    {
        proof {
            assert(chars@.take(i as int).drop_last() =~= chars@.take(i - 1));
        }
        i = i - 1;
    }
    assert(find_last(chars@, c) == i - 1);
    assert(chars@.subrange(i as int, chars@.len() as int) =~= chars@.skip(i as int));
    slice_text(&chars, i, chars.len())
}

/// What follows `prefix` in `text`, where it begins with it.
pub fn strip_prefix(text: &str, prefix: &str) -> (r: Option<String>)
    ensures
        match r {
            Some(rest) => begins_with(text@, prefix@) && rest@ == text@.skip(prefix@.len() as int),
            None => !begins_with(text@, prefix@),
        },
{
    let chars = chars_of(text);
    let wanted = chars_of(prefix);
    if chars.len() < wanted.len() {
        return None;
    }
    let head = slice_text(&chars, 0, wanted.len());
    assert(head@ =~= text@.take(prefix@.len() as int));
    if same(head.as_str(), prefix) {
        let rest = slice_text(&chars, wanted.len(), chars.len());
        assert(rest@ =~= text@.skip(prefix@.len() as int));
        Some(rest)
    } else {
        None
    }
}

/// What precedes `suffix` in `text`, where it ends with it.
pub fn strip_suffix(text: &str, suffix: &str) -> (r: Option<String>)
    ensures
        match r {
            Some(rest) => ends_with(text@, suffix@) && rest@ == without_last(text@, suffix@.len()),
            None => !ends_with(text@, suffix@),
        },
{
    let chars = chars_of(text);
    let wanted = chars_of(suffix);
    if chars.len() < wanted.len() {
        return None;
    }
    let at: usize = chars.len() - wanted.len();
    let tail = slice_text(&chars, at, chars.len());
    assert(tail@ =~= text@.skip(text@.len() - suffix@.len()));
    if same(tail.as_str(), suffix) {
        let rest = slice_text(&chars, 0, at);
        assert(rest@ =~= without_last(text@, suffix@.len()));
        Some(rest)
    } else {
        None
    }
}

/// What stands before and behind the last `c` in `text`, where there is one.
pub fn split_at_last(text: &str, c: char) -> (r: Option<(String, String)>)
    ensures
        match r {
            Some((before, behind)) => find_last(text@, c) >= 0 && before@ == text@.take(find_last(text@, c)) && behind@
                == text@.skip(find_last(text@, c) + 1),
            None => find_last(text@, c) < 0,
        },
{
    let chars = chars_of(text);
    let mut i: usize = chars.len();
    proof {
        assert(chars@.take(i as int) =~= chars@);
    }
    while i > 0 && chars[i - 1] != c
        invariant
            i <= chars@.len(),
            find_last(chars@, c) == find_last(chars@.take(i as int), c),
        decreases i,
    {
        proof {
            assert(chars@.take(i as int).drop_last() =~= chars@.take(i - 1));
        }
        i = i - 1;
    }
    assert(find_last(chars@, c) == i - 1);
    if i == 0 {
        return None;
    }
    let before = slice_text(&chars, 0, i - 1);
    let behind = slice_text(&chars, i, chars.len());
    assert(before@ =~= text@.take(i - 1));
    assert(behind@ =~= text@.skip(i as int));
    Some((before, behind))
}

/// What stands before and behind the first `c` in `text`; all of it and nothing
/// where there is none.
pub fn split_at_first(text: &str, c: char) -> (r: (String, Option<String>))
    ensures
        r.0@ == text@.take(find(text@, c)),
        match r.1 {
            Some(behind) => find(text@, c) < text@.len() && behind@ == text@.skip(find(text@, c) + 1),
            None => find(text@, c) == text@.len(),
        },
{
    let chars = chars_of(text);
    let at = find_in(&chars, 0, chars.len(), c);
    assert(chars@.subrange(0, chars@.len() as int) =~= chars@);
    let before = slice_text(&chars, 0, at);
    assert(before@ =~= text@.take(at as int));
    if at < chars.len() {
        let behind = slice_text(&chars, at + 1, chars.len());
        assert(behind@ =~= text@.skip(at + 1));
        (before, Some(behind))
    } else {
        (before, None)
    }
}

/// The lines of a text.
pub fn lines(text: &str) -> (r: Vec<String>)
    ensures
        texts(r@) == lines_of(text@),
{
    let chars = chars_of(text);
    let mut r: Vec<String> = Vec::new();
    let mut from: usize = 0;
    assert(chars@.skip(0) =~= chars@);
    assert(texts(r@) + lines_of(chars@) =~= lines_of(chars@));
    while from < chars.len()
        invariant
            from <= chars@.len(),
            texts(r@) + lines_of(chars@.skip(from as int)) == lines_of(chars@),
        decreases chars@.len() - from,
    {
        let end = find_in(&chars, from, chars.len(), '\n');
        let ghost rest = chars@.skip(from as int);
        let ghost before = texts(r@);
        assert(rest =~= chars@.subrange(from as int, chars@.len() as int));
        proof {
            lemma_find(rest, '\n');
        }
        if end < chars.len() {
            let stop: usize = if end > from && chars[end - 1] == '\r' {
                end - 1
            } else {
                end
            };
            let line = slice_text(&chars, from, stop);
            let ghost added = line@;
            proof {
                let n = end - from;
                assert(rest.take(n).len() == n);
                if n > 0 {
                    assert(rest.take(n).last() == chars@[end - 1]);
                }
                assert(line@ =~= without_return(rest.take(n)));
                assert(rest.skip(n + 1) =~= chars@.skip(end + 1));
            }
            r.push(line);
            proof {
                assert(texts(r@) =~= before.push(added));
                let tail = lines_of(chars@.skip(end + 1));
                assert(before + (seq![added] + tail) =~= before.push(added) + tail);
            }
            from = end + 1;
        } else {
            let line = slice_text(&chars, from, chars.len());
            let ghost added = line@;
            assert(line@ =~= rest);
            r.push(line);
            proof {
                assert(texts(r@) =~= before.push(added));
                assert(chars@.skip(chars@.len() as int) =~= seq![]);
                assert(before + seq![added] =~= before.push(added) + lines_of(seq![]));
            }
            from = chars.len();
        }
    }
    assert(chars@.skip(from as int) =~= seq![]);
    assert(texts(r@) + lines_of(seq![]) =~= texts(r@));
    r
}

/// The texts one after the other, `separator` between any two.
pub fn join_texts(parts: &Vec<String>, separator: &str) -> (r: String)
    ensures
        r@ == joined(texts(parts@), separator@),
{
    let mut r = String::new();
    let ghost all = texts(parts@);
    assert(all.take(0) =~= seq![]);
    assert(r@ =~= seq![]);
    for i in 0..parts.len()
        invariant
            all == texts(parts@),
            r@ == joined(all.take(i as int), separator@),
    {
        assert(all.take(i + 1).drop_last() =~= all.take(i as int));
        if i > 0 {
            r.append(separator);
        }
        let ghost before = r@;
        r.append(parts[i].as_str());
        proof {
            if i == 0 {
                assert(before =~= seq![]);
                assert(r@ =~= all[0]);
                assert(all.take(1)[0] == all[0]);
            }
        }
    }
    assert(all.take(parts@.len() as int) =~= all);
    r
}

/// A natural number in decimal.
pub fn u64_text(n: u64) -> (r: String)
    ensures
        r@ == nat_text(n as nat),
    decreases n,
{
    let d: u8 = (n % 10) as u8;
    let c: char = (48 + d) as char;
    if n < 10 {
        let mut r = String::new();
        r.push(c);
        assert(r@ =~= seq![digit_char(n as int)]);
        r
    } else {
        let mut r = u64_text(n / 10);
        r.push(c);
        r
    }
}

/// An integer in decimal.
pub fn i64_text(n: i64) -> (r: String)
    ensures
        r@ == int_text(n as int),
{
    if n < 0 {
        let m: u64 = (-(n as i128)) as u64;
        let mut r = String::new();
        r.push('-');
        let digits = u64_text(m);
        r.append(digits.as_str());
        assert(r@ =~= seq!['-'] + nat_text(m as nat));
        r
    } else {
        u64_text(n as u64)
    }
}

/// Trimming leaves what is between the white space at both ends.
pub proof fn law_trimming_leaves_the_middle(before: Seq<char>, middle: Seq<char>, after: Seq<char>)
    requires
        forall|i: int| 0 <= i < before.len() ==> is_white_space(#[trigger] before[i]),
        forall|i: int| 0 <= i < after.len() ==> is_white_space(#[trigger] after[i]),
        middle.len() > 0,
        !is_white_space(middle[0]),
        !is_white_space(middle.last()),
    ensures
        trimmed(before + middle + after) == middle,
{
    lemma_front_is_trimmed(before, middle + after);
    assert(before + middle + after =~= before + (middle + after));
    lemma_back_is_trimmed(middle, after);
}

proof fn lemma_front_is_trimmed(before: Seq<char>, rest: Seq<char>)
    requires
        forall|i: int| 0 <= i < before.len() ==> is_white_space(#[trigger] before[i]),
        rest.len() > 0,
        !is_white_space(rest[0]),
    ensures
        trimmed_front(before + rest) == rest,
    decreases before.len(),
{
    if before.len() == 0 {
        assert(before + rest =~= rest);
    } else {
        let shorter = before.drop_first();
        assert forall|i: int| 0 <= i < shorter.len() implies is_white_space(#[trigger] shorter[i]) by {
            assert(is_white_space(before[i + 1]));
        }
        lemma_front_is_trimmed(shorter, rest);
        assert(is_white_space(before[0]));
        assert((before + rest)[0] == before[0]);
        assert((before + rest).drop_first() =~= shorter + rest);
    }
}

proof fn lemma_back_is_trimmed(middle: Seq<char>, after: Seq<char>)
    requires
        forall|i: int| 0 <= i < after.len() ==> is_white_space(#[trigger] after[i]),
        middle.len() > 0,
        !is_white_space(middle.last()),
    ensures
        trimmed_back(middle + after) == middle,
    decreases after.len(),
{
    if after.len() == 0 {
        assert(middle + after =~= middle);
    } else {
        let shorter = after.drop_last();
        assert forall|i: int| 0 <= i < shorter.len() implies is_white_space(#[trigger] shorter[i]) by {
            assert(is_white_space(after[i]));
        }
        lemma_back_is_trimmed(middle, shorter);
        assert(is_white_space(after[after.len() - 1]));
        assert((middle + after).last() == after[after.len() - 1]);
        assert((middle + after).drop_last() =~= middle + shorter);
    }
}

/// White space is twenty-five characters.
pub proof fn law_white_space(c: char)
    ensures
        is_white_space(c) <==> seq![
            0x9int, 0xA, 0xB, 0xC, 0xD, 0x20, 0x85, 0xA0, 0x1680, 0x2000, 0x2001, 0x2002, 0x2003, 0x2004, 0x2005, 0x2006,
            0x2007, 0x2008, 0x2009, 0x200A, 0x2028, 0x2029, 0x202F, 0x205F, 0x3000,
        ].contains(c as int),
{
    let all = seq![
        0x9int, 0xA, 0xB, 0xC, 0xD, 0x20, 0x85, 0xA0, 0x1680, 0x2000, 0x2001, 0x2002, 0x2003, 0x2004, 0x2005, 0x2006,
        0x2007, 0x2008, 0x2009, 0x200A, 0x2028, 0x2029, 0x202F, 0x205F, 0x3000,
    ];
    let n = c as int;
    assert(all.len() == 25);
    if is_white_space(c) {
        let i: int = if n <= 0xD {
            n - 0x9
        } else if n == 0x20 {
            5
        } else if n == 0x85 {
            6
        } else if n == 0xA0 {
            7
        } else if n == 0x1680 {
            8
        } else if n <= 0x200A {
            9 + n - 0x2000
        } else if n == 0x2028 {
            20
        } else if n == 0x2029 {
            21
        } else if n == 0x202F {
            22
        } else if n == 0x205F {
            23
        } else {
            24
        };
        assert(all[i] == n);
    }
}

/// The first line of a text is what stands before its first newline, without a
/// carriage return at its end; the other lines are those of the rest. A text
/// without a newline is one line.
pub proof fn law_lines(line: Seq<char>, rest: Seq<char>)
    requires
        !line.contains('\n'),
        line.len() > 0 ==> line.last() != '\r',
    ensures
        lines_of(line + seq!['\n'] + rest) == seq![line] + lines_of(rest),
        lines_of(line + seq!['\r', '\n'] + rest) == seq![line] + lines_of(rest),
        line.len() > 0 ==> lines_of(line) == seq![line],
        lines_of(seq![]).len() == 0,
{
    let plain = line + seq!['\n'] + rest;
    assert forall|j: int| 0 <= j < line.len() implies line[j] != '\n' by {
        assert(line.contains(line[j]));
    }
    lemma_find_is(plain, '\n', line.len() as int);
    assert(plain.take(line.len() as int) =~= line);
    assert(plain.skip(line.len() as int + 1) =~= rest);
    let returned = line + seq!['\r', '\n'] + rest;
    lemma_find_is(returned, '\n', line.len() as int + 1);
    let head = returned.take(line.len() as int + 1);
    assert(head.last() == '\r');
    assert(head.drop_last() =~= line);
    assert(returned.skip(line.len() as int + 2) =~= rest);
    lemma_find_is(line, '\n', line.len() as int);
}

/// Joined texts have the separator between any two, and nowhere else.
pub proof fn law_joining(parts: Seq<Seq<char>>, part: Seq<char>, separator: Seq<char>)
    ensures
        joined(Seq::<Seq<char>>::empty(), separator).len() == 0,
        joined(seq![part], separator) == part,
        parts.len() > 0 ==> joined(parts.push(part), separator) == joined(parts, separator) + separator + part,
{
    assert(parts.push(part).drop_last() =~= parts);
}

/// A number's text has its digits, the last one for its remainder by ten.
pub proof fn law_number_texts(n: nat, d: nat)
    requires
        d < 10,
    ensures
        nat_text(d) == seq![digit_char(d as int)],
        n > 0 ==> nat_text(10 * n + d) == nat_text(n).push(digit_char(d as int)),
        digit_char(d as int) as int == '0' as int + d,
        n > 0 ==> int_text(-(n as int)) == seq!['-'] + nat_text(n),
        int_text(n as int) == nat_text(n),
{
    assert((10 * n + d) / 10 == n);
    assert((10 * n + d) % 10 == d);
}

} // verus!
